//! Encoding messages.

use strand::encode::encode;
use strand::hir::{Hir, SumDef, SumId, Ty, VariantDef};
use strand::words::{letters, parse_int, word_text, words};

fn variant(name: &str, fields: Vec<(&str, Ty)>) -> VariantDef {
    VariantDef {
        name: name.to_string(),
        fields: fields.into_iter().map(|(name, ty)| (name.to_string(), ty)).collect(),
    }
}

/// A counter's messages, a sum with nothing but tags, and one that cannot
/// cross a channel.
fn hir() -> Hir {
    Hir {
        records: Vec::new(),
        sums: vec![
            SumDef {
                name: "Msg".to_string(),
                variants: vec![
                    variant("Inc", vec![]),
                    variant("Dec", vec![]),
                    variant("Add", vec![("n", Ty::Int)]),
                    variant("Set", vec![("on", Ty::Bool), ("at", Ty::Float)]),
                    variant("Reset", vec![]),
                ],
            },
            SumDef {
                name: "Tint".to_string(),
                variants: vec![variant("Red", vec![]), variant("Green", vec![])],
            },
            SumDef {
                name: "Named".to_string(),
                variants: vec![variant("Label", vec![("text", Ty::Str)])],
            },
        ],
        funcs: Vec::new(),
        actors: Vec::new(),
        app: None,
    }
}

fn sent(ty: &Ty, spec: &str) -> Result<Vec<u8>, String> {
    let floats = words(spec)
        .iter()
        .map(|word| word_text(word).parse::<f64>().ok().map(f64::to_bits))
        .collect();
    encode(&hir(), ty, spec, &floats).map_err(|error| error.message(&hir(), "string"))
}

const MSG: Ty = Ty::Sum(SumId(0));

#[test]
fn the_encoder_rejects_a_variant_that_does_not_exist() {
    let error = sent(&MSG, "Nope").unwrap_err();
    assert!(error.contains("not a variant"), "was: {error}");
    assert!(error.contains("Inc"), "the error should list the real variants, was: {error}");
    assert_eq!(
        error,
        "`Nope` is not a variant of `Msg`; expected one of Inc, Dec, Add, Set, Reset"
    );
}

#[test]
fn the_encoder_checks_variant_arity() {
    let error = sent(&MSG, "Add").unwrap_err();
    assert!(error.contains("takes 1 argument"), "was: {error}");
    assert_eq!(sent(&MSG, "Inc 3").unwrap_err(), "`Inc` takes 0 argument(s), found 1");
}

#[test]
fn a_boxed_variant_is_a_tag_and_a_word_per_field() {
    let mut expected = vec![2, 0, 0, 0, 0, 0, 0, 0];
    expected.extend(40i64.to_le_bytes());
    assert_eq!(sent(&MSG, "Add 40").unwrap(), expected);
    assert_eq!(sent(&MSG, " Add\t+40 ").unwrap(), expected);
    assert_eq!(sent(&MSG, "Inc").unwrap(), vec![0; 8]);
    let mut expected = vec![3, 0, 0, 0, 0, 0, 0, 0, 1, 0, 0, 0, 0, 0, 0, 0];
    expected.extend(1.5f64.to_le_bytes());
    assert_eq!(sent(&MSG, "Set true 1.5").unwrap(), expected);
    let mut expected = vec![2, 0, 0, 0, 0, 0, 0, 0];
    expected.extend((-1i64).to_le_bytes());
    assert_eq!(sent(&MSG, "Add -1").unwrap(), expected);
}

#[test]
fn a_sum_of_tags_is_the_bare_tag() {
    assert_eq!(sent(&Ty::Sum(SumId(1)), "Green").unwrap(), 1i32.to_le_bytes());
}

#[test]
fn scalars_are_their_own_bytes() {
    assert_eq!(sent(&Ty::Int, "-7").unwrap(), (-7i64).to_le_bytes());
    assert_eq!(sent(&Ty::Int, "-9223372036854775808").unwrap(), i64::MIN.to_le_bytes());
    assert_eq!(sent(&Ty::Bool, "true").unwrap(), 1i32.to_le_bytes());
    assert_eq!(sent(&Ty::Float, "0.25 and more").unwrap(), 0.25f64.to_le_bytes());
    assert_eq!(sent(&Ty::Str, " h\u{e9} ").unwrap(), " h\u{e9} ".as_bytes());
}

#[test]
fn what_cannot_be_encoded_says_why() {
    assert_eq!(sent(&Ty::Str, " \u{a0}\t").unwrap_err(), "empty message");
    assert_eq!(sent(&Ty::Int, "9223372036854775808").unwrap_err(), {
        "`9223372036854775808` is not an int"
    });
    assert_eq!(sent(&Ty::Bool, "yes").unwrap_err(), "expected true or false");
    assert_eq!(sent(&Ty::Float, "yes").unwrap_err(), "expected a float");
    assert_eq!(sent(&Ty::Unit, "x").unwrap_err(), "cannot encode a message of type string");
    assert_eq!(sent(&MSG, "Add x").unwrap_err(), "`x` is not an int");
    assert_eq!(sent(&MSG, "Set maybe 1").unwrap_err(), "field `on` expects true or false");
    assert_eq!(sent(&MSG, "Set true maybe").unwrap_err(), "field `at` expects a float");
    assert_eq!(
        sent(&Ty::Sum(SumId(2)), "Label x").unwrap_err(),
        "field `text` is string, which cannot cross a channel"
    );
}

#[test]
fn words_are_split_where_the_platform_splits_them() {
    for text in ["", "  ", "a b", " a\u{85}b\u{2003}c\u{3000}", "one\n\ntwo", "x\u{200b}y"] {
        let ours: Vec<String> = words(text).iter().map(word_text).collect();
        let theirs: Vec<&str> = text.split_whitespace().collect();
        assert_eq!(ours, theirs, "{text:?}");
    }
    for code in 0..0x1_1000u32 {
        if let Some(c) = char::from_u32(code) {
            let text = format!("a{c}b");
            let split = words(&text).len() == 2;
            assert_eq!(split, c.is_whitespace(), "U+{code:04X}");
        }
    }
}

#[test]
fn whole_numbers_are_read_as_the_platform_reads_them() {
    for text in [
        "0", "-0", "+0", "7", "-7", "+7", "", "-", "+", "--1", "1-", "1 ", "007", "1_000", "\u{661}",
        "9223372036854775807", "9223372036854775808", "-9223372036854775808",
        "-9223372036854775809", "00000000000000000000000000001", "123456789012345678901234567890",
    ] {
        assert_eq!(parse_int(&letters(text)), text.parse::<i64>().ok(), "{text:?}");
    }
}
