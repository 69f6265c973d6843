//! Encodes a typed message into the bytes an actor's channel carries.
//!
//! Because the type checker guarantees message types are flat, the encoded bytes
//! are already a valid value in the receiving arena. Nothing decodes on
//! arrival.
//!
//! A message is given as it is written on a command line: `Inc`, or `Add 5`.
//! The words that spell floats are read by the platform, and arrive as bits.

use vstd::prelude::*;
use vstd::string::StringExecFns;
use vstd::utf8::encode_utf8;

use crate::bytes::{
    bytes32, bytes64, le32, le64, lemma_bytes32, lemma_bytes64, lemma_le32_congruent, pattern64,
    put_u32, signed64, to_pattern64,
};
use crate::hir::{Hir, SumDef, SumId, Ty};
use crate::layout::{is_bare_tag, offset_of, WORD};
use crate::text::{decimal, join, joined, number, same_text, texts};
use crate::words::{
    a_number_survives_being_written, int_in, parse_int, word_text, words, words_in, words_of,
};

verus! {

/// Why a message could not be encoded.
#[derive(Debug)]
pub enum EncodeError {
    /// There is no word in it.
    Empty,
    /// The word is not a whole number.
    NotAnInt { raw: String },
    ExpectedBool,
    ExpectedFloat,
    /// A message of this type cannot be written as words.
    Unencodable { ty: Ty },
    /// The sum has no variant of this name.
    NotAVariant { name: String, sum: SumId },
    /// The variant takes another number of arguments.
    WrongCount { sum: SumId, variant: usize, found: usize },
    FieldFloat { field: String },
    FieldBool { field: String },
    /// A field of this type cannot cross a channel.
    FieldType { field: String, ty: Ty },
}

/// What an [`EncodeError`] is.
pub enum Refusal {
    Empty,
    NotAnInt { raw: Seq<char> },
    ExpectedBool,
    ExpectedFloat,
    Unencodable { ty: Ty },
    NotAVariant { name: Seq<char>, sum: SumId },
    WrongCount { sum: SumId, variant: usize, found: usize },
    FieldFloat { field: Seq<char> },
    FieldBool { field: Seq<char> },
    FieldType { field: Seq<char>, ty: Ty },
}

impl View for EncodeError {
    type V = Refusal;

    open spec fn view(&self) -> Refusal {
        match *self {
            EncodeError::Empty => Refusal::Empty,
            EncodeError::NotAnInt { raw } => Refusal::NotAnInt { raw: raw@ },
            EncodeError::ExpectedBool => Refusal::ExpectedBool,
            EncodeError::ExpectedFloat => Refusal::ExpectedFloat,
            EncodeError::Unencodable { ty } => Refusal::Unencodable { ty },
            EncodeError::NotAVariant { name, sum } => Refusal::NotAVariant { name: name@, sum },
            EncodeError::WrongCount { sum, variant, found } => Refusal::WrongCount {
                sum,
                variant,
                found,
            },
            EncodeError::FieldFloat { field } => Refusal::FieldFloat { field: field@ },
            EncodeError::FieldBool { field } => Refusal::FieldBool { field: field@ },
            EncodeError::FieldType { field, ty } => Refusal::FieldType { field: field@, ty },
        }
    }
}

/// The names of a sum's variants.
pub open spec fn variant_names(def: SumDef) -> Seq<Seq<char>> {
    Seq::new(def.variants@.len(), |i: int| def.variants@[i].name@)
}

impl Refusal {
    /// The error in words, where `ty` is how the compiler writes the type it
    /// names.
    pub open spec fn words(self, hir: Hir, ty: Seq<char>) -> Seq<char> {
        match self {
            Refusal::Empty => "empty message"@,
            Refusal::NotAnInt { raw } => "`"@ + raw + "` is not an int"@,
            Refusal::ExpectedBool => "expected true or false"@,
            Refusal::ExpectedFloat => "expected a float"@,
            Refusal::Unencodable { .. } => "cannot encode a message of type "@ + ty,
            Refusal::NotAVariant { name, sum } => "`"@ + name + "` is not a variant of `"@
                + hir.sums@[sum.0 as int].name@ + "`; expected one of "@ + joined(
                variant_names(hir.sums@[sum.0 as int]),
                ", "@,
            ),
            Refusal::WrongCount { sum, variant, found } => {
                let def = hir.sums@[sum.0 as int].variants@[variant as int];
                "`"@ + def.name@ + "` takes "@ + decimal(def.fields@.len() as int)
                    + " argument(s), found "@ + decimal(found as int)
            },
            Refusal::FieldFloat { field } => "field `"@ + field + "` expects a float"@,
            Refusal::FieldBool { field } => "field `"@ + field + "` expects true or false"@,
            Refusal::FieldType { field, .. } => "field `"@ + field + "` is "@ + ty
                + ", which cannot cross a channel"@,
        }
    }

    /// Whether the declarations the error names exist.
    pub open spec fn known(self, hir: Hir) -> bool {
        match self {
            Refusal::NotAVariant { sum, .. } => sum.0 < hir.sums@.len(),
            Refusal::WrongCount { sum, variant, .. } => sum.0 < hir.sums@.len() && variant
                < hir.sums@[sum.0 as int].variants@.len(),
            _ => true,
        }
    }
}

impl EncodeError {
    /// The error in words, where `ty` is how the compiler writes the type it
    /// names.
    pub fn message(&self, hir: &Hir, ty: &str) -> (r: String)
        requires
            self@.known(*hir),
        ensures
            r@ == self@.words(*hir, ty@),
    {
        match self {
            EncodeError::Empty => "empty message".to_owned(),
            EncodeError::NotAnInt { raw } => {
                let mut out = "`".to_owned();
                out.append(raw.as_str());
                out.append("` is not an int");
                out
            },
            EncodeError::ExpectedBool => "expected true or false".to_owned(),
            EncodeError::ExpectedFloat => "expected a float".to_owned(),
            EncodeError::Unencodable { .. } => {
                let mut out = "cannot encode a message of type ".to_owned();
                out.append(ty);
                out
            },
            EncodeError::NotAVariant { name, sum } => {
                let def = &hir.sums[sum.0 as usize];
                let mut known: Vec<String> = Vec::new();
                for i in 0..def.variants.len()
                    invariant
                        texts(known@) == variant_names(*def).take(i as int),
                {
                    let ghost before = texts(known@);
                    known.push(def.variants[i].name.clone());
                    assert(texts(known@) =~= before.push(def.variants@[i as int].name@));
                    assert(texts(known@) =~= variant_names(*def).take(i + 1));
                }
                assert(texts(known@) =~= variant_names(*def));
                let mut out = "`".to_owned();
                out.append(name.as_str());
                out.append("` is not a variant of `");
                out.append(def.name.as_str());
                out.append("`; expected one of ");
                out.append(join(&known, ", ").as_str());
                out
            },
            EncodeError::WrongCount { sum, variant, found } => {
                let def = &hir.sums[sum.0 as usize].variants[*variant];
                let mut out = "`".to_owned();
                out.append(def.name.as_str());
                out.append("` takes ");
                out.append(number(def.fields.len() as u64).as_str());
                out.append(" argument(s), found ");
                out.append(number(*found as u64).as_str());
                out
            },
            EncodeError::FieldFloat { field } => {
                let mut out = "field `".to_owned();
                out.append(field.as_str());
                out.append("` expects a float");
                out
            },
            EncodeError::FieldBool { field } => {
                let mut out = "field `".to_owned();
                out.append(field.as_str());
                out.append("` expects true or false");
                out
            },
            EncodeError::FieldType { field, .. } => {
                let mut out = "field `".to_owned();
                out.append(field.as_str());
                out.append("` is ");
                out.append(ty);
                out.append(", which cannot cross a channel");
                out
            },
        }
    }
}

/// The bits of the float the word at `index` spells, if it spells one.
pub open spec fn float_at(floats: Seq<Option<u64>>, index: int) -> Option<u64> {
    if 0 <= index < floats.len() {
        floats[index]
    } else {
        None
    }
}

/// The truth a word spells.
pub open spec fn bool_in(word: Seq<char>) -> Option<bool> {
    if word == "true"@ {
        Some(true)
    } else if word == "false"@ {
        Some(false)
    } else {
        None
    }
}

/// A truth, as the number that carries it.
pub open spec fn truth(value: bool) -> u32 {
    if value {
        1
    } else {
        0
    }
}

/// The 8 bytes of a word that holds a number of 32 bits.
pub open spec fn wide32(value: u32) -> Seq<u8> {
    bytes32(value) + seq![0u8, 0u8, 0u8, 0u8]
}

/// The bytes of one field.
pub open spec fn field_bytes(
    name: Seq<char>,
    ty: Ty,
    word: Seq<char>,
    float: Option<u64>,
) -> Result<Seq<u8>, Refusal> {
    match ty {
        Ty::Int => match int_in(word) {
            Some(value) => Ok(bytes64(pattern64(value))),
            None => Err(Refusal::NotAnInt { raw: word }),
        },
        Ty::Float => match float {
            Some(bits) => Ok(bytes64(bits)),
            None => Err(Refusal::FieldFloat { field: name }),
        },
        Ty::Bool => match bool_in(word) {
            Some(value) => Ok(wide32(truth(value))),
            None => Err(Refusal::FieldBool { field: name }),
        },
        _ => Err(Refusal::FieldType { field: name, ty }),
    }
}

/// The bytes of the tag word and the first `count` fields; `args` are the
/// words after the variant's name, and `floats` those of the whole message.
pub open spec fn fields_bytes(
    tag: u32,
    fields: Seq<(String, Ty)>,
    args: Seq<Seq<char>>,
    floats: Seq<Option<u64>>,
    count: nat,
) -> Result<Seq<u8>, Refusal>
    decreases count,
{
    if count == 0 {
        Ok(wide32(tag))
    } else {
        let i = count - 1;
        match fields_bytes(tag, fields, args, floats, i as nat) {
            Err(e) => Err(e),
            Ok(before) => match field_bytes(
                fields[i].0@,
                fields[i].1,
                args[i],
                float_at(floats, i + 1),
            ) {
                Err(e) => Err(e),
                Ok(part) => Ok(before + part),
            },
        }
    }
}

/// The position of the first variant from `index` on with this name.
pub open spec fn variant_named(def: SumDef, name: Seq<char>, index: nat) -> Option<nat>
    decreases def.variants@.len() - index,
{
    if index >= def.variants@.len() {
        None
    } else if def.variants@[index as int].name@ == name {
        Some(index)
    } else {
        variant_named(def, name, index + 1)
    }
}

/// The bytes of a variant and its arguments. A sum whose variants carry
/// nothing is the bare tag, not a pointer to one; otherwise the tag is in the
/// first word, and then one word per field.
pub open spec fn variant_bytes(
    hir: Hir,
    id: SumId,
    name: Seq<char>,
    args: Seq<Seq<char>>,
    floats: Seq<Option<u64>>,
) -> Result<Seq<u8>, Refusal> {
    let def = hir.sums@[id.0 as int];
    match variant_named(def, name, 0) {
        None => Err(Refusal::NotAVariant { name, sum: id }),
        Some(index) => {
            let fields = def.variants@[index as int].fields@;
            if args.len() != fields.len() {
                Err(
                    Refusal::WrongCount {
                        sum: id,
                        variant: index as usize,
                        found: args.len() as usize,
                    },
                )
            } else if def.bare() {
                Ok(bytes32(index as u32))
            } else {
                fields_bytes(index as u32, fields, args, floats, fields.len())
            }
        },
    }
}

/// The bytes of a message.
pub open spec fn message_bytes(
    hir: Hir,
    ty: Ty,
    spec_text: Seq<char>,
    floats: Seq<Option<u64>>,
) -> Result<Seq<u8>, Refusal> {
    let parts = words_in(spec_text);
    if parts.len() == 0 {
        Err(Refusal::Empty)
    } else {
        match ty {
            Ty::Str => Ok(encode_utf8(spec_text)),
            Ty::Int => match int_in(parts[0]) {
                Some(value) => Ok(bytes64(pattern64(value))),
                None => Err(Refusal::NotAnInt { raw: parts[0] }),
            },
            Ty::Bool => match bool_in(parts[0]) {
                Some(value) => Ok(bytes32(truth(value))),
                None => Err(Refusal::ExpectedBool),
            },
            Ty::Float => match float_at(floats, 0) {
                Some(bits) => Ok(bytes64(bits)),
                None => Err(Refusal::ExpectedFloat),
            },
            Ty::Sum(id) => variant_bytes(hir, id, parts[0], parts.skip(1), floats),
            _ => Err(Refusal::Unencodable { ty }),
        }
    }
}

fn parse_bool(word: &Vec<char>) -> (r: Option<bool>)
    ensures
        r == bool_in(word@),
{
    let text = word_text(word);
    if same_text(text.as_str(), "true") {
        Some(true)
    } else if same_text(text.as_str(), "false") {
        Some(false)
    } else {
        None
    }
}

fn float_bits(floats: &Vec<Option<u64>>, index: usize) -> (r: Option<u64>)
    ensures
        r == float_at(floats@, index as int),
{
    if index < floats.len() {
        floats[index]
    } else {
        None
    }
}

fn push32(out: &mut Vec<u8>, value: u32)
    ensures
        final(out)@ == old(out)@ + bytes32(value),
{
    let at: usize = out.len();
    out.push(0);
    out.push(0);
    out.push(0);
    out.push(0);
    put_u32(out, at, value);
    proof {
        lemma_bytes32(value);
    }
    assert(out@ =~= old(out)@ + bytes32(value));
}

fn push64(out: &mut Vec<u8>, value: u64)
    ensures
        final(out)@ == old(out)@ + bytes64(value),
{
    push32(out, (value % 0x1_0000_0000) as u32);
    push32(out, (value / 0x1_0000_0000) as u32);
    assert(out@ =~= old(out)@ + bytes64(value));
}

fn push_wide32(out: &mut Vec<u8>, value: u32)
    ensures
        final(out)@ == old(out)@ + wide32(value),
{
    push32(out, value);
    out.push(0);
    out.push(0);
    out.push(0);
    out.push(0);
    assert(out@ =~= old(out)@ + wide32(value));
}

/// Encodes a message, as written on a command line. `floats` holds, for each
/// of its words, the bits of the float it spells if it spells one.
pub fn encode(hir: &Hir, message_ty: &Ty, spec_text: &str, floats: &Vec<Option<u64>>) -> (r: Result<
    Vec<u8>,
    EncodeError,
>)
    requires
        hir.valid(),
        message_ty.known(*hir),
    ensures
        match (r, message_bytes(*hir, *message_ty, spec_text@, floats@)) {
            (Ok(bytes), Ok(expected)) => bytes@ == expected,
            (Err(e), Err(f)) => e@ == f && f.known(*hir),
            _ => false,
        },
{
    let parts = words(spec_text);
    let ghost all = words_in(spec_text@);
    assert(parts@.len() == all.len());
    if parts.len() == 0 {
        return Err(EncodeError::Empty);
    }
    assert(all[0] == parts@[0]@);
    let mut out: Vec<u8> = Vec::new();
    match message_ty {
        Ty::Str => {
            let raw = spec_text.as_bytes();
            for i in 0..raw.len()
                invariant
                    out@ == raw@.take(i as int),
            {
                out.push(raw[i]);
                assert(out@ =~= raw@.take(i + 1));
            }
            assert(out@ =~= raw@);
            Ok(out)
        },
        Ty::Int => match parse_int(&parts[0]) {
            Some(value) => {
                push64(&mut out, to_pattern64(value));
                assert(out@ =~= bytes64(pattern64(value)));
                Ok(out)
            },
            None => Err(EncodeError::NotAnInt { raw: word_text(&parts[0]) }),
        },
        Ty::Bool => match parse_bool(&parts[0]) {
            Some(value) => {
                push32(&mut out, if value {
                    1
                } else {
                    0
                });
                assert(out@ =~= bytes32(truth(value)));
                Ok(out)
            },
            None => Err(EncodeError::ExpectedBool),
        },
        Ty::Float => match float_bits(floats, 0) {
            Some(bits) => {
                push64(&mut out, bits);
                assert(out@ =~= bytes64(bits));
                Ok(out)
            },
            None => Err(EncodeError::ExpectedFloat),
        },
        Ty::Sum(id) => {
            assert(hir.sums@[id.0 as int].known(*hir));
            encode_variant(hir, *id, &parts, floats, Ghost(all))
        },
        other => Err(EncodeError::Unencodable { ty: other.copied() }),
    }
}

fn encode_variant(
    hir: &Hir,
    id: SumId,
    parts: &Vec<Vec<char>>,
    floats: &Vec<Option<u64>>,
    Ghost(all): Ghost<Seq<Seq<char>>>,
) -> (r: Result<Vec<u8>, EncodeError>)
    requires
        id.0 < hir.sums@.len(),
        hir.sums@[id.0 as int].known(*hir),
        parts@.len() > 0,
        all == words_of(parts@),
    ensures
        match (r, variant_bytes(*hir, id, all[0], all.skip(1), floats@)) {
            (Ok(bytes), Ok(expected)) => bytes@ == expected,
            (Err(e), Err(f)) => e@ == f && f.known(*hir),
            _ => false,
        },
{
    let def = &hir.sums[id.0 as usize];
    let name = word_text(&parts[0]);
    let count: usize = def.variants.len();
    let mut index: usize = 0;
    while index < count && !same_text(def.variants[index].name.as_str(), name.as_str())
        invariant
            count == def.variants@.len(),
            index <= count,
            variant_named(*def, name@, 0) == variant_named(*def, name@, index as nat),
        decreases count - index,
    {
        index = index + 1;
    }
    if index == count {
        return Err(EncodeError::NotAVariant { name, sum: id });
    }
    let variant = &def.variants[index];
    let ghost fields = variant.fields@;
    let ghost args = all.skip(1);
    let found: usize = parts.len() - 1;
    if found != variant.fields.len() {
        return Err(EncodeError::WrongCount { sum: id, variant: index, found });
    }
    let mut bytes: Vec<u8> = Vec::new();
    // All-niladic sums are the bare tag, not a pointer to one.
    if is_bare_tag(def) {
        push32(&mut bytes, index as u32);
        assert(bytes@ =~= bytes32(index as u32));
        return Ok(bytes);
    }
    // Boxed: the tag in the first slot, then one slot per field.

    push_wide32(&mut bytes, index as u32);
    assert(bytes@ =~= wide32(index as u32));
    let ghost whole = fields_bytes(index as u32, fields, args, floats@, fields.len());
    for i in 0..variant.fields.len()
        invariant
            fields == variant.fields@,
            args == all.skip(1),
            all == words_of(parts@),
            parts@.len() == fields.len() + 1,
            *variant == def.variants@[index as int],
            id.0 < hir.sums@.len(),
            *def == hir.sums@[id.0 as int],
            def.known(*hir),
            index < def.variants@.len(),
            name@ == all[0],
            !def.bare(),
            variant_named(*def, name@, 0) == Some(index as nat),
            fields_bytes(index as u32, fields, args, floats@, i as nat) == Ok::<
                Seq<u8>,
                Refusal,
            >(bytes@),
    {
        let field = &variant.fields[i];
        let word = &parts[i + 1];
        assert(args[i as int] == word@);
        let ghost before = bytes@;
        let ghost expected = field_bytes(
            field.0@,
            field.1,
            word@,
            float_at(floats@, i as int + 1),
        );
        let mut fault: Option<EncodeError> = None;
        match &field.1 {
            Ty::Int => match parse_int(word) {
                Some(value) => {
                    push64(&mut bytes, to_pattern64(value));
                },
                None => {
                    fault = Some(EncodeError::NotAnInt { raw: word_text(word) });
                },
            },
            Ty::Float => match float_bits(floats, i + 1) {
                Some(bits) => {
                    push64(&mut bytes, bits);
                },
                None => {
                    fault = Some(EncodeError::FieldFloat { field: field.0.clone() });
                },
            },
            Ty::Bool => match parse_bool(word) {
                Some(value) => {
                    push_wide32(&mut bytes, if value {
                        1
                    } else {
                        0
                    });
                },
                None => {
                    fault = Some(EncodeError::FieldBool { field: field.0.clone() });
                },
            },
            // The type checker rejects non-flat fields; refusing beats writing a
            // pointer another arena cannot use.
            other => {
                fault = Some(
                    EncodeError::FieldType { field: field.0.clone(), ty: other.copied() },
                );
            },
        }
        if let Some(e) = fault {
            proof {
                lemma_first_fault(
                    index as u32,
                    fields,
                    args,
                    floats@,
                    (i + 1) as nat,
                    fields.len(),
                );
            }
            return Err(e);
        }
    }
    Ok(bytes)
}

/// The first field that cannot be written decides the error.
proof fn lemma_first_fault(
    tag: u32,
    fields: Seq<(String, Ty)>,
    args: Seq<Seq<char>>,
    floats: Seq<Option<u64>>,
    count: nat,
    total: nat,
)
    requires
        count <= total,
        fields_bytes(tag, fields, args, floats, count) is Err,
    ensures
        fields_bytes(tag, fields, args, floats, total) == fields_bytes(
            tag,
            fields,
            args,
            floats,
            count,
        ),
    decreases total,
{
    if count < total {
        lemma_first_fault(tag, fields, args, floats, count, (total - 1) as nat);
    }
}

proof fn lemma_prefix(
    tag: u32,
    fields: Seq<(String, Ty)>,
    args: Seq<Seq<char>>,
    floats: Seq<Option<u64>>,
    count: nat,
    total: nat,
)
    requires
        count <= total,
        fields_bytes(tag, fields, args, floats, total) is Ok,
    ensures
        fields_bytes(tag, fields, args, floats, count) is Ok,
        ({
            let part = fields_bytes(tag, fields, args, floats, count)->Ok_0;
            let all = fields_bytes(tag, fields, args, floats, total)->Ok_0;
            &&& part.len() == 8 * (1 + count)
            &&& all.len() == 8 * (1 + total)
            &&& all.take(part.len() as int) == part
        }),
    decreases total,
{
    lemma_bytes32(tag);
    if count < total {
        lemma_prefix(tag, fields, args, floats, count, (total - 1) as nat);
        let part = fields_bytes(tag, fields, args, floats, count)->Ok_0;
        let before = fields_bytes(tag, fields, args, floats, (total - 1) as nat)->Ok_0;
        let all = fields_bytes(tag, fields, args, floats, total)->Ok_0;
        lemma_field_len(
            fields[total - 1].0@,
            fields[total - 1].1,
            args[total - 1],
            float_at(floats, total as int),
        );
        assert(all.take(part.len() as int) =~= before.take(part.len() as int));
    } else if total > 0 {
        lemma_prefix(tag, fields, args, floats, (total - 1) as nat, (total - 1) as nat);
        lemma_field_len(
            fields[total - 1].0@,
            fields[total - 1].1,
            args[total - 1],
            float_at(floats, total as int),
        );
        let all = fields_bytes(tag, fields, args, floats, total)->Ok_0;
        assert(all.take(all.len() as int) =~= all);
    } else {
        let all = fields_bytes(tag, fields, args, floats, total)->Ok_0;
        assert(all.take(all.len() as int) =~= all);
    }
}

proof fn lemma_field_len(name: Seq<char>, ty: Ty, word: Seq<char>, float: Option<u64>)
    requires
        field_bytes(name, ty, word, float) is Ok,
    ensures
        field_bytes(name, ty, word, float)->Ok_0.len() == 8,
{
    match ty {
        Ty::Int => {
            lemma_bytes64(pattern64(int_in(word)->Some_0));
        },
        Ty::Float => {
            lemma_bytes64(float->Some_0);
        },
        Ty::Bool => {
            lemma_bytes32(truth(bool_in(word)->Some_0));
        },
        _ => {},
    }
}

/// A message that was encoded reads back as what was written: its first word
/// holds the variant's tag, it has a word per field, and an `int` field's word
/// holds the number.
pub proof fn what_was_encoded_reads_back(
    tag: u32,
    fields: Seq<(String, Ty)>,
    args: Seq<Seq<char>>,
    floats: Seq<Option<u64>>,
    index: int,
)
    requires
        0 <= index < fields.len(),
        fields_bytes(tag, fields, args, floats, fields.len()) is Ok,
    ensures
        ({
            let bytes = fields_bytes(tag, fields, args, floats, fields.len())->Ok_0;
            let at = 8 * (1 + index);
            &&& bytes.len() == 8 * (1 + fields.len())
            &&& le32(bytes, 0) == tag
            &&& fields[index].1 is Int ==> Some(signed64(le64(bytes, at))) == int_in(args[index])
            &&& fields[index].1 is Float ==> Some(le64(bytes, at)) == float_at(floats, index + 1)
            &&& fields[index].1 is Bool ==> Some(le32(bytes, at) != 0) == bool_in(args[index])
        }),
{
    let bytes = fields_bytes(tag, fields, args, floats, fields.len())->Ok_0;
    let at = 8 * (1 + index);
    lemma_prefix(tag, fields, args, floats, 0, fields.len());
    lemma_prefix(tag, fields, args, floats, index as nat, fields.len());
    lemma_prefix(tag, fields, args, floats, (index + 1) as nat, fields.len());
    let before = fields_bytes(tag, fields, args, floats, index as nat)->Ok_0;
    let with = fields_bytes(tag, fields, args, floats, (index + 1) as nat)->Ok_0;
    let part = field_bytes(
        fields[index].0@,
        fields[index].1,
        args[index],
        float_at(floats, index + 1),
    )->Ok_0;
    lemma_field_len(
        fields[index].0@,
        fields[index].1,
        args[index],
        float_at(floats, index + 1),
    );
    let first = wide32(tag);
    lemma_bytes32(tag);
    assert forall|k: int| 0 <= k < 4 implies #[trigger] bytes[k] == bytes32(tag)[k] by {
        assert(bytes.take(8)[k] == first[k]);
    }
    lemma_le32_congruent(bytes, 0, bytes32(tag), 0);
    assert(with == before + part);
    assert forall|k: int| 0 <= k < 8 implies #[trigger] bytes[at + k] == part[k] by {
        assert(bytes.take(with.len() as int)[at + k] == with[at + k]);
    }
    assert(bytes[at + 0] == part[0] && bytes[at + 1] == part[1] && bytes[at + 2] == part[2]
        && bytes[at + 3] == part[3]);
    assert(bytes[at + 4] == part[4] && bytes[at + 5] == part[5] && bytes[at + 6] == part[6]
        && bytes[at + 7] == part[7]);
    lemma_le32_congruent(bytes, at, part, 0);
    lemma_le32_congruent(bytes, at + 4, part, 4);
    match fields[index].1 {
        Ty::Int => {
            lemma_bytes64(pattern64(int_in(args[index])->Some_0));
        },
        Ty::Float => {
            lemma_bytes64(float_at(floats, index + 1)->Some_0);
        },
        Ty::Bool => {
            let value = truth(bool_in(args[index])->Some_0);
            lemma_bytes32(value);
            lemma_le32_congruent(part, 0, bytes32(value), 0);
        },
        _ => {},
    }
}

/// Fields that can cross a channel take a word each.
proof fn lemma_flat_offsets(fields: Seq<(String, Ty)>, count: nat)
    requires
        count <= fields.len(),
        forall|i: int|
            0 <= i < fields.len() ==> (#[trigger] fields[i]).1 is Int || fields[i].1 is Float
                || fields[i].1 is Bool,
    ensures
        offset_of(fields, count) == 8 * count,
    decreases count,
{
    if count > 0 {
        lemma_flat_offsets(fields, (count - 1) as nat);
    }
}

proof fn lemma_flat(
    tag: u32,
    fields: Seq<(String, Ty)>,
    args: Seq<Seq<char>>,
    floats: Seq<Option<u64>>,
    index: int,
)
    requires
        0 <= index < fields.len(),
        fields_bytes(tag, fields, args, floats, fields.len()) is Ok,
    ensures
        fields[index].1 is Int || fields[index].1 is Float || fields[index].1 is Bool,
{
    lemma_prefix(tag, fields, args, floats, (index + 1) as nat, fields.len());
    assert(fields_bytes(tag, fields, args, floats, (index + 1) as nat) is Ok);
}

/// The wire format is the memory format: wherever the bytes of a message are
/// put, the tag is where a reader of the sum looks for it, and each field is
/// at the offset the layout gives it, holding what was written.
pub proof fn the_wire_format_is_the_memory_format(
    tag: u32,
    fields: Seq<(String, Ty)>,
    args: Seq<Seq<char>>,
    floats: Seq<Option<u64>>,
    memory: Seq<u8>,
    at: int,
    index: int,
)
    requires
        0 <= index < fields.len(),
        fields_bytes(tag, fields, args, floats, fields.len()) matches Ok(bytes) && 0 <= at && at
            + bytes.len() <= memory.len() && memory.subrange(at, at + bytes.len()) == bytes,
    ensures
        ({
            let there = at + WORD + offset_of(fields, index as nat);
            &&& le32(memory, at) == tag
            &&& fields[index].1 is Int ==> Some(signed64(le64(memory, there))) == int_in(
                args[index],
            )
            &&& fields[index].1 is Float ==> Some(le64(memory, there)) == float_at(
                floats,
                index + 1,
            )
            &&& fields[index].1 is Bool ==> Some(le32(memory, there) != 0) == bool_in(args[index])
        }),
{
    let bytes = fields_bytes(tag, fields, args, floats, fields.len())->Ok_0;
    what_was_encoded_reads_back(tag, fields, args, floats, index);
    assert forall|i: int| 0 <= i < fields.len() implies (#[trigger] fields[i]).1 is Int
        || fields[i].1 is Float || fields[i].1 is Bool by {
        lemma_flat(tag, fields, args, floats, i);
    }
    lemma_flat_offsets(fields, index as nat);
    let there = 8 * (1 + index);
    assert forall|k: int| 0 <= k < bytes.len() implies memory[at + k] == #[trigger] bytes[k] by {
        assert(memory.subrange(at, at + bytes.len())[k] == memory[at + k]);
    }
    assert(bytes[0] == memory[at + 0] && bytes[1] == memory[at + 1] && bytes[2] == memory[at + 2]
        && bytes[3] == memory[at + 3]);
    lemma_le32_congruent(memory, at, bytes, 0);
    assert(bytes[there + 0] == memory[at + there + 0]);
    assert(bytes[there + 1] == memory[at + there + 1]);
    assert(bytes[there + 2] == memory[at + there + 2]);
    assert(bytes[there + 3] == memory[at + there + 3]);
    assert(bytes[there + 4] == memory[at + there + 4]);
    assert(bytes[there + 5] == memory[at + there + 5]);
    assert(bytes[there + 6] == memory[at + there + 6]);
    assert(bytes[there + 7] == memory[at + there + 7]);
    lemma_le32_congruent(memory, at + there, bytes, there);
    lemma_le32_congruent(memory, at + there + 4, bytes, there + 4);
}

/// Every message of a sum says which variant it is: the number at the start of
/// its bytes is the place of the first variant that its first word names,
/// whether the sum is a bare tag or not and whether the variant has fields or
/// not. It has as many words as the variant has fields, and a slot for each.
pub proof fn a_message_carries_the_variant_it_names(
    hir: Hir,
    id: SumId,
    text: Seq<char>,
    floats: Seq<Option<u64>>,
)
    requires
        hir.sums@[id.0 as int].variants@.len() < 0x8000_0000,
        message_bytes(hir, Ty::Sum(id), text, floats) is Ok,
    ensures
        ({
            let variants = hir.sums@[id.0 as int].variants@;
            let bytes = message_bytes(hir, Ty::Sum(id), text, floats)->Ok_0;
            let tag = le32(bytes, 0) as int;
            &&& words_in(text).len() > 0
            &&& bytes.len() >= 4
            &&& 0 <= tag < variants.len()
            &&& variants[tag].name@ == words_in(text)[0]
            &&& forall|v: int| 0 <= v < tag ==> (#[trigger] variants[v]).name@ != words_in(text)[0]
            &&& words_in(text).len() == 1 + variants[tag].fields@.len()
            &&& if forall|v: int|
                0 <= v < variants.len() ==> (#[trigger] variants[v]).fields@.len() == 0 {
                bytes.len() == 4
            } else {
                bytes.len() == 8 * words_in(text).len()
            }
        }),
{
    let def = hir.sums@[id.0 as int];
    let parts = words_in(text);
    let args = parts.skip(1);
    let v = variant_named(def, parts[0], 0)->Some_0;
    lemma_variant_named(def, parts[0], 0);
    let fields = def.variants@[v as int].fields@;
    let tag = v as u32;
    lemma_bytes32(tag);
    if !def.bare() {
        let bytes = message_bytes(hir, Ty::Sum(id), text, floats)->Ok_0;
        lemma_prefix(tag, fields, args, floats, 0, fields.len());
        let first = wide32(tag);
        assert forall|k: int| 0 <= k < 4 implies #[trigger] bytes[k] == bytes32(tag)[k] by {
            assert(bytes.take(8)[k] == first[k]);
        }
        lemma_le32_congruent(bytes, 0, bytes32(tag), 0);
    }
}

proof fn lemma_variant_named(def: SumDef, name: Seq<char>, index: nat)
    ensures
        match variant_named(def, name, index) {
            Some(v) => {
                &&& index <= v < def.variants@.len()
                &&& def.variants@[v as int].name@ == name
                &&& forall|u: int| index <= u < v ==> (#[trigger] def.variants@[u]).name@ != name
            },
            None => forall|u: int|
                index <= u < def.variants@.len() ==> (#[trigger] def.variants@[u]).name@ != name,
        },
    decreases def.variants@.len() - index,
{
    if index < def.variants@.len() && def.variants@[index as int].name@ != name {
        lemma_variant_named(def, name, index + 1);
    }
}

/// Two messages that name different variants are different bytes.
pub proof fn different_variants_are_different_bytes(
    hir: Hir,
    id: SumId,
    a: Seq<char>,
    a_floats: Seq<Option<u64>>,
    b: Seq<char>,
    b_floats: Seq<Option<u64>>,
)
    requires
        hir.sums@[id.0 as int].variants@.len() < 0x8000_0000,
        message_bytes(hir, Ty::Sum(id), a, a_floats) is Ok,
        message_bytes(hir, Ty::Sum(id), b, b_floats) is Ok,
        words_in(a)[0] != words_in(b)[0],
    ensures
        message_bytes(hir, Ty::Sum(id), a, a_floats) != message_bytes(
            hir,
            Ty::Sum(id),
            b,
            b_floats,
        ),
{
    a_message_carries_the_variant_it_names(hir, id, a, a_floats);
    a_message_carries_the_variant_it_names(hir, id, b, b_floats);
}

/// A word that names no variant is refused, and so is a message with too few or
/// too many words.
pub proof fn what_names_no_variant_is_refused(
    hir: Hir,
    id: SumId,
    text: Seq<char>,
    floats: Seq<Option<u64>>,
)
    requires
        words_in(text).len() > 0,
    ensures
        ({
            let variants = hir.sums@[id.0 as int].variants@;
            let name = words_in(text)[0];
            let message = message_bytes(hir, Ty::Sum(id), text, floats);
            &&& (forall|v: int| 0 <= v < variants.len() ==> (#[trigger] variants[v]).name@ != name)
                <==> message == Err::<Seq<u8>, Refusal>(Refusal::NotAVariant { name, sum: id })
            &&& (forall|v: int|
                0 <= v < variants.len() && (#[trigger] variants[v]).name@ == name
                    ==> variants[v].fields@.len() + 1 != words_in(text).len()) ==> message is Err
        }),
{
    let def = hir.sums@[id.0 as int];
    let name = words_in(text)[0];
    lemma_variant_named(def, name, 0);
    if let Some(v) = variant_named(def, name, 0) {
        assert(def.variants@[v as int].name@ == name);
        let fields = def.variants@[v as int].fields@;
        let args = words_in(text).skip(1);
        if args.len() == fields.len() && !def.bare() {
            lemma_fault_kind(v as u32, fields, args, floats, fields.len(), name, id);
        }
    }
}

proof fn lemma_fault_kind(
    tag: u32,
    fields: Seq<(String, Ty)>,
    args: Seq<Seq<char>>,
    floats: Seq<Option<u64>>,
    count: nat,
    name: Seq<char>,
    id: SumId,
)
    ensures
        fields_bytes(tag, fields, args, floats, count) != Err::<Seq<u8>, Refusal>(
            Refusal::NotAVariant { name, sum: id },
        ),
    decreases count,
{
    if count > 0 {
        lemma_fault_kind(tag, fields, args, floats, (count - 1) as nat, name, id);
    }
}

/// Every field of a message holds what its word says: a number reads back as
/// the number, a truth as the truth, and a float as its bits, each in the slot
/// of its field.
pub proof fn a_message_carries_its_fields(
    hir: Hir,
    id: SumId,
    text: Seq<char>,
    floats: Seq<Option<u64>>,
    index: int,
    number: i64,
)
    requires
        hir.sums@[id.0 as int].variants@.len() < 0x8000_0000,
        message_bytes(hir, Ty::Sum(id), text, floats) is Ok,
        0 <= index,
        1 + index < words_in(text).len(),
    ensures
        ({
            let bytes = message_bytes(hir, Ty::Sum(id), text, floats)->Ok_0;
            let field = hir.sums@[id.0 as int].variants@[le32(bytes, 0) as int].fields@[index].1;
            let word = words_in(text)[1 + index];
            let at = 8 * (1 + index);
            &&& field is Int && word == decimal(number as int) ==> signed64(le64(bytes, at))
                == number
            &&& field is Bool ==> word == "true"@ || word == "false"@
            &&& field is Bool ==> le32(bytes, at) == if word == "true"@ {
                1u32
            } else {
                0u32
            }
            &&& field is Float ==> Some(le64(bytes, at)) == float_at(floats, 1 + index)
            &&& field is Int || field is Bool || field is Float
        }),
{
    a_message_carries_the_variant_it_names(hir, id, text, floats);
    let def = hir.sums@[id.0 as int];
    let parts = words_in(text);
    let args = parts.skip(1);
    lemma_variant_named(def, parts[0], 0);
    let v = variant_named(def, parts[0], 0)->Some_0;
    let bytes = message_bytes(hir, Ty::Sum(id), text, floats)->Ok_0;
    let fields = def.variants@[v as int].fields@;
    assert(le32(bytes, 0) == v);
    assert(!def.bare()) by {
        assert(def.variants@[v as int].fields@.len() > 0);
    }
    let tag = v as u32;
    what_was_encoded_reads_back(tag, fields, args, floats, index);
    lemma_flat(tag, fields, args, floats, index);
    assert(args[index] == parts[1 + index]);
    a_number_survives_being_written(number);
    reveal_strlit("true");
    reveal_strlit("false");
    if fields[index].1 is Bool {
        let at = 8 * (1 + index);
        lemma_prefix(tag, fields, args, floats, index as nat, fields.len());
        lemma_prefix(tag, fields, args, floats, (index + 1) as nat, fields.len());
        let before = fields_bytes(tag, fields, args, floats, index as nat)->Ok_0;
        let with = fields_bytes(tag, fields, args, floats, (index + 1) as nat)->Ok_0;
        let value = truth(bool_in(args[index])->Some_0);
        lemma_bytes32(value);
        let part = bytes32(value);
        assert(with == before + wide32(value));
        assert forall|k: int| 0 <= k < 4 implies #[trigger] bytes[at + k] == part[k] by {
            assert(bytes.take(with.len() as int)[at + k] == with[at + k]);
        }
        assert(bytes[at + 0] == part[0] && bytes[at + 1] == part[1] && bytes[at + 2] == part[2]
            && bytes[at + 3] == part[3]);
        lemma_le32_congruent(bytes, at, part, 0);
    }
}

/// A message that is no sum is the value its first word says: a number that was
/// written reads back, a truth is one or zero, and a float is its bits.
pub proof fn a_plain_message_reads_back(
    hir: Hir,
    text: Seq<char>,
    floats: Seq<Option<u64>>,
    number: i64,
)
    requires
        words_in(text).len() > 0,
    ensures
        words_in(text)[0] == decimal(number as int) ==> (message_bytes(hir, Ty::Int, text, floats)
            matches Ok(bytes) && bytes.len() == 8 && signed64(le64(bytes, 0)) == number),
        words_in(text)[0] == "true"@ ==> (message_bytes(hir, Ty::Bool, text, floats) matches Ok(
            bytes,
        ) && bytes.len() == 4 && le32(bytes, 0) == 1),
        words_in(text)[0] == "false"@ ==> (message_bytes(hir, Ty::Bool, text, floats) matches Ok(
            bytes,
        ) && bytes.len() == 4 && le32(bytes, 0) == 0),
        words_in(text)[0] != "true"@ && words_in(text)[0] != "false"@ ==> message_bytes(
            hir,
            Ty::Bool,
            text,
            floats,
        ) is Err,
        floats.len() > 0 && floats[0] is Some ==> (message_bytes(hir, Ty::Float, text, floats)
            matches Ok(bytes) && bytes.len() == 8 && Some(le64(bytes, 0)) == floats[0]),
{
    reveal_strlit("true");
    reveal_strlit("false");
    assert("true"@.len() == 4 && "false"@.len() == 5);
    a_number_survives_being_written(number);
    lemma_bytes64(pattern64(number));
    lemma_bytes32(1);
    lemma_bytes32(0);
    if floats.len() > 0 && floats[0] is Some {
        lemma_bytes64(floats[0]->Some_0);
    }
}

} // verus!
