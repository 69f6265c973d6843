//! Text: comparing it, joining it, and writing numbers into it.

use vstd::prelude::*;
use vstd::string::StringExecFns;
use vstd::utf8::{decode_utf8, valid_utf8};

verus! {

/// `String::push` adds one character at the end.
pub assume_specification[ String::push ](s: &mut String, c: char)
    ensures
        final(s)@ == old(s)@.push(c),
;

/// The text `String::from_utf8_lossy` reads from bytes.
pub uninterp spec fn lossy_text(bytes: Seq<u8>) -> Seq<char>;

/// `String::from_utf8_lossy` reads bytes as UTF-8 and puts a replacement
/// character where they are not; bytes that are valid UTF-8 it reads as the
/// text they encode.
#[verifier::external_body]
pub(crate) fn lossy(bytes: &[u8]) -> (r: String)
    ensures
        r@ == lossy_text(bytes@),
        valid_utf8(bytes@) ==> r@ == decode_utf8(bytes@),
{
    String::from_utf8_lossy(bytes).into_owned()
}

/// A text as `{:?}` writes it: in quotes, with what cannot be shown escaped.
pub uninterp spec fn debug_text(text: Seq<char>) -> Seq<char>;

/// `<str as Debug>::fmt` writes a text in double quotes, and escapes quotes,
/// backslashes, control characters and what Unicode calls unprintable. Which
/// characters those are is a table of its own, so the result is only named.
#[verifier::external_body]
pub(crate) fn quoted(text: &str) -> (r: String)
    ensures
        r@ == debug_text(text@),
{
    format!("{:?}", text)
}

/// Whether two texts hold the same characters.
pub fn same_text(a: &str, b: &str) -> (r: bool)
    ensures
        r == (a@ == b@),
{
    a.to_owned() == b.to_owned()
}

/// The texts of a list of strings.
pub open spec fn texts(list: Seq<String>) -> Seq<Seq<char>> {
    Seq::new(list.len(), |i: int| list[i]@)
}

/// Whether a list of strings holds `text`.
pub fn holds_text(list: &Vec<String>, text: &str) -> (r: bool)
    ensures
        r == texts(list@).contains(text@),
{
    for i in 0..list.len()
        invariant
            forall|j: int| 0 <= j < i ==> #[trigger] texts(list@)[j] != text@,
    {
        if same_text(list[i].as_str(), text) {
            assert(texts(list@)[i as int] == text@);
            return true;
        }
    }
    false
}

/// The parts in order, with `between` between each two.
pub open spec fn joined(parts: Seq<Seq<char>>, between: Seq<char>) -> Seq<char>
    decreases parts.len(),
{
    if parts.len() == 0 {
        Seq::empty()
    } else if parts.len() == 1 {
        parts[0]
    } else {
        joined(parts.drop_last(), between) + between + parts.last()
    }
}

/// The parts in order, with `between` between each two.
pub fn join(parts: &Vec<String>, between: &str) -> (r: String)
    ensures
        r@ == joined(texts(parts@), between@),
{
    let mut out = String::new();
    for i in 0..parts.len()
        invariant
            out@ == joined(texts(parts@).take(i as int), between@),
    {
        let ghost before = texts(parts@).take(i as int);
        let ghost after = texts(parts@).take(i + 1);
        assert(after.drop_last() =~= before);
        assert(after.last() == parts@[i as int]@);
        if i > 0 {
            out.append(between);
        }
        out.append(parts[i].as_str());
        assert(i == 0 ==> out@ =~= parts@[0]@);
    }
    assert(texts(parts@).take(parts@.len() as int) =~= texts(parts@));
    out
}

/// A digit to base sixteen or less.
pub open spec fn digit(value: nat) -> char {
    if value < 10 {
        (48 + value) as u8 as char
    } else {
        (87 + value) as u8 as char
    }
}

/// A number written to a base.
pub open spec fn numeral(value: nat, base: nat) -> Seq<char>
    decreases value,
{
    if base < 2 || value < base {
        seq![digit(value)]
    } else {
        proof {
            assert(value / base < value) by (nonlinear_arith)
                requires
                    value > 0,
                    base >= 2,
            ;
        }
        numeral(value / base, base).push(digit(value % base))
    }
}

/// A number in decimal.
pub open spec fn decimal(value: int) -> Seq<char> {
    if value < 0 {
        "-"@ + numeral((-value) as nat, 10)
    } else {
        numeral(value as nat, 10)
    }
}

/// A number in hexadecimal, as an address is written.
pub open spec fn hexadecimal(value: nat) -> Seq<char> {
    "0x"@ + numeral(value, 16)
}

fn push_numeral(out: &mut String, value: u64, base: u64)
    requires
        2 <= base <= 16,
    ensures
        final(out)@ == old(out)@ + numeral(value as nat, base as nat),
    decreases value,
{
    if value >= base {
        assert(value / base < value) by (nonlinear_arith)
            requires
                value > 0,
                base >= 2,
        ;
        push_numeral(out, value / base, base);
    }
    let low: u8 = (value % base) as u8;
    assert(value < base ==> value % base == value) by (nonlinear_arith)
        requires
            base >= 2,
    ;
    if low < 10 {
        out.push((48 + low) as char);
    } else {
        out.push((87 + low) as char);
    }
    assert(out@ =~= old(out)@ + numeral(value as nat, base as nat));
}

/// Adds a number in decimal at the end of a text.
pub fn push_number(out: &mut String, value: u64)
    ensures
        final(out)@ == old(out)@ + decimal(value as int),
{
    push_numeral(out, value, 10);
}

/// A number in decimal.
pub fn number(value: u64) -> (r: String)
    ensures
        r@ == decimal(value as int),
{
    let mut out = String::new();
    push_number(&mut out, value);
    assert(out@ =~= decimal(value as int));
    out
}

/// A signed number in decimal.
pub fn signed_number(value: i64) -> (r: String)
    ensures
        r@ == decimal(value as int),
{
    let mut out = String::new();
    if value < 0 {
        out.append("-");
        let size: u64 = if value == i64::MIN {
            0x8000_0000_0000_0000
        } else {
            (-value) as u64
        };
        push_number(&mut out, size);
    } else {
        push_number(&mut out, value as u64);
    }
    assert(out@ =~= decimal(value as int));
    out
}

/// A number in hexadecimal, as an address is written.
pub fn address(value: u64) -> (r: String)
    ensures
        r@ == hexadecimal(value as nat),
{
    let mut out = "0x".to_owned();
    push_numeral(&mut out, value, 16);
    out
}

proof fn lemma_digits_differ(a: nat, b: nat)
    requires
        a < 16,
        b < 16,
        digit(a) == digit(b),
    ensures
        a == b,
{
    let (x, y) = if a < 10 {
        ((48 + a) as u8, (48 + b) as u8)
    } else {
        ((87 + a) as u8, (87 + b) as u8)
    };
    assert(digit(a) as u32 == if a < 10 {
        48 + a
    } else {
        87 + a
    });
    assert(digit(b) as u32 == if b < 10 {
        48 + b
    } else {
        87 + b
    });
}

/// Two addresses are never written alike.
pub proof fn addresses_are_written_apart(a: nat, b: nat)
    requires
        hexadecimal(a) == hexadecimal(b),
    ensures
        a == b,
{
    let (x, y) = (numeral(a, 16), numeral(b, 16));
    assert(hexadecimal(a).skip("0x"@.len() as int) =~= x);
    assert(hexadecimal(b).skip("0x"@.len() as int) =~= y);
    lemma_hex(a, b);
}

proof fn lemma_hex(a: nat, b: nat)
    requires
        numeral(a, 16) == numeral(b, 16),
    ensures
        a == b,
    decreases a,
{
    let (x, y) = (numeral(a, 16), numeral(b, 16));
    if a < 16 {
        assert(x.len() == 1);
        if b >= 16 {
            assert(numeral(b / 16, 16).len() > 0) by {
                lemma_numeral_len(b / 16);
            }
            assert(y.len() > 1);
        }
        assert(x[0] == y[0]);
        lemma_digits_differ(a, b);
    } else {
        lemma_numeral_len(a / 16);
        if b < 16 {
            assert(y.len() == 1);
            assert(x.len() > 1);
        }
        assert(x.drop_last() =~= numeral(a / 16, 16));
        assert(y.drop_last() =~= numeral(b / 16, 16));
        lemma_hex(a / 16, b / 16);
        assert(x.last() == digit(a % 16));
        assert(y.last() == digit(b % 16));
        lemma_digits_differ(a % 16, b % 16);
    }
}

proof fn lemma_numeral_len(n: nat)
    ensures
        numeral(n, 16).len() > 0,
    decreases n,
{
    if n >= 16 {
        lemma_numeral_len(n / 16);
    }
}

} // verus!
