//! Reading a line of text: the words in it, and the whole numbers they spell.

use vstd::prelude::*;
use vstd::std_specs::iter::IteratorSpec;

use crate::text::{decimal, digit, numeral};

verus! {

/// The characters that separate words: those Unicode calls white space.
pub open spec fn white(c: char) -> bool {
    let n = c as u32;
    ||| 0x09 <= n <= 0x0d
    ||| n == 0x20
    ||| n == 0x85
    ||| n == 0xa0
    ||| n == 0x1680
    ||| 0x2000 <= n <= 0x200a
    ||| n == 0x2028
    ||| n == 0x2029
    ||| n == 0x202f
    ||| n == 0x205f
    ||| n == 0x3000
}

fn is_white(c: char) -> (r: bool)
    ensures
        r == white(c),
{
    let n: u32 = c as u32;
    (0x09 <= n && n <= 0x0d) || n == 0x20 || n == 0x85 || n == 0xa0 || n == 0x1680 || (0x2000 <= n
        && n <= 0x200a) || n == 0x2028 || n == 0x2029 || n == 0x202f || n == 0x205f || n == 0x3000
}

/// The words that have ended in a text, and the one that has not.
pub open spec fn split(text: Seq<char>) -> (Seq<Seq<char>>, Seq<char>)
    decreases text.len(),
{
    if text.len() == 0 {
        (Seq::empty(), Seq::empty())
    } else {
        let (done, current) = split(text.drop_last());
        if white(text.last()) {
            if current.len() > 0 {
                (done.push(current), Seq::empty())
            } else {
                (done, current)
            }
        } else {
            (done, current.push(text.last()))
        }
    }
}

/// The words of a text: its longest runs of characters that are not white.
pub open spec fn words_in(text: Seq<char>) -> Seq<Seq<char>> {
    let (done, current) = split(text);
    if current.len() > 0 {
        done.push(current)
    } else {
        done
    }
}

/// What a list of words is.
pub open spec fn words_of(list: Seq<Vec<char>>) -> Seq<Seq<char>> {
    Seq::new(list.len(), |i: int| list[i]@)
}

/// The words of a text, in order.
pub fn words(text: &str) -> (r: Vec<Vec<char>>)
    ensures
        words_of(r@) == words_in(text@),
{
    let mut done: Vec<Vec<char>> = Vec::new();
    let mut current: Vec<char> = Vec::new();
    let mut chars = text.chars();
    let ghost mut seen: int = 0;
    assert(text@.take(0) =~= Seq::empty());
    assert(words_of(done@) =~= Seq::empty());
    assert(current@ =~= Seq::empty());
    let mut more: bool = true;
    while more
        invariant
            0 <= seen <= text@.len(),
            chars.obeys_prophetic_iter_laws(),
            chars.remaining() == text@.skip(seen),
            words_of(done@) == split(text@.take(seen)).0,
            current@ == split(text@.take(seen)).1,
            !more ==> seen == text@.len(),
        decreases text@.len() - seen + if more { 1int } else { 0int },
    {
        match chars.next() {
            Some(c) => {
                let ghost before = words_of(done@);
                proof {
                    assert(text@.take(seen + 1).drop_last() =~= text@.take(seen));
                    assert(text@.take(seen + 1).last() == c);
                    assert(text@.skip(seen).drop_first() =~= text@.skip(seen + 1));
                    seen = seen + 1;
                }
                if is_white(c) {
                    if current.len() > 0 {
                        let ghost word = current@;
                        done.push(current);
                        current = Vec::new();
                        assert(words_of(done@) =~= before.push(word));
                        assert(current@ =~= Seq::empty());
                    }
                } else {
                    current.push(c);
                }
            },
            None => {
                more = false;
            },
        }
    }
    assert(text@.take(text@.len() as int) =~= text@);
    if current.len() > 0 {
        let ghost before = words_of(done@);
        let ghost word = current@;
        done.push(current);
        assert(words_of(done@) =~= before.push(word));
    }
    done
}

/// The characters of a text.
pub fn letters(text: &str) -> (r: Vec<char>)
    ensures
        r@ == text@,
{
    let mut out: Vec<char> = Vec::new();
    let mut chars = text.chars();
    let ghost mut seen: int = 0;
    let mut more: bool = true;
    while more
        invariant
            0 <= seen <= text@.len(),
            chars.obeys_prophetic_iter_laws(),
            chars.remaining() == text@.skip(seen),
            out@ == text@.take(seen),
            !more ==> seen == text@.len(),
        decreases text@.len() - seen + if more { 1int } else { 0int },
    {
        match chars.next() {
            Some(c) => {
                out.push(c);
                proof {
                    assert(out@ =~= text@.take(seen + 1));
                    assert(text@.skip(seen).drop_first() =~= text@.skip(seen + 1));
                    seen = seen + 1;
                }
            },
            None => {
                more = false;
            },
        }
    }
    assert(text@.take(text@.len() as int) =~= text@);
    out
}

/// A word as a text.
pub fn word_text(word: &Vec<char>) -> (r: String)
    ensures
        r@ == word@,
{
    let mut out = String::new();
    for i in 0..word.len()
        invariant
            out@ == word@.take(i as int),
    {
        out.push(word[i]);
        assert(out@ =~= word@.take(i + 1));
    }
    assert(word@.take(word@.len() as int) =~= word@);
    out
}

/// Whether a character is a decimal digit.
pub open spec fn numeric(c: char) -> bool {
    '0' <= c <= '9'
}

/// The number decimal digits spell.
pub open spec fn value(digits: Seq<char>) -> nat
    decreases digits.len(),
{
    if digits.len() == 0 {
        0
    } else {
        value(digits.drop_last()) * 10 + (digits.last() as nat - '0' as nat) as nat
    }
}

/// The digits of a numeral, after its sign if it has one.
pub open spec fn digits_of(text: Seq<char>) -> Seq<char> {
    if text.len() > 0 && (text[0] == '+' || text[0] == '-') {
        text.skip(1)
    } else {
        text
    }
}

/// The whole number a text spells: an optional sign and then nothing but
/// digits, of which there is one, within 64 bits.
pub open spec fn int_in(text: Seq<char>) -> Option<i64> {
    let digits = digits_of(text);
    let size = value(digits) as int;
    let number = if text.len() > 0 && text[0] == '-' {
        -size
    } else {
        size
    };
    if digits.len() == 0 || !(forall|i: int| 0 <= i < digits.len() ==> numeric(#[trigger] digits[i]))
    {
        None
    } else if i64::MIN <= number <= i64::MAX {
        Some(number as i64)
    } else {
        None
    }
}

/// The whole number a word spells.
pub fn parse_int(word: &Vec<char>) -> (r: Option<i64>)
    ensures
        r == int_in(word@),
{
    let mut start: usize = 0;
    let mut negative: bool = false;
    if word.len() > 0 {
        if word[0] == '-' {
            negative = true;
            start = 1;
        } else if word[0] == '+' {
            start = 1;
        }
    }
    let ghost digits = digits_of(word@);
    assert(digits =~= word@.skip(start as int));
    if start == word.len() {
        return None;
    }
    let mut size: u64 = 0;
    let mut huge: bool = false;
    assert(digits.take(0) =~= Seq::empty());
    for i in start..word.len()
        invariant
            start <= 1,
            start <= word@.len(),
            digits == word@.skip(start as int),
            digits == digits_of(word@),
            forall|k: int| 0 <= k < i - start ==> numeric(#[trigger] digits[k]),
            !huge ==> size == value(digits.take(i - start)),
            huge ==> value(digits.take(i - start)) > 0x8000_0000_0000_0000,
    {
        let c: char = word[i];
        assert(digits[i - start] == c);
        if c < '0' || c > '9' {
            assert(!numeric(digits[i - start]));
            return None;
        }
        let low: u64 = (c as u32 - '0' as u32) as u64;
        assert(digits.take(i - start + 1).drop_last() =~= digits.take(i - start));
        assert(digits.take(i - start + 1).last() == c);
        if size > 0x1000_0000_0000_0000 {
            huge = true;
        }
        if !huge {
            size = size * 10 + low;
        }
        assert(numeric(digits[i - start]));
    }
    assert(digits.take(word@.len() - start) =~= digits);
    if huge {
        return None;
    }
    if negative {
        if size > 0x8000_0000_0000_0000 {
            None
        } else if size == 0x8000_0000_0000_0000 {
            Some(i64::MIN)
        } else {
            Some(-(size as i64))
        }
    } else if size > 0x7fff_ffff_ffff_ffff {
        None
    } else {
        Some(size as i64)
    }
}

proof fn lemma_digit(value: nat)
    requires
        value < 10,
    ensures
        numeric(digit(value)),
        digit(value) as nat - '0' as nat == value,
        digit(value) != '+',
        digit(value) != '-',
        !white(digit(value)),
{
    let code = (48 + value) as u8;
    assert(digit(value) == code as char);
}

/// A numeral is made of digits, spells the number it was made from, and has
/// neither a sign nor a space in it.
pub(crate) proof fn lemma_numeral(n: nat)
    ensures
        numeral(n, 10).len() > 0,
        value(numeral(n, 10)) == n,
        forall|i: int| 0 <= i < numeral(n, 10).len() ==> numeric(#[trigger] numeral(n, 10)[i]),
        forall|i: int| 0 <= i < numeral(n, 10).len() ==> !white(#[trigger] numeral(n, 10)[i]),
        numeral(n, 10)[0] != '+',
        numeral(n, 10)[0] != '-',
    decreases n,
{
    let text = numeral(n, 10);
    if n < 10 {
        lemma_digit(n);
        assert(text.drop_last() =~= Seq::empty());
        assert(text.last() == digit(n));
        assert(value(Seq::<char>::empty()) == 0);
    } else {
        lemma_numeral(n / 10);
        lemma_digit(n % 10);
        let before = numeral(n / 10, 10);
        assert(text == before.push(digit(n % 10)));
        assert(text.drop_last() =~= before);
        assert(text.last() == digit(n % 10));
        assert(n == (n / 10) * 10 + n % 10);
        assert(text[0] == before[0]);
    }
}

/// A number that is written is the number that is read.
pub proof fn a_number_survives_being_written(n: i64)
    ensures
        int_in(decimal(n as int)) == Some(n),
{
    reveal_strlit("-");
    if n < 0 {
        lemma_numeral((-n) as nat);
        let text = decimal(n as int);
        assert(text[0] == '-');
        assert(digits_of(text) =~= numeral((-n) as nat, 10));
    } else {
        lemma_numeral(n as nat);
    }
}

proof fn lemma_split_append(a: Seq<char>, b: Seq<char>)
    requires
        forall|i: int| 0 <= i < b.len() ==> !white(#[trigger] b[i]),
    ensures
        split(a + b) == (split(a).0, split(a).1 + b),
    decreases b.len(),
{
    if b.len() == 0 {
        assert(a + b =~= a);
        assert(split(a).1 + b =~= split(a).1);
    } else {
        lemma_split_append(a, b.drop_last());
        assert((a + b).drop_last() =~= a + b.drop_last());
        assert((a + b).last() == b.last());
        assert((split(a).1 + b.drop_last()).push(b.last()) =~= split(a).1 + b);
    }
}

/// What follows a word and a space is split as it would be alone.
proof fn lemma_split_after(a: Seq<char>, b: Seq<char>)
    requires
        one_word(a),
    ensures
        split(a + seq![' '] + b) == (seq![a] + split(b).0, split(b).1),
    decreases b.len(),
{
    let none = Seq::<char>::empty();
    let spaced = a + seq![' '];
    if b.len() == 0 {
        lemma_split_append(none, a);
        assert(none + a =~= a);
        assert(split(a).1 =~= a);
        assert(spaced.drop_last() =~= a);
        assert(spaced.last() == ' ');
        assert(spaced + b =~= spaced);
        assert(split(a).0.push(a) =~= seq![a] + split(b).0);
    } else {
        let before = b.drop_last();
        lemma_split_after(a, before);
        assert((spaced + b).drop_last() =~= spaced + before);
        assert((spaced + b).last() == b.last());
        let (done, current) = split(before);
        assert((seq![a] + done).push(current) =~= seq![a] + done.push(current));
    }
}

/// Whether a text is one word.
pub open spec fn one_word(text: Seq<char>) -> bool {
    &&& text.len() > 0
    &&& forall|i: int| 0 <= i < text.len() ==> !white(#[trigger] text[i])
}

/// A word and a space in front of a text is one more word.
pub proof fn a_word_in_front_is_one_more_word(a: Seq<char>, b: Seq<char>)
    requires
        one_word(a),
    ensures
        words_in(a + seq![' '] + b) == seq![a] + words_in(b),
{
    lemma_split_after(a, b);
    let (done, current) = split(b);
    assert((seq![a] + done).push(current) =~= seq![a] + done.push(current));
}

/// Two words with a space between them are those two words.
pub proof fn two_words_are_two_words(a: Seq<char>, b: Seq<char>)
    requires
        one_word(a),
        one_word(b),
    ensures
        words_in(a + seq![' '] + b) == seq![a, b],
        words_in(a) == seq![a],
{
    let none = Seq::<char>::empty();
    lemma_split_append(none, a);
    assert(none + a =~= a);
    lemma_split_append(none, b);
    assert(none + b =~= b);
    assert(words_in(a) =~= seq![a]);
    assert(words_in(b) =~= seq![b]);
    a_word_in_front_is_one_more_word(a, b);
    assert(seq![a] + seq![b] =~= seq![a, b]);
}

} // verus!
