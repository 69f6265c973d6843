//! Little-endian numbers in a block of bytes.

use vstd::prelude::*;

verus! {

/// The 32-bit number whose low byte is at `at`.
#[verifier::opaque]
pub open spec fn le32(s: Seq<u8>, at: int) -> u32 {
    (s[at] + s[at + 1] * 0x100 + s[at + 2] * 0x1_0000 + s[at + 3] * 0x100_0000) as u32
}

/// The 64-bit number whose low byte is at `at`.
pub open spec fn le64(s: Seq<u8>, at: int) -> u64 {
    (le32(s, at) + le32(s, at + 4) * 0x1_0000_0000) as u64
}

/// The four bytes of `value`, low byte first.
#[verifier::opaque]
pub open spec fn bytes32(value: u32) -> Seq<u8> {
    seq![
        (value % 0x100) as u8,
        (value / 0x100 % 0x100) as u8,
        (value / 0x1_0000 % 0x100) as u8,
        (value / 0x100_0000 % 0x100) as u8,
    ]
}

/// The eight bytes of `value`, low byte first.
pub open spec fn bytes64(value: u64) -> Seq<u8> {
    bytes32((value % 0x1_0000_0000) as u32) + bytes32((value / 0x1_0000_0000) as u32)
}

/// `s` with `part` written over it from `at` on.
pub open spec fn splice(s: Seq<u8>, at: int, part: Seq<u8>) -> Seq<u8> {
    Seq::new(
        s.len(),
        |i: int|
            if at <= i < at + part.len() {
                part[i - at]
            } else {
                s[i]
            },
    )
}

/// The bit pattern of a signed number, as an unsigned one.
pub open spec fn pattern64(value: i64) -> u64 {
    if value >= 0 {
        value as u64
    } else {
        (value + 0x1_0000_0000_0000_0000) as u64
    }
}

/// The signed number with this bit pattern.
pub open spec fn signed64(pattern: u64) -> i64 {
    if pattern < 0x8000_0000_0000_0000 {
        pattern as i64
    } else {
        (pattern - 0x1_0000_0000_0000_0000) as i64
    }
}

/// The bit pattern of a signed number, as an unsigned one.
pub open spec fn pattern32(value: i32) -> u32 {
    if value >= 0 {
        value as u32
    } else {
        (value + 0x1_0000_0000) as u32
    }
}

/// The signed number with this bit pattern.
pub open spec fn signed32(pattern: u32) -> i32 {
    if pattern < 0x8000_0000 {
        pattern as i32
    } else {
        (pattern - 0x1_0000_0000) as i32
    }
}

/// What was written is what is read.
pub(crate) proof fn lemma_bytes32(value: u32)
    ensures
        le32(bytes32(value), 0) == value,
        bytes32(value).len() == 4,
{
    reveal(le32);
    reveal(bytes32);
    let s = bytes32(value);
    assert(s[0] == value % 0x100);
    assert(s[1] == value / 0x100 % 0x100);
    assert(s[2] == value / 0x1_0000 % 0x100);
    assert(s[3] == value / 0x100_0000 % 0x100);
}

/// What was written is what is read, in the middle of a block too.
pub(crate) proof fn lemma_splice32(s: Seq<u8>, at: int, value: u32)
    requires
        0 <= at,
        at + 4 <= s.len(),
    ensures
        le32(splice(s, at, bytes32(value)), at) == value,
{
    lemma_bytes32(value);
    reveal(le32);
    let t = splice(s, at, bytes32(value));
    assert(t[at] == bytes32(value)[0]);
    assert(t[at + 1] == bytes32(value)[1]);
    assert(t[at + 2] == bytes32(value)[2]);
    assert(t[at + 3] == bytes32(value)[3]);
}

/// The bytes of a number are its digits to base 256.
proof fn lemma_le32_digits(s: Seq<u8>, a: int)
    ensures
        s[a] == le32(s, a) as int % 0x100,
        s[a + 1] == le32(s, a) as int / 0x100 % 0x100,
        s[a + 2] == le32(s, a) as int / 0x1_0000 % 0x100,
        s[a + 3] == le32(s, a) as int / 0x100_0000 % 0x100,
{
    reveal(le32);
    let n = le32(s, a) as int;
    let b0 = s[a] as int;
    let b1 = s[a + 1] as int;
    let b2 = s[a + 2] as int;
    let b3 = s[a + 3] as int;
    assert(n == b0 + b1 * 0x100 + b2 * 0x1_0000 + b3 * 0x100_0000);
    assert(n / 0x100 == b1 + b2 * 0x100 + b3 * 0x1_0000);
    assert(n / 0x1_0000 == b2 + b3 * 0x100);
    assert(n / 0x100_0000 == b3);
}

/// Two blocks that hold one number there hold the same four bytes.
pub(crate) proof fn lemma_le32_same(s: Seq<u8>, a: int, t: Seq<u8>, b: int)
    requires
        le32(s, a) == le32(t, b),
    ensures
        s[a] == t[b],
        s[a + 1] == t[b + 1],
        s[a + 2] == t[b + 2],
        s[a + 3] == t[b + 3],
{
    lemma_le32_digits(s, a);
    lemma_le32_digits(t, b);
}

/// Two blocks that hold the same four bytes hold one number there.
pub(crate) proof fn lemma_le32_congruent(s: Seq<u8>, a: int, t: Seq<u8>, b: int)
    requires
        s[a] == t[b],
        s[a + 1] == t[b + 1],
        s[a + 2] == t[b + 2],
        s[a + 3] == t[b + 3],
    ensures
        le32(s, a) == le32(t, b),
{
    reveal(le32);
}

/// What was written is what is read.
pub(crate) proof fn lemma_bytes64(value: u64)
    ensures
        le64(bytes64(value), 0) == value,
        bytes64(value).len() == 8,
{
    let low = (value % 0x1_0000_0000) as u32;
    let high = (value / 0x1_0000_0000) as u32;
    lemma_bytes32(low);
    lemma_bytes32(high);
    reveal(le32);
    let s = bytes64(value);
    assert(forall|i: int| 0 <= i < 4 ==> s[i] == bytes32(low)[i]);
    assert(s[4] == bytes32(high)[0]);
    assert(s[5] == bytes32(high)[1]);
    assert(s[6] == bytes32(high)[2]);
    assert(s[7] == bytes32(high)[3]);
    assert(le32(s, 0) == low);
    assert(le32(s, 4) == high);
}

/// The 32-bit number at `at`, if all of it is inside.
pub fn read_u32(memory: &[u8], at: u64) -> (r: Option<u32>)
    ensures
        r == if at + 4 <= memory@.len() {
            Some(le32(memory@, at as int))
        } else {
            None
        },
{
    let len: u64 = memory.len() as u64;
    if at <= len && len - at >= 4 {
        let i: usize = at as usize;
        proof {
            reveal(le32);
        }
        Some(
            memory[i] as u32 + memory[i + 1] as u32 * 0x100 + memory[i + 2] as u32 * 0x1_0000
                + memory[i + 3] as u32 * 0x100_0000,
        )
    } else {
        None
    }
}

/// The 64-bit number at `at`, if all of it is inside.
pub fn read_u64(memory: &[u8], at: u64) -> (r: Option<u64>)
    ensures
        r == if at + 8 <= memory@.len() {
            Some(le64(memory@, at as int))
        } else {
            None
        },
{
    let len: u64 = memory.len() as u64;
    if at <= len && len - at >= 8 {
        match (read_u32(memory, at), read_u32(memory, at + 4)) {
            (Some(low), Some(high)) => Some(low as u64 + high as u64 * 0x1_0000_0000),
            _ => None,
        }
    } else {
        None
    }
}

/// The bit pattern of a signed number, as an unsigned one.
pub fn to_pattern64(value: i64) -> (r: u64)
    ensures
        r == pattern64(value),
{
    if value >= 0 {
        value as u64
    } else {
        (value + i64::MAX + 1) as u64 + 0x8000_0000_0000_0000
    }
}

/// The signed number with this bit pattern.
pub fn to_signed64(pattern: u64) -> (r: i64)
    ensures
        r == signed64(pattern),
{
    if pattern < 0x8000_0000_0000_0000 {
        pattern as i64
    } else {
        (pattern - 0x8000_0000_0000_0000) as i64 + i64::MIN
    }
}

/// The bit pattern of a signed number, as an unsigned one.
pub fn to_pattern32(value: i32) -> (r: u32)
    ensures
        r == pattern32(value),
{
    if value >= 0 {
        value as u32
    } else {
        (value + i32::MAX + 1) as u32 + 0x8000_0000
    }
}

/// The signed number with this bit pattern.
pub fn to_signed32(pattern: u32) -> (r: i32)
    ensures
        r == signed32(pattern),
{
    if pattern < 0x8000_0000 {
        pattern as i32
    } else {
        (pattern - 0x8000_0000) as i32 + i32::MIN
    }
}

/// Writes `value` at `at`, over what was there.
pub fn put_u32(out: &mut Vec<u8>, at: usize, value: u32)
    requires
        at + 4 <= old(out)@.len(),
    ensures
        final(out)@ == splice(old(out)@, at as int, bytes32(value)),
{
    assert(at + 4 <= out.len());
    proof {
        reveal(bytes32);
    }
    out[at] = (value % 0x100) as u8;
    out[at + 1] = (value / 0x100 % 0x100) as u8;
    out[at + 2] = (value / 0x1_0000 % 0x100) as u8;
    out[at + 3] = (value / 0x100_0000 % 0x100) as u8;
    assert(out@ =~= splice(old(out)@, at as int, bytes32(value)));
}

/// Copies `len` bytes of `memory`, from `from` on, over `out` at `at`.
pub fn copy_bytes(out: &mut Vec<u8>, at: usize, memory: &[u8], from: usize, len: usize)
    requires
        at + len <= old(out)@.len(),
        from + len <= memory@.len(),
    ensures
        final(out)@ == splice(old(out)@, at as int, memory@.subrange(from as int, from + len)),
{
    let ghost before = out@;
    assert(at + len <= out.len());
    assert(from + len <= memory.len());
    for i in 0..len
        invariant
            at + len <= out.len(),
            out@.len() == before.len(),
            from + len <= memory.len(),
            forall|k: int|
                0 <= k < out@.len() ==> #[trigger] out@[k] == if at <= k < at + i {
                    memory@[from + (k - at)]
                } else {
                    before[k]
                },
    {
        out[at + i] = memory[from + i];
    }
    assert(out@ =~= splice(before, at as int, memory@.subrange(from as int, from + len)));
}

} // verus!
