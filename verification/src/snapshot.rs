//! An actor's state, lifted out of its arena so it can be put into another.
//!
//! One mechanism, three uses: hot reload restores the snapshot into a module
//! compiled from newer source, a crash report carries it, and the same bytes
//! can arrive from another machine. Nothing here knows what the bytes mean.
//! This module relocates and compares; it never interprets.

use vstd::prelude::*;

use crate::bytes::{
    bytes32, le32, lemma_bytes32, lemma_le32_congruent, lemma_le32_same, lemma_splice32, put_u32,
    read_u32, signed32, splice, to_signed32,
};
use crate::text::same_text;
use crate::val::Val;

verus! {

/// The state global's value: a pointer into the image, or a scalar that never
/// needed one.
#[derive(Clone, Copy, Debug, PartialEq, Eq, Structural)]
pub enum Root {
    /// An offset into [`Snapshot::bytes`].
    Pointer(u32),
    /// A `bool`, or the bare tag of a sum whose variants carry nothing.
    I32(i32),
    /// An `int`.
    I64(i64),
    /// A `float`, as bits, so a snapshot stays comparable.
    F64Bits(u64),
}

/// Everything an actor's state points at, as one relocatable image.
#[derive(Debug, Clone, PartialEq, Eq)]
pub struct Snapshot {
    /// The state type, as its fingerprint.
    pub shape: String,
    /// Every record, list, string and boxed variant the state reaches, at
    /// 8-byte-aligned offsets from the start.
    pub bytes: Vec<u8>,
    /// Offsets in `bytes` of 4-byte pointer fields. Each needs the address the
    /// image lands at added to it, and nothing else does.
    pub relocations: Vec<u32>,
    /// What the state global should hold once the image is in place.
    pub root: Root,
}

/// `bytes` once the first `count` sites have been moved by `base`.
pub open spec fn moved(bytes: Seq<u8>, sites: Seq<u32>, count: nat, base: u32) -> Seq<u8>
    decreases count,
{
    if count == 0 {
        bytes
    } else {
        let before = moved(bytes, sites, (count - 1) as nat, base);
        let at = sites[count - 1] as int;
        splice(before, at, bytes32((le32(before, at) + base) as u32))
    }
}

/// Whether an image can land at `base`: every site is inside it, and no
/// pointer leaves the address space on the way.
pub open spec fn movable(bytes: Seq<u8>, sites: Seq<u32>, base: u32) -> bool {
    forall|i: int|
        0 <= i < sites.len() ==> {
            &&& (#[trigger] sites[i]) + 4 <= bytes.len()
            &&& le32(moved(bytes, sites, i as nat, base), sites[i] as int) + base <= u32::MAX
        }
}

/// Whether no two sites share a byte.
pub open spec fn apart(sites: Seq<u32>) -> bool {
    forall|i: int, j: int|
        #![trigger sites[i], sites[j]]
        0 <= i < j < sites.len() ==> sites[i] + 4 <= sites[j] || sites[j] + 4 <= sites[i]
}

/// Whether `at` is one of the four bytes of some site.
pub open spec fn covered(sites: Seq<u32>, at: int) -> bool {
    exists|i: int| 0 <= i < sites.len() && #[trigger] sites[i] <= at < sites[i] + 4
}

/// The state global's value for an image at `base`.
pub open spec fn root_at(root: Root, base: u32) -> Val {
    match root {
        Root::Pointer(offset) => Val::I32(signed32((offset + base) as u32)),
        Root::I32(value) => Val::I32(value),
        Root::I64(value) => Val::I64(value),
        Root::F64Bits(bits) => Val::F64(bits),
    }
}

impl Snapshot {
    /// The image with every pointer in it moved to where the bytes actually
    /// landed.
    ///
    /// A relocation site holds a 4-byte pointer. That covers the `i64` payload
    /// slot of a `Result` too: the pointer was zero-extended into it, so the
    /// low four bytes are the whole of it.
    pub fn relocated(&self, base: u32) -> (r: Vec<u8>)
        requires
            movable(self.bytes@, self.relocations@, base),
        ensures
            r@ == moved(self.bytes@, self.relocations@, self.relocations@.len(), base),
    {
        let mut bytes: Vec<u8> = Vec::new();
        for i in 0..self.bytes.len()
            invariant
                bytes@ == self.bytes@.take(i as int),
        {
            bytes.push(self.bytes[i]);
            assert(bytes@ =~= self.bytes@.take(i + 1));
        }
        assert(bytes@ =~= self.bytes@);
        for i in 0..self.relocations.len()
            invariant
                movable(self.bytes@, self.relocations@, base),
                bytes@.len() == self.bytes@.len(),
                bytes@ == moved(self.bytes@, self.relocations@, i as nat, base),
        {
            let at: u32 = self.relocations[i];
            assert(at == self.relocations@[i as int]);
            if let Some(old_value) = read_u32(bytes.as_slice(), at as u64) {
                put_u32(&mut bytes, at as usize, old_value + base);
            }
        }
        bytes
    }

    /// What to put in the state global once the image is at `base`.
    pub fn root_value(&self, base: u32) -> (r: Val)
        requires
            self.root matches Root::Pointer(offset) ==> offset + base <= u32::MAX,
        ensures
            r == root_at(self.root, base),
    {
        match self.root {
            Root::Pointer(offset) => Val::I32(to_signed32(offset + base)),
            Root::I32(value) => Val::I32(value),
            Root::I64(value) => Val::I64(value),
            Root::F64Bits(bits) => Val::F64(bits),
        }
    }

    /// Whether this state can be restored into a module expecting `shape`.
    pub fn fits(&self, shape: &str) -> (r: bool)
        ensures
            r == (self.shape@ == shape@),
    {
        same_text(self.shape.as_str(), shape)
    }
}

proof fn lemma_moved_len(bytes: Seq<u8>, sites: Seq<u32>, count: nat, base: u32)
    ensures
        moved(bytes, sites, count, base).len() == bytes.len(),
    decreases count,
{
    if count > 0 {
        lemma_moved_len(bytes, sites, (count - 1) as nat, base);
    }
}

/// Relocation moves the pointers and nothing else: a byte outside every site
/// keeps its value.
pub proof fn relocation_keeps_the_rest(
    bytes: Seq<u8>,
    sites: Seq<u32>,
    count: nat,
    base: u32,
    at: int,
)
    requires
        count <= sites.len(),
        0 <= at < bytes.len(),
        !covered(sites, at),
    ensures
        moved(bytes, sites, count, base).len() == bytes.len(),
        moved(bytes, sites, count, base)[at] == bytes[at],
    decreases count,
{
    if count > 0 {
        relocation_keeps_the_rest(bytes, sites, (count - 1) as nat, base, at);
        let site = sites[count - 1];
        let before = moved(bytes, sites, (count - 1) as nat, base);
        lemma_bytes32((le32(before, site as int) + base) as u32);
        assert(!(site <= at < site + 4));
    }
}

proof fn lemma_moved_site(bytes: Seq<u8>, sites: Seq<u32>, count: nat, base: u32, i: int)
    requires
        count <= sites.len(),
        0 <= i < sites.len(),
        apart(sites),
        forall|k: int| 0 <= k < sites.len() ==> (#[trigger] sites[k]) + 4 <= bytes.len(),
        le32(bytes, sites[i] as int) + base <= u32::MAX,
    ensures
        le32(moved(bytes, sites, count, base), sites[i] as int) == if i < count {
            (le32(bytes, sites[i] as int) + base) as u32
        } else {
            le32(bytes, sites[i] as int)
        },
    decreases count,
{
    if count > 0 {
        let before = moved(bytes, sites, (count - 1) as nat, base);
        lemma_moved_site(bytes, sites, (count - 1) as nat, base, i);
        lemma_moved_len(bytes, sites, (count - 1) as nat, base);
        let at = sites[count - 1] as int;
        let value = (le32(before, at) + base) as u32;
        if i == count - 1 {
            lemma_splice32(before, at, value);
        } else {
            assert(sites[i] + 4 <= sites[count - 1] || sites[count - 1] + 4 <= sites[i]);
            let after = splice(before, at, bytes32(value));
            let here = sites[i] as int;
            lemma_bytes32(value);
            assert(after[here] == before[here]);
            assert(after[here + 1] == before[here + 1]);
            assert(after[here + 2] == before[here + 2]);
            assert(after[here + 3] == before[here + 3]);
            lemma_le32_congruent(after, here, before, here);
        }
    }
}

/// Relocation adds the base to each pointer, exactly once, wherever the sites
/// do not overlap and every pointer stays in the address space.
pub proof fn relocation_moves_each_pointer(bytes: Seq<u8>, sites: Seq<u32>, base: u32)
    requires
        apart(sites),
        forall|k: int|
            0 <= k < sites.len() ==> {
                &&& (#[trigger] sites[k]) + 4 <= bytes.len()
                &&& le32(bytes, sites[k] as int) + base <= u32::MAX
            },
    ensures
        movable(bytes, sites, base),
        forall|k: int|
            0 <= k < sites.len() ==> le32(
                moved(bytes, sites, sites.len(), base),
                (#[trigger] sites[k]) as int,
            ) == le32(bytes, sites[k] as int) + base,
{
    assert forall|k: int| 0 <= k < sites.len() implies le32(
        moved(bytes, sites, sites.len(), base),
        (#[trigger] sites[k]) as int,
    ) == le32(bytes, sites[k] as int) + base by {
        lemma_moved_site(bytes, sites, sites.len(), base, k);
    }
    assert forall|i: int| 0 <= i < sites.len() implies {
        &&& (#[trigger] sites[i]) + 4 <= bytes.len()
        &&& le32(moved(bytes, sites, i as nat, base), sites[i] as int) + base <= u32::MAX
    } by {
        lemma_moved_site(bytes, sites, i as nat, base, i);
    }
}

/// An image moved to `0` is the image as it was.
pub proof fn relocation_to_zero_is_nothing(bytes: Seq<u8>, sites: Seq<u32>, count: nat)
    requires
        count <= sites.len(),
        forall|k: int| 0 <= k < sites.len() ==> (#[trigger] sites[k]) + 4 <= bytes.len(),
    ensures
        moved(bytes, sites, count, 0) == bytes,
    decreases count,
{
    if count > 0 {
        relocation_to_zero_is_nothing(bytes, sites, (count - 1) as nat);
        let at = sites[count - 1] as int;
        let value = le32(bytes, at);
        lemma_splice32(bytes, at, value);
        lemma_bytes32(value);
        lemma_le32_same(splice(bytes, at, bytes32(value)), at, bytes, at);
        assert(splice(bytes, at, bytes32(value)) =~= bytes) by {
            assert forall|k: int| 0 <= k < bytes.len() implies splice(
                bytes,
                at,
                bytes32(value),
            )[k] == bytes[k] by {
                if at <= k < at + 4 {
                    assert(k == at || k == at + 1 || k == at + 2 || k == at + 3);
                }
            }
        }
    }
}

/// Moving an image twice is moving it once by both: to one base and then by
/// another is to their sum, wherever the sites do not overlap and every pointer
/// stays in the address space.
pub proof fn relocating_twice_is_relocating_once(bytes: Seq<u8>, sites: Seq<u32>, a: u32, b: u32)
    requires
        apart(sites),
        a + b <= u32::MAX,
        forall|k: int|
            0 <= k < sites.len() ==> {
                &&& (#[trigger] sites[k]) + 4 <= bytes.len()
                &&& le32(bytes, sites[k] as int) + a + b <= u32::MAX
            },
    ensures
        moved(moved(bytes, sites, sites.len(), a), sites, sites.len(), b) == moved(
            bytes,
            sites,
            sites.len(),
            (a + b) as u32,
        ),
{
    let n = sites.len();
    let both = (a + b) as u32;
    let first = moved(bytes, sites, n, a);
    let twice = moved(first, sites, n, b);
    let once = moved(bytes, sites, n, both);
    lemma_moved_len(bytes, sites, n, a);
    lemma_moved_len(first, sites, n, b);
    lemma_moved_len(bytes, sites, n, both);
    relocation_moves_each_pointer(bytes, sites, a);
    assert forall|k: int| 0 <= k < sites.len() implies {
        &&& (#[trigger] sites[k]) + 4 <= first.len()
        &&& le32(first, sites[k] as int) + b <= u32::MAX
    } by {}
    relocation_moves_each_pointer(first, sites, b);
    relocation_moves_each_pointer(bytes, sites, both);
    assert forall|at: int| 0 <= at < bytes.len() implies twice[at] == once[at] by {
        if covered(sites, at) {
            let i = choose|i: int| 0 <= i < sites.len() && #[trigger] sites[i] <= at < sites[i] + 4;
            let site = sites[i] as int;
            lemma_le32_same(twice, site, once, site);
            assert(at == site || at == site + 1 || at == site + 2 || at == site + 3);
        } else {
            relocation_keeps_the_rest(bytes, sites, n, a, at);
            relocation_keeps_the_rest(first, sites, n, b, at);
            relocation_keeps_the_rest(bytes, sites, n, both, at);
        }
    }
    assert(twice =~= once);
}

/// The root lands where the image does: a pointer is moved by the base, as the
/// number that carries it, and a value that is no pointer stays what it was.
pub proof fn the_root_lands_with_the_image(offset: u32, value: i32, wide: i64, bits: u64, base: u32)
    requires
        offset + base <= u32::MAX,
    ensures
        root_at(Root::Pointer(offset), base) matches Val::I32(pointer) && if pointer >= 0 {
            pointer == offset + base
        } else {
            pointer + 0x1_0000_0000 == offset + base
        },
        root_at(Root::I32(value), base) == Val::I32(value),
        root_at(Root::I64(wide), base) == Val::I64(wide),
        root_at(Root::F64Bits(bits), base) == Val::F64(bits),
{
}

} // verus!
