//! What survives a trip through a snapshot.
//!
//! A walk copies a graph of objects into one image. Here it is shown that the
//! image is the graph again: every object is in it with the bytes it had,
//! every pointer leads to the copy of what it led to, and reading the image
//! where it lands finds the state that was captured.

use vstd::prelude::*;

use crate::bytes::{
    bytes32, le32, lemma_bytes32, lemma_le32_congruent, lemma_le32_same, lemma_splice32, pattern32,
    signed32, splice,
};
use crate::capture::{
    addresses, cell, copied, empty_image, entered, lemma_head_fits, lemma_slots_fit, lifted, linked,
    links, object, outline, padded, place, places, CaptureError, Image, Outline, Slot,
};
use crate::fingerprint::{a_snapshot_fits_where_there_is_no_difference, plainly_named};
use crate::hir::{fields_known, Hir, SumId, Ty};
use crate::kin::{
    kin, kin_cells, kin_outlines, lemma_kin, lemma_kin_cells, lemma_kin_outlines, lemma_matched,
    names_distinct,
};
use crate::layout::{lemma_offset, lemma_offset_order, WORD};
use crate::shape::{form, written};
use crate::snapshot::{
    apart, covered, movable, moved, relocation_keeps_the_rest, relocation_moves_each_pointer,
    root_at, Root,
};
use crate::val::Val;

verus! {

/// Whether `at` is where a pointer was recorded.
pub open spec fn marked(sites: Seq<u32>, at: int) -> bool {
    exists|k: int| 0 <= k < sites.len() && #[trigger] sites[k] == at
}

/// Whether a type is of a record without fields, so that its objects take no
/// room.
pub open spec fn hollow(hir: Hir, ty: Ty) -> bool {
    ty matches Ty::Record(id) && hir.records@[id.0 as int].fields@.len() == 0
}

/// Whether no object in an image is without room.
pub open spec fn filled(hir: Hir, s: Image) -> bool {
    forall|p: u32| #[trigger] s.seen.contains_key(p) ==> !hollow(hir, s.kinds[p])
}

/// Whether no two objects in an image share an offset, unless neither of them
/// takes any room.
pub open spec fn unshared(hir: Hir, s: Image) -> bool {
    forall|p: u32, q: u32|
        #![trigger s.seen[p], s.seen[q]]
        s.seen.contains_key(p) && s.seen.contains_key(q) && p != q && s.seen[p] == s.seen[q]
            ==> hollow(hir, s.kinds[p]) && hollow(hir, s.kinds[q])
}

/// What holds of an image at every step of a walk.
pub open spec fn sound(hir: Hir, s: Image) -> bool {
    &&& s.bytes.len() % 8 == 0
    &&& s.bytes.len() <= u32::MAX
    &&& forall|k: int|
        0 <= k < s.sites.len() ==> {
            &&& (#[trigger] s.sites[k]) % 8 == 0
            &&& s.sites[k] + 8 <= s.bytes.len()
            &&& le32(s.bytes, s.sites[k] as int) <= s.bytes.len()
        }
    &&& forall|k: int, l: int|
        #![trigger s.sites[k], s.sites[l]]
        0 <= k < l < s.sites.len() ==> s.sites[k] != s.sites[l]
    &&& forall|p: u32| #[trigger]
        s.seen.contains_key(p) ==> {
            &&& s.seen[p] % 8 == 0
            &&& s.seen[p] <= s.bytes.len()
            &&& filled(hir, s) ==> s.seen[p] + 8 <= s.bytes.len()
        }
    &&& filled(hir, s) ==> forall|p: u32, q: u32|
        #![trigger s.seen[p], s.seen[q]]
        s.seen.contains_key(p) && s.seen.contains_key(q) && p != q ==> s.seen[p] != s.seen[q]
}

/// Whether `t` is `s` gone on: what was there is still there, except between
/// `lo` and `hi`.
pub open spec fn grown(s: Image, t: Image, lo: int, hi: int) -> bool {
    &&& s.bytes.len() <= t.bytes.len()
    &&& forall|j: int|
        0 <= j < s.bytes.len() && !(lo <= j < hi) ==> #[trigger] t.bytes[j] == s.bytes[j]
    &&& s.sites.len() <= t.sites.len()
    &&& forall|k: int| 0 <= k < s.sites.len() ==> #[trigger] t.sites[k] == s.sites[k]
    &&& forall|k: int|
        s.sites.len() <= k < t.sites.len() ==> (#[trigger] t.sites[k]) >= s.bytes.len() || lo
            <= t.sites[k] < hi
    &&& forall|p: u32| #[trigger]
        s.seen.contains_key(p) ==> t.seen.contains_key(p) && t.seen[p] == s.seen[p] && t.kinds[p]
            == s.kinds[p]
}

/// Whether the place of type `ty` at `to` in the image holds what the one at
/// `from` in the arena does.
pub open spec fn faithful(
    hir: Hir,
    memory: Seq<u8>,
    t: Image,
    ty: Ty,
    from: int,
    to: int,
) -> bool {
    cell(hir, memory, ty, from) matches Ok(c) && {
        &&& to % 8 == 0
        &&& 0 <= to
        &&& to + ty.words() * 8 <= t.bytes.len()
        &&& match c.link {
            None => {
                &&& forall|j: int|
                    0 <= j < c.copy ==> #[trigger] t.bytes[to + j] == memory[from + j]
                &&& forall|w: int| to <= w < to + c.copy ==> !marked(t.sites, w)
            },
            Some(link) => {
                let q = le32(memory, from + link.offset);
                let there = to + link.offset;
                &&& forall|j: int|
                    0 <= j < c.copy && !(link.offset <= j < link.offset + 4)
                        ==> #[trigger] t.bytes[to + j] == memory[from + j]
                &&& forall|w: int| to <= w < there ==> !marked(t.sites, w)
                &&& if q == 0 {
                    le32(t.bytes, there) == 0 && !marked(t.sites, there)
                } else {
                    &&& marked(t.sites, there)
                    &&& t.seen.contains_key(q)
                    &&& le32(t.bytes, there) == t.seen[q]
                }
            },
        }
    }
}

/// Whether the object at `p` is whole in the image.
pub open spec fn whole(hir: Hir, memory: Seq<u8>, t: Image, p: u32) -> bool {
    outline(hir, memory, t.kinds[p], p) matches Ok(o) && {
        let at = t.seen[p] as int;
        &&& at + padded(o.size) <= t.bytes.len()
        &&& o.head > 0 ==> p + o.head <= memory.len()
        &&& forall|j: int| 0 <= j < o.head ==> #[trigger] t.bytes[at + j] == memory[p + j]
        &&& forall|w: int| at <= w < at + o.head ==> !marked(t.sites, w)
        &&& forall|k: int|
            0 <= k < o.slots.len() ==> faithful(
                hir,
                memory,
                t,
                (#[trigger] o.slots[k]).ty,
                p + o.slots[k].offset,
                at + o.slots[k].offset,
            )
    }
}

/// Whether everything `t` has that `s` had not is whole, and behind it.
pub open spec fn fresh_whole(hir: Hir, memory: Seq<u8>, s: Image, t: Image) -> bool {
    forall|p: u32| #[trigger]
        t.seen.contains_key(p) && !s.seen.contains_key(p) ==> {
            &&& t.seen[p] >= s.bytes.len()
            &&& whole(hir, memory, t, p)
        }
}

proof fn lemma_unmarked(s: Image, t: Image, lo: int, hi: int, w: int)
    requires
        grown(s, t, lo, hi),
        !marked(s.sites, w),
        w < s.bytes.len(),
        !(lo <= w < hi),
    ensures
        !marked(t.sites, w),
{
    if marked(t.sites, w) {
        let k = choose|k: int| 0 <= k < t.sites.len() && #[trigger] t.sites[k] == w;
        if k < s.sites.len() {
            assert(s.sites[k] == w);
        }
    }
}

proof fn lemma_marked(s: Image, t: Image, lo: int, hi: int, w: int)
    requires
        grown(s, t, lo, hi),
        marked(s.sites, w),
    ensures
        marked(t.sites, w),
{
    let k = choose|k: int| 0 <= k < s.sites.len() && #[trigger] s.sites[k] == w;
    assert(t.sites[k] == w);
}

proof fn lemma_grown_trans(s: Image, t: Image, u: Image, lo: int, hi: int, lo2: int, hi2: int)
    requires
        grown(s, t, lo, hi),
        grown(t, u, lo2, hi2),
        (lo <= lo2 && hi2 <= hi) || lo2 >= s.bytes.len() || hi2 <= lo2,
    ensures
        grown(s, u, lo, hi),
{
    assert forall|j: int| 0 <= j < s.bytes.len() && !(lo <= j < hi) implies #[trigger] u.bytes[j]
        == s.bytes[j] by {
        assert(t.bytes[j] == s.bytes[j]);
    }
    assert forall|k: int| 0 <= k < s.sites.len() implies #[trigger] u.sites[k] == s.sites[k] by {
        assert(t.sites[k] == s.sites[k]);
    }
    assert forall|k: int| s.sites.len() <= k < u.sites.len() implies (#[trigger] u.sites[k])
        >= s.bytes.len() || lo <= u.sites[k] < hi by {
        if k < t.sites.len() {
            assert(u.sites[k] == t.sites[k]);
        }
    }
    assert forall|p: u32| #[trigger] s.seen.contains_key(p) implies u.seen.contains_key(p)
        && u.seen[p] == s.seen[p] && u.kinds[p] == s.kinds[p] by {
        assert(t.seen.contains_key(p));
    }
}

/// A place outside the hole stays as it is.
proof fn lemma_faithful_stays(
    hir: Hir,
    memory: Seq<u8>,
    s: Image,
    t: Image,
    lo: int,
    hi: int,
    ty: Ty,
    from: int,
    to: int,
)
    requires
        faithful(hir, memory, s, ty, from, to),
        grown(s, t, lo, hi),
        hi <= lo || to + ty.words() * 8 <= lo || hi <= to,
    ensures
        faithful(hir, memory, t, ty, from, to),
{
    let c = cell(hir, memory, ty, from)->Ok_0;
    lemma_cell_fits(hir, memory, ty, from);
    match c.link {
        None => {
            assert forall|j: int| 0 <= j < c.copy implies #[trigger] t.bytes[to + j] == memory[from
                + j] by {
                assert(s.bytes[to + j] == memory[from + j]);
            }
            assert forall|w: int| to <= w < to + c.copy implies !marked(t.sites, w) by {
                lemma_unmarked(s, t, lo, hi, w);
            }
        },
        Some(link) => {
            let q = le32(memory, from + link.offset);
            let there = to + link.offset;
            assert forall|j: int|
                0 <= j < c.copy && !(link.offset <= j < link.offset + 4) implies #[trigger] t.bytes[to
                + j] == memory[from + j] by {
                assert(s.bytes[to + j] == memory[from + j]);
            }
            assert forall|w: int| to <= w < there implies !marked(t.sites, w) by {
                lemma_unmarked(s, t, lo, hi, w);
            }
            assert(t.bytes[there] == s.bytes[there]);
            assert(t.bytes[there + 1] == s.bytes[there + 1]);
            assert(t.bytes[there + 2] == s.bytes[there + 2]);
            assert(t.bytes[there + 3] == s.bytes[there + 3]);
            lemma_le32_congruent(t.bytes, there, s.bytes, there);
            if q == 0 {
                lemma_unmarked(s, t, lo, hi, there);
            } else {
                lemma_marked(s, t, lo, hi, there);
            }
        },
    }
}

/// What a cell copies or links to is inside its place.
proof fn lemma_cell_fits(hir: Hir, memory: Seq<u8>, ty: Ty, from: int)
    requires
        cell(hir, memory, ty, from) is Ok,
    ensures
        ({
            let c = cell(hir, memory, ty, from)->Ok_0;
            &&& c.copy <= ty.words() * 8
            &&& c.copy > 0 ==> from + c.copy <= memory.len()
            &&& c.copy == 0 || c.copy == ty.words() * 8
            &&& c.link matches Some(link) ==> {
                &&& link.offset == 0 || link.offset == 8
                &&& link.offset == 0 ==> c.copy == 0
                &&& link.offset == 8 ==> c.copy == 16
                &&& link.offset + 8 <= ty.words() * 8
                &&& from + link.offset + 4 <= memory.len()
                &&& links(hir, link.ty)
            }
        }),
{
}

/// An object outside the hole stays whole.
proof fn lemma_whole_stays(
    hir: Hir,
    memory: Seq<u8>,
    s: Image,
    t: Image,
    lo: int,
    hi: int,
    p: u32,
)
    requires
        s.seen.contains_key(p),
        whole(hir, memory, s, p),
        grown(s, t, lo, hi),
        hi <= lo || hi <= s.seen[p],
    ensures
        whole(hir, memory, t, p),
{
    let o = outline(hir, memory, s.kinds[p], p)->Ok_0;
    let at = s.seen[p] as int;
    lemma_head_fits(hir, memory, s.kinds[p], p);
    assert forall|j: int| 0 <= j < o.head implies #[trigger] t.bytes[at + j] == memory[p + j] by {
        assert(s.bytes[at + j] == memory[p + j]);
    }
    assert forall|w: int| at <= w < at + o.head implies !marked(t.sites, w) by {
        lemma_unmarked(s, t, lo, hi, w);
    }
    assert forall|k: int| 0 <= k < o.slots.len() implies faithful(
        hir,
        memory,
        t,
        (#[trigger] o.slots[k]).ty,
        p + o.slots[k].offset,
        at + o.slots[k].offset,
    ) by {
        lemma_faithful_stays(
            hir,
            memory,
            s,
            t,
            lo,
            hi,
            o.slots[k].ty,
            p + o.slots[k].offset,
            at + o.slots[k].offset,
        );
    }
}

/// Later places start after earlier ones have ended.
proof fn lemma_slots_order(hir: Hir, memory: Seq<u8>, ty: Ty, ptr: u32, index: int)
    requires
        outline(hir, memory, ty, ptr) matches Ok(o) && 0 <= index && index + 1 < o.slots.len(),
    ensures
        ({
            let slots = outline(hir, memory, ty, ptr)->Ok_0.slots;
            slots[index].offset + slots[index].ty.words() * 8 <= slots[index + 1].offset
        }),
{
    let o = outline(hir, memory, ty, ptr)->Ok_0;
    match ty {
        Ty::List(elem) => {
            let w = (elem.words() * WORD) as int;
            assert(w * (index + 1) == w * index + w) by (nonlinear_arith);
        },
        Ty::Record(id) => {
            let fields = hir.records@[id.0 as int].fields@;
            lemma_offset_order(fields, index as nat, (index + 1) as nat);
        },
        Ty::Sum(id) => {
            let def = hir.sums@[id.0 as int];
            let tag = le32(memory, ptr as int) as nat;
            let fields = def.variants@[tag as int].fields@;
            lemma_offset_order(fields, index as nat, (index + 1) as nat);
        },
        _ => {},
    }
}

/// Writing over words that hold no pointer keeps an image sound.
proof fn lemma_overwrite(hir: Hir, s: Image, to: int, width: int, at: int, part: Seq<u8>)
    requires
        sound(hir, s),
        0 <= to,
        to % 8 == 0,
        width % 8 == 0,
        to <= at,
        at + part.len() <= to + width,
        to + width <= s.bytes.len(),
        forall|w: int| to <= w < to + width ==> !marked(s.sites, w),
    ensures
        sound(hir, Image { bytes: splice(s.bytes, at, part), ..s }),
        grown(s, Image { bytes: splice(s.bytes, at, part), ..s }, to, to + width),
{
    let t = Image { bytes: splice(s.bytes, at, part), ..s };
    assert forall|k: int| 0 <= k < t.sites.len() implies {
        &&& (#[trigger] t.sites[k]) % 8 == 0
        &&& t.sites[k] + 8 <= t.bytes.len()
        &&& le32(t.bytes, t.sites[k] as int) <= t.bytes.len()
    } by {
        let site = s.sites[k] as int;
        assert(marked(s.sites, site));
        assert(site + 8 <= to || to + width <= site);
        assert(t.bytes[site] == s.bytes[site]);
        assert(t.bytes[site + 1] == s.bytes[site + 1]);
        assert(t.bytes[site + 2] == s.bytes[site + 2]);
        assert(t.bytes[site + 3] == s.bytes[site + 3]);
        lemma_le32_congruent(t.bytes, site, s.bytes, site);
    }
    assert forall|k: int, l: int|
        #![trigger t.sites[k], t.sites[l]]
        0 <= k < l < t.sites.len() implies t.sites[k] != t.sites[l] by {
        assert(s.sites[k] != s.sites[l]);
    }
}

/// Recording a pointer in a word that held none keeps an image sound.
proof fn lemma_link(hir: Hir, s: Image, to: int, child: u32)
    requires
        sound(hir, s),
        0 <= to,
        to % 8 == 0,
        to + 8 <= s.bytes.len(),
        forall|w: int| to <= w < to + 8 ==> !marked(s.sites, w),
        child <= s.bytes.len(),
    ensures
        sound(hir, linked(s, to, child)),
        grown(s, linked(s, to, child), to, to + 8),
        marked(linked(s, to, child).sites, to),
        le32(linked(s, to, child).bytes, to) == child,
{
    let t = linked(s, to, child);
    let t0 = Image { bytes: t.bytes, ..s };
    lemma_bytes32(child);
    lemma_overwrite(hir, s, to, 8, to, bytes32(child));
    lemma_splice32(s.bytes, to, child);
    assert(t.sites[s.sites.len() as int] == to);
    assert forall|k: int| 0 <= k < t.sites.len() implies {
        &&& (#[trigger] t.sites[k]) % 8 == 0
        &&& t.sites[k] + 8 <= t.bytes.len()
        &&& le32(t.bytes, t.sites[k] as int) <= t.bytes.len()
    } by {
        if k < s.sites.len() {
            assert(t.sites[k] == t0.sites[k]);
        }
    }
    assert forall|k: int, l: int|
        #![trigger t.sites[k], t.sites[l]]
        0 <= k < l < t.sites.len() implies t.sites[k] != t.sites[l] by {
        assert(t.sites[k] == s.sites[k]);
        if l < s.sites.len() {
            assert(t.sites[l] == s.sites[l]);
        } else {
            assert(marked(s.sites, s.sites[k] as int));
        }
    }
}

/// Making room for an object keeps an image sound, and the room is empty.
proof fn lemma_enter(hir: Hir, memory: Seq<u8>, ty: Ty, ptr: u32, s: Image)
    requires
        sound(hir, s),
        !s.seen.contains_key(ptr),
        ty.known(hir),
        outline(hir, memory, ty, ptr) matches Ok(o) && {
            &&& s.bytes.len() + padded(o.size) <= u32::MAX
            &&& o.head > 0 ==> ptr + o.head <= memory.len()
        },
    ensures
        ({
            let o = outline(hir, memory, ty, ptr)->Ok_0;
            let t = entered(s, memory, ty, ptr, o);
            let at = s.bytes.len() as int;
            &&& sound(hir, t)
            &&& grown(s, t, 0, 0)
            &&& t.bytes.len() == at + padded(o.size)
            &&& forall|j: int| 0 <= j < o.head ==> #[trigger] t.bytes[at + j] == memory[ptr + j]
            &&& forall|j: int|
                at + o.head <= j < at + padded(o.size) ==> #[trigger] t.bytes[j] == 0
            &&& forall|w: int| at <= w ==> !marked(t.sites, w)
        }),
{
    let o = outline(hir, memory, ty, ptr)->Ok_0;
    let t = entered(s, memory, ty, ptr, o);
    let at = s.bytes.len() as int;
    lemma_head_fits(hir, memory, ty, ptr);
    assert(padded(o.size) % 8 == 0);
    if filled(hir, t) {
        assert(t.seen.contains_key(ptr) && t.kinds[ptr] == ty);
        assert forall|p: u32| #[trigger] s.seen.contains_key(p) implies !hollow(
            hir,
            s.kinds[p],
        ) by {
            assert(t.seen.contains_key(p));
        }
        assert(filled(hir, s));
        match ty {
            Ty::Record(id) => {
                let fields = hir.records@[id.0 as int].fields@;
                lemma_offset(fields, fields.len());
            },
            Ty::List(elem) => {
                let count = le32(memory, ptr as int) as int;
                let w = (elem.words() * WORD) as int;
                assert(w * count >= 0) by (nonlinear_arith)
                    requires
                        w >= 0,
                        count >= 0,
                ;
            },
            _ => {},
        }
        assert(padded(o.size) >= 8);
    }
    assert forall|j: int| 0 <= j < s.bytes.len() implies #[trigger] t.bytes[j] == s.bytes[j] by {}
    assert forall|k: int| 0 <= k < t.sites.len() implies {
        &&& (#[trigger] t.sites[k]) % 8 == 0
        &&& t.sites[k] + 8 <= t.bytes.len()
        &&& le32(t.bytes, t.sites[k] as int) <= t.bytes.len()
    } by {
        let site = s.sites[k] as int;
        assert(t.bytes[site] == s.bytes[site]);
        assert(t.bytes[site + 1] == s.bytes[site + 1]);
        assert(t.bytes[site + 2] == s.bytes[site + 2]);
        assert(t.bytes[site + 3] == s.bytes[site + 3]);
        lemma_le32_congruent(t.bytes, site, s.bytes, site);
    }
    assert forall|w: int| at <= w implies !marked(t.sites, w) by {
        if marked(t.sites, w) {
            let k = choose|k: int| 0 <= k < t.sites.len() && #[trigger] t.sites[k] == w;
            assert(s.sites[k] + 8 <= s.bytes.len());
        }
    }
    assert forall|p: u32| #[trigger] t.seen.contains_key(p) implies {
        &&& t.seen[p] % 8 == 0
        &&& t.seen[p] <= t.bytes.len()
        &&& filled(hir, t) ==> t.seen[p] + 8 <= t.bytes.len()
    } by {
        if p != ptr {
            assert(s.seen.contains_key(p));
        }
    }
    if filled(hir, t) {
        assert forall|p: u32, q: u32|
            #![trigger t.seen[p], t.seen[q]]
            t.seen.contains_key(p) && t.seen.contains_key(q) && p != q implies t.seen[p]
            != t.seen[q] by {
            if p != ptr {
                assert(s.seen.contains_key(p));
            }
            if q != ptr {
                assert(s.seen.contains_key(q));
            }
            if p != ptr && q != ptr {
                assert(s.seen[p] != s.seen[q]);
            }
        }
    }
}

/// A walk from an object keeps what was there, and leaves what it adds whole.
proof fn lemma_object(hir: Hir, memory: Seq<u8>, ty: Ty, ptr: u32, s: Image, depth: nat)
    requires
        hir.valid(),
        ty.known(hir),
        sound(hir, s),
        object(hir, memory, ty, ptr, s, depth) is Ok,
    ensures
        ({
            let (at, t) = object(hir, memory, ty, ptr, s, depth)->Ok_0;
            &&& sound(hir, t)
            &&& grown(s, t, 0, 0)
            &&& fresh_whole(hir, memory, s, t)
            &&& t.seen.contains_key(ptr)
            &&& t.seen[ptr] == at
        }),
    decreases depth, 0nat, 0nat,
{
    if !s.seen.contains_key(ptr) {
        let (at, t) = object(hir, memory, ty, ptr, s, depth)->Ok_0;
        let o = outline(hir, memory, ty, ptr)->Ok_0;
        let start = entered(s, memory, ty, ptr, o);
        let deeper = (depth - 1) as nat;
        let base = s.bytes.len() as int;
        lemma_enter(hir, memory, ty, ptr, s);
        lemma_head_fits(hir, memory, ty, ptr);
        if o.slots.len() > 0 {
            lemma_slots_fit(hir, memory, ty, ptr, 0);
        }
        lemma_places(hir, memory, ty, ptr, base, 0, start, deeper);
        let lo = hole(o, base, 0);
        let hi = base + padded(o.size);
        assert(start.seen.contains_key(ptr));
        lemma_grown_trans(s, start, t, 0, 0, lo, hi);
        assert(whole(hir, memory, t, ptr)) by {
            assert forall|j: int| 0 <= j < o.head implies #[trigger] t.bytes[base + j] == memory[ptr
                + j] by {
                assert(start.bytes[base + j] == memory[ptr + j]);
            }
            assert forall|w: int| base <= w < base + o.head implies !marked(t.sites, w) by {
                lemma_unmarked(start, t, lo, hi, w);
            }
        }
        assert forall|p: u32| #[trigger]
            t.seen.contains_key(p) && !s.seen.contains_key(p) implies {
            &&& t.seen[p] >= s.bytes.len()
            &&& whole(hir, memory, t, p)
        } by {
            if p != ptr {
                assert(!start.seen.contains_key(p));
            }
        }
    }
}

/// Where the places from `index` on begin.
pub open spec fn hole(o: Outline, at: int, index: nat) -> int {
    if index < o.slots.len() {
        at + o.slots[index as int].offset
    } else {
        at + padded(o.size)
    }
}

/// A walk through an object's places leaves each of them faithful.
proof fn lemma_places(
    hir: Hir,
    memory: Seq<u8>,
    ty: Ty,
    ptr: u32,
    at: int,
    index: nat,
    s: Image,
    depth: nat,
)
    requires
        hir.valid(),
        ty.known(hir),
        sound(hir, s),
        0 <= at,
        at % 8 == 0,
        outline(hir, memory, ty, ptr) matches Ok(o) && {
            &&& index <= o.slots.len()
            &&& at + padded(o.size) <= s.bytes.len()
            &&& forall|j: int|
                hole(o, at, index) <= j < at + padded(o.size) ==> #[trigger] s.bytes[j] == 0
            &&& forall|j: int|
                hole(o, at, index) <= j < at + padded(o.size) ==> !marked(s.sites, j)
            &&& places(hir, memory, o.slots, index, ptr, at, s, depth) is Ok
        },
    ensures
        ({
            let o = outline(hir, memory, ty, ptr)->Ok_0;
            let t = places(hir, memory, o.slots, index, ptr, at, s, depth)->Ok_0;
            &&& sound(hir, t)
            &&& grown(s, t, hole(o, at, index), at + padded(o.size))
            &&& fresh_whole(hir, memory, s, t)
            &&& forall|k: int|
                index <= k < o.slots.len() ==> faithful(
                    hir,
                    memory,
                    t,
                    (#[trigger] o.slots[k]).ty,
                    ptr + o.slots[k].offset,
                    at + o.slots[k].offset,
                )
        }),
    decreases depth, 2nat, outline(hir, memory, ty, ptr)->Ok_0.slots.len() - index,
{
    let o = outline(hir, memory, ty, ptr)->Ok_0;
    if index < o.slots.len() {
        let slot = o.slots[index as int];
        let from = ptr + slot.offset;
        let to = at + slot.offset;
        let width = slot.ty.words() * 8;
        let t = place(hir, memory, slot.ty, from, to, s, depth)->Ok_0;
        lemma_slots_fit(hir, memory, ty, ptr, index as int);
        lemma_slots_known(hir, memory, ty, ptr, index as int);
        lemma_place(hir, memory, slot.ty, from, to, s, depth);
        let next = index + 1;
        let lo = hole(o, at, next);
        let hi = at + padded(o.size);
        if next < o.slots.len() {
            lemma_slots_order(hir, memory, ty, ptr, index as int);
        }
        assert(to + width <= lo);
        assert forall|j: int| lo <= j < hi implies #[trigger] t.bytes[j] == 0 by {
            assert(s.bytes[j] == 0);
        }
        assert forall|j: int| lo <= j < hi implies !marked(t.sites, j) by {
            lemma_unmarked(s, t, to, to + width, j);
        }
        lemma_places(hir, memory, ty, ptr, at, next, t, depth);
        let u = places(hir, memory, o.slots, next, ptr, at, t, depth)->Ok_0;
        lemma_grown_widen(s, t, to, to + width, to, hi);
        lemma_grown_trans(s, t, u, to, hi, lo, hi);
        lemma_faithful_stays(hir, memory, t, u, lo, hi, slot.ty, from, to);
        assert forall|p: u32| #[trigger]
            u.seen.contains_key(p) && !s.seen.contains_key(p) implies {
            &&& u.seen[p] >= s.bytes.len()
            &&& whole(hir, memory, u, p)
        } by {
            if t.seen.contains_key(p) {
                lemma_whole_stays(hir, memory, t, u, lo, hi, p);
            }
        }
    }
}

proof fn lemma_grown_widen(s: Image, t: Image, lo: int, hi: int, lo2: int, hi2: int)
    requires
        grown(s, t, lo, hi),
        hi <= lo || (lo2 <= lo && hi <= hi2),
    ensures
        grown(s, t, lo2, hi2),
{
}

/// A place's type only names declarations that exist.
proof fn lemma_slots_known(hir: Hir, memory: Seq<u8>, ty: Ty, ptr: u32, index: int)
    requires
        hir.valid(),
        ty.known(hir),
        outline(hir, memory, ty, ptr) matches Ok(o) && 0 <= index < o.slots.len(),
    ensures
        outline(hir, memory, ty, ptr)->Ok_0.slots[index].ty.known(hir),
{
    match ty {
        Ty::Record(id) => {
            let fields = hir.records@[id.0 as int].fields@;
            assert(fields[index].1.known(hir));
        },
        Ty::Sum(id) => {
            let def = hir.sums@[id.0 as int];
            assert(def.known(hir));
            let fields = def.variants@[le32(memory, ptr as int) as int].fields@;
            assert(fields[index].1.known(hir));
        },
        _ => {},
    }
}

/// A walk through one place leaves it faithful.
proof fn lemma_place(
    hir: Hir,
    memory: Seq<u8>,
    ty: Ty,
    from: int,
    to: int,
    s: Image,
    depth: nat,
)
    requires
        hir.valid(),
        ty.known(hir),
        sound(hir, s),
        0 <= from,
        0 <= to,
        to % 8 == 0,
        to + ty.words() * 8 <= s.bytes.len(),
        forall|j: int| to <= j < to + ty.words() * 8 ==> #[trigger] s.bytes[j] == 0,
        forall|j: int| to <= j < to + ty.words() * 8 ==> !marked(s.sites, j),
        place(hir, memory, ty, from, to, s, depth) is Ok,
    ensures
        ({
            let t = place(hir, memory, ty, from, to, s, depth)->Ok_0;
            &&& sound(hir, t)
            &&& grown(s, t, to, to + ty.words() * 8)
            &&& fresh_whole(hir, memory, s, t)
            &&& faithful(hir, memory, t, ty, from, to)
        }),
    decreases depth, 1nat, 0nat,
{
    let c = cell(hir, memory, ty, from)->Ok_0;
    let width = (ty.words() * 8) as int;
    lemma_cell_fits(hir, memory, ty, from);
    let q = match c.link {
        Some(link) => le32(memory, from + link.offset),
        None => 0,
    };
    if q == 0 {
        let t = copied(s, memory, from, to, c.copy);
        lemma_copied(hir, memory, ty, from, to, s, c.copy);
        if let Some(link) = c.link {
            let there = to + link.offset;
            if link.offset == 0 {
                assert(t.bytes[there] == 0 && t.bytes[there + 1] == 0 && t.bytes[there + 2] == 0
                    && t.bytes[there + 3] == 0);
                lemma_zero(t.bytes, there);
            } else {
                assert(t.bytes[to + 8] == memory[from + 8]);
                assert(t.bytes[to + 9] == memory[from + 9]);
                assert(t.bytes[to + 10] == memory[from + 10]);
                assert(t.bytes[to + 11] == memory[from + 11]);
                lemma_le32_congruent(t.bytes, there, memory, from + 8);
            }
        }
    } else {
        let link = c.link->Some_0;
        let there = to + link.offset;
        lemma_link_known(hir, memory, ty, from);
        lemma_object(hir, memory, link.ty, q, s, depth);
        let (child, t) = object(hir, memory, link.ty, q, s, depth)->Ok_0;
        assert forall|w: int| to <= w < to + width implies !marked(t.sites, w) by {
            lemma_unmarked(s, t, 0, 0, w);
        }
        let u = copied(t, memory, from, to, c.copy);
        lemma_copied(hir, memory, ty, from, to, t, c.copy);
        lemma_link(hir, u, there, child);
        let v = linked(u, there, child);
        lemma_grown_widen(s, t, 0, 0, to, to + width);
        lemma_grown_trans(s, t, u, to, to + width, to, to + width);
        lemma_grown_trans(s, u, v, to, to + width, there, there + 8);
        lemma_grown_trans(t, u, v, to, to + width, there, there + 8);
        assert(faithful(hir, memory, v, ty, from, to)) by {
            assert forall|j: int|
                0 <= j < c.copy && !(link.offset <= j < link.offset + 4) implies #[trigger] v.bytes[to
                + j] == memory[from + j] by {
                assert(u.bytes[to + j] == memory[from + j]);
                lemma_bytes32(child);
            }
            assert forall|w: int| to <= w < there implies !marked(v.sites, w) by {
                lemma_unmarked(u, v, there, there + 8, w);
            }
        }
        assert forall|p: u32| #[trigger]
            v.seen.contains_key(p) && !s.seen.contains_key(p) implies {
            &&& v.seen[p] >= s.bytes.len()
            &&& whole(hir, memory, v, p)
        } by {
            assert(t.seen.contains_key(p) && !s.seen.contains_key(p));
            lemma_whole_stays(hir, memory, t, v, to, to + width, p);
        }
    }
}

/// Copying a place's bytes keeps an image sound.
proof fn lemma_copied(
    hir: Hir,
    memory: Seq<u8>,
    ty: Ty,
    from: int,
    to: int,
    s: Image,
    count: nat,
)
    requires
        sound(hir, s),
        0 <= from,
        0 <= to,
        to % 8 == 0,
        to + ty.words() * 8 <= s.bytes.len(),
        forall|j: int| to <= j < to + ty.words() * 8 ==> !marked(s.sites, j),
        count <= ty.words() * 8,
        count > 0 ==> from + count <= memory.len(),
    ensures
        ({
            let t = copied(s, memory, from, to, count);
            &&& sound(hir, t)
            &&& grown(s, t, to, to + ty.words() * 8)
            &&& t.bytes.len() == s.bytes.len()
            &&& t.sites == s.sites
            &&& forall|j: int| 0 <= j < count ==> #[trigger] t.bytes[to + j] == memory[from + j]
        }),
{
    let t = copied(s, memory, from, to, count);
    if count > 0 {
        let part = memory.subrange(from, from + count);
        lemma_overwrite(hir, s, to, (ty.words() * 8) as int, to, part);
        assert forall|j: int| 0 <= j < count implies #[trigger] t.bytes[to + j] == memory[from
            + j] by {
            assert(part[j] == memory[from + j]);
        }
    }
}

proof fn lemma_zero(s: Seq<u8>, at: int)
    requires
        s[at] == 0,
        s[at + 1] == 0,
        s[at + 2] == 0,
        s[at + 3] == 0,
    ensures
        le32(s, at) == 0,
{
    reveal(le32);
}

/// What a pointer leads to is of a type that only names declarations that
/// exist.
proof fn lemma_link_known(hir: Hir, memory: Seq<u8>, ty: Ty, from: int)
    requires
        ty.known(hir),
        cell(hir, memory, ty, from) matches Ok(c) && c.link is Some,
    ensures
        cell(hir, memory, ty, from)->Ok_0.link->Some_0.ty.known(hir),
{
}

/// Whether an image is the whole of a graph: sound, and with every object in
/// it whole.
pub open spec fn closed(hir: Hir, memory: Seq<u8>, f: Image) -> bool {
    &&& sound(hir, f)
    &&& forall|p: u32| #[trigger] f.seen.contains_key(p) ==> whole(hir, memory, f, p)
}

/// Whether `arena` holds the image at `base`, its pointers moved there.
pub open spec fn landed(f: Image, base: u32, arena: Seq<u8>) -> bool {
    &&& 0 < base
    &&& base + f.bytes.len() <= u32::MAX
    &&& base + f.bytes.len() <= arena.len()
    &&& arena.subrange(base as int, base + f.bytes.len()) == moved(
        f.bytes,
        f.sites,
        f.sites.len(),
        base,
    )
}

/// Everything a state reaches is in its image, whole: every object with the
/// bytes it had, every pointer leading to the copy of what it led to.
pub proof fn a_captured_image_is_closed(hir: Hir, memory: Seq<u8>, ty: Ty, ptr: u32)
    requires
        hir.valid(),
        ty.known(hir),
        object(hir, memory, ty, ptr, empty_image(), addresses()) is Ok,
    ensures
        ({
            let (at, f) = object(hir, memory, ty, ptr, empty_image(), addresses())->Ok_0;
            &&& closed(hir, memory, f)
            &&& f.seen.contains_key(ptr)
            &&& f.seen[ptr] == at
            &&& f.kinds[ptr] == ty
        }),
{
    lemma_object(hir, memory, ty, ptr, empty_image(), addresses());
    lemma_root_kind(hir, memory, ty, ptr, empty_image(), addresses());
}

/// What was seen stays seen, where it was and as what it was.
pub open spec fn within(s: Image, t: Image) -> bool {
    forall|p: u32| #[trigger]
        s.seen.contains_key(p) ==> t.seen.contains_key(p) && t.seen[p] == s.seen[p] && t.kinds[p]
            == s.kinds[p]
}

proof fn lemma_object_within(hir: Hir, memory: Seq<u8>, ty: Ty, ptr: u32, s: Image, depth: nat)
    requires
        object(hir, memory, ty, ptr, s, depth) is Ok,
    ensures
        ({
            let (at, t) = object(hir, memory, ty, ptr, s, depth)->Ok_0;
            &&& within(s, t)
            &&& t.seen.contains_key(ptr)
            &&& t.seen[ptr] == at
        }),
    decreases depth, 0nat, 0nat,
{
    if !s.seen.contains_key(ptr) {
        let o = outline(hir, memory, ty, ptr)->Ok_0;
        let start = entered(s, memory, ty, ptr, o);
        lemma_places_within(
            hir,
            memory,
            o.slots,
            0,
            ptr,
            s.bytes.len() as int,
            start,
            (depth - 1) as nat,
        );
        assert(start.seen.contains_key(ptr));
        let t = object(hir, memory, ty, ptr, s, depth)->Ok_0.1;
        assert forall|p: u32| #[trigger] s.seen.contains_key(p) implies t.seen.contains_key(p)
            && t.seen[p] == s.seen[p] && t.kinds[p] == s.kinds[p] by {
            assert(start.seen.contains_key(p));
        }
    }
}

proof fn lemma_places_within(
    hir: Hir,
    memory: Seq<u8>,
    slots: Seq<Slot>,
    index: nat,
    ptr: u32,
    at: int,
    s: Image,
    depth: nat,
)
    requires
        places(hir, memory, slots, index, ptr, at, s, depth) is Ok,
    ensures
        within(s, places(hir, memory, slots, index, ptr, at, s, depth)->Ok_0),
    decreases depth, 2nat, slots.len() - index,
{
    if index < slots.len() {
        let slot = slots[index as int];
        lemma_place_within(
            hir,
            memory,
            slot.ty,
            ptr + slot.offset,
            at + slot.offset,
            s,
            depth,
        );
        let t = place(
            hir,
            memory,
            slot.ty,
            ptr + slot.offset,
            at + slot.offset,
            s,
            depth,
        )->Ok_0;
        lemma_places_within(hir, memory, slots, index + 1, ptr, at, t, depth);
    }
}

proof fn lemma_place_within(
    hir: Hir,
    memory: Seq<u8>,
    ty: Ty,
    from: int,
    to: int,
    s: Image,
    depth: nat,
)
    requires
        place(hir, memory, ty, from, to, s, depth) is Ok,
    ensures
        within(s, place(hir, memory, ty, from, to, s, depth)->Ok_0),
    decreases depth, 1nat, 0nat,
{
    let c = cell(hir, memory, ty, from)->Ok_0;
    if let Some(link) = c.link {
        let q = le32(memory, from + link.offset);
        if q != 0 {
            lemma_object_within(hir, memory, link.ty, q, s, depth);
        }
    }
}

/// A new object is recorded with the type it was read as.
proof fn lemma_root_kind(hir: Hir, memory: Seq<u8>, ty: Ty, ptr: u32, s: Image, depth: nat)
    requires
        object(hir, memory, ty, ptr, s, depth) is Ok,
        !s.seen.contains_key(ptr),
    ensures
        object(hir, memory, ty, ptr, s, depth)->Ok_0.1.kinds[ptr] == ty,
{
    let o = outline(hir, memory, ty, ptr)->Ok_0;
    let start = entered(s, memory, ty, ptr, o);
    lemma_places_within(
        hir,
        memory,
        o.slots,
        0,
        ptr,
        s.bytes.len() as int,
        start,
        (depth - 1) as nat,
    );
    assert(start.seen.contains_key(ptr));
}

/// An image can land at any address that leaves room for it: every pointer in
/// it can be moved there.
pub proof fn a_captured_image_can_land_anywhere(hir: Hir, f: Image, base: u32)
    requires
        sound(hir, f),
        base + f.bytes.len() <= u32::MAX,
    ensures
        apart(f.sites),
        movable(f.bytes, f.sites, base),
        forall|k: int|
            0 <= k < f.sites.len() ==> le32(
                moved(f.bytes, f.sites, f.sites.len(), base),
                (#[trigger] f.sites[k]) as int,
            ) == le32(f.bytes, f.sites[k] as int) + base,
{
    assert forall|i: int, j: int|
        #![trigger f.sites[i], f.sites[j]]
        0 <= i < j < f.sites.len() implies f.sites[i] + 4 <= f.sites[j] || f.sites[j] + 4
        <= f.sites[i] by {
        assert(f.sites[i] != f.sites[j]);
        assert(f.sites[i] % 8 == 0 && f.sites[j] % 8 == 0);
    }
    relocation_moves_each_pointer(f.bytes, f.sites, base);
}

/// A byte of a word that holds no pointer lands as it was, and so does one of
/// the high half of a word that does.
proof fn lemma_landed_byte(hir: Hir, f: Image, base: u32, arena: Seq<u8>, at: int)
    requires
        sound(hir, f),
        landed(f, base, arena),
        0 <= at < f.bytes.len(),
        !marked(f.sites, at - at % 8) || at % 8 >= 4,
    ensures
        arena[base + at] == f.bytes[at],
{
    let all = moved(f.bytes, f.sites, f.sites.len(), base);
    if covered(f.sites, at) {
        let i = choose|i: int|
            0 <= i < f.sites.len() && #[trigger] f.sites[i] <= at < f.sites[i] + 4;
        assert(f.sites[i] % 8 == 0);
        assert(f.sites[i] == at - at % 8);
    }
    relocation_keeps_the_rest(f.bytes, f.sites, f.sites.len(), base, at);
    assert(arena.subrange(base as int, base + f.bytes.len())[at] == arena[base + at]);
}

/// A pointer lands moved by the base.
#[verifier::rlimit(40)]
proof fn lemma_landed_pointer(hir: Hir, f: Image, base: u32, arena: Seq<u8>, at: int)
    requires
        sound(hir, f),
        landed(f, base, arena),
        marked(f.sites, at),
    ensures
        le32(arena, base + at) == le32(f.bytes, at) + base,
{
    a_captured_image_can_land_anywhere(hir, f, base);
    let all = moved(f.bytes, f.sites, f.sites.len(), base);
    let k = choose|k: int| 0 <= k < f.sites.len() && #[trigger] f.sites[k] == at;
    assert(f.sites[k] + 8 <= f.bytes.len());
    let part = arena.subrange(base as int, base + f.bytes.len());
    assert(part[at] == arena[base + at]);
    assert(part[at + 1] == arena[base + at + 1]);
    assert(part[at + 2] == arena[base + at + 2]);
    assert(part[at + 3] == arena[base + at + 3]);
    lemma_le32_congruent(arena, base + at, all, at);
}

/// A number lands as it was where there is no pointer.
proof fn lemma_landed_number(hir: Hir, f: Image, base: u32, arena: Seq<u8>, at: int)
    requires
        sound(hir, f),
        landed(f, base, arena),
        0 <= at,
        at % 8 == 0,
        at + 4 <= f.bytes.len(),
        !marked(f.sites, at),
    ensures
        le32(arena, base + at) == le32(f.bytes, at),
{
    lemma_landed_byte(hir, f, base, arena, at);
    lemma_landed_byte(hir, f, base, arena, at + 1);
    lemma_landed_byte(hir, f, base, arena, at + 2);
    lemma_landed_byte(hir, f, base, arena, at + 3);
    lemma_le32_congruent(arena, base + at, f.bytes, at);
}

/// An object where it landed looks as it did, to a program that has its type,
/// and its first bytes are there.
pub(crate) proof fn lemma_landed_outline(
    hir: Hir,
    memory: Seq<u8>,
    f: Image,
    base: u32,
    new: Hir,
    now: Ty,
    arena: Seq<u8>,
    p: u32,
)
    requires
        hir.valid(),
        new.valid(),
        closed(hir, memory, f),
        landed(f, base, arena),
        f.seen.contains_key(p),
        kin(hir, f.kinds[p], new, now),
    ensures
        ({
            let o = outline(hir, memory, f.kinds[p], p)->Ok_0;
            let there = (base + f.seen[p]) as u32;
            &&& outline(hir, memory, f.kinds[p], p) is Ok
            &&& outline(new, arena, now, there) matches Ok(o2) && kin_outlines(hir, o, new, o2)
            &&& there + padded(o.size) <= arena.len()
            &&& there == base + f.seen[p]
            &&& o.head > 0 ==> p + o.head <= memory.len()
            &&& forall|j: int| 0 <= j < o.head ==> #[trigger] arena[there + j] == memory[p + j]
        }),
{
    assert(whole(hir, memory, f, p));
    let ty = f.kinds[p];
    let at = f.seen[p] as int;
    let o = outline(hir, memory, ty, p)->Ok_0;
    let there = (base + f.seen[p]) as u32;
    lemma_head_fits(hir, memory, ty, p);
    assert(at % 8 == 0);
    assert forall|j: int| 0 <= j < o.head implies #[trigger] arena[there + j] == memory[p + j] by {
        let w = (at + j) - (at + j) % 8;
        assert(at <= w <= at + j);
        assert(!marked(f.sites, w));
        lemma_landed_byte(hir, f, base, arena, at + j);
        assert(f.bytes[at + j] == memory[p + j]);
    }
    if o.head > 0 {
        assert(arena[there + 0] == memory[p + 0]);
        assert(arena[there + 1] == memory[p + 1]);
        assert(arena[there + 2] == memory[p + 2]);
        assert(arena[there + 3] == memory[p + 3]);
        lemma_le32_congruent(arena, there as int, memory, p as int);
    }
    lemma_kin_outlines(hir, memory, ty, p, new, arena, now, there);
}

/// A place where it landed holds what it held, to a program that has its type,
/// and its pointer leads to where the copy of what it led to landed.
pub(crate) proof fn lemma_landed_cell(
    hir: Hir,
    memory: Seq<u8>,
    f: Image,
    base: u32,
    new: Hir,
    now: Ty,
    arena: Seq<u8>,
    ty: Ty,
    from: int,
    to: int,
)
    requires
        hir.valid(),
        new.valid(),
        sound(hir, f),
        landed(f, base, arena),
        faithful(hir, memory, f, ty, from, to),
        0 <= from,
        kin(hir, ty, new, now),
    ensures
        cell(new, arena, now, base + to) matches Ok(c2) && kin_cells(
            hir,
            cell(hir, memory, ty, from)->Ok_0,
            new,
            c2,
        ),
        ({
            let c = cell(hir, memory, ty, from)->Ok_0;
            &&& forall|j: int|
                0 <= j < c.copy && !(c.link matches Some(link) && link.offset <= j < link.offset
                    + 4) ==> #[trigger] arena[base + to + j] == memory[from + j]
            &&& c.link matches Some(link) ==> {
                let q = le32(memory, from + link.offset);
                let r = le32(arena, base + to + link.offset);
                &&& q == 0 ==> r == 0
                &&& q != 0 ==> f.seen.contains_key(q) && r == base + f.seen[q] && r != 0
            }
        }),
{
    let c = cell(hir, memory, ty, from)->Ok_0;
    lemma_cell_fits(hir, memory, ty, from);
    assert forall|j: int|
        0 <= j < c.copy && !(c.link matches Some(link) && link.offset <= j < link.offset
            + 4) implies #[trigger] arena[base + to + j] == memory[from + j] by {
        let w = (to + j) - (to + j) % 8;
        assert(to <= w <= to + j);
        lemma_landed_byte(hir, f, base, arena, to + j);
        assert(f.bytes[to + j] == memory[from + j]);
    }
    if c.copy == 16 {
        assert(arena[base + to + 0] == memory[from + 0]);
        assert(arena[base + to + 1] == memory[from + 1]);
        assert(arena[base + to + 2] == memory[from + 2]);
        assert(arena[base + to + 3] == memory[from + 3]);
        lemma_le32_congruent(arena, base + to, memory, from);
    }
    if let Some(link) = c.link {
        let q = le32(memory, from + link.offset);
        let there = to + link.offset;
        if q == 0 {
            lemma_landed_number(hir, f, base, arena, there);
        } else {
            lemma_landed_pointer(hir, f, base, arena, there);
        }
    }
    lemma_kin_cells(hir, memory, ty, from, new, arena, now, base + to);
}

/// Whether `z` is `s` with every address replaced by where its object landed.
pub open spec fn twin(s: Image, z: Image, base: u32) -> bool {
    &&& z.bytes == s.bytes
    &&& z.sites == s.sites
    &&& forall|p: u32| #[trigger]
        s.seen.contains_key(p) ==> {
            &&& s.seen[p] + base <= u32::MAX
            &&& z.seen.contains_key((s.seen[p] + base) as u32)
            &&& z.seen[(s.seen[p] + base) as u32] == s.seen[p]
        }
    &&& forall|r: u32| #[trigger]
        z.seen.contains_key(r) ==> exists|p: u32| #[trigger]
            s.seen.contains_key(p) && s.seen[p] + base == r
}

proof fn lemma_again_object(
    hir: Hir,
    memory: Seq<u8>,
    ty: Ty,
    q: u32,
    s: Image,
    z: Image,
    depth: nat,
    f: Image,
    base: u32,
    new: Hir,
    now: Ty,
    arena: Seq<u8>,
)
    requires
        hir.valid(),
        new.valid(),
        kin(hir, ty, new, now),
        unshared(hir, f),
        closed(hir, memory, f),
        landed(f, base, arena),
        twin(s, z, base),
        object(hir, memory, ty, q, s, depth) matches Ok((at, t)) && within(t, f),
    ensures
        ({
            let (at, t) = object(hir, memory, ty, q, s, depth)->Ok_0;
            &&& f.seen.contains_key(q)
            &&& f.seen[q] == at
            &&& object(new, arena, now, (base + at) as u32, z, depth) matches Ok((at2, y)) && at2
                == at && twin(t, y, base)
        }),
    decreases depth, 0nat, 0nat,
{
    let (at, t) = object(hir, memory, ty, q, s, depth)->Ok_0;
    lemma_object_within(hir, memory, ty, q, s, depth);
    let r = (base + at) as u32;
    assert(f.seen[q] <= f.bytes.len());
    if s.seen.contains_key(q) {
        assert(z.seen.contains_key((s.seen[q] + base) as u32));
    } else if z.seen.contains_key(r) {
        // Neither this object nor the one before it at this offset takes any
        // room, so it does not matter which of them is found there.
        let p = choose|p: u32| #[trigger] s.seen.contains_key(p) && s.seen[p] + base == r;
        lemma_root_kind(hir, memory, ty, q, s, depth);
        assert(within(s, t));
        assert(f.seen[p] == f.seen[q]);
        assert(hollow(hir, ty));
        let o = outline(hir, memory, ty, q)->Ok_0;
        assert(padded(o.size) == 0 && o.slots.len() == 0);
        assert(t.bytes =~= s.bytes);
        assert(twin(t, z, base)) by {
            assert forall|x: u32| #[trigger] t.seen.contains_key(x) implies {
                &&& t.seen[x] + base <= u32::MAX
                &&& z.seen.contains_key((t.seen[x] + base) as u32)
                &&& z.seen[(t.seen[x] + base) as u32] == t.seen[x]
            } by {
                if x != q {
                    assert(s.seen.contains_key(x));
                }
            }
            assert forall|x: u32| #[trigger] z.seen.contains_key(x) implies exists|y: u32| #[trigger]
                t.seen.contains_key(y) && t.seen[y] + base == x by {
                let y = choose|y: u32| #[trigger] s.seen.contains_key(y) && s.seen[y] + base == x;
                assert(t.seen.contains_key(y));
            }
        }
    } else {
        lemma_root_kind(hir, memory, ty, q, s, depth);
        lemma_landed_outline(hir, memory, f, base, new, now, arena, q);
        let o = outline(hir, memory, ty, q)->Ok_0;
        let o2 = outline(new, arena, now, r)->Ok_0;
        let start = entered(s, memory, ty, q, o);
        let begin = entered(z, arena, now, r, o2);
        lemma_head_fits(hir, memory, ty, q);
        if o.head > 0 {
            let new_head = arena.subrange(r as int, r + o.head);
            let old_head = memory.subrange(q as int, q + o.head);
            assert forall|j: int| 0 <= j < o.head implies new_head[j] == old_head[j] by {
                assert(arena[r + j] == memory[q + j]);
            }
            assert(new_head =~= old_head);
        }
        assert(begin.bytes == start.bytes);
        assert(twin(start, begin, base)) by {
            assert forall|p: u32| #[trigger] start.seen.contains_key(p) implies {
                &&& start.seen[p] + base <= u32::MAX
                &&& begin.seen.contains_key((start.seen[p] + base) as u32)
                &&& begin.seen[(start.seen[p] + base) as u32] == start.seen[p]
            } by {
                if p != q {
                    assert(s.seen.contains_key(p));
                }
            }
            assert forall|x: u32| #[trigger] begin.seen.contains_key(x) implies exists|p: u32| #[trigger]
                start.seen.contains_key(p) && start.seen[p] + base == x by {
                if x == r {
                    assert(start.seen.contains_key(q));
                } else {
                    assert(z.seen.contains_key(x));
                    let p = choose|p: u32| #[trigger]
                        s.seen.contains_key(p) && s.seen[p] + base == x;
                    assert(start.seen.contains_key(p));
                }
            }
        }
        lemma_again_places(
            hir,
            memory,
            ty,
            q,
            at as int,
            0,
            start,
            begin,
            (depth - 1) as nat,
            f,
            base,
            new,
            now,
            arena,
        );
    }
}

proof fn lemma_again_places(
    hir: Hir,
    memory: Seq<u8>,
    ty: Ty,
    q: u32,
    at: int,
    index: nat,
    s: Image,
    z: Image,
    depth: nat,
    f: Image,
    base: u32,
    new: Hir,
    now: Ty,
    arena: Seq<u8>,
)
    requires
        hir.valid(),
        new.valid(),
        unshared(hir, f),
        closed(hir, memory, f),
        landed(f, base, arena),
        twin(s, z, base),
        f.seen.contains_key(q),
        f.seen[q] == at,
        f.kinds[q] == ty,
        outline(hir, memory, ty, q) matches Ok(o) && {
            &&& places(hir, memory, o.slots, index, q, at, s, depth) matches Ok(t) && within(t, f)
            &&& outline(new, arena, now, (base + at) as u32) matches Ok(o2) && kin_outlines(
                hir,
                o,
                new,
                o2,
            )
        },
    ensures
        ({
            let o = outline(hir, memory, ty, q)->Ok_0;
            let o2 = outline(new, arena, now, (base + at) as u32)->Ok_0;
            let t = places(hir, memory, o.slots, index, q, at, s, depth)->Ok_0;
            places(new, arena, o2.slots, index, (base + at) as u32, at, z, depth) matches Ok(y)
                && twin(t, y, base)
        }),
    decreases depth, 2nat, outline(hir, memory, ty, q)->Ok_0.slots.len() - index,
{
    let o = outline(hir, memory, ty, q)->Ok_0;
    if index < o.slots.len() {
        let slot = o.slots[index as int];
        let from = q + slot.offset;
        let to = at + slot.offset;
        let t = place(hir, memory, slot.ty, from, to, s, depth)->Ok_0;
        lemma_places_within(hir, memory, o.slots, index + 1, q, at, t, depth);
        assert(whole(hir, memory, f, q));
        assert(f.seen[q] <= f.bytes.len());
        let next = outline(new, arena, now, (base + at) as u32)->Ok_0.slots[index as int];
        assert(slot.offset == next.offset && kin(hir, slot.ty, new, next.ty));
        lemma_again_place(
            hir,
            memory,
            slot.ty,
            from,
            to,
            s,
            z,
            depth,
            f,
            base,
            new,
            next.ty,
            arena,
        );
        let y = place(new, arena, next.ty, base + to, to, z, depth)->Ok_0;
        lemma_again_places(
            hir,
            memory,
            ty,
            q,
            at,
            index + 1,
            t,
            y,
            depth,
            f,
            base,
            new,
            now,
            arena,
        );
    }
}

proof fn lemma_again_place(
    hir: Hir,
    memory: Seq<u8>,
    ty: Ty,
    from: int,
    to: int,
    s: Image,
    z: Image,
    depth: nat,
    f: Image,
    base: u32,
    new: Hir,
    now: Ty,
    arena: Seq<u8>,
)
    requires
        hir.valid(),
        new.valid(),
        kin(hir, ty, new, now),
        unshared(hir, f),
        closed(hir, memory, f),
        landed(f, base, arena),
        twin(s, z, base),
        0 <= from,
        faithful(hir, memory, f, ty, from, to),
        place(hir, memory, ty, from, to, s, depth) matches Ok(t) && within(t, f),
    ensures
        ({
            let t = place(hir, memory, ty, from, to, s, depth)->Ok_0;
            place(new, arena, now, base + to, to, z, depth) matches Ok(y) && twin(t, y, base)
        }),
    decreases depth, 1nat, 0nat,
{
    let c = cell(hir, memory, ty, from)->Ok_0;
    let t = place(hir, memory, ty, from, to, s, depth)->Ok_0;
    lemma_cell_fits(hir, memory, ty, from);
    lemma_landed_cell(hir, memory, f, base, new, now, arena, ty, from, to);
    let c2 = cell(new, arena, now, base + to)->Ok_0;
    let there = base + to;
    match c.link {
        None => {
            lemma_same_copy(s, z, memory, arena, from, there, to, c.copy);
            lemma_twin_seen(s, z, t, copied(z, arena, there, to, c.copy), base);
        },
        Some(link) => {
            let q = le32(memory, from + link.offset);
            let r = le32(arena, there + link.offset);
            if q == 0 {
                assert forall|j: int| 0 <= j < c.copy implies #[trigger] arena[there + j]
                    == memory[from + j] by {
                    if link.offset <= j < link.offset + 4 {
                        lemma_le32_same(
                            arena,
                            there + link.offset,
                            memory,
                            from + link.offset,
                        );
                        let k = j - link.offset;
                        assert(k == 0 || k == 1 || k == 2 || k == 3);
                    }
                }
                lemma_same_copy(s, z, memory, arena, from, there, to, c.copy);
                lemma_twin_seen(s, z, t, copied(z, arena, there, to, c.copy), base);
            } else {
                let (child, u) = object(hir, memory, link.ty, q, s, depth)->Ok_0;
                assert(u.seen == t.seen && u.kinds == t.kinds);
                assert(within(u, f)) by {
                    assert forall|p: u32| #[trigger] u.seen.contains_key(p) implies f.seen.contains_key(
                        p,
                    ) && f.seen[p] == u.seen[p] && f.kinds[p] == u.kinds[p] by {
                        assert(t.seen.contains_key(p));
                    }
                }
                let link2 = c2.link->Some_0;
                lemma_again_object(
                    hir,
                    memory,
                    link.ty,
                    q,
                    s,
                    z,
                    depth,
                    f,
                    base,
                    new,
                    link2.ty,
                    arena,
                );
                let (child2, v) = object(new, arena, link2.ty, r, z, depth)->Ok_0;
                let a = linked(copied(u, memory, from, to, c.copy), to + link.offset, child);
                let b = linked(copied(v, arena, there, to, c.copy), to + link.offset, child);
                lemma_bytes32(child);
                assert(a.bytes.len() == b.bytes.len());
                assert forall|i: int| 0 <= i < a.bytes.len() implies a.bytes[i] == b.bytes[i] by {
                    if to <= i < to + c.copy {
                        let j = i - to;
                        if !(link.offset <= j < link.offset + 4) {
                            assert(arena[there + j] == memory[from + j]);
                        }
                    }
                }
                assert(a.bytes =~= b.bytes);
                lemma_twin_seen(u, v, a, b, base);
            }
        },
    }
}

/// Images that are written alike stay twins.
proof fn lemma_twin_seen(s: Image, z: Image, t: Image, y: Image, base: u32)
    requires
        twin(s, z, base),
        t.seen == s.seen,
        y.seen == z.seen,
        t.bytes == y.bytes,
        t.sites == y.sites,
    ensures
        twin(t, y, base),
{
    assert forall|p: u32| #[trigger] t.seen.contains_key(p) implies {
        &&& t.seen[p] + base <= u32::MAX
        &&& y.seen.contains_key((t.seen[p] + base) as u32)
        &&& y.seen[(t.seen[p] + base) as u32] == t.seen[p]
    } by {
        assert(s.seen.contains_key(p));
    }
    assert forall|r: u32| #[trigger] y.seen.contains_key(r) implies exists|p: u32| #[trigger]
        t.seen.contains_key(p) && t.seen[p] + base == r by {
        assert(z.seen.contains_key(r));
        let p = choose|p: u32| #[trigger] s.seen.contains_key(p) && s.seen[p] + base == r;
        assert(t.seen.contains_key(p));
    }
}

/// Copying the same bytes into twins leaves them twins.
proof fn lemma_same_copy(
    s: Image,
    z: Image,
    memory: Seq<u8>,
    arena: Seq<u8>,
    from: int,
    there: int,
    to: int,
    count: nat,
)
    requires
        z.bytes == s.bytes,
        count > 0 ==> 0 <= from && from + count <= memory.len(),
        count > 0 ==> 0 <= there && there + count <= arena.len(),
        forall|j: int| 0 <= j < count ==> #[trigger] arena[there + j] == memory[from + j],
    ensures
        copied(s, memory, from, to, count).bytes == copied(z, arena, there, to, count).bytes,
{
    if count > 0 {
        let a = memory.subrange(from, from + count);
        let b = arena.subrange(there, there + count);
        assert forall|j: int| 0 <= j < count implies a[j] == b[j] by {
            assert(arena[there + j] == memory[from + j]);
        }
        assert(a =~= b);
    }
}

/// A pattern read as a signed number and back is the pattern.
proof fn lemma_pattern32(pattern: u32)
    ensures
        pattern32(signed32(pattern)) == pattern,
        signed32(pattern) == 0 <==> pattern == 0,
{
}

/// Lifting a state out of the arena it landed in gives the image again, to any
/// program that has its type.
proof fn lemma_lifted_again(
    old: Hir,
    was: Ty,
    new: Hir,
    now: Ty,
    memory: Seq<u8>,
    root: Val,
    base: u32,
    arena: Seq<u8>,
)
    requires
        old.valid(),
        new.valid(),
        kin(old, was, new, now),
        lifted(old, was, memory, root) matches Ok((_, f)) && unshared(old, f) && landed(
            f,
            base,
            arena,
        ),
    ensures
        ({
            let (r, f) = lifted(old, was, memory, root)->Ok_0;
            lifted(new, now, arena, root_at(r, base)) matches Ok((r2, f2)) && {
                &&& r2 == r
                &&& f2.bytes == f.bytes
                &&& f2.sites == f.sites
            }
        }),
{
    let (r, f) = lifted(old, was, memory, root)->Ok_0;
    lemma_matched(old, was, new, now);
    if let Root::Pointer(at) = r {
        let ptr = pattern32(root->I32_0);
        a_captured_image_is_closed(old, memory, was, ptr);
        assert(f.seen[ptr] <= f.bytes.len());
        assert(twin(empty_image(), empty_image(), base));
        assert(within(f, f));
        lemma_again_object(
            old,
            memory,
            was,
            ptr,
            empty_image(),
            empty_image(),
            addresses(),
            f,
            base,
            new,
            now,
            arena,
        );
        lemma_pattern32((at + base) as u32);
    }
}

/// Capture, restore and capture again is the identity: a state lifted out of
/// the arena it was restored into is the same image, with the same pointers
/// and the same root. Only a state in which a record without fields is followed
/// by an object that is not one is left out: the record takes no room, and the
/// two share an offset.
pub proof fn capture_again_is_the_identity(
    hir: Hir,
    ty: Ty,
    memory: Seq<u8>,
    root: Val,
    base: u32,
    arena: Seq<u8>,
)
    requires
        hir.valid(),
        ty.known(hir),
        lifted(hir, ty, memory, root) matches Ok((_, f)) && unshared(hir, f) && landed(
            f,
            base,
            arena,
        ),
    ensures
        ({
            let (r, f) = lifted(hir, ty, memory, root)->Ok_0;
            lifted(hir, ty, arena, root_at(r, base)) matches Ok((r2, f2)) && {
                &&& r2 == r
                &&& f2.bytes == f.bytes
                &&& f2.sites == f.sites
            }
        }),
{
    lemma_lifted_again(hir, ty, hir, ty, memory, root, base, arena);
}

/// A snapshot moves between programs of one shape: a state captured under one
/// program and restored into another whose state type expands to the same
/// shape is the same state there. What the other program lifts out is the same
/// image, with the same pointers and the same root.
pub proof fn a_snapshot_moves_between_programs_of_one_shape(
    old: Hir,
    was: Ty,
    new: Hir,
    now: Ty,
    memory: Seq<u8>,
    root: Val,
    base: u32,
    arena: Seq<u8>,
)
    requires
        old.valid(),
        new.valid(),
        was.known(old),
        now.known(new),
        names_distinct(old),
        names_distinct(new),
        form(old, was, Seq::empty()) == form(new, now, Seq::empty()),
        lifted(old, was, memory, root) matches Ok((_, f)) && unshared(old, f) && landed(
            f,
            base,
            arena,
        ),
    ensures
        ({
            let (r, f) = lifted(old, was, memory, root)->Ok_0;
            lifted(new, now, arena, root_at(r, base)) matches Ok((r2, f2)) && {
                &&& r2 == r
                &&& f2.bytes == f.bytes
                &&& f2.sites == f.sites
            }
        }),
{
    lemma_kin(old, was, new, now);
    lemma_lifted_again(old, was, new, now, memory, root, base, arena);
}

/// Whether a place that one program reads as `was` holds what another reads as
/// `now`, as far as `depth` pointers lead.
pub open spec fn alike_place(
    old: Hir,
    was: Ty,
    m: Seq<u8>,
    from: int,
    new: Hir,
    now: Ty,
    n: Seq<u8>,
    to: int,
    depth: nat,
) -> bool
    decreases depth, 0nat,
{
    cell(old, m, was, from) matches Ok(c) && cell(new, n, now, to) matches Ok(d) && {
        &&& d.copy == c.copy
        &&& forall|j: int|
            0 <= j < c.copy && !(c.link matches Some(link) && link.offset <= j < link.offset + 4)
                ==> #[trigger] n[to + j] == m[from + j]
        &&& match (c.link, d.link) {
            (None, None) => true,
            (Some(x), Some(y)) => {
                let q = le32(m, from + x.offset);
                let r = le32(n, to + y.offset);
                &&& x.offset == y.offset
                &&& q == 0 <==> r == 0
                &&& q != 0 && depth > 0 ==> alike(
                    old,
                    x.ty,
                    m,
                    q,
                    new,
                    y.ty,
                    n,
                    r,
                    (depth - 1) as nat,
                )
            },
            _ => false,
        }
    }
}

/// Whether the value one program reads as `was` at `p` is the value another
/// reads as `now` at `q` in its own arena, as far as `depth` pointers lead: an
/// object of the same size, with the same bytes at its start and the same
/// places, each holding the same.
pub open spec fn alike(
    old: Hir,
    was: Ty,
    m: Seq<u8>,
    p: u32,
    new: Hir,
    now: Ty,
    n: Seq<u8>,
    q: u32,
    depth: nat,
) -> bool
    decreases depth, 1nat,
{
    outline(old, m, was, p) matches Ok(o) && outline(new, n, now, q) matches Ok(d) && {
        &&& d.size == o.size
        &&& d.head == o.head
        &&& d.slots.len() == o.slots.len()
        &&& forall|j: int| 0 <= j < o.head ==> #[trigger] n[q + j] == m[p + j]
        &&& forall|k: int|
            0 <= k < o.slots.len() ==> {
                &&& (#[trigger] o.slots[k]).offset == d.slots[k].offset
                &&& alike_place(
                    old,
                    o.slots[k].ty,
                    m,
                    p + o.slots[k].offset,
                    new,
                    d.slots[k].ty,
                    n,
                    q + o.slots[k].offset,
                    depth,
                )
            }
    }
}

/// Whether the pointer in a place of type `ty` at `from` leads to an object
/// that was read as what the place says it is.
pub open spec fn well_typed_place(hir: Hir, memory: Seq<u8>, f: Image, ty: Ty, from: int) -> bool {
    cell(hir, memory, ty, from) matches Ok(c) && c.link matches Some(link) ==> {
        let q = le32(memory, from + link.offset);
        q != 0 ==> f.kinds[q] == link.ty
    }
}

/// Whether an address holds one object: no two pointers of different types
/// lead to it.
pub open spec fn well_typed(hir: Hir, memory: Seq<u8>, f: Image) -> bool {
    forall|p: u32, k: int|
        #![trigger outline(hir, memory, f.kinds[p], p)->Ok_0.slots[k]]
        f.seen.contains_key(p) && 0 <= k < outline(hir, memory, f.kinds[p], p)->Ok_0.slots.len()
            ==> well_typed_place(
            hir,
            memory,
            f,
            outline(hir, memory, f.kinds[p], p)->Ok_0.slots[k].ty,
            p + outline(hir, memory, f.kinds[p], p)->Ok_0.slots[k].offset,
        )
}

/// Every object reads the same where it landed, however far its pointers are
/// followed, to any program that has its type.
pub proof fn every_object_reads_the_same(
    old: Hir,
    memory: Seq<u8>,
    f: Image,
    base: u32,
    new: Hir,
    now: Ty,
    arena: Seq<u8>,
    p: u32,
    depth: nat,
)
    requires
        old.valid(),
        new.valid(),
        closed(old, memory, f),
        well_typed(old, memory, f),
        landed(f, base, arena),
        f.seen.contains_key(p),
        kin(old, f.kinds[p], new, now),
    ensures
        alike(
            old,
            f.kinds[p],
            memory,
            p,
            new,
            now,
            arena,
            (base + f.seen[p]) as u32,
            depth,
        ),
    decreases depth,
{
    let was = f.kinds[p];
    let at = f.seen[p] as int;
    let there = (base + f.seen[p]) as u32;
    lemma_landed_outline(old, memory, f, base, new, now, arena, p);
    assert(whole(old, memory, f, p));
    let o = outline(old, memory, was, p)->Ok_0;
    let d = outline(new, arena, now, there)->Ok_0;
    assert forall|k: int| 0 <= k < o.slots.len() implies {
        &&& (#[trigger] o.slots[k]).offset == d.slots[k].offset
        &&& alike_place(
            old,
            o.slots[k].ty,
            memory,
            p + o.slots[k].offset,
            new,
            d.slots[k].ty,
            arena,
            there + o.slots[k].offset,
            depth,
        )
    } by {
        let slot = o.slots[k];
        let next = d.slots[k].ty;
        let from = p + slot.offset;
        let to = at + slot.offset;
        lemma_landed_cell(old, memory, f, base, new, next, arena, slot.ty, from, to);
        assert(there + slot.offset == base + to);
        assert(well_typed_place(old, memory, f, slot.ty, from));
        let c = cell(old, memory, slot.ty, from)->Ok_0;
        if let Some(link) = c.link {
            let q = le32(memory, from + link.offset);
            if q != 0 && depth > 0 {
                every_object_reads_the_same(
                    old,
                    memory,
                    f,
                    base,
                    new,
                    cell(new, arena, next, base + to)->Ok_0.link->Some_0.ty,
                    arena,
                    q,
                    (depth - 1) as nat,
                );
            }
        }
    }
}

/// The root of a state that landed leads to the value that was captured, to
/// any program that has its type.
proof fn lemma_state_back(
    old: Hir,
    was: Ty,
    new: Hir,
    now: Ty,
    memory: Seq<u8>,
    root: Val,
    base: u32,
    arena: Seq<u8>,
    depth: nat,
)
    requires
        old.valid(),
        new.valid(),
        kin(old, was, new, now),
        lifted(old, was, memory, root) matches Ok((_, f)) && landed(f, base, arena) && well_typed(
            old,
            memory,
            f,
        ),
    ensures
        ({
            let (r, f) = lifted(old, was, memory, root)->Ok_0;
            match r {
                Root::Pointer(at) => alike(
                    old,
                    was,
                    memory,
                    pattern32(root->I32_0),
                    new,
                    now,
                    arena,
                    (base + at) as u32,
                    depth,
                ),
                _ => root_at(r, base) == root,
            }
        }),
{
    let (r, f) = lifted(old, was, memory, root)->Ok_0;
    if let Root::Pointer(at) = r {
        let ptr = pattern32(root->I32_0);
        a_captured_image_is_closed(old, memory, was, ptr);
        every_object_reads_the_same(old, memory, f, base, new, now, arena, ptr, depth);
    }
}

/// Restoring a snapshot gives the state back: wherever the image lands, the
/// root leads to the value that was captured, however far its pointers are
/// followed.
pub proof fn restoring_gives_the_state_back(
    hir: Hir,
    ty: Ty,
    memory: Seq<u8>,
    root: Val,
    base: u32,
    arena: Seq<u8>,
    depth: nat,
)
    requires
        hir.valid(),
        ty.known(hir),
        lifted(hir, ty, memory, root) matches Ok((_, f)) && landed(f, base, arena) && well_typed(
            hir,
            memory,
            f,
        ),
    ensures
        ({
            let (r, f) = lifted(hir, ty, memory, root)->Ok_0;
            match r {
                Root::Pointer(at) => alike(
                    hir,
                    ty,
                    memory,
                    pattern32(root->I32_0),
                    hir,
                    ty,
                    arena,
                    (base + at) as u32,
                    depth,
                ),
                _ => root_at(r, base) == root,
            }
        }),
{
    lemma_state_back(hir, ty, hir, ty, memory, root, base, arena, depth);
}

/// Restoring a snapshot into another program of the same shape gives the state
/// back: what the other program reads from the root on is the value that was
/// captured, however far its pointers are followed.
pub proof fn restoring_into_a_program_of_one_shape_gives_the_state_back(
    old: Hir,
    was: Ty,
    new: Hir,
    now: Ty,
    memory: Seq<u8>,
    root: Val,
    base: u32,
    arena: Seq<u8>,
    depth: nat,
)
    requires
        old.valid(),
        new.valid(),
        was.known(old),
        now.known(new),
        names_distinct(old),
        names_distinct(new),
        form(old, was, Seq::empty()) == form(new, now, Seq::empty()),
        lifted(old, was, memory, root) matches Ok((_, f)) && landed(f, base, arena) && well_typed(
            old,
            memory,
            f,
        ),
    ensures
        ({
            let (r, f) = lifted(old, was, memory, root)->Ok_0;
            match r {
                Root::Pointer(at) => alike(
                    old,
                    was,
                    memory,
                    pattern32(root->I32_0),
                    new,
                    now,
                    arena,
                    (base + at) as u32,
                    depth,
                ),
                _ => root_at(r, base) == root,
            }
        }),
{
    lemma_kin(old, was, new, now);
    lemma_state_back(old, was, new, now, memory, root, base, arena, depth);
}

/// A snapshot that fits is the same state: where the fingerprint it carries is
/// the one another program expects, what that program reads from the root on is
/// the value that was captured, and what it lifts out is the same image again.
/// The first rests on no address holding objects of two types, the second on
/// no object sharing its offset with a record without fields.
pub proof fn a_snapshot_that_fits_is_the_same_state(
    old: Hir,
    was: Ty,
    new: Hir,
    now: Ty,
    memory: Seq<u8>,
    root: Val,
    base: u32,
    arena: Seq<u8>,
    depth: nat,
)
    requires
        old.valid(),
        new.valid(),
        was.known(old),
        now.known(new),
        names_distinct(old),
        names_distinct(new),
        plainly_named(old),
        plainly_named(new),
        written(form(old, was, Seq::empty())) == written(form(new, now, Seq::empty())),
        lifted(old, was, memory, root) matches Ok((_, f)) && landed(f, base, arena),
    ensures
        ({
            let (r, f) = lifted(old, was, memory, root)->Ok_0;
            &&& well_typed(old, memory, f) ==> match r {
                Root::Pointer(at) => alike(
                    old,
                    was,
                    memory,
                    pattern32(root->I32_0),
                    new,
                    now,
                    arena,
                    (base + at) as u32,
                    depth,
                ),
                _ => root_at(r, base) == root,
            }
            &&& unshared(old, f) ==> (lifted(new, now, arena, root_at(r, base)) matches Ok((r2, f2))
                && r2 == r && f2.bytes == f.bytes && f2.sites == f.sites)
        }),
{
    let (r, f) = lifted(old, was, memory, root)->Ok_0;
    a_snapshot_fits_where_there_is_no_difference(old, was, new, now);
    lemma_kin(old, was, new, now);
    if well_typed(old, memory, f) {
        lemma_state_back(old, was, new, now, memory, root, base, arena, depth);
    }
    if unshared(old, f) {
        lemma_lifted_again(old, was, new, now, memory, root, base, arena);
    }
}

/// Whether `b` is a part of `a`: an element, a payload or a field.
pub open spec fn part(hir: Hir, a: Ty, b: Ty) -> bool {
    match a {
        Ty::List(inner) => b == *inner,
        Ty::Option(inner) => b == *inner,
        Ty::Result(ok, err) => b == *ok || b == *err,
        Ty::Record(id) => id.0 < hir.records@.len() && exists|i: int|
            0 <= i < hir.records@[id.0 as int].fields@.len() && b
                == #[trigger] hir.records@[id.0 as int].fields@[i].1,
        Ty::Sum(id) => id.0 < hir.sums@.len() && exists|v: int, i: int|
            0 <= v < hir.sums@[id.0 as int].variants@.len() && 0 <= i
                < hir.sums@[id.0 as int].variants@[v].fields@.len() && b
                == #[trigger] hir.sums@[id.0 as int].variants@[v].fields@[i].1,
        _ => false,
    }
}

/// Whether each type is a part of the one before it.
pub open spec fn descent(hir: Hir, path: Seq<Ty>) -> bool {
    &&& path.len() > 0
    &&& forall|i: int| 0 <= i < path.len() - 1 ==> part(hir, #[trigger] path[i], path[i + 1])
}

/// Whether every record that `ty` reaches has a field.
pub open spec fn full(hir: Hir, ty: Ty) -> bool {
    forall|path: Seq<Ty>| #[trigger]
        descent(hir, path) && path[0] == ty ==> !hollow(hir, path.last())
}

proof fn lemma_full_part(hir: Hir, a: Ty, b: Ty)
    requires
        full(hir, a),
        part(hir, a, b),
    ensures
        full(hir, b),
{
    assert forall|path: Seq<Ty>| #[trigger] descent(hir, path) && path[0] == b implies !hollow(
        hir,
        path.last(),
    ) by {
        let longer = seq![a] + path;
        assert forall|i: int| 0 <= i < longer.len() - 1 implies part(
            hir,
            #[trigger] longer[i],
            longer[i + 1],
        ) by {
            if i > 0 {
                assert(longer[i] == path[i - 1]);
                assert(longer[i + 1] == path[i]);
                assert(part(hir, path[i - 1], path[i]));
            }
        }
        assert(descent(hir, longer));
        assert(longer.last() == path.last());
    }
}

/// Whether everything in an image was read as a type that reaches no record
/// without fields.
spec fn all_full(hir: Hir, s: Image) -> bool {
    forall|p: u32| #[trigger] s.seen.contains_key(p) ==> full(hir, s.kinds[p])
}

proof fn lemma_full_object(hir: Hir, memory: Seq<u8>, ty: Ty, ptr: u32, s: Image, depth: nat)
    requires
        hir.valid(),
        ty.known(hir),
        full(hir, ty),
        all_full(hir, s),
        object(hir, memory, ty, ptr, s, depth) is Ok,
    ensures
        all_full(hir, object(hir, memory, ty, ptr, s, depth)->Ok_0.1),
    decreases depth, 0nat, 0nat,
{
    if !s.seen.contains_key(ptr) {
        let o = outline(hir, memory, ty, ptr)->Ok_0;
        let start = entered(s, memory, ty, ptr, o);
        assert forall|p: u32| #[trigger] start.seen.contains_key(p) implies full(
            hir,
            start.kinds[p],
        ) by {
            if p != ptr {
                assert(s.seen.contains_key(p));
            }
        }
        let at = s.bytes.len() as int;
        lemma_full_places(hir, memory, ty, ptr, at, 0, start, (depth - 1) as nat);
    }
}

proof fn lemma_full_places(
    hir: Hir,
    memory: Seq<u8>,
    ty: Ty,
    ptr: u32,
    at: int,
    index: nat,
    s: Image,
    depth: nat,
)
    requires
        hir.valid(),
        ty.known(hir),
        full(hir, ty),
        all_full(hir, s),
        outline(hir, memory, ty, ptr) matches Ok(o) && places(
            hir,
            memory,
            o.slots,
            index,
            ptr,
            at,
            s,
            depth,
        ) is Ok,
    ensures
        ({
            let o = outline(hir, memory, ty, ptr)->Ok_0;
            all_full(hir, places(hir, memory, o.slots, index, ptr, at, s, depth)->Ok_0)
        }),
    decreases depth, 2nat, outline(hir, memory, ty, ptr)->Ok_0.slots.len() - index,
{
    let o = outline(hir, memory, ty, ptr)->Ok_0;
    if index < o.slots.len() {
        let slot = o.slots[index as int];
        let from = ptr + slot.offset;
        let to = at + slot.offset;
        lemma_slots_known(hir, memory, ty, ptr, index as int);
        assert(part(hir, ty, slot.ty)) by {
            match ty {
                Ty::Record(id) => {
                    let fields = hir.records@[id.0 as int].fields@;
                    assert(slot.ty == fields[index as int].1);
                },
                Ty::Sum(id) => {
                    let tag = le32(memory, ptr as int) as int;
                    let fields = hir.sums@[id.0 as int].variants@[tag].fields@;
                    assert(slot.ty == fields[index as int].1);
                },
                _ => {},
            }
        }
        lemma_full_part(hir, ty, slot.ty);
        lemma_full_place(hir, memory, slot.ty, from, to, s, depth);
        let t = place(hir, memory, slot.ty, from, to, s, depth)->Ok_0;
        lemma_full_places(hir, memory, ty, ptr, at, index + 1, t, depth);
    }
}

proof fn lemma_full_place(
    hir: Hir,
    memory: Seq<u8>,
    ty: Ty,
    from: int,
    to: int,
    s: Image,
    depth: nat,
)
    requires
        hir.valid(),
        ty.known(hir),
        full(hir, ty),
        all_full(hir, s),
        place(hir, memory, ty, from, to, s, depth) is Ok,
    ensures
        all_full(hir, place(hir, memory, ty, from, to, s, depth)->Ok_0),
    decreases depth, 1nat, 0nat,
{
    let c = cell(hir, memory, ty, from)->Ok_0;
    if let Some(link) = c.link {
        let q = le32(memory, from + link.offset);
        if q != 0 {
            lemma_link_known(hir, memory, ty, from);
            if link.ty != ty {
                lemma_full_part(hir, ty, link.ty);
            }
            lemma_full_object(hir, memory, link.ty, q, s, depth);
            let t = object(hir, memory, link.ty, q, s, depth)->Ok_0.1;
            let u = place(hir, memory, ty, from, to, s, depth)->Ok_0;
            assert(u.seen == t.seen && u.kinds == t.kinds);
        }
    }
}

/// Whether everything in an image was read as a type the program knows.
pub open spec fn all_known(hir: Hir, s: Image) -> bool {
    forall|p: u32| #[trigger] s.seen.contains_key(p) ==> s.kinds[p].known(hir)
}

proof fn lemma_known_object(hir: Hir, memory: Seq<u8>, ty: Ty, ptr: u32, s: Image, depth: nat)
    requires
        hir.valid(),
        ty.known(hir),
        all_known(hir, s),
        object(hir, memory, ty, ptr, s, depth) is Ok,
    ensures
        all_known(hir, object(hir, memory, ty, ptr, s, depth)->Ok_0.1),
    decreases depth, 0nat, 0nat,
{
    if !s.seen.contains_key(ptr) {
        let o = outline(hir, memory, ty, ptr)->Ok_0;
        let start = entered(s, memory, ty, ptr, o);
        assert forall|p: u32| #[trigger] start.seen.contains_key(p) implies start.kinds[p].known(
            hir,
        ) by {
            if p != ptr {
                assert(s.seen.contains_key(p));
            }
        }
        let at = s.bytes.len() as int;
        lemma_known_places(hir, memory, ty, ptr, at, 0, start, (depth - 1) as nat);
    }
}

proof fn lemma_known_places(
    hir: Hir,
    memory: Seq<u8>,
    ty: Ty,
    ptr: u32,
    at: int,
    index: nat,
    s: Image,
    depth: nat,
)
    requires
        hir.valid(),
        ty.known(hir),
        all_known(hir, s),
        outline(hir, memory, ty, ptr) matches Ok(o) && places(
            hir,
            memory,
            o.slots,
            index,
            ptr,
            at,
            s,
            depth,
        ) is Ok,
    ensures
        ({
            let o = outline(hir, memory, ty, ptr)->Ok_0;
            all_known(hir, places(hir, memory, o.slots, index, ptr, at, s, depth)->Ok_0)
        }),
    decreases depth, 2nat, outline(hir, memory, ty, ptr)->Ok_0.slots.len() - index,
{
    let o = outline(hir, memory, ty, ptr)->Ok_0;
    if index < o.slots.len() {
        let slot = o.slots[index as int];
        let from = ptr + slot.offset;
        let to = at + slot.offset;
        lemma_slots_known(hir, memory, ty, ptr, index as int);
        lemma_known_place(hir, memory, slot.ty, from, to, s, depth);
        let t = place(hir, memory, slot.ty, from, to, s, depth)->Ok_0;
        lemma_known_places(hir, memory, ty, ptr, at, index + 1, t, depth);
    }
}

proof fn lemma_known_place(
    hir: Hir,
    memory: Seq<u8>,
    ty: Ty,
    from: int,
    to: int,
    s: Image,
    depth: nat,
)
    requires
        hir.valid(),
        ty.known(hir),
        all_known(hir, s),
        place(hir, memory, ty, from, to, s, depth) is Ok,
    ensures
        all_known(hir, place(hir, memory, ty, from, to, s, depth)->Ok_0),
    decreases depth, 1nat, 0nat,
{
    let c = cell(hir, memory, ty, from)->Ok_0;
    if let Some(link) = c.link {
        let q = le32(memory, from + link.offset);
        if q != 0 {
            lemma_link_known(hir, memory, ty, from);
            lemma_known_object(hir, memory, link.ty, q, s, depth);
            let t = object(hir, memory, link.ty, q, s, depth)->Ok_0.1;
            let u = place(hir, memory, ty, from, to, s, depth)->Ok_0;
            assert(u.seen == t.seen && u.kinds == t.kinds);
        }
    }
}

/// Everything that is captured is of a type the program knows.
pub proof fn what_is_captured_is_of_known_types(hir: Hir, memory: Seq<u8>, ty: Ty, ptr: u32)
    requires
        hir.valid(),
        ty.known(hir),
        object(hir, memory, ty, ptr, empty_image(), addresses()) is Ok,
    ensures
        all_known(hir, object(hir, memory, ty, ptr, empty_image(), addresses())->Ok_0.1),
{
    lemma_known_object(hir, memory, ty, ptr, empty_image(), addresses());
}

/// A type that reaches no record without fields is never captured with two
/// objects at one offset, so every state of it makes the trip and back
/// unchanged.
pub proof fn a_full_type_shares_no_offset(hir: Hir, ty: Ty, memory: Seq<u8>, root: Val)
    requires
        hir.valid(),
        ty.known(hir),
        full(hir, ty),
        lifted(hir, ty, memory, root) is Ok,
    ensures
        unshared(hir, lifted(hir, ty, memory, root)->Ok_0.1),
{
    let (r, f) = lifted(hir, ty, memory, root)->Ok_0;
    if let Root::Pointer(at) = r {
        let ptr = pattern32(root->I32_0);
        lemma_full_object(hir, memory, ty, ptr, empty_image(), addresses());
        a_captured_image_is_closed(hir, memory, ty, ptr);
        assert forall|p: u32| #[trigger] f.seen.contains_key(p) implies !hollow(
            hir,
            f.kinds[p],
        ) by {
            let path = seq![f.kinds[p]];
            assert(descent(hir, path));
            assert(path.last() == f.kinds[p]);
        }
        assert(filled(hir, f));
    }
}

/// Sharing survives: two places that led to one object lead to one object in
/// the image.
pub proof fn sharing_survives(
    hir: Hir,
    memory: Seq<u8>,
    f: Image,
    a: Ty,
    a_from: int,
    a_to: int,
    b: Ty,
    b_from: int,
    b_to: int,
)
    requires
        faithful(hir, memory, f, a, a_from, a_to),
        faithful(hir, memory, f, b, b_from, b_to),
        cell(hir, memory, a, a_from)->Ok_0.link matches Some(x) && cell(
            hir,
            memory,
            b,
            b_from,
        )->Ok_0.link matches Some(y) && le32(memory, a_from + x.offset) == le32(
            memory,
            b_from + y.offset,
        ),
    ensures
        ({
            let x = cell(hir, memory, a, a_from)->Ok_0.link->Some_0;
            let y = cell(hir, memory, b, b_from)->Ok_0.link->Some_0;
            le32(f.bytes, a_to + x.offset) == le32(f.bytes, b_to + y.offset)
        }),
{
}

/// A narrow variant takes the room of the widest: objects of one sum are one
/// size, whatever they hold.
pub proof fn variants_of_a_sum_take_the_same_room(
    hir: Hir,
    id: SumId,
    m: Seq<u8>,
    p: u32,
    n: Seq<u8>,
    q: u32,
)
    requires
        outline(hir, m, Ty::Sum(id), p) is Ok,
        outline(hir, n, Ty::Sum(id), q) is Ok,
    ensures
        outline(hir, m, Ty::Sum(id), p)->Ok_0.size == outline(hir, n, Ty::Sum(id), q)->Ok_0.size,
{
}

/// Whether a refusal is true: what is said to lie past the arena does, and a tag
/// that is said to name no variant names none.
pub open spec fn truthful(hir: Hir, memory: Seq<u8>, e: CaptureError) -> bool {
    match e {
        CaptureError::Past { at, len } => len > 0 && at + len > memory.len(),
        CaptureError::NoVariant { sum, tag } => tag >= hir.sums@[sum.0 as int].variants@.len(),
        CaptureError::TooLarge => true,
        _ => false,
    }
}

proof fn lemma_refused_object(hir: Hir, memory: Seq<u8>, ty: Ty, ptr: u32, s: Image, depth: nat)
    requires
        hir.valid(),
        ty.known(hir),
        ty.boxed(),
        object(hir, memory, ty, ptr, s, depth) is Err,
    ensures
        truthful(hir, memory, object(hir, memory, ty, ptr, s, depth)->Err_0),
    decreases depth, 0nat, 0nat,
{
    if depth > 0 && !s.seen.contains_key(ptr) {
        if let Ok(o) = outline(hir, memory, ty, ptr) {
            let start = entered(s, memory, ty, ptr, o);
            let at = s.bytes.len() as int;
            lemma_head_small(hir, memory, ty, ptr);
            if places(hir, memory, o.slots, 0, ptr, at, start, (depth - 1) as nat) is Err {
                lemma_refused_places(hir, memory, ty, ptr, at, 0, start, (depth - 1) as nat);
            }
        }
    }
}

proof fn lemma_head_small(hir: Hir, memory: Seq<u8>, ty: Ty, ptr: u32)
    requires
        outline(hir, memory, ty, ptr) is Ok,
    ensures
        outline(hir, memory, ty, ptr)->Ok_0.head <= 4 + 0xffff_ffff,
        forall|k: int|
            0 <= k < outline(hir, memory, ty, ptr)->Ok_0.slots.len() ==> (#[trigger] outline(
                hir,
                memory,
                ty,
                ptr,
            )->Ok_0.slots[k]).offset + 16 <= u64::MAX - 0x1_0000_0000 || !hir.valid()
                || !ty.known(hir),
{
    let o = outline(hir, memory, ty, ptr)->Ok_0;
    assert forall|k: int| 0 <= k < o.slots.len() implies (#[trigger] o.slots[k]).offset + 16
        <= u64::MAX - 0x1_0000_0000 || !hir.valid() || !ty.known(hir) by {
        if hir.valid() && ty.known(hir) {
            match ty {
                Ty::List(elem) => {
                    let w = (elem.words() * WORD) as int;
                    assert(w == 8 || w == 16);
                    assert(w * k <= 16 * 0xffff_ffff) by (nonlinear_arith)
                        requires
                            w == 8 || w == 16,
                            0 <= k < 0xffff_ffff,
                    ;
                },
                Ty::Record(id) => {
                    let fields = hir.records@[id.0 as int].fields@;
                    assert(fields_known(fields, hir));
                    lemma_offset(fields, k as nat);
                },
                Ty::Sum(id) => {
                    let def = hir.sums@[id.0 as int];
                    assert(def.known(hir));
                    let fields = def.variants@[le32(memory, ptr as int) as int].fields@;
                    assert(fields_known(fields, hir));
                    lemma_offset(fields, k as nat);
                },
                _ => {},
            }
        }
    }
}

proof fn lemma_refused_places(
    hir: Hir,
    memory: Seq<u8>,
    ty: Ty,
    ptr: u32,
    at: int,
    index: nat,
    s: Image,
    depth: nat,
)
    requires
        hir.valid(),
        ty.known(hir),
        outline(hir, memory, ty, ptr) matches Ok(o) && places(
            hir,
            memory,
            o.slots,
            index,
            ptr,
            at,
            s,
            depth,
        ) is Err,
    ensures
        ({
            let o = outline(hir, memory, ty, ptr)->Ok_0;
            truthful(hir, memory, places(hir, memory, o.slots, index, ptr, at, s, depth)->Err_0)
        }),
    decreases depth, 2nat, outline(hir, memory, ty, ptr)->Ok_0.slots.len() - index,
{
    let o = outline(hir, memory, ty, ptr)->Ok_0;
    if index < o.slots.len() {
        let slot = o.slots[index as int];
        let from = ptr + slot.offset;
        let to = at + slot.offset;
        lemma_slots_known(hir, memory, ty, ptr, index as int);
        lemma_head_small(hir, memory, ty, ptr);
        match place(hir, memory, slot.ty, from, to, s, depth) {
            Err(_) => {
                lemma_refused_place(hir, memory, slot.ty, from, to, s, depth);
            },
            Ok(t) => {
                lemma_refused_places(hir, memory, ty, ptr, at, index + 1, t, depth);
            },
        }
    }
}

proof fn lemma_refused_place(
    hir: Hir,
    memory: Seq<u8>,
    ty: Ty,
    from: int,
    to: int,
    s: Image,
    depth: nat,
)
    requires
        hir.valid(),
        ty.known(hir),
        0 <= from <= u64::MAX - 16,
        place(hir, memory, ty, from, to, s, depth) is Err,
    ensures
        truthful(hir, memory, place(hir, memory, ty, from, to, s, depth)->Err_0),
    decreases depth, 1nat, 0nat,
{
    if let Ok(c) = cell(hir, memory, ty, from) {
        lemma_cell_fits(hir, memory, ty, from);
        if let Some(link) = c.link {
            lemma_link_known(hir, memory, ty, from);
            let q = le32(memory, from + link.offset);
            if q != 0 {
                lemma_refused_object(hir, memory, link.ty, q, s, depth);
            }
        }
    }
}

/// A state is refused only where it cannot be read: what is said to lie past the
/// arena does, a tag that is said to name no variant names none, and a state
/// that is said not to be built has a root that leads nowhere.
pub proof fn a_refused_state_cannot_be_read(hir: Hir, ty: Ty, memory: Seq<u8>, root: Val)
    requires
        hir.valid(),
        ty.known(hir),
        lifted(hir, ty, memory, root) is Err,
    ensures
        match lifted(hir, ty, memory, root)->Err_0 {
            CaptureError::NotBuilt => root == Val::I32(0),
            CaptureError::Unsupported { .. } => !(ty is Int || ty is Float || ty is Bool || ty is Str
                || ty is List || ty is Record || ty is Sum),
            CaptureError::Global { found, .. } => found == root && if ty is Int {
                !(root is I64)
            } else if ty is Float {
                !(root is F64)
            } else {
                !(root is I32)
            },
            e => truthful(hir, memory, e),
        },
{
    if let Val::I32(value) = root {
        if links(hir, ty) && value != 0 && !(ty is Int || ty is Float) {
            let ptr = pattern32(value);
            if object(hir, memory, ty, ptr, empty_image(), addresses()) is Err {
                lemma_refused_object(hir, memory, ty, ptr, empty_image(), addresses());
            }
        }
    }
}

} // verus!
