//! A state that was moved looks the same.
//!
//! What a state holds can be read in two ways that know nothing of each other:
//! the walk that captures it, and the rendering that shows it to a person. Here
//! they are held against each other: what is shown of a state is shown of it
//! again wherever its image lands.

use vstd::prelude::*;

use crate::bytes::{le32, le64, lemma_le32_congruent, signed64};
use crate::capture::{outline, Image};
use crate::hir::{Hir, Ty};
use crate::kin::kin;
use crate::layout::offset_of;
use crate::run::{
    field_shown, payload_shown, payload_value, pointer_shown, string_shown, widened,
};
use crate::survival::{
    closed, faithful, landed, lemma_landed_cell, lemma_landed_outline, sound, whole,
};

verus! {

/// Whether a value of this type is all in its own slot: no pointer leads out of
/// it.
pub open spec fn in_place(hir: Hir, ty: Ty) -> bool {
    match ty {
        Ty::Unit | Ty::Node | Ty::Never | Ty::Error | Ty::Int | Ty::Float | Ty::Bool => true,
        Ty::Sum(id) => hir.sums@[id.0 as int].bare(),
        _ => false,
    }
}

/// Whether a slot of this type holds all there is to show: a value in place, or
/// an `Option` or a `Result` of such.
pub open spec fn shown_in_place(hir: Hir, ty: Ty) -> bool {
    match ty {
        Ty::Option(inner) => in_place(hir, *inner),
        Ty::Result(ok, err) => in_place(hir, *ok) && in_place(hir, *err),
        _ => in_place(hir, ty),
    }
}

/// A bare tag is shown without looking anywhere.
proof fn lemma_bare_shown(hir: Hir, ty: Ty, ptr: nat, m: Seq<u8>, n: Seq<u8>, depth: nat)
    requires
        ty matches Ty::Sum(id) && hir.sums@[id.0 as int].bare(),
    ensures
        pointer_shown(hir, ty, ptr, m, depth) == pointer_shown(hir, ty, ptr, n, depth),
{
    let def = hir.sums@[ty->Sum_0.0 as int];
    let index = ptr % 0x1_0000_0000;
    if index < def.variants@.len() {
        assert(def.variants@[index as int].fields@.len() == 0);
    }
}

/// A payload in place is shown without looking anywhere.
proof fn lemma_payload_shown(
    hir: Hir,
    ty: Ty,
    payload: i64,
    m: Seq<u8>,
    n: Seq<u8>,
    depth: nat,
)
    requires
        in_place(hir, ty),
    ensures
        payload_shown(hir, ty, payload, m, depth) == payload_shown(hir, ty, payload, n, depth),
{
    if ty is Sum {
        let value = payload_value(ty, payload);
        lemma_bare_shown(hir, ty, widened(value->I32_0), m, n, depth);
    }
}

/// A slot that holds all there is to show is shown the same where it landed.
proof fn lemma_slot_shown(
    hir: Hir,
    memory: Seq<u8>,
    f: Image,
    base: u32,
    arena: Seq<u8>,
    ty: Ty,
    from: nat,
    to: nat,
    depth: nat,
)
    requires
        hir.valid(),
        ty.known(hir),
        sound(hir, f),
        landed(f, base, arena),
        faithful(hir, memory, f, ty, from as int, to as int),
        shown_in_place(hir, ty),
    ensures
        field_shown(hir, ty, from, memory, depth) == field_shown(
            hir,
            ty,
            (base + to) as nat,
            arena,
            depth,
        ),
{
    let there = base + to;
    assert(kin(hir, ty, hir, ty));
    lemma_landed_cell(hir, memory, f, base, hir, ty, arena, ty, from as int, to as int);
    if ty is Unit || ty is Node || ty is Never || ty is Error {
    } else {
        assert(arena[there + 0] == memory[from as int + 0]);
        assert(arena[there + 1] == memory[from as int + 1]);
        assert(arena[there + 2] == memory[from as int + 2]);
        assert(arena[there + 3] == memory[from as int + 3]);
        assert(arena[there + 4] == memory[from as int + 4]);
        assert(arena[there + 5] == memory[from as int + 5]);
        assert(arena[there + 6] == memory[from as int + 6]);
        assert(arena[there + 7] == memory[from as int + 7]);
        lemma_le32_congruent(arena, there as int, memory, from as int);
        lemma_le32_congruent(arena, there as int + 4, memory, from as int + 4);
        if ty is Option || ty is Result {
            assert(arena[there + 8] == memory[from as int + 8]);
            assert(arena[there + 9] == memory[from as int + 9]);
            assert(arena[there + 10] == memory[from as int + 10]);
            assert(arena[there + 11] == memory[from as int + 11]);
            assert(arena[there + 12] == memory[from as int + 12]);
            assert(arena[there + 13] == memory[from as int + 13]);
            assert(arena[there + 14] == memory[from as int + 14]);
            assert(arena[there + 15] == memory[from as int + 15]);
            lemma_le32_congruent(arena, there as int + 8, memory, from as int + 8);
            lemma_le32_congruent(arena, there as int + 12, memory, from as int + 12);
            let payload = signed64(le64(memory, from as int + 8));
            match ty {
                Ty::Option(inner) => {
                    lemma_payload_shown(hir, *inner, payload, memory, arena, depth);
                },
                Ty::Result(ok, err) => {
                    lemma_payload_shown(hir, *ok, payload, memory, arena, depth);
                    lemma_payload_shown(hir, *err, payload, memory, arena, depth);
                },
                _ => {},
            }
        }
        if ty is Sum {
            lemma_bare_shown(hir, ty, le32(memory, from as int) as nat, memory, arena, depth);
        }
    }
}

/// Every field of every record looks the same where it landed: a number, a
/// truth, a float, a tag, and an `Option` or a `Result` of such, each at the
/// place the layout gives it.
pub proof fn a_record_looks_the_same_where_it_landed(
    hir: Hir,
    memory: Seq<u8>,
    f: Image,
    base: u32,
    arena: Seq<u8>,
    p: u32,
    index: nat,
    depth: nat,
)
    requires
        hir.valid(),
        closed(hir, memory, f),
        landed(f, base, arena),
        f.seen.contains_key(p),
        f.kinds[p].known(hir),
        f.kinds[p] matches Ty::Record(id) && index < hir.records@[id.0 as int].fields@.len()
            && shown_in_place(hir, hir.records@[id.0 as int].fields@[index as int].1),
    ensures
        ({
            let fields = hir.records@[f.kinds[p]->Record_0.0 as int].fields@;
            let ty = fields[index as int].1;
            let offset = offset_of(fields, index);
            field_shown(hir, ty, p as nat + offset, memory, depth) == field_shown(
                hir,
                ty,
                (base + f.seen[p] + offset) as nat,
                arena,
                depth,
            )
        }),
{
    let fields = hir.records@[f.kinds[p]->Record_0.0 as int].fields@;
    let offset = offset_of(fields, index);
    assert(whole(hir, memory, f, p));
    let o = outline(hir, memory, f.kinds[p], p)->Ok_0;
    assert(o.slots[index as int].offset == offset);
    assert(o.slots[index as int].ty == fields[index as int].1);
    assert(fields[index as int].1.known(hir));
    lemma_slot_shown(
        hir,
        memory,
        f,
        base,
        arena,
        fields[index as int].1,
        (p + offset) as nat,
        (f.seen[p] + offset) as nat,
        depth,
    );
}

/// Every variant looks the same where it landed: it is the same variant, and
/// its fields are shown the same.
pub proof fn a_variant_looks_the_same_where_it_landed(
    hir: Hir,
    memory: Seq<u8>,
    f: Image,
    base: u32,
    arena: Seq<u8>,
    p: u32,
    index: nat,
    depth: nat,
)
    requires
        hir.valid(),
        closed(hir, memory, f),
        landed(f, base, arena),
        f.seen.contains_key(p),
        f.kinds[p].known(hir),
        f.kinds[p] is Sum,
    ensures
        ({
            let variants = hir.sums@[f.kinds[p]->Sum_0.0 as int].variants@;
            let tag = le32(memory, p as int) as int;
            let fields = variants[tag].fields@;
            let ty = fields[index as int].1;
            let offset = offset_of(fields, index);
            &&& tag < variants.len()
            &&& p + 4 <= memory.len()
            &&& base + f.seen[p] + 4 <= arena.len()
            &&& le32(arena, base + f.seen[p]) == tag
            &&& index < fields.len() && shown_in_place(hir, ty) ==> field_shown(
                hir,
                ty,
                (p + 8 + offset) as nat,
                memory,
                depth,
            ) == field_shown(hir, ty, (base + f.seen[p] + 8 + offset) as nat, arena, depth)
        }),
{
    let def = hir.sums@[f.kinds[p]->Sum_0.0 as int];
    let tag = le32(memory, p as int) as int;
    let there = base + f.seen[p];
    assert(whole(hir, memory, f, p));
    assert(kin(hir, f.kinds[p], hir, f.kinds[p]));
    lemma_landed_outline(hir, memory, f, base, hir, f.kinds[p], arena, p);
    let o = outline(hir, memory, f.kinds[p], p)->Ok_0;
    assert(o.head == 4);
    let spot = there as u32;
    assert(arena[spot + 0] == memory[p + 0] && arena[spot + 1] == memory[p + 1]);
    assert(arena[spot + 2] == memory[p + 2] && arena[spot + 3] == memory[p + 3]);
    lemma_le32_congruent(arena, there as int, memory, p as int);
    let fields = def.variants@[tag].fields@;
    if index < fields.len() && shown_in_place(hir, fields[index as int].1) {
        let offset = offset_of(fields, index);
        assert(o.slots[index as int].offset == 8 + offset);
        assert(o.slots[index as int].ty == fields[index as int].1);
        assert(def.known(hir));
        assert(fields[index as int].1.known(hir));
        lemma_slot_shown(
            hir,
            memory,
            f,
            base,
            arena,
            fields[index as int].1,
            (p + (8 + offset)) as nat,
            (f.seen[p] + (8 + offset)) as nat,
            depth,
        );
    }
}

/// Every list looks the same where it landed: it is as long, and its elements
/// are shown the same.
pub proof fn a_list_looks_the_same_where_it_landed(
    hir: Hir,
    memory: Seq<u8>,
    f: Image,
    base: u32,
    arena: Seq<u8>,
    p: u32,
    index: nat,
    depth: nat,
)
    requires
        hir.valid(),
        closed(hir, memory, f),
        landed(f, base, arena),
        f.seen.contains_key(p),
        f.kinds[p].known(hir),
        f.kinds[p] is List,
    ensures
        ({
            let ty = *f.kinds[p]->List_0;
            let step = if ty is Option || ty is Result {
                16int
            } else {
                8int
            };
            &&& p + 4 <= memory.len()
            &&& base + f.seen[p] + 4 <= arena.len()
            &&& le32(arena, base + f.seen[p]) == le32(memory, p as int)
            &&& index < le32(memory, p as int) && shown_in_place(hir, ty) ==> field_shown(
                hir,
                ty,
                (p + 8 + step * index) as nat,
                memory,
                depth,
            ) == field_shown(hir, ty, (base + f.seen[p] + 8 + step * index) as nat, arena, depth)
        }),
{
    let ty = *f.kinds[p]->List_0;
    let step: int = if ty is Option || ty is Result {
        16
    } else {
        8
    };
    let there = base + f.seen[p];
    assert(whole(hir, memory, f, p));
    assert(kin(hir, f.kinds[p], hir, f.kinds[p]));
    lemma_landed_outline(hir, memory, f, base, hir, f.kinds[p], arena, p);
    let o = outline(hir, memory, f.kinds[p], p)->Ok_0;
    assert(o.head == 4);
    let spot = there as u32;
    assert(arena[spot + 0] == memory[p + 0] && arena[spot + 1] == memory[p + 1]);
    assert(arena[spot + 2] == memory[p + 2] && arena[spot + 3] == memory[p + 3]);
    lemma_le32_congruent(arena, there as int, memory, p as int);
    if index < le32(memory, p as int) && shown_in_place(hir, ty) {
        let offset = 8 + step * index;
        assert(ty.words() * 8 == step);
        assert(0 <= step * index) by (nonlinear_arith)
            requires
                step >= 0,
                index >= 0,
        ;
        assert(o.slots[index as int].offset == offset);
        assert(o.slots[index as int].ty == ty);
        lemma_slot_shown(
            hir,
            memory,
            f,
            base,
            arena,
            ty,
            (p + offset) as nat,
            (f.seen[p] + offset) as nat,
            depth,
        );
    }
}

/// Every string is shown the same where it landed.
pub proof fn a_string_looks_the_same_where_it_landed(
    hir: Hir,
    memory: Seq<u8>,
    f: Image,
    base: u32,
    arena: Seq<u8>,
    p: u32,
)
    requires
        hir.valid(),
        closed(hir, memory, f),
        landed(f, base, arena),
        f.seen.contains_key(p),
        f.kinds[p] is Str,
    ensures
        string_shown(memory, p as nat) == string_shown(arena, (base + f.seen[p]) as nat),
{
    let there = base + f.seen[p];
    assert(whole(hir, memory, f, p));
    assert(kin(hir, f.kinds[p], hir, f.kinds[p]));
    lemma_landed_outline(hir, memory, f, base, hir, f.kinds[p], arena, p);
    let o = outline(hir, memory, f.kinds[p], p)->Ok_0;
    let len = le32(memory, p as int);
    let spot = there as u32;
    assert(arena[spot + 0] == memory[p + 0] && arena[spot + 1] == memory[p + 1]);
    assert(arena[spot + 2] == memory[p + 2] && arena[spot + 3] == memory[p + 3]);
    lemma_le32_congruent(arena, there as int, memory, p as int);
    let a = memory.subrange(p as int + 4, p as int + 4 + len);
    let b = arena.subrange(there as int + 4, there as int + 4 + len);
    assert forall|j: int| 0 <= j < len implies a[j] == b[j] by {
        assert(arena[spot + (4 + j)] == memory[p + (4 + j)]);
    }
    assert(a =~= b);
}

/// A pointer in a slot leads to the copy of what it led to: the slot of every
/// field, element or payload that is a pointer holds, where it landed, the
/// address at which the object it led to landed, and nothing where it led
/// nowhere.
pub proof fn a_pointer_leads_to_the_copy(
    hir: Hir,
    memory: Seq<u8>,
    f: Image,
    base: u32,
    arena: Seq<u8>,
    p: u32,
    index: nat,
)
    requires
        hir.valid(),
        closed(hir, memory, f),
        landed(f, base, arena),
        f.seen.contains_key(p),
        f.kinds[p].known(hir),
        f.kinds[p] matches Ty::Record(id) && index < hir.records@[id.0 as int].fields@.len() && {
            let ty = hir.records@[id.0 as int].fields@[index as int].1;
            ty is Str || ty is List || ty is Record || (ty matches Ty::Sum(sum)
                && !hir.sums@[sum.0 as int].bare())
        },
    ensures
        ({
            let fields = hir.records@[f.kinds[p]->Record_0.0 as int].fields@;
            let offset = offset_of(fields, index);
            let q = le32(memory, p + offset);
            let r = le32(arena, base + f.seen[p] + offset);
            &&& q == 0 ==> r == 0
            &&& q != 0 ==> f.seen.contains_key(q) && r == base + f.seen[q]
        }),
{
    let fields = hir.records@[f.kinds[p]->Record_0.0 as int].fields@;
    let offset = offset_of(fields, index);
    let ty = fields[index as int].1;
    assert(whole(hir, memory, f, p));
    let o = outline(hir, memory, f.kinds[p], p)->Ok_0;
    assert(o.slots[index as int].offset == offset);
    assert(o.slots[index as int].ty == ty);
    assert(ty.known(hir));
    assert(kin(hir, ty, hir, ty));
    let (from, to) = (p + offset, f.seen[p] + offset);
    lemma_landed_cell(hir, memory, f, base, hir, ty, arena, ty, from as int, to as int);
    assert(base + to == base + f.seen[p] + offset);
}

/// Whether a value of this type is a pointer to an object.
pub open spec fn is_pointer(hir: Hir, ty: Ty) -> bool {
    match ty {
        Ty::Str | Ty::List(_) | Ty::Record(_) => true,
        Ty::Sum(id) => !hir.sums@[id.0 as int].bare(),
        _ => false,
    }
}

/// What an `Option` or a `Result` with this tag carries, if anything.
pub open spec fn carried(ty: Ty, tag: u32) -> Option<Ty> {
    match ty {
        Ty::Option(inner) => if tag == 0 {
            Some(*inner)
        } else {
            None
        },
        Ty::Result(ok, err) => if tag == 0 {
            Some(*ok)
        } else {
            Some(*err)
        },
        _ => None,
    }
}

/// A slot means the same where it landed, wherever it is in an object: a
/// pointer leads to the copy of what it led to, and an `Option` or a `Result` is
/// the same variant, around a pointer to the copy of what it held.
pub proof fn a_slot_means_the_same_where_it_landed(
    hir: Hir,
    memory: Seq<u8>,
    f: Image,
    base: u32,
    arena: Seq<u8>,
    ty: Ty,
    from: nat,
    to: nat,
)
    requires
        hir.valid(),
        ty.known(hir),
        sound(hir, f),
        landed(f, base, arena),
        faithful(hir, memory, f, ty, from as int, to as int),
    ensures
        ({
            let there = base + to;
            let tag = le32(memory, from as int);
            let leads = |at: int, now: int|
                {
                    let (q, r) = (le32(memory, at), le32(arena, now));
                    &&& q == 0 ==> r == 0
                    &&& q != 0 ==> f.seen.contains_key(q) && r == base + f.seen[q]
                };
            &&& is_pointer(hir, ty) ==> leads(from as int, there as int)
            &&& ty is Option || ty is Result ==> le32(arena, there as int) == tag
            &&& carried(ty, tag) matches Some(inner) ==> (is_pointer(hir, inner) ==> leads(
                from as int + 8,
                there as int + 8,
            ))
        }),
{
    let there = base + to;
    assert(kin(hir, ty, hir, ty));
    lemma_landed_cell(hir, memory, f, base, hir, ty, arena, ty, from as int, to as int);
    if ty is Option || ty is Result {
        assert(arena[there + 0] == memory[from as int + 0]);
        assert(arena[there + 1] == memory[from as int + 1]);
        assert(arena[there + 2] == memory[from as int + 2]);
        assert(arena[there + 3] == memory[from as int + 3]);
        lemma_le32_congruent(arena, there as int, memory, from as int);
    }
}

} // verus!
