//! When a type of one program is a type of another.
//!
//! A program that was edited numbers its declarations anew, so the types of
//! two programs are compared by what they expand to. Types that expand to one
//! shape take the same room, have the same parts in the same places, and lead
//! to types that expand to one shape again.

use vstd::prelude::*;

use crate::bytes::le32;
use crate::capture::{cell, field_slots, links, outline, Cell, Outline};
use crate::hir::{fields_known, Hir, SumDef, Ty};
use crate::layout::{offset_of, WORD};
use crate::shape::{form, names};

verus! {

/// Whether no two declarations have one name.
pub open spec fn names_distinct(hir: Hir) -> bool {
    names(hir).no_duplicates()
}

/// Whether `ty` is the declaration of this name.
pub open spec fn declared(hir: Hir, ty: Ty, name: Seq<char>) -> bool {
    match ty {
        Ty::Record(id) => id.0 < hir.records@.len() && hir.records@[id.0 as int].name@ == name,
        Ty::Sum(id) => id.0 < hir.sums@.len() && hir.sums@[id.0 as int].name@ == name,
        _ => false,
    }
}

/// Whether the declarations of the name at `index` expand to one shape inside
/// those before it.
pub open spec fn opened(old: Hir, new: Hir, open: Seq<Seq<char>>, index: int) -> bool {
    &&& !open.take(index).contains(open[index])
    &&& exists|a: Ty, b: Ty| #[trigger]
        declared(old, a, open[index]) && #[trigger] declared(new, b, open[index]) && form(
            old,
            a,
            open.take(index),
        ) == form(new, b, open.take(index))
}

/// Whether two types expand to one shape, inside declarations that do.
pub open spec fn agree(old: Hir, a: Ty, new: Hir, b: Ty, open: Seq<Seq<char>>) -> bool {
    &&& forall|i: int| 0 <= i < open.len() ==> #[trigger] opened(old, new, open, i)
    &&& form(old, a, open) == form(new, b, open)
}

/// Whether a type of one program is a type of another: one and the same, or
/// expanding to one shape in programs whose declarations can be told apart.
pub open spec fn kin(old: Hir, a: Ty, new: Hir, b: Ty) -> bool {
    &&& a.known(old)
    &&& b.known(new)
    &&& {
        ||| old == new && a == b
        ||| names_distinct(old) && names_distinct(new) && exists|open: Seq<Seq<char>>| #[trigger]
            agree(old, a, new, b, open)
    }
}

/// Whether fields are as many, and of the same types, in order.
pub open spec fn kin_fields(
    old: Hir,
    a: Seq<(String, Ty)>,
    new: Hir,
    b: Seq<(String, Ty)>,
) -> bool {
    &&& a.len() == b.len()
    &&& forall|i: int| 0 <= i < a.len() ==> kin(old, #[trigger] a[i].1, new, b[i].1)
}

/// Whether nothing is stored of a value of this type.
pub open spec fn void(ty: Ty) -> bool {
    ty is Unit || ty is Node || ty is Never || ty is Error
}

/// Whether two types are made alike of parts that are the same types.
pub open spec fn matched(old: Hir, a: Ty, new: Hir, b: Ty) -> bool {
    match (a, b) {
        (Ty::Int, Ty::Int) => true,
        (Ty::Float, Ty::Float) => true,
        (Ty::Bool, Ty::Bool) => true,
        (Ty::Str, Ty::Str) => true,
        (Ty::List(x), Ty::List(y)) => kin(old, *x, new, *y),
        (Ty::Option(x), Ty::Option(y)) => kin(old, *x, new, *y),
        (Ty::Result(x, xe), Ty::Result(y, ye)) => kin(old, *x, new, *y) && kin(old, *xe, new, *ye),
        (Ty::Record(i), Ty::Record(j)) => kin_fields(
            old,
            old.records@[i.0 as int].fields@,
            new,
            new.records@[j.0 as int].fields@,
        ),
        (Ty::Sum(i), Ty::Sum(j)) => kin_sums(
            old,
            old.sums@[i.0 as int],
            new,
            new.sums@[j.0 as int],
        ),
        _ => void(a) && void(b),
    }
}

/// Whether variants are as many, and carry the same types, in order.
pub open spec fn kin_sums(old: Hir, a: SumDef, new: Hir, b: SumDef) -> bool {
    &&& a.variants@.len() == b.variants@.len()
    &&& forall|v: int|
        0 <= v < a.variants@.len() ==> kin_fields(
            old,
            (#[trigger] a.variants@[v]).fields@,
            new,
            b.variants@[v].fields@,
        )
}

proof fn lemma_one_declaration(hir: Hir, a: Ty, b: Ty, name: Seq<char>)
    requires
        names_distinct(hir),
        declared(hir, a, name),
        declared(hir, b, name),
    ensures
        a == b,
{
    let all = names(hir);
    let records = hir.records@.len() as int;
    let i = match a {
        Ty::Record(id) => id.0 as int,
        Ty::Sum(id) => records + id.0,
        _ => 0,
    };
    let j = match b {
        Ty::Record(id) => id.0 as int,
        Ty::Sum(id) => records + id.0,
        _ => 0,
    };
    assert(all[i] == name && all[j] == name);
    assert(i == j);
}

/// The words scalars are written as are different words.
proof fn lemma_scalars()
    ensures
        "int"@ != "float"@,
        "int"@ != "bool"@,
        "int"@ != "string"@,
        "int"@ != "unit"@,
        "int"@ != "?"@,
        "float"@ != "bool"@,
        "float"@ != "string"@,
        "float"@ != "unit"@,
        "float"@ != "?"@,
        "bool"@ != "string"@,
        "bool"@ != "unit"@,
        "bool"@ != "?"@,
        "string"@ != "unit"@,
        "string"@ != "?"@,
{
    reveal_strlit("int");
    reveal_strlit("float");
    reveal_strlit("bool");
    reveal_strlit("string");
    reveal_strlit("unit");
    reveal_strlit("?");
    assert("int"@.len() == 3);
    assert("float"@.len() == 5);
    assert("bool"@.len() == 4);
    assert("string"@.len() == 6);
    assert("unit"@.len() == 4);
    assert("?"@.len() == 1);
    assert("bool"@[0] == 'b');
    assert("unit"@[0] == 'u');
}

/// What is true of a list of open declarations is true of its beginnings.
proof fn lemma_opened_before(
    old: Hir,
    new: Hir,
    open: Seq<Seq<char>>,
    other: Seq<Seq<char>>,
    index: int,
)
    requires
        0 <= index < open.len(),
        index < other.len(),
        open.take(index + 1) =~= other.take(index + 1),
        opened(old, new, open, index),
    ensures
        opened(old, new, other, index),
{
    assert(open.take(index) =~= open.take(index + 1).take(index));
    assert(other.take(index) =~= other.take(index + 1).take(index));
    assert(open.take(index + 1)[index] == open[index]);
    assert(other.take(index + 1)[index] == other[index]);
}

proof fn lemma_agree_inside(
    old: Hir,
    a: Ty,
    new: Hir,
    b: Ty,
    open: Seq<Seq<char>>,
    name: Seq<char>,
    x: Ty,
    y: Ty,
)
    requires
        agree(old, a, new, b, open),
        declared(old, a, name),
        declared(new, b, name),
        !open.contains(name),
        form(old, x, open.push(name)) == form(new, y, open.push(name)),
    ensures
        agree(old, x, new, y, open.push(name)),
{
    let more = open.push(name);
    assert forall|i: int| 0 <= i < more.len() implies #[trigger] opened(old, new, more, i) by {
        if i < open.len() {
            assert(opened(old, new, open, i));
            lemma_opened_before(old, new, open, more, i);
        } else {
            assert(more.take(i) =~= open);
            assert(more[i] == name);
        }
    }
}

proof fn lemma_matched_open(old: Hir, a: Ty, new: Hir, b: Ty, open: Seq<Seq<char>>)
    requires
        old.valid(),
        new.valid(),
        a.known(old),
        b.known(new),
        names_distinct(old),
        names_distinct(new),
        agree(old, a, new, b, open),
    ensures
        matched(old, a, new, b),
    decreases open.len(),
{
    lemma_scalars();
    let shape = form(old, a, open);
    match (a, b) {
        (Ty::List(x), Ty::List(y)) => {
            assert(agree(old, *x, new, *y, open));
        },
        (Ty::Option(x), Ty::Option(y)) => {
            assert(agree(old, *x, new, *y, open));
        },
        (Ty::Result(x, xe), Ty::Result(y, ye)) => {
            assert(agree(old, *x, new, *y, open));
            assert(agree(old, *xe, new, *ye, open));
        },
        _ => {},
    }
    if shape is Again {
        let name = shape->Again_0;
        assert(declared(old, a, name));
        assert(declared(new, b, name));
        assert(open.contains(name));
        let i = choose|i: int| 0 <= i < open.len() && open[i] == name;
        assert(opened(old, new, open, i));
        let (a2, b2) = choose|a2: Ty, b2: Ty| #[trigger]
            declared(old, a2, open[i]) && #[trigger] declared(new, b2, open[i]) && form(
                old,
                a2,
                open.take(i),
            ) == form(new, b2, open.take(i));
        lemma_one_declaration(old, a, a2, name);
        lemma_one_declaration(new, b, b2, name);
        let less = open.take(i);
        assert forall|k: int| 0 <= k < less.len() implies #[trigger] opened(old, new, less, k) by {
            assert(opened(old, new, open, k));
            lemma_opened_before(old, new, open, less, k);
        }
        lemma_matched_open(old, a, new, b, less);
    } else if shape is Record {
        let xs = old.records@[a->Record_0.0 as int];
        let ys = new.records@[b->Record_0.0 as int];
        let fields = shape->Record_fields;
        let others = form(new, b, open)->Record_fields;
        assert(fields.len() == xs.fields@.len());
        assert(others.len() == ys.fields@.len());
        assert(fields_known(xs.fields@, old) && fields_known(ys.fields@, new));
        assert forall|i: int| 0 <= i < xs.fields@.len() implies kin(
            old,
            #[trigger] xs.fields@[i].1,
            new,
            ys.fields@[i].1,
        ) by {
            let (x, y) = (xs.fields@[i].1, ys.fields@[i].1);
            assert(fields[i] == others[i]);
            assert(fields[i].1 == form(old, x, open.push(xs.name@)));
            assert(others[i].1 == form(new, y, open.push(ys.name@)));
            assert(xs.fields@[i].1.known(old) && ys.fields@[i].1.known(new));
            lemma_agree_inside(old, a, new, b, open, xs.name@, x, y);
        }
    } else if shape is Sum {
        let xs = old.sums@[a->Sum_0.0 as int];
        let ys = new.sums@[b->Sum_0.0 as int];
        let variants = shape->Sum_variants;
        let others = form(new, b, open)->Sum_variants;
        assert(variants.len() == xs.variants@.len());
        assert(others.len() == ys.variants@.len());
        assert(xs.known(old) && ys.known(new));
        assert forall|v: int| 0 <= v < xs.variants@.len() implies kin_fields(
            old,
            (#[trigger] xs.variants@[v]).fields@,
            new,
            ys.variants@[v].fields@,
        ) by {
            assert(variants[v] == others[v]);
            let (us, ws) = (xs.variants@[v].fields@, ys.variants@[v].fields@);
            assert(variants[v].1.len() == us.len());
            assert(others[v].1.len() == ws.len());
            assert(fields_known(us, old) && fields_known(ws, new));
            assert forall|i: int| 0 <= i < us.len() implies kin(
                old,
                #[trigger] us[i].1,
                new,
                ws[i].1,
            ) by {
                assert(variants[v].1[i] == others[v].1[i]);
                assert(us[i].1.known(old) && ws[i].1.known(new));
                lemma_agree_inside(old, a, new, b, open, xs.name@, us[i].1, ws[i].1);
            }
        }
    }
}

/// Types that are the same are made alike of parts that are.
pub(crate) proof fn lemma_matched(old: Hir, a: Ty, new: Hir, b: Ty)
    requires
        old.valid(),
        new.valid(),
        kin(old, a, new, b),
    ensures
        matched(old, a, new, b),
        a.words() == b.words(),
        links(old, a) == links(new, b),
{
    if old == new && a == b {
        match a {
            Ty::Record(id) => {
                let fields = old.records@[id.0 as int].fields@;
                assert forall|i: int| 0 <= i < fields.len() implies kin(
                    old,
                    #[trigger] fields[i].1,
                    new,
                    fields[i].1,
                ) by {
                    assert(fields[i].1.known(old));
                }
            },
            Ty::Sum(id) => {
                let def = old.sums@[id.0 as int];
                assert(def.known(old));
                assert forall|v: int| 0 <= v < def.variants@.len() implies kin_fields(
                    old,
                    (#[trigger] def.variants@[v]).fields@,
                    new,
                    def.variants@[v].fields@,
                ) by {
                    let fields = def.variants@[v].fields@;
                    assert forall|i: int| 0 <= i < fields.len() implies kin(
                        old,
                        #[trigger] fields[i].1,
                        new,
                        fields[i].1,
                    ) by {
                        assert(fields[i].1.known(old));
                    }
                }
            },
            _ => {},
        }
    } else {
        let open = choose|open: Seq<Seq<char>>| #[trigger] agree(old, a, new, b, open);
        lemma_matched_open(old, a, new, b, open);
    }
    if let (Ty::Sum(i), Ty::Sum(j)) = (a, b) {
        let (x, y) = (old.sums@[i.0 as int], new.sums@[j.0 as int]);
        if x.bare() {
            assert forall|v: int| 0 <= v < y.variants@.len() implies (#[trigger] y.variants@[v]).fields@.len()
                == 0 by {
                assert(x.variants@[v].fields@.len() == 0);
            }
        }
        if y.bare() {
            assert forall|v: int| 0 <= v < x.variants@.len() implies (#[trigger] x.variants@[v]).fields@.len()
                == 0 by {
                assert(y.variants@[v].fields@.len() == 0);
            }
        }
    }
}

/// Types that expand to one shape are the same type.
pub(crate) proof fn lemma_kin(old: Hir, a: Ty, new: Hir, b: Ty)
    requires
        a.known(old),
        b.known(new),
        names_distinct(old),
        names_distinct(new),
        form(old, a, Seq::empty()) == form(new, b, Seq::empty()),
    ensures
        kin(old, a, new, b),
{
    assert(agree(old, a, new, b, Seq::empty()));
}

/// Fields of the same types are in the same places.
proof fn lemma_offsets(
    old: Hir,
    a: Seq<(String, Ty)>,
    new: Hir,
    b: Seq<(String, Ty)>,
    index: nat,
)
    requires
        old.valid(),
        new.valid(),
        kin_fields(old, a, new, b),
    ensures
        offset_of(a, index) == offset_of(b, index),
    decreases index,
{
    if 0 < index <= a.len() {
        lemma_offsets(old, a, new, b, (index - 1) as nat);
        assert(kin(old, a[index - 1].1, new, b[index - 1].1));
        lemma_matched(old, a[index - 1].1, new, b[index - 1].1);
    }
}

proof fn lemma_widths(old: Hir, a: SumDef, new: Hir, b: SumDef, count: nat)
    requires
        old.valid(),
        new.valid(),
        kin_sums(old, a, new, b),
    ensures
        a.widest(count) == b.widest(count),
    decreases count,
{
    if 0 < count <= a.variants@.len() {
        lemma_widths(old, a, new, b, (count - 1) as nat);
        let (x, y) = (a.variants@[count - 1].fields@, b.variants@[count - 1].fields@);
        assert(kin_fields(old, x, new, y));
        lemma_offsets(old, x, new, y, x.len());
    }
}

/// Whether two objects have the same places, of the same types.
pub open spec fn kin_outlines(old: Hir, a: Outline, new: Hir, b: Outline) -> bool {
    &&& a.size == b.size
    &&& a.head == b.head
    &&& a.slots.len() == b.slots.len()
    &&& forall|k: int|
        0 <= k < a.slots.len() ==> (#[trigger] a.slots[k]).offset == b.slots[k].offset && kin(
            old,
            a.slots[k].ty,
            new,
            b.slots[k].ty,
        )
}

proof fn lemma_kin_slots(
    old: Hir,
    a: Seq<(String, Ty)>,
    new: Hir,
    b: Seq<(String, Ty)>,
    start: nat,
)
    requires
        old.valid(),
        new.valid(),
        kin_fields(old, a, new, b),
    ensures
        forall|k: int|
            0 <= k < a.len() ==> (#[trigger] field_slots(a, start)[k]).offset == field_slots(
                b,
                start,
            )[k].offset && kin(old, field_slots(a, start)[k].ty, new, field_slots(b, start)[k].ty),
        offset_of(a, a.len()) == offset_of(b, b.len()),
{
    assert forall|k: int| 0 <= k < a.len() implies (#[trigger] field_slots(a, start)[k]).offset
        == field_slots(b, start)[k].offset && kin(
        old,
        field_slots(a, start)[k].ty,
        new,
        field_slots(b, start)[k].ty,
    ) by {
        lemma_offsets(old, a, new, b, k as nat);
        assert(kin(old, a[k].1, new, b[k].1));
    }
    lemma_offsets(old, a, new, b, a.len());
}

/// Objects of one type whose first bytes are the same look the same.
pub(crate) proof fn lemma_kin_outlines(
    old: Hir,
    m: Seq<u8>,
    a: Ty,
    p: u32,
    new: Hir,
    n: Seq<u8>,
    b: Ty,
    q: u32,
)
    requires
        old.valid(),
        new.valid(),
        kin(old, a, new, b),
        outline(old, m, a, p) matches Ok(o) && (o.head > 0 ==> q + 4 <= n.len() && le32(
            n,
            q as int,
        ) == le32(m, p as int)),
    ensures
        outline(new, n, b, q) matches Ok(o2) && kin_outlines(
            old,
            outline(old, m, a, p)->Ok_0,
            new,
            o2,
        ),
{
    lemma_matched(old, a, new, b);
    let o = outline(old, m, a, p)->Ok_0;
    match (a, b) {
        (Ty::List(x), Ty::List(y)) => {
            lemma_matched(old, *x, new, *y);
            let o2 = outline(new, n, b, q)->Ok_0;
            assert forall|k: int| 0 <= k < o.slots.len() implies (#[trigger] o.slots[k]).offset
                == o2.slots[k].offset && kin(old, o.slots[k].ty, new, o2.slots[k].ty) by {}
        },
        (Ty::Record(i), Ty::Record(j)) => {
            let (x, y) = (old.records@[i.0 as int].fields@, new.records@[j.0 as int].fields@);
            lemma_kin_slots(old, x, new, y, 0);
        },
        (Ty::Sum(i), Ty::Sum(j)) => {
            let (x, y) = (old.sums@[i.0 as int], new.sums@[j.0 as int]);
            let tag = le32(m, p as int) as int;
            assert(kin_fields(old, x.variants@[tag].fields@, new, y.variants@[tag].fields@));
            lemma_widths(old, x, new, y, x.variants@.len());
            lemma_kin_slots(
                old,
                x.variants@[tag].fields@,
                new,
                y.variants@[tag].fields@,
                WORD as nat,
            );
        },
        _ => {},
    }
}

/// Whether two places hold the same: as many bytes, and a pointer to the same
/// type or none.
pub open spec fn kin_cells(old: Hir, a: Cell, new: Hir, b: Cell) -> bool {
    &&& a.copy == b.copy
    &&& match (a.link, b.link) {
        (None, None) => true,
        (Some(x), Some(y)) => x.offset == y.offset && kin(old, x.ty, new, y.ty),
        _ => false,
    }
}

/// Places of one type whose tags are the same hold the same.
pub(crate) proof fn lemma_kin_cells(
    old: Hir,
    m: Seq<u8>,
    a: Ty,
    from: int,
    new: Hir,
    n: Seq<u8>,
    b: Ty,
    to: int,
)
    requires
        old.valid(),
        new.valid(),
        kin(old, a, new, b),
        cell(old, m, a, from) matches Ok(c) && (c.copy == 16 ==> le32(n, to) == le32(m, from)),
        to + a.words() * WORD <= n.len(),
    ensures
        cell(new, n, b, to) matches Ok(c2) && kin_cells(
            old,
            cell(old, m, a, from)->Ok_0,
            new,
            c2,
        ),
{
    lemma_matched(old, a, new, b);
    match (a, b) {
        (Ty::Option(x), Ty::Option(y)) => {
            lemma_matched(old, *x, new, *y);
        },
        (Ty::Result(x, xe), Ty::Result(y, ye)) => {
            lemma_matched(old, *x, new, *y);
            lemma_matched(old, *xe, new, *ye);
        },
        _ => {},
    }
}

} // verus!
