//! One fingerprint, one shape.
//!
//! A snapshot travels with its shape written out, and whether it fits is asked
//! of the text alone. Here it is shown that the text says all there is: names
//! and scalars are runs of characters that no mark of the writing occurs in,
//! so what was written can be read back in one way only.

use vstd::prelude::*;

use crate::hir::{fields_known, Hir, Ty};
use crate::shape::{
    called, cases, form, labels, lemma_open_record, lemma_open_sum, no_difference_means_the_same_shape,
    parted, room, written, Form,
};
use crate::text::joined;

verus! {

/// The characters that end a name in a fingerprint.
pub open spec fn mark(c: char) -> bool {
    c == ' ' || c == ',' || c == ':' || c == '<' || c == '>' || c == '(' || c == ')' || c
        == '\u{2026}'
}

/// Whether a text is some name: not empty, and without marks. Every identifier
/// is one.
pub open spec fn plain_name(name: Seq<char>) -> bool {
    &&& name.len() > 0
    &&& forall|i: int| 0 <= i < name.len() ==> !mark(#[trigger] name[i])
}

/// Whether a text is the name of a scalar.
pub open spec fn scalar_name(name: Seq<char>) -> bool {
    name == "int"@ || name == "float"@ || name == "bool"@ || name == "string"@ || name == "unit"@
        || name == "?"@
}

/// Whether every name in a shape is a name, and every scalar a scalar.
pub open spec fn plain(shape: Form) -> bool
    decreases shape,
{
    match shape {
        Form::Scalar(name) => scalar_name(name),
        Form::List(inner) => plain(*inner),
        Form::Option(inner) => plain(*inner),
        Form::Result(ok, err) => plain(*ok) && plain(*err),
        Form::Again(name) => plain_name(name),
        Form::Record { name, fields } => plain_name(name) && plain_fields(fields),
        Form::Sum { name, variants } => plain_name(name) && plain_cases(variants),
    }
}

/// Whether every name in a list of fields is a name.
pub open spec fn plain_fields(fields: Seq<(Seq<char>, Form)>) -> bool
    decreases fields,
{
    forall|i: int|
        0 <= i < fields.len() ==> plain_name((#[trigger] fields[i]).0) && plain(fields[i].1)
}

/// Whether every name in a list of variants is a name.
pub open spec fn plain_cases(variants: Seq<(Seq<char>, Seq<(Seq<char>, Form)>)>) -> bool
    decreases variants,
{
    forall|v: int|
        0 <= v < variants.len() ==> plain_name((#[trigger] variants[v]).0) && plain_fields(
            variants[v].1,
        )
}

/// Whether every declaration, field and variant of a program has a name.
pub open spec fn plainly_named(hir: Hir) -> bool {
    &&& forall|i: int|
        0 <= i < hir.records@.len() ==> {
            &&& plain_name((#[trigger] hir.records@[i]).name@)
            &&& fields_named(hir.records@[i].fields@)
        }
    &&& forall|i: int|
        0 <= i < hir.sums@.len() ==> {
            &&& plain_name((#[trigger] hir.sums@[i]).name@)
            &&& forall|v: int|
                0 <= v < hir.sums@[i].variants@.len() ==> {
                    &&& plain_name((#[trigger] hir.sums@[i].variants@[v]).name@)
                    &&& fields_named(hir.sums@[i].variants@[v].fields@)
                }
        }
}

/// Whether every field has a name.
pub open spec fn fields_named(fields: Seq<(String, Ty)>) -> bool {
    forall|i: int| 0 <= i < fields.len() ==> plain_name((#[trigger] fields[i]).0@)
}

/// The shapes of a program whose declarations have names are plain.
pub proof fn a_named_program_has_plain_shapes(hir: Hir, ty: Ty, open: Seq<Seq<char>>)
    requires
        hir.valid(),
        ty.known(hir),
        plainly_named(hir),
    ensures
        plain(form(hir, ty, open)),
    decreases room(hir, open), ty,
{
    match ty {
        Ty::List(inner) => {
            a_named_program_has_plain_shapes(hir, *inner, open);
        },
        Ty::Option(inner) => {
            a_named_program_has_plain_shapes(hir, *inner, open);
        },
        Ty::Result(ok, err) => {
            a_named_program_has_plain_shapes(hir, *ok, open);
            a_named_program_has_plain_shapes(hir, *err, open);
        },
        Ty::Record(id) => {
            let def = hir.records@[id.0 as int];
            assert(fields_known(def.fields@, hir));
            assert(plain_name(def.name@) && fields_named(def.fields@));
            if !open.contains(def.name@) {
                lemma_open_record(hir, open, id.0 as int);
                let fields = form(hir, ty, open)->Record_fields;
                assert forall|i: int| 0 <= i < fields.len() implies plain_name(
                    (#[trigger] fields[i]).0,
                ) && plain(fields[i].1) by {
                    assert(def.fields@[i].1.known(hir));
                    assert(plain_name(def.fields@[i].0@));
                    a_named_program_has_plain_shapes(
                        hir,
                        def.fields@[i].1,
                        open.push(def.name@),
                    );
                }
                assert(plain_fields(fields));
            }
        },
        Ty::Sum(id) => {
            let def = hir.sums@[id.0 as int];
            assert(def.known(hir));
            assert(plain_name(def.name@));
            if !open.contains(def.name@) {
                lemma_open_sum(hir, open, id.0 as int);
                let variants = form(hir, ty, open)->Sum_variants;
                assert forall|v: int| 0 <= v < variants.len() implies plain_name(
                    (#[trigger] variants[v]).0,
                ) && plain_fields(variants[v].1) by {
                    let case = def.variants@[v];
                    assert(fields_known(case.fields@, hir));
                    assert(plain_name(case.name@) && fields_named(case.fields@));
                    let fields = variants[v].1;
                    assert forall|i: int| 0 <= i < fields.len() implies plain_name(
                        (#[trigger] fields[i]).0,
                    ) && plain(fields[i].1) by {
                        assert(case.fields@[i].1.known(hir));
                        assert(plain_name(case.fields@[i].0@));
                        a_named_program_has_plain_shapes(
                            hir,
                            case.fields@[i].1,
                            open.push(def.name@),
                        );
                    }
                }
                assert(plain_cases(variants));
            }
        },
        _ => {},
    }
}

/// The name a shape's writing starts with.
spec fn head(shape: Form) -> Seq<char> {
    match shape {
        Form::Scalar(name) => name,
        Form::List(_) => "List"@,
        Form::Option(_) => "Option"@,
        Form::Result(_, _) => "Result"@,
        Form::Again(name) => name,
        Form::Record { name, .. } => name,
        Form::Sum { name, .. } => name,
    }
}

/// What follows that name, when `after` follows the shape.
spec fn rest(shape: Form, after: Seq<char>) -> Seq<char>
    decreases shape, 0nat,
{
    match shape {
        Form::Scalar(_) => after,
        Form::List(inner) => seq!['<'] + spelt(*inner, seq!['>'] + after),
        Form::Option(inner) => seq!['<'] + spelt(*inner, seq!['>'] + after),
        Form::Result(ok, err) => seq!['<'] + spelt(
            *ok,
            seq![',', ' '] + spelt(*err, seq!['>'] + after),
        ),
        Form::Again(_) => seq!['\u{2026}'] + after,
        Form::Record { fields, .. } => seq![' ', '{', ' '] + spelt_fields(
            fields,
            0,
            seq![' ', '}'] + after,
        ),
        Form::Sum { variants, .. } => seq![' ', '=', ' ', '|', ' '] + spelt_cases(
            variants,
            0,
            after,
        ),
    }
}

/// A shape's writing with `after` behind it.
spec fn spelt(shape: Form, after: Seq<char>) -> Seq<char>
    decreases shape, 1nat,
{
    head(shape) + rest(shape, after)
}

/// The writing of the fields from `index` on, with `after` behind it.
spec fn spelt_fields(fields: Seq<(Seq<char>, Form)>, index: nat, after: Seq<char>) -> Seq<char>
    decreases fields, fields.len() - index,
{
    if index >= fields.len() {
        after
    } else {
        let (name, shape) = fields[index as int];
        let more = spelt(shape, spelt_fields(fields, index + 1, after));
        if index == 0 {
            name + (seq![':', ' '] + more)
        } else {
            seq![',', ' '] + (name + (seq![':', ' '] + more))
        }
    }
}

/// The writing of the variants from `index` on, with `after` behind it.
spec fn spelt_cases(
    variants: Seq<(Seq<char>, Seq<(Seq<char>, Form)>)>,
    index: nat,
    after: Seq<char>,
) -> Seq<char>
    decreases variants, variants.len() - index,
{
    if index >= variants.len() {
        after
    } else {
        let (name, fields) = variants[index as int];
        let next = spelt_cases(variants, index + 1, after);
        let more = name + if fields.len() == 0 {
            next
        } else {
            seq!['('] + spelt_fields(fields, 0, seq![')'] + next)
        };
        if index == 0 {
            more
        } else {
            seq![' ', '|', ' '] + more
        }
    }
}

proof fn lemma_joined_push(parts: Seq<Seq<char>>, part: Seq<char>, between: Seq<char>)
    ensures
        joined(parts.push(part), between) == joined(parts, between) + if parts.len() == 0 {
            part
        } else {
            between + part
        },
{
    let more = parts.push(part);
    assert(more.drop_last() =~= parts);
    assert(more.last() == part);
    if parts.len() == 0 {
        assert(joined(parts, between) + part =~= part);
    } else {
        assert(joined(parts, between) + between + part =~= joined(parts, between) + (between
            + part));
    }
}

/// The writing of a shape is its fingerprint.
proof fn lemma_spelt(shape: Form, after: Seq<char>)
    ensures
        spelt(shape, after) == written(shape) + after,
    decreases shape, 0nat,
{
    reveal_strlit("List<");
    reveal_strlit("List");
    reveal_strlit("Option<");
    reveal_strlit("Option");
    reveal_strlit("Result<");
    reveal_strlit("Result");
    reveal_strlit(">");
    reveal_strlit(", ");
    reveal_strlit("\u{2026}");
    reveal_strlit(" { ");
    reveal_strlit(" }");
    reveal_strlit(" = | ");
    let close = seq!['>'] + after;
    match shape {
        Form::Scalar(_) => {},
        Form::List(inner) => {
            lemma_spelt(*inner, close);
            assert(spelt(shape, after) =~= "List<"@ + written(*inner) + ">"@ + after);
        },
        Form::Option(inner) => {
            lemma_spelt(*inner, close);
            assert(spelt(shape, after) =~= "Option<"@ + written(*inner) + ">"@ + after);
        },
        Form::Result(ok, err) => {
            lemma_spelt(*err, close);
            lemma_spelt(*ok, seq![',', ' '] + spelt(*err, close));
            assert(spelt(shape, after) =~= "Result<"@ + written(*ok) + ", "@ + written(*err)
                + ">"@ + after);
        },
        Form::Again(name) => {
            assert(spelt(shape, after) =~= name + "\u{2026}"@ + after);
        },
        Form::Record { name, fields } => {
            let end = seq![' ', '}'] + after;
            lemma_spelt_fields(fields, 0, end);
            let inside = joined(labels(fields, fields.len()), ", "@);
            assert(spelt_fields(fields, 0, end) =~= inside + end);
            assert(spelt(shape, after) =~= name + " { "@ + inside + " }"@ + after);
        },
        Form::Sum { name, variants } => {
            lemma_spelt_cases(variants, 0, after);
            let inside = joined(cases(variants, variants.len()), " | "@);
            assert(spelt_cases(variants, 0, after) =~= inside + after);
            assert(spelt(shape, after) =~= name + " = | "@ + inside + after);
        },
    }
}

proof fn lemma_labels(fields: Seq<(Seq<char>, Form)>, count: nat)
    requires
        count <= fields.len(),
    ensures
        labels(fields, count).len() == count,
    decreases count,
{
    if count > 0 {
        lemma_labels(fields, (count - 1) as nat);
    }
}

proof fn lemma_cases(variants: Seq<(Seq<char>, Seq<(Seq<char>, Form)>)>, count: nat)
    requires
        count <= variants.len(),
    ensures
        cases(variants, count).len() == count,
    decreases count,
{
    if count > 0 {
        lemma_cases(variants, (count - 1) as nat);
    }
}

proof fn lemma_spelt_fields(fields: Seq<(Seq<char>, Form)>, index: nat, after: Seq<char>)
    requires
        index <= fields.len(),
    ensures
        joined(labels(fields, index), ", "@) + spelt_fields(fields, index, after) == joined(
            labels(fields, fields.len()),
            ", "@,
        ) + after,
    decreases fields, fields.len() - index,
{
    if index < fields.len() {
        reveal_strlit(", ");
        reveal_strlit(": ");
        let (name, shape) = fields[index as int];
        let next = spelt_fields(fields, index + 1, after);
        lemma_spelt_fields(fields, index + 1, after);
        lemma_spelt(shape, next);
        lemma_labels(fields, index);
        let before = labels(fields, index);
        let label = name + ": "@ + written(shape);
        lemma_joined_push(before, label, ", "@);
        assert(labels(fields, index + 1) == before.push(label));
        assert(joined(before, ", "@) + spelt_fields(fields, index, after) =~= joined(
            before.push(label),
            ", "@,
        ) + next);
    }
}

proof fn lemma_spelt_cases(
    variants: Seq<(Seq<char>, Seq<(Seq<char>, Form)>)>,
    index: nat,
    after: Seq<char>,
)
    requires
        index <= variants.len(),
    ensures
        joined(cases(variants, index), " | "@) + spelt_cases(variants, index, after) == joined(
            cases(variants, variants.len()),
            " | "@,
        ) + after,
    decreases variants, variants.len() - index,
{
    if index < variants.len() {
        reveal_strlit(" | ");
        reveal_strlit(", ");
        reveal_strlit("(");
        reveal_strlit(")");
        let (name, fields) = variants[index as int];
        let next = spelt_cases(variants, index + 1, after);
        lemma_spelt_cases(variants, index + 1, after);
        lemma_cases(variants, index);
        let before = cases(variants, index);
        let inside = joined(labels(fields, fields.len()), ", "@);
        let case = if fields.len() == 0 {
            name
        } else {
            name + "("@ + inside + ")"@
        };
        let end = seq![')'] + next;
        if fields.len() > 0 {
            lemma_spelt_fields(fields, 0, end);
            assert(spelt_fields(fields, 0, end) =~= inside + end);
        }
        lemma_joined_push(before, case, " | "@);
        assert(cases(variants, index + 1) == before.push(case));
        assert(joined(before, " | "@) + spelt_cases(variants, index, after) =~= joined(
            before.push(case),
            " | "@,
        ) + next);
    }
}

/// Whether a text ends the name before it.
spec fn ends_name(text: Seq<char>) -> bool {
    text.len() == 0 || mark(text[0])
}

/// Whether a text ends the shape before it: nothing, a separator or a closing
/// bracket.
spec fn ends_shape(text: Seq<char>) -> bool {
    ||| text.len() == 0
    ||| text[0] == ',' || text[0] == ')' || text[0] == '>'
    ||| text.len() > 1 && text[0] == ' ' && text[1] == '}'
}

/// Whether a text ends the fields before it: a closing bracket.
spec fn ends_fields(text: Seq<char>) -> bool {
    ||| text.len() > 0 && text[0] == ')'
    ||| text.len() > 1 && text[0] == ' ' && text[1] == '}'
}

/// Where a name ends is where the first mark is.
proof fn lemma_one_name(a: Seq<char>, s: Seq<char>, b: Seq<char>, t: Seq<char>)
    requires
        forall|i: int| 0 <= i < a.len() ==> !mark(#[trigger] a[i]),
        forall|i: int| 0 <= i < b.len() ==> !mark(#[trigger] b[i]),
        ends_name(s),
        ends_name(t),
        a + s == b + t,
    ensures
        a == b,
        s == t,
{
    let all = a + s;
    assert(all == b + t);
    if a.len() < b.len() {
        assert(all[a.len() as int] == s[0]);
        assert(all[a.len() as int] == b[a.len() as int]);
        assert(false);
    }
    if b.len() < a.len() {
        assert(all[b.len() as int] == t[0]);
        assert(all[b.len() as int] == a[b.len() as int]);
        assert(false);
    }
    assert forall|i: int| 0 <= i < a.len() implies a[i] == b[i] by {
        assert(all[i] == a[i] && all[i] == b[i]);
    }
    assert(a =~= b);
    assert forall|i: int| 0 <= i < s.len() implies s[i] == t[i] by {
        assert(all[a.len() + i] == s[i] && all[a.len() + i] == t[i]);
    }
    assert(s =~= t);
}

/// What follows the same is the same.
proof fn lemma_cut(a: Seq<char>, s: Seq<char>, t: Seq<char>)
    requires
        a + s == a + t,
    ensures
        s == t,
{
    assert((a + s).skip(a.len() as int) =~= s);
    assert((a + t).skip(a.len() as int) =~= t);
}

/// The name a plain shape starts with has no marks, and what follows it starts
/// with one that says what kind of shape it is.
proof fn lemma_head(shape: Form, after: Seq<char>)
    requires
        plain(shape),
        ends_shape(after),
    ensures
        forall|i: int| 0 <= i < head(shape).len() ==> !mark(#[trigger] head(shape)[i]),
        head(shape).len() > 0,
        ends_name(rest(shape, after)),
        match shape {
            Form::Scalar(_) => rest(shape, after) == after,
            Form::List(_) | Form::Option(_) | Form::Result(_, _) => rest(shape, after)[0] == '<',
            Form::Again(_) => rest(shape, after)[0] == '\u{2026}',
            Form::Record { .. } => rest(shape, after)[0] == ' ' && rest(shape, after)[1] == '{',
            Form::Sum { .. } => rest(shape, after)[0] == ' ' && rest(shape, after)[1] == '=',
        },
        !(shape is Scalar) ==> rest(shape, after).len() > 0,
        shape is Record || shape is Sum ==> rest(shape, after).len() > 1,
{
    reveal_strlit("int");
    reveal_strlit("float");
    reveal_strlit("bool");
    reveal_strlit("string");
    reveal_strlit("unit");
    reveal_strlit("?");
    reveal_strlit("List");
    reveal_strlit("Option");
    reveal_strlit("Result");
}

/// What is written can be read in one way only.
proof fn lemma_one_shape(a: Form, s: Seq<char>, b: Form, t: Seq<char>)
    requires
        plain(a),
        plain(b),
        ends_shape(s),
        ends_shape(t),
        spelt(a, s) == spelt(b, t),
    ensures
        a == b,
        s == t,
    decreases a, 0nat,
{
    lemma_head(a, s);
    lemma_head(b, t);
    lemma_one_name(head(a), rest(a, s), head(b), rest(b, t));
    reveal_strlit("List");
    reveal_strlit("Option");
    reveal_strlit("Result");
    assert("List"@.len() == 4 && "Option"@[0] == 'O' && "Result"@[0] == 'R');
    assert("Option"@.len() == 6 && "Result"@.len() == 6);
    let angle = seq!['<'];
    let close = seq!['>'];
    match (a, b) {
        (Form::Scalar(_), Form::Scalar(_)) => {},
        (Form::Again(_), Form::Again(_)) => {
            lemma_cut(seq!['\u{2026}'], s, t);
        },
        (Form::List(x), Form::List(y)) => {
            lemma_cut(angle, spelt(*x, close + s), spelt(*y, close + t));
            lemma_one_shape(*x, close + s, *y, close + t);
            lemma_cut(close, s, t);
        },
        (Form::Option(x), Form::Option(y)) => {
            lemma_cut(angle, spelt(*x, close + s), spelt(*y, close + t));
            lemma_one_shape(*x, close + s, *y, close + t);
            lemma_cut(close, s, t);
        },
        (Form::Result(x, xe), Form::Result(y, ye)) => {
            let comma = seq![',', ' '];
            let (u, v) = (spelt(*xe, close + s), spelt(*ye, close + t));
            lemma_cut(angle, spelt(*x, comma + u), spelt(*y, comma + v));
            lemma_one_shape(*x, comma + u, *y, comma + v);
            lemma_cut(comma, u, v);
            lemma_one_shape(*xe, close + s, *ye, close + t);
            lemma_cut(close, s, t);
        },
        (Form::Record { fields: xs, .. }, Form::Record { fields: ys, .. }) => {
            let end = seq![' ', '}'];
            lemma_cut(
                seq![' ', '{', ' '],
                spelt_fields(xs, 0, end + s),
                spelt_fields(ys, 0, end + t),
            );
            lemma_one_list(xs, end + s, ys, end + t, 0);
            lemma_cut(end, s, t);
            assert(xs =~= ys);
        },
        (Form::Sum { variants: xs, .. }, Form::Sum { variants: ys, .. }) => {
            lemma_cut(
                seq![' ', '=', ' ', '|', ' '],
                spelt_cases(xs, 0, s),
                spelt_cases(ys, 0, t),
            );
            lemma_one_choice(xs, s, ys, t, 0);
            assert(xs =~= ys);
        },
        _ => {
            assert(false);
        },
    }
}

/// What the fields from `index` on are followed by, or start with.
proof fn lemma_fields_start(fields: Seq<(Seq<char>, Form)>, index: nat, after: Seq<char>)
    requires
        plain_fields(fields),
        ends_fields(after),
    ensures
        index >= fields.len() ==> spelt_fields(fields, index, after) == after,
        index < fields.len() && index > 0 ==> spelt_fields(fields, index, after).len() > 0
            && spelt_fields(fields, index, after)[0] == ',',
        index < fields.len() && index == 0 ==> spelt_fields(fields, index, after).len() > 0
            && !mark(spelt_fields(fields, index, after)[0]),
{
    if index < fields.len() {
        let (name, shape) = fields[index as int];
        assert(plain_name(fields[index as int].0));
        assert(!mark(name[0]));
        let more = spelt(shape, spelt_fields(fields, index + 1, after));
        assert((name + (seq![':', ' '] + more))[0] == name[0]);
    }
}

proof fn lemma_one_list(
    a: Seq<(Seq<char>, Form)>,
    s: Seq<char>,
    b: Seq<(Seq<char>, Form)>,
    t: Seq<char>,
    index: nat,
)
    requires
        plain_fields(a),
        plain_fields(b),
        ends_fields(s),
        ends_fields(t),
        index <= a.len(),
        index <= b.len(),
        spelt_fields(a, index, s) == spelt_fields(b, index, t),
    ensures
        s == t,
        a.len() == b.len(),
        forall|i: int| index <= i < a.len() ==> a[i] == b[i],
    decreases a, a.len() - index,
{
    lemma_fields_start(a, index, s);
    lemma_fields_start(b, index, t);
    if index < a.len() {
        assert(index < b.len());
        let (x, xf) = a[index as int];
        let (y, yf) = b[index as int];
        assert(plain_name(a[index as int].0) && plain(a[index as int].1));
        assert(plain_name(b[index as int].0) && plain(b[index as int].1));
        let (u, v) = (spelt_fields(a, index + 1, s), spelt_fields(b, index + 1, t));
        let colon = seq![':', ' '];
        let (m, n) = (colon + spelt(xf, u), colon + spelt(yf, v));
        if index > 0 {
            lemma_cut(seq![',', ' '], x + m, y + n);
        }
        lemma_one_name(x, m, y, n);
        lemma_cut(colon, spelt(xf, u), spelt(yf, v));
        lemma_fields_start(a, index + 1, s);
        lemma_fields_start(b, index + 1, t);
        lemma_one_shape(xf, u, yf, v);
        lemma_one_list(a, s, b, t, index + 1);
    }
}

/// What the variants from `index` on are followed by, or start with.
proof fn lemma_cases_start(
    variants: Seq<(Seq<char>, Seq<(Seq<char>, Form)>)>,
    index: nat,
    after: Seq<char>,
)
    requires
        plain_cases(variants),
        ends_shape(after),
    ensures
        ({
            let text = spelt_cases(variants, index, after);
            &&& index >= variants.len() ==> text == after
            &&& index < variants.len() && index > 0 ==> text.len() > 1 && text[0] == ' ' && text[1]
                == '|'
            &&& index < variants.len() && index == 0 ==> text.len() > 0 && !mark(text[0])
            &&& index > 0 ==> ends_name(text) && (text.len() > 0 ==> text[0] != '(')
        }),
{
    if index < variants.len() {
        let (name, fields) = variants[index as int];
        assert(plain_name(variants[index as int].0));
        assert(!mark(name[0]));
        let next = spelt_cases(variants, index + 1, after);
        let more = if fields.len() == 0 {
            next
        } else {
            seq!['('] + spelt_fields(fields, 0, seq![')'] + next)
        };
        assert((name + more)[0] == name[0]);
    }
}

proof fn lemma_one_choice(
    a: Seq<(Seq<char>, Seq<(Seq<char>, Form)>)>,
    s: Seq<char>,
    b: Seq<(Seq<char>, Seq<(Seq<char>, Form)>)>,
    t: Seq<char>,
    index: nat,
)
    requires
        plain_cases(a),
        plain_cases(b),
        ends_shape(s),
        ends_shape(t),
        index <= a.len(),
        index <= b.len(),
        spelt_cases(a, index, s) == spelt_cases(b, index, t),
    ensures
        s == t,
        a.len() == b.len(),
        forall|i: int| index <= i < a.len() ==> a[i] == b[i],
    decreases a, a.len() - index,
{
    lemma_cases_start(a, index, s);
    lemma_cases_start(b, index, t);
    if index < a.len() {
        assert(index < b.len());
        let (x, xs) = a[index as int];
        let (y, ys) = b[index as int];
        assert(plain_name(a[index as int].0) && plain_fields(a[index as int].1));
        assert(plain_name(b[index as int].0) && plain_fields(b[index as int].1));
        let (u, v) = (spelt_cases(a, index + 1, s), spelt_cases(b, index + 1, t));
        lemma_cases_start(a, index + 1, s);
        lemma_cases_start(b, index + 1, t);
        let paren = seq!['('];
        let end = seq![')'];
        let (f, g) = (spelt_fields(xs, 0, end + u), spelt_fields(ys, 0, end + v));
        let m = if xs.len() == 0 {
            u
        } else {
            paren + f
        };
        let n = if ys.len() == 0 {
            v
        } else {
            paren + g
        };
        if index > 0 {
            lemma_cut(seq![' ', '|', ' '], x + m, y + n);
        }
        lemma_one_name(x, m, y, n);
        if xs.len() > 0 {
            assert(m[0] == '(');
            assert(ys.len() > 0);
            lemma_cut(paren, f, g);
            lemma_one_list(xs, end + u, ys, end + v, 0);
            lemma_cut(end, u, v);
        } else if ys.len() > 0 {
            assert(n[0] == '(');
            assert(false);
        }
        assert(xs =~= ys);
        lemma_one_choice(a, s, b, t, index + 1);
    }
}

/// One fingerprint is one shape: shapes whose names are names are written
/// alike only where they are the same.
pub proof fn one_fingerprint_is_one_shape(a: Form, b: Form)
    requires
        plain(a),
        plain(b),
        written(a) == written(b),
    ensures
        a == b,
{
    let none = Seq::<char>::empty();
    lemma_spelt(a, none);
    lemma_spelt(b, none);
    lemma_one_shape(a, none, b, none);
}

/// A snapshot fits exactly where there is no difference: asking the fingerprint
/// and comparing the two types come to the same, in programs whose
/// declarations have names.
pub proof fn a_snapshot_fits_where_there_is_no_difference(old: Hir, was: Ty, new: Hir, now: Ty)
    requires
        old.valid(),
        new.valid(),
        was.known(old),
        now.known(new),
        plainly_named(old),
        plainly_named(new),
    ensures
        ({
            let before = form(old, was, Seq::empty());
            let after = form(new, now, Seq::empty());
            &&& written(before) == written(after) <==> before == after
            &&& written(before) == written(after) <==> parted(called(before), before, after) is None
        }),
{
    let before = form(old, was, Seq::empty());
    let after = form(new, now, Seq::empty());
    a_named_program_has_plain_shapes(old, was, Seq::empty());
    a_named_program_has_plain_shapes(new, now, Seq::empty());
    if written(before) == written(after) {
        one_fingerprint_is_one_shape(before, after);
    }
    no_difference_means_the_same_shape(called(before), before, after);
}

} // verus!
