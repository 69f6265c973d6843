//! What a state record looks like, and what changed when it stops matching.
//!
//! Two jobs, deliberately separate. The fingerprint is what travels with a
//! snapshot: one string, compared for equality by a runtime that knows nothing
//! about types. The difference is what a person reads when the answer is no,
//! computed here, where both sides are still typed, so the message can name
//! the field that changed.

use vstd::prelude::*;
use vstd::string::StringExecFns;

use crate::hir::{fields_known, Hir, RecordId, SumId, Ty};
use crate::text::{decimal, holds_text, join, joined, number, same_text, texts};

verus! {

/// A state type, expanded structurally.
///
/// Names are kept because a rename is a change: the bytes would still line up,
/// and the meaning would not. Everything that decides layout is here, and
/// nothing that does not.
#[derive(Debug, PartialEq, Eq)]
pub enum Shape {
    Scalar(&'static str),
    List(Box<Shape>),
    Option(Box<Shape>),
    Result(Box<Shape>, Box<Shape>),
    Record { name: String, fields: Vec<(String, Shape)> },
    Sum { name: String, variants: Vec<(String, Vec<(String, Shape)>)> },
    /// A type already being expanded further out. A record can reach itself
    /// through an `Option`, and naming it once is enough to pin the shape.
    Again(String),
}

impl Shape {
    /// The same shape again.
    pub fn copied(&self) -> (r: Self)
        ensures
            r@ == self@,
        decreases self,
    {
        match self {
            Shape::Scalar(name) => Shape::Scalar(*name),
            Shape::List(inner) => Shape::List(Box::new(inner.copied())),
            Shape::Option(inner) => Shape::Option(Box::new(inner.copied())),
            Shape::Result(ok, err) => Shape::Result(
                Box::new(ok.copied()),
                Box::new(err.copied()),
            ),
            Shape::Record { name, fields } => {
                let copies = copy_fields(fields);
                let r = Shape::Record { name: name.clone(), fields: copies };
                assert(r@->Record_fields =~= fields_view(copies@));
                assert(self@->Record_fields =~= fields_view(fields@));
                r
            },
            Shape::Sum { name, variants } => {
                let mut copies: Vec<(String, Vec<(String, Shape)>)> = Vec::new();
                for v in 0..variants.len()
                    invariant
                        *self == (Shape::Sum { name: *name, variants: *variants }),
                        copies@.len() == v,
                        forall|i: int|
                            0 <= i < v ==> (#[trigger] copies@[i]).0@ == variants@[i].0@,
                        forall|i: int|
                            0 <= i < v ==> fields_view((#[trigger] copies@[i]).1@) == fields_view(
                                variants@[i].1@,
                            ),
                {
                    let (case, fields) = &variants[v];
                    assert(self->Sum_variants == *variants);
                    assert(decreases_to!(*variants => variants[v as int]));
                    assert(decreases_to!(variants[v as int] => *fields));
                    copies.push((case.clone(), copy_fields(fields)));
                }
                let r = Shape::Sum { name: name.clone(), variants: copies };
                proof {
                    let made = r@->Sum_variants;
                    let had = self@->Sum_variants;
                    assert forall|v: int| 0 <= v < made.len() implies made[v] == had[v] by {
                        assert(made[v].1 =~= fields_view(copies@[v].1@));
                        assert(had[v].1 =~= fields_view(variants@[v].1@));
                    }
                    assert(made =~= had);
                }
                r
            },
            Shape::Again(name) => Shape::Again(name.clone()),
        }
    }
}

fn copy_fields(fields: &Vec<(String, Shape)>) -> (r: Vec<(String, Shape)>)
    ensures
        fields_view(r@) == fields_view(fields@),
    decreases fields,
{
    let mut out: Vec<(String, Shape)> = Vec::new();
    for i in 0..fields.len()
        invariant
            out@.len() == i,
            forall|j: int| 0 <= j < i ==> (#[trigger] out@[j]).0@ == fields@[j].0@,
            forall|j: int| 0 <= j < i ==> (#[trigger] out@[j]).1@ == fields@[j].1@,
    {
        assert(decreases_to!(*fields => fields[i as int]));
        let (name, shape) = &fields[i];
        let copy = shape.copied();
        out.push((name.clone(), copy));
    }
    assert(fields_view(out@) =~= fields_view(fields@));
    out
}

impl Clone for Shape {
    fn clone(&self) -> (r: Self)
        ensures
            r@ == self@,
    {
        self.copied()
    }
}

/// What a [`Shape`] is.
pub enum Form {
    Scalar(Seq<char>),
    List(Box<Form>),
    Option(Box<Form>),
    Result(Box<Form>, Box<Form>),
    Record { name: Seq<char>, fields: Seq<(Seq<char>, Form)> },
    Sum { name: Seq<char>, variants: Seq<(Seq<char>, Seq<(Seq<char>, Form)>)> },
    Again(Seq<char>),
}

impl View for Shape {
    type V = Form;

    open spec fn view(&self) -> Form {
        form_of(*self)
    }
}

/// What a shape is.
pub open spec fn form_of(shape: Shape) -> Form
    decreases shape,
{
    match shape {
        Shape::Scalar(name) => Form::Scalar(name@),
        Shape::List(inner) => Form::List(Box::new(form_of(*inner))),
        Shape::Option(inner) => Form::Option(Box::new(form_of(*inner))),
        Shape::Result(ok, err) => Form::Result(Box::new(form_of(*ok)), Box::new(form_of(*err))),
        Shape::Record { name, fields } => Form::Record {
            name: name@,
            fields: Seq::new(
                fields@.len(),
                |i: int|
                    if 0 <= i < fields@.len() {
                        (fields@[i].0@, form_of(fields@[i].1))
                    } else {
                        arbitrary()
                    },
            ),
        },
        Shape::Sum { name, variants } => Form::Sum {
            name: name@,
            variants: Seq::new(
                variants@.len(),
                |v: int|
                    if 0 <= v < variants@.len() {
                        (
                            variants@[v].0@,
                            Seq::new(
                                variants@[v].1@.len(),
                                |i: int|
                                    if 0 <= i < variants@[v].1@.len() {
                                        (
                                            variants@[v].1@[i].0@,
                                            form_of(variants@[v].1@[i].1),
                                        )
                                    } else {
                                        arbitrary()
                                    },
                            ),
                        )
                    } else {
                        arbitrary()
                    },
            ),
        },
        Shape::Again(name) => Form::Again(name@),
    }
}

/// The fields of a record or a variant, as what they are.
pub open spec fn fields_view(fields: Seq<(String, Shape)>) -> Seq<(Seq<char>, Form)> {
    Seq::new(fields.len(), |i: int| (fields[i].0@, fields[i].1@))
}

/// The names of all declarations.
pub open spec fn names(hir: Hir) -> Seq<Seq<char>> {
    Seq::new(
        hir.records@.len() + hir.sums@.len(),
        |i: int|
            if i < hir.records@.len() {
                hir.records@[i].name@
            } else {
                hir.sums@[i - hir.records@.len()].name@
            },
    )
}

/// How many of the first `count` names are not open.
pub open spec fn unopened(all: Seq<Seq<char>>, open: Seq<Seq<char>>, count: nat) -> nat
    decreases count,
{
    if count == 0 {
        0
    } else {
        unopened(all, open, (count - 1) as nat) + if open.contains(all[count - 1]) {
            0nat
        } else {
            1nat
        }
    }
}

proof fn lemma_unopened(
    all: Seq<Seq<char>>,
    open: Seq<Seq<char>>,
    name: Seq<char>,
    at: int,
    count: nat,
)
    requires
        count <= all.len(),
        0 <= at < all.len(),
        all[at] == name,
        !open.contains(name),
    ensures
        unopened(all, open.push(name), count) <= unopened(all, open, count),
        at < count ==> unopened(all, open.push(name), count) < unopened(all, open, count),
    decreases count,
{
    if count > 0 {
        lemma_unopened(all, open, name, at, (count - 1) as nat);
        let more = open.push(name);
        let here = all[count - 1];
        if open.contains(here) {
            let i = choose|i: int| 0 <= i < open.len() && open[i] == here;
            assert(more[i] == here);
        }
        if at == count - 1 {
            assert(more[open.len() as int] == name);
        }
    }
}

/// How many declarations can still be opened inside each other.
pub open spec fn room(hir: Hir, open: Seq<Seq<char>>) -> nat {
    unopened(names(hir), open, names(hir).len())
}

/// Opening a record leaves less to open.
pub proof fn lemma_open_record(hir: Hir, open: Seq<Seq<char>>, id: int)
    requires
        0 <= id < hir.records@.len(),
        !open.contains(hir.records@[id].name@),
    ensures
        room(hir, open.push(hir.records@[id].name@)) < room(hir, open),
{
    let all = names(hir);
    assert(all[id] == hir.records@[id].name@);
    lemma_unopened(all, open, hir.records@[id].name@, id, all.len());
}

/// Opening a sum leaves less to open.
pub proof fn lemma_open_sum(hir: Hir, open: Seq<Seq<char>>, id: int)
    requires
        0 <= id < hir.sums@.len(),
        !open.contains(hir.sums@[id].name@),
    ensures
        room(hir, open.push(hir.sums@[id].name@)) < room(hir, open),
{
    let all = names(hir);
    let at = hir.records@.len() + id;
    assert(all[at] == hir.sums@[id].name@);
    lemma_unopened(all, open, hir.sums@[id].name@, at, all.len());
}

/// A type expanded structurally, inside the declarations in `open`.
pub open spec fn form(hir: Hir, ty: Ty, open: Seq<Seq<char>>) -> Form
    decreases room(hir, open), ty,
{
    match ty {
        Ty::Int => Form::Scalar("int"@),
        Ty::Float => Form::Scalar("float"@),
        Ty::Bool => Form::Scalar("bool"@),
        Ty::Str => Form::Scalar("string"@),
        Ty::Unit => Form::Scalar("unit"@),
        Ty::Node | Ty::Never | Ty::Error => Form::Scalar("?"@),
        Ty::List(inner) => Form::List(Box::new(form(hir, *inner, open))),
        Ty::Option(inner) => Form::Option(Box::new(form(hir, *inner, open))),
        Ty::Result(ok, err) => Form::Result(
            Box::new(form(hir, *ok, open)),
            Box::new(form(hir, *err, open)),
        ),
        Ty::Record(id) => if id.0 >= hir.records@.len() {
            arbitrary()
        } else {
            let def = hir.records@[id.0 as int];
            if open.contains(def.name@) {
                Form::Again(def.name@)
            } else {
                proof {
                    lemma_open_record(hir, open, id.0 as int);
                }
                Form::Record {
                    name: def.name@,
                    fields: Seq::new(
                        def.fields@.len(),
                        |i: int|
                            (
                                def.fields@[i].0@,
                                form(hir, def.fields@[i].1, open.push(def.name@)),
                            ),
                    ),
                }
            }
        },
        Ty::Sum(id) => if id.0 >= hir.sums@.len() {
            arbitrary()
        } else {
            let def = hir.sums@[id.0 as int];
            if open.contains(def.name@) {
                Form::Again(def.name@)
            } else {
                proof {
                    lemma_open_sum(hir, open, id.0 as int);
                }
                Form::Sum {
                    name: def.name@,
                    variants: Seq::new(
                        def.variants@.len(),
                        |v: int|
                            (
                                def.variants@[v].name@,
                                Seq::new(
                                    def.variants@[v].fields@.len(),
                                    |i: int|
                                        (
                                            def.variants@[v].fields@[i].0@,
                                            form(
                                                hir,
                                                def.variants@[v].fields@[i].1,
                                                open.push(def.name@),
                                            ),
                                        ),
                                ),
                            ),
                    ),
                }
            }
        },
    }
}

/// Fields expanded structurally, inside the declarations in `open`.
pub open spec fn fields_form(hir: Hir, fields: Seq<(String, Ty)>, open: Seq<Seq<char>>) -> Seq<
    (Seq<char>, Form),
> {
    Seq::new(fields.len(), |i: int| (fields[i].0@, form(hir, fields[i].1, open)))
}

/// Expands `ty` into the fingerprint that travels with a snapshot.
pub fn shape(hir: &Hir, ty: &Ty) -> (r: Shape)
    requires
        hir.valid(),
        ty.known(*hir),
    ensures
        r@ == form(*hir, *ty, Seq::empty()),
{
    let mut open: Vec<String> = Vec::new();
    assert(texts(open@) =~= Seq::empty());
    expand(hir, ty, &mut open)
}

fn expand(hir: &Hir, ty: &Ty, open: &mut Vec<String>) -> (r: Shape)
    requires
        hir.valid(),
        ty.known(*hir),
    ensures
        r@ == form(*hir, *ty, texts(old(open)@)),
        final(open)@ == old(open)@,
    decreases room(*hir, texts(old(open)@)), 0nat, ty,
{
    match ty {
        Ty::Int => Shape::Scalar("int"),
        Ty::Float => Shape::Scalar("float"),
        Ty::Bool => Shape::Scalar("bool"),
        Ty::Str => Shape::Scalar("string"),
        Ty::Unit => Shape::Scalar("unit"),
        // None of these can be part of a state record; the type checker refuses
        // them long before a snapshot is taken.
        Ty::Node | Ty::Never | Ty::Error => Shape::Scalar("?"),
        Ty::List(inner) => Shape::List(Box::new(expand(hir, inner, open))),
        Ty::Option(inner) => Shape::Option(Box::new(expand(hir, inner, open))),
        Ty::Result(ok, err) => {
            let ok = expand(hir, ok, open);
            let err = expand(hir, err, open);
            Shape::Result(Box::new(ok), Box::new(err))
        },
        Ty::Record(id) => {
            let def = &hir.records[id.0 as usize];
            if holds_text(open, def.name.as_str()) {
                return Shape::Again(def.name.clone());
            }
            let ghost outer = texts(open@);
            proof {
                lemma_open_record(*hir, outer, id.0 as int);
            }
            open.push(def.name.clone());
            assert(texts(open@) =~= outer.push(def.name@));
            let fields = expand_fields(hir, &def.fields, open);
            open.pop();
            assert(open@ =~= old(open)@);
            let made = Shape::Record { name: def.name.clone(), fields };
            assert(made@->Record_fields =~= fields_view(fields@));
            assert(form(*hir, *ty, outer)->Record_fields =~= fields_form(
                *hir,
                def.fields@,
                outer.push(def.name@),
            ));
            made
        },
        Ty::Sum(id) => {
            let def = &hir.sums[id.0 as usize];
            if holds_text(open, def.name.as_str()) {
                return Shape::Again(def.name.clone());
            }
            let ghost outer = texts(open@);
            proof {
                lemma_open_sum(*hir, outer, id.0 as int);
            }
            open.push(def.name.clone());
            let ghost inner = outer.push(def.name@);
            let ghost inside = open@;
            assert(texts(open@) =~= inner);
            let mut variants: Vec<(String, Vec<(String, Shape)>)> = Vec::new();
            for v in 0..def.variants.len()
                invariant
                    hir.valid(),
                    def.known(*hir),
                    open@ == inside,
                    texts(open@) == inner,
                    room(*hir, inner) < room(*hir, texts(old(open)@)),
                    variants@.len() == v,
                    forall|i: int|
                        0 <= i < v ==> (#[trigger] variants@[i]).0@ == def.variants@[i].name@,
                    forall|i: int|
                        0 <= i < v ==> fields_view((#[trigger] variants@[i]).1@) == fields_form(
                            *hir,
                            def.variants@[i].fields@,
                            inner,
                        ),
            {
                let variant = &def.variants[v];
                let fields = expand_fields(hir, &variant.fields, open);
                variants.push((variant.name.clone(), fields));
            }
            open.pop();
            assert(open@ =~= old(open)@);
            let made = Shape::Sum { name: def.name.clone(), variants };
            proof {
                let expected = form(*hir, *ty, outer)->Sum_variants;
                assert forall|v: int| 0 <= v < variants@.len() implies made@->Sum_variants[v]
                    == expected[v] by {
                    assert(made@->Sum_variants[v].1 =~= fields_view(variants@[v].1@));
                    assert(expected[v].1 =~= fields_form(
                        *hir,
                        def.variants@[v].fields@,
                        inner,
                    ));
                }
                assert(made@->Sum_variants =~= expected);
            }
            made
        },
    }
}

fn expand_fields(hir: &Hir, fields: &Vec<(String, Ty)>, open: &mut Vec<String>) -> (r: Vec<
    (String, Shape),
>)
    requires
        hir.valid(),
        fields_known(fields@, *hir),
    ensures
        fields_view(r@) == fields_form(*hir, fields@, texts(old(open)@)),
        final(open)@ == old(open)@,
    decreases room(*hir, texts(old(open)@)), 1nat,
{
    let mut out: Vec<(String, Shape)> = Vec::new();
    for i in 0..fields.len()
        invariant
            hir.valid(),
            fields_known(fields@, *hir),
            open@ == old(open)@,
            out@.len() == i,
            forall|j: int| 0 <= j < i ==> (#[trigger] out@[j]).0@ == fields@[j].0@,
            forall|j: int|
                0 <= j < i ==> (#[trigger] out@[j]).1@ == form(
                    *hir,
                    fields@[j].1,
                    texts(old(open)@),
                ),
    {
        let (name, ty) = &fields[i];
        assert(fields@[i as int].1.known(*hir));
        let made = expand(hir, ty, open);
        out.push((name.clone(), made));
    }
    assert(fields_view(out@) =~= fields_form(*hir, fields@, texts(old(open)@)));
    out
}

/// The first `count` fields of a record or a variant, each as `name: type`.
pub open spec fn labels(fields: Seq<(Seq<char>, Form)>, count: nat) -> Seq<Seq<char>>
    decreases fields, count,
{
    if count == 0 || count > fields.len() {
        Seq::empty()
    } else {
        let (name, form) = fields[count - 1];
        labels(fields, (count - 1) as nat).push(name + ": "@ + written(form))
    }
}

/// The first `count` variants, each with its fields if it has any.
pub open spec fn cases(
    variants: Seq<(Seq<char>, Seq<(Seq<char>, Form)>)>,
    count: nat,
) -> Seq<Seq<char>>
    decreases variants, count,
{
    if count == 0 || count > variants.len() {
        Seq::empty()
    } else {
        let (name, fields) = variants[count - 1];
        cases(variants, (count - 1) as nat).push(
            if fields.len() == 0 {
                name
            } else {
                name + "("@ + joined(labels(fields, fields.len()), ", "@) + ")"@
            },
        )
    }
}

/// The fingerprint: a shape written out in full.
pub open spec fn written(form: Form) -> Seq<char>
    decreases form,
{
    match form {
        Form::Scalar(name) => name,
        Form::List(inner) => "List<"@ + written(*inner) + ">"@,
        Form::Option(inner) => "Option<"@ + written(*inner) + ">"@,
        Form::Result(ok, err) => "Result<"@ + written(*ok) + ", "@ + written(*err) + ">"@,
        Form::Again(name) => name + "\u{2026}"@,
        Form::Record { name, fields } => name + " { "@ + joined(
            labels(fields, fields.len()),
            ", "@,
        ) + " }"@,
        Form::Sum { name, variants } => name + " = | "@ + joined(
            cases(variants, variants.len()),
            " | "@,
        ),
    }
}

/// What a shape is called in a sentence.
pub open spec fn called(form: Form) -> Seq<char> {
    match form {
        Form::Record { name, .. } => name,
        Form::Sum { name, .. } => name,
        Form::Again(name) => name,
        _ => written(form),
    }
}

impl Shape {
    /// What to call this type in a sentence. The full expansion is the
    /// fingerprint, and a record with nine fields makes a poor line of output.
    pub fn name(&self) -> (r: String)
        ensures
            r@ == called(self@),
    {
        match self {
            Shape::Record { name, .. } => name.clone(),
            Shape::Sum { name, .. } => name.clone(),
            Shape::Again(name) => name.clone(),
            other => other.to_string(),
        }
    }

    /// The fingerprint: the shape written out in full.
    pub fn to_string(&self) -> (r: String)
        ensures
            r@ == written(self@),
        decreases self,
    {
        match self {
            Shape::Scalar(name) => (*name).to_owned(),
            Shape::List(inner) => {
                let mut out = "List<".to_owned();
                out.append(inner.to_string().as_str());
                out.append(">");
                out
            },
            Shape::Option(inner) => {
                let mut out = "Option<".to_owned();
                out.append(inner.to_string().as_str());
                out.append(">");
                out
            },
            Shape::Result(ok, err) => {
                let mut out = "Result<".to_owned();
                out.append(ok.to_string().as_str());
                out.append(", ");
                out.append(err.to_string().as_str());
                out.append(">");
                out
            },
            Shape::Again(name) => {
                let mut out = name.clone();
                out.append("\u{2026}");
                out
            },
            Shape::Record { name, fields } => {
                let ghost all = self@->Record_fields;
                let mut parts: Vec<String> = Vec::new();
                for i in 0..fields.len()
                    invariant
                        *self == (Shape::Record { name: *name, fields: *fields }),
                        all == self@->Record_fields,
                        texts(parts@) == labels(all, i as nat),
                {
                    assert(decreases_to!(*fields => fields[i as int]));
                    let mut part = fields[i].0.clone();
                    part.append(": ");
                    part.append(fields[i].1.to_string().as_str());
                    let ghost before = texts(parts@);
                    parts.push(part);
                    assert(texts(parts@) =~= before.push(part@));
                }
                let mut out = name.clone();
                out.append(" { ");
                out.append(join(&parts, ", ").as_str());
                out.append(" }");
                out
            },
            Shape::Sum { name, variants } => {
                let ghost all = self@->Sum_variants;
                let mut parts: Vec<String> = Vec::new();
                for v in 0..variants.len()
                    invariant
                        *self == (Shape::Sum { name: *name, variants: *variants }),
                        all == self@->Sum_variants,
                        texts(parts@) == cases(all, v as nat),
                {
                    let (case, fields) = &variants[v];
                    let mut part = case.clone();
                    if fields.len() > 0 {
                        let mut inner: Vec<String> = Vec::new();
                        for i in 0..fields.len()
                            invariant
                                *self == (Shape::Sum { name: *name, variants: *variants }),
                                all == self@->Sum_variants,
                                0 <= v < variants@.len(),
                                *fields == variants@[v as int].1,
                                texts(inner@) == labels(all[v as int].1, i as nat),
                        {
                            assert(decreases_to!(*variants => variants[v as int]));
                            assert(decreases_to!(*fields => fields[i as int]));
                            let mut label = fields[i].0.clone();
                            label.append(": ");
                            label.append(fields[i].1.to_string().as_str());
                            let ghost before = texts(inner@);
                            inner.push(label);
                            assert(texts(inner@) =~= before.push(label@));
                        }
                        part.append("(");
                        part.append(join(&inner, ", ").as_str());
                        part.append(")");
                    }
                    let ghost before = texts(parts@);
                    parts.push(part);
                    assert(texts(parts@) =~= before.push(part@));
                }
                let mut out = name.clone();
                out.append(" = | ");
                out.append(join(&parts, " | ").as_str());
                out
            },
        }
    }
}

/// The sentence that says a type became another.
pub open spec fn became(path: Seq<char>, old_text: Seq<char>, new_text: Seq<char>) -> Seq<char> {
    "`"@ + path + "` was `"@ + old_text + "` and is now `"@ + new_text + "`"@
}

/// The first place two shapes stop agreeing, in words.
pub open spec fn parted(path: Seq<char>, a: Form, b: Form) -> Option<Seq<char>>
    decreases a,
{
    match (a, b) {
        (Form::Scalar(x), Form::Scalar(y)) => if x == y {
            None
        } else {
            Some(became(path, written(a), written(b)))
        },
        (Form::Again(x), Form::Again(y)) => if x == y {
            None
        } else {
            Some(became(path, written(a), written(b)))
        },
        (Form::List(x), Form::List(y)) => parted(path + "'s elements"@, *x, *y),
        (Form::Option(x), Form::Option(y)) => parted(path, *x, *y),
        (Form::Result(x, xe), Form::Result(y, ye)) => match parted(path, *x, *y) {
            Some(found) => Some(found),
            None => parted(path + "'s error"@, *xe, *ye),
        },
        (Form::Record { name: x, fields: xs }, Form::Record { name: y, fields: ys }) => if x != y {
            Some(became(path, x, y))
        } else {
            fields_parted(path, xs, ys, 0)
        },
        (Form::Sum { name: x, variants: xs }, Form::Sum { name: y, variants: ys }) => if x != y {
            Some(became(path, x, y))
        } else if xs.len() != ys.len() {
            Some(
                "`"@ + path + "` had "@ + decimal(xs.len() as int) + " variants and now has "@
                    + decimal(ys.len() as int),
            )
        } else {
            cases_parted(path, xs, ys, 0)
        },
        _ => Some(became(path, written(a), written(b))),
    }
}

/// The first place two lists of fields stop agreeing, from `index` on. Order
/// matters as much as the names do: two fields that swapped places have
/// swapped offsets.
pub open spec fn fields_parted(
    path: Seq<char>,
    a: Seq<(Seq<char>, Form)>,
    b: Seq<(Seq<char>, Form)>,
    index: nat,
) -> Option<Seq<char>>
    decreases a, a.len() - index,
{
    if index < a.len() {
        let (name, shape) = a[index as int];
        if index >= b.len() {
            Some("`"@ + path + "` lost the field `"@ + name + ": "@ + written(shape) + "`"@)
        } else {
            let (new_name, new_shape) = b[index as int];
            if name != new_name {
                Some(
                    "`"@ + path + "`'s field "@ + decimal(index as int + 1) + " is `"@ + new_name
                        + "` where it was `"@ + name + "`"@,
                )
            } else {
                match parted(path + "."@ + name, shape, new_shape) {
                    Some(found) => Some(found),
                    None => fields_parted(path, a, b, index + 1),
                }
            }
        }
    } else if a.len() < b.len() {
        let (name, shape) = b[a.len() as int];
        Some("`"@ + path + "` gained the field `"@ + name + ": "@ + written(shape) + "`"@)
    } else {
        None
    }
}

/// The first place two lists of variants stop agreeing, from `index` on.
pub open spec fn cases_parted(
    path: Seq<char>,
    a: Seq<(Seq<char>, Seq<(Seq<char>, Form)>)>,
    b: Seq<(Seq<char>, Seq<(Seq<char>, Form)>)>,
    index: nat,
) -> Option<Seq<char>>
    decreases a, a.len() - index,
{
    if index >= a.len() || index >= b.len() {
        None
    } else {
        let (case, fields) = a[index as int];
        let (new_case, new_fields) = b[index as int];
        if case != new_case {
            Some("`"@ + path + "`'s variant `"@ + case + "` is now `"@ + new_case + "`"@)
        } else {
            match fields_parted(path + "."@ + case, fields, new_fields, 0) {
                Some(found) => Some(found),
                None => cases_parted(path, a, b, index + 1),
            }
        }
    }
}

/// What an optional text holds.
pub open spec fn text_of(found: Option<String>) -> Option<Seq<char>> {
    match found {
        Some(text) => Some(text@),
        None => None,
    }
}

/// The first place two shapes stop agreeing, in words.
///
/// One difference, not a list: the reader needs to know *that* the state
/// cannot be carried over and *why*, and the first honest reason is enough to
/// act on. `None` means the two are the same shape and a snapshot moves
/// between them.
pub fn difference(old_shape: &Shape, new_shape: &Shape) -> (r: Option<String>)
    ensures
        text_of(r) == parted(called(old_shape@), old_shape@, new_shape@),
        r is None <==> old_shape@ == new_shape@,
{
    proof {
        no_difference_means_the_same_shape(called(old_shape@), old_shape@, new_shape@);
    }
    walk(old_shape.name().as_str(), old_shape, new_shape)
}

fn changed(path: &str, old_text: &str, new_text: &str) -> (r: String)
    ensures
        r@ == became(path@, old_text@, new_text@),
{
    let mut out = "`".to_owned();
    out.append(path);
    out.append("` was `");
    out.append(old_text);
    out.append("` and is now `");
    out.append(new_text);
    out.append("`");
    out
}

fn extended(path: &str, with: &str) -> (r: String)
    ensures
        r@ == path@ + with@,
{
    let mut out = path.to_owned();
    out.append(with);
    out
}

fn member(path: &str, name: &str) -> (r: String)
    ensures
        r@ == path@ + "."@ + name@,
{
    let mut out = path.to_owned();
    out.append(".");
    out.append(name);
    out
}

fn walk(path: &str, a: &Shape, b: &Shape) -> (r: Option<String>)
    ensures
        text_of(r) == parted(path@, a@, b@),
    decreases a,
{
    match (a, b) {
        (Shape::Scalar(x), Shape::Scalar(y)) if same_text(*x, *y) => None,
        (Shape::Again(x), Shape::Again(y)) if same_text(x.as_str(), y.as_str()) => None,
        (Shape::List(x), Shape::List(y)) => walk(extended(path, "'s elements").as_str(), x, y),
        (Shape::Option(x), Shape::Option(y)) => walk(path, x, y),
        (Shape::Result(x, xe), Shape::Result(y, ye)) => match walk(path, x, y) {
            Some(found) => Some(found),
            None => walk(extended(path, "'s error").as_str(), xe, ye),
        },
        (
            Shape::Record { name: x, fields: xs },
            Shape::Record { name: y, fields: ys },
        ) => {
            if !same_text(x.as_str(), y.as_str()) {
                return Some(changed(path, x.as_str(), y.as_str()));
            }
            assert(fields_view(xs@) =~= a@->Record_fields);
            assert(fields_view(ys@) =~= b@->Record_fields);
            members(path, xs, ys)
        },
        (Shape::Sum { name: x, variants: xs }, Shape::Sum { name: y, variants: ys }) => {
            if !same_text(x.as_str(), y.as_str()) {
                return Some(changed(path, x.as_str(), y.as_str()));
            }
            if xs.len() != ys.len() {
                let mut out = "`".to_owned();
                out.append(path);
                out.append("` had ");
                out.append(number(xs.len() as u64).as_str());
                out.append(" variants and now has ");
                out.append(number(ys.len() as u64).as_str());
                return Some(out);
            }
            let ghost whole = parted(path@, a@, b@);
            let ghost av = a@->Sum_variants;
            let ghost bv = b@->Sum_variants;
            for i in 0..xs.len()
                invariant
                    *a == (Shape::Sum { name: *x, variants: *xs }),
                    av == a@->Sum_variants,
                    bv == b@->Sum_variants,
                    *b == (Shape::Sum { name: *y, variants: *ys }),
                    xs@.len() == ys@.len(),
                    whole == parted(path@, a@, b@),
                    whole == cases_parted(path@, av, bv, i as nat),
            {
                let (case, fields) = &xs[i];
                let (new_case, new_fields) = &ys[i];
                if !same_text(case.as_str(), new_case.as_str()) {
                    let mut out = "`".to_owned();
                    out.append(path);
                    out.append("`'s variant `");
                    out.append(case.as_str());
                    out.append("` is now `");
                    out.append(new_case.as_str());
                    out.append("`");
                    return Some(out);
                }
                assert(fields_view(fields@) =~= av[i as int].1);
                assert(fields_view(new_fields@) =~= bv[i as int].1);
                assert(decreases_to!(*xs => xs[i as int]));
                let inner = member(path, case.as_str());
                if let Some(found) = members(inner.as_str(), fields, new_fields) {
                    return Some(found);
                }
            }
            None
        },
        _ => Some(changed(path, a.to_string().as_str(), b.to_string().as_str())),
    }
}

/// Compares a record's fields or a variant's, in order.
fn members(path: &str, a: &Vec<(String, Shape)>, b: &Vec<(String, Shape)>) -> (r: Option<String>)
    ensures
        text_of(r) == fields_parted(path@, fields_view(a@), fields_view(b@), 0),
    decreases a,
{
    let ghost av = fields_view(a@);
    let ghost bv = fields_view(b@);
    let ghost whole = fields_parted(path@, av, bv, 0);
    for i in 0..a.len()
        invariant
            av == fields_view(a@),
            bv == fields_view(b@),
            whole == fields_parted(path@, av, bv, 0),
            whole == fields_parted(path@, av, bv, i as nat),
    {
        let (name, shape) = &a[i];
        assert(av[i as int] == (name@, shape@));
        if i >= b.len() {
            let mut out = "`".to_owned();
            out.append(path);
            out.append("` lost the field `");
            out.append(name.as_str());
            out.append(": ");
            out.append(shape.to_string().as_str());
            out.append("`");
            return Some(out);
        }
        let (new_name, new_shape) = &b[i];
        assert(bv[i as int] == (new_name@, new_shape@));
        if !same_text(name.as_str(), new_name.as_str()) {
            let mut out = "`".to_owned();
            out.append(path);
            out.append("`'s field ");
            out.append(number(i as u64 + 1).as_str());
            out.append(" is `");
            out.append(new_name.as_str());
            out.append("` where it was `");
            out.append(name.as_str());
            out.append("`");
            return Some(out);
        }
        assert(decreases_to!(*a => a[i as int]));
        let inner = member(path, name.as_str());
        if let Some(found) = walk(inner.as_str(), shape, new_shape) {
            return Some(found);
        }
    }
    if a.len() < b.len() {
        let (name, shape) = &b[a.len()];
        assert(bv[a@.len() as int] == (name@, shape@));
        let mut out = "`".to_owned();
        out.append(path);
        out.append("` gained the field `");
        out.append(name.as_str());
        out.append(": ");
        out.append(shape.to_string().as_str());
        out.append("`");
        return Some(out);
    }
    None
}

/// No difference means the same shape, and the same shape has no difference.
pub proof fn no_difference_means_the_same_shape(path: Seq<char>, a: Form, b: Form)
    ensures
        parted(path, a, b) is None <==> a == b,
    decreases a,
{
    match (a, b) {
        (Form::List(x), Form::List(y)) => {
            no_difference_means_the_same_shape(path + "'s elements"@, *x, *y);
        },
        (Form::Option(x), Form::Option(y)) => {
            no_difference_means_the_same_shape(path, *x, *y);
        },
        (Form::Result(x, xe), Form::Result(y, ye)) => {
            no_difference_means_the_same_shape(path, *x, *y);
            no_difference_means_the_same_shape(path + "'s error"@, *xe, *ye);
        },
        (Form::Record { name: x, fields: xs }, Form::Record { name: y, fields: ys }) => {
            lemma_fields_parted(path, xs, ys, 0);
            if parted(path, a, b) is None {
                assert(xs =~= ys);
            }
        },
        (Form::Sum { name: x, variants: xs }, Form::Sum { name: y, variants: ys }) => {
            if xs.len() == ys.len() {
                lemma_cases_parted(path, xs, ys, 0);
                if parted(path, a, b) is None {
                    assert(xs =~= ys);
                }
            }
        },
        _ => {},
    }
}

proof fn lemma_fields_parted(
    path: Seq<char>,
    a: Seq<(Seq<char>, Form)>,
    b: Seq<(Seq<char>, Form)>,
    index: nat,
)
    requires
        index <= a.len(),
        index <= b.len(),
    ensures
        fields_parted(path, a, b, index) is None <==> a.len() == b.len() && forall|i: int|
            index <= i < a.len() ==> a[i] == b[i],
    decreases a, a.len() - index,
{
    if index < a.len() && index < b.len() {
        let (name, shape) = a[index as int];
        let (new_name, new_shape) = b[index as int];
        no_difference_means_the_same_shape(path + "."@ + name, shape, new_shape);
        lemma_fields_parted(path, a, b, index + 1);
    }
}

proof fn lemma_cases_parted(
    path: Seq<char>,
    a: Seq<(Seq<char>, Seq<(Seq<char>, Form)>)>,
    b: Seq<(Seq<char>, Seq<(Seq<char>, Form)>)>,
    index: nat,
)
    requires
        index <= a.len(),
        a.len() == b.len(),
    ensures
        cases_parted(path, a, b, index) is None <==> forall|i: int|
            index <= i < a.len() ==> a[i] == b[i],
    decreases a, a.len() - index,
{
    if index < a.len() {
        let (case, fields) = a[index as int];
        let (new_case, new_fields) = b[index as int];
        lemma_fields_parted(path + "."@ + case, fields, new_fields, 0);
        if fields_parted(path + "."@ + case, fields, new_fields, 0) is None {
            assert(fields =~= new_fields);
        }
        lemma_cases_parted(path, a, b, index + 1);
    }
}

/// One shape has one fingerprint: where there is no difference, a snapshot of
/// the one fits the other.
pub proof fn no_difference_means_a_snapshot_fits(path: Seq<char>, a: Form, b: Form)
    requires
        parted(path, a, b) is None,
    ensures
        written(a) == written(b),
{
    no_difference_means_the_same_shape(path, a, b);
}

/// A rename is a change: records of one shape have one name, and the same fields
/// by name, in order.
pub proof fn a_renamed_record_is_another_shape(old: Hir, a: u32, new: Hir, b: u32)
    requires
        a < old.records@.len(),
        b < new.records@.len(),
        form(old, Ty::Record(RecordId(a)), Seq::empty()) == form(
            new,
            Ty::Record(RecordId(b)),
            Seq::empty(),
        ),
    ensures
        ({
            let (x, y) = (old.records@[a as int], new.records@[b as int]);
            &&& x.name@ == y.name@
            &&& x.fields@.len() == y.fields@.len()
            &&& forall|i: int|
                0 <= i < x.fields@.len() ==> (#[trigger] x.fields@[i]).0@ == y.fields@[i].0@
        }),
{
    let (x, y) = (old.records@[a as int], new.records@[b as int]);
    let f = form(old, Ty::Record(RecordId(a)), Seq::empty())->Record_fields;
    let g = form(new, Ty::Record(RecordId(b)), Seq::empty())->Record_fields;
    assert(f.len() == x.fields@.len() && g.len() == y.fields@.len());
    assert forall|i: int| 0 <= i < x.fields@.len() implies (#[trigger] x.fields@[i]).0@
        == y.fields@[i].0@ by {
        assert(f[i] == g[i]);
    }
}

/// A rename is a change in a sum too: sums of one shape have one name, and the
/// same variants by name, in order, each with the same fields by name.
pub proof fn a_renamed_sum_is_another_shape(old: Hir, a: u32, new: Hir, b: u32)
    requires
        a < old.sums@.len(),
        b < new.sums@.len(),
        form(old, Ty::Sum(SumId(a)), Seq::empty()) == form(new, Ty::Sum(SumId(b)), Seq::empty()),
    ensures
        ({
            let (x, y) = (old.sums@[a as int], new.sums@[b as int]);
            &&& x.name@ == y.name@
            &&& x.variants@.len() == y.variants@.len()
            &&& forall|v: int|
                0 <= v < x.variants@.len() ==> {
                    &&& (#[trigger] x.variants@[v]).name@ == y.variants@[v].name@
                    &&& x.variants@[v].fields@.len() == y.variants@[v].fields@.len()
                    &&& forall|i: int|
                        0 <= i < x.variants@[v].fields@.len() ==> (
                        #[trigger] x.variants@[v].fields@[i]).0@ == y.variants@[v].fields@[i].0@
                }
        }),
{
    let (x, y) = (old.sums@[a as int], new.sums@[b as int]);
    let f = form(old, Ty::Sum(SumId(a)), Seq::empty())->Sum_variants;
    let g = form(new, Ty::Sum(SumId(b)), Seq::empty())->Sum_variants;
    assert(f.len() == x.variants@.len() && g.len() == y.variants@.len());
    assert forall|v: int| 0 <= v < x.variants@.len() implies {
        &&& (#[trigger] x.variants@[v]).name@ == y.variants@[v].name@
        &&& x.variants@[v].fields@.len() == y.variants@[v].fields@.len()
        &&& forall|i: int|
            0 <= i < x.variants@[v].fields@.len() ==> (#[trigger] x.variants@[v].fields@[i]).0@
                == y.variants@[v].fields@[i].0@
    } by {
        assert(f[v] == g[v]);
        assert(f[v].1.len() == x.variants@[v].fields@.len());
        assert(g[v].1.len() == y.variants@[v].fields@.len());
        assert forall|i: int| 0 <= i < x.variants@[v].fields@.len() implies (
        #[trigger] x.variants@[v].fields@[i]).0@ == y.variants@[v].fields@[i].0@ by {
            assert(f[v].1[i] == g[v].1[i]);
        }
    }
}

} // verus!
