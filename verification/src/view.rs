//! Which view of a program is drawn.

use vstd::prelude::*;
use vstd::string::StringExecFns;

use crate::hir::{FuncDef, Hir};
use crate::text::{join, joined, texts};

verus! {

/// How a module says what to draw.
#[derive(Debug)]
pub enum Entry {
    /// A bare `view fn` taking nothing. Called directly.
    Function(String),
    /// An actor that draws itself, called with its own state.
    Actor,
}

/// The names of those of the first `count` functions that are views.
pub open spec fn view_names(funcs: Seq<FuncDef>, count: nat) -> Seq<Seq<char>>
    decreases count,
{
    if count == 0 {
        Seq::empty()
    } else {
        let before = view_names(funcs, (count - 1) as nat);
        if funcs[count - 1].is_view {
            before.push(funcs[count - 1].name@)
        } else {
            before
        }
    }
}

/// The first of the functions from `index` on that is a view and needs
/// nothing.
pub open spec fn bare_view(funcs: Seq<FuncDef>, index: nat) -> Option<nat>
    decreases funcs.len() - index,
{
    if index >= funcs.len() {
        None
    } else if funcs[index as int].is_view && funcs[index as int].param_count == 0 {
        Some(index)
    } else {
        bare_view(funcs, index + 1)
    }
}

/// The names of the first four functions, or of as many as there are.
pub open spec fn some_names(funcs: Seq<FuncDef>) -> Seq<Seq<char>> {
    Seq::new(
        if funcs.len() < 4 {
            funcs.len()
        } else {
            4
        },
        |i: int| funcs[i].name@,
    )
}

/// What is missing and what to do about it, where `state` is how the compiler
/// writes the type of the actor's state.
pub open spec fn no_view_words(hir: Hir, state: Seq<char>) -> Seq<char> {
    let views = view_names(hir.funcs@, hir.funcs@.len());
    if views.len() > 0 {
        "every view here takes arguments ("@ + joined(views, ", "@)
            + "), so none of them can be the one to draw. `strand view` calls a view that needs nothing \u{2014} add a `view fn main() -> Node` that supplies the arguments."@
    } else if hir.actors@.len() == 1 {
        "actor `"@ + hir.actors@[0].name@
            + "` does not draw itself. Add a `view fn` inside it \u{2014} `view fn draw(state: "@ + state
            + ") -> Node { ... }` \u{2014} and it will be redrawn after every message it handles (\u{a7}6.5)."@
    } else {
        let names = some_names(hir.funcs@);
        "this file has no view to draw."@ + (if names.len() == 0 {
            ""@
        } else {
            " This module defines "@ + joined(names, ", "@) + "."@
        })
            + " A view is written `view fn main() -> Node { ... }` \u{2014} see examples/strand/view.str. (The todo app is its own command: `strand todo`.)"@
    }
}

/// Says what is missing and what to do about it. Naming the functions the
/// module *does* have turns "no" into "not this one", which is the difference
/// between a dead end and a next step.
pub fn no_view(hir: &Hir, state: &str) -> (r: String)
    ensures
        r@ == no_view_words(*hir, state@),
{
    let mut views: Vec<String> = Vec::new();
    assert(texts(views@) =~= view_names(hir.funcs@, 0));
    for i in 0..hir.funcs.len()
        invariant
            texts(views@) == view_names(hir.funcs@, i as nat),
    {
        if hir.funcs[i].is_view {
            let ghost before = texts(views@);
            views.push(hir.funcs[i].name.clone());
            assert(texts(views@) =~= before.push(hir.funcs@[i as int].name@));
        }
    }
    assert(views@.len() == texts(views@).len());
    if views.len() > 0 {
        let mut out = "every view here takes arguments (".to_owned();
        out.append(join(&views, ", ").as_str());
        out.append(
            "), so none of them can be the one to draw. `strand view` calls a view that needs nothing \u{2014} add a `view fn main() -> Node` that supplies the arguments.",
        );
        return out;
    }
    if let Some(actor) = hir.lone_actor() {
        let mut out = "actor `".to_owned();
        out.append(actor.name.as_str());
        out.append(
            "` does not draw itself. Add a `view fn` inside it \u{2014} `view fn draw(state: ",
        );
        out.append(state);
        out.append(
            ") -> Node { ... }` \u{2014} and it will be redrawn after every message it handles (\u{a7}6.5).",
        );
        return out;
    }
    let count: usize = if hir.funcs.len() < 4 {
        hir.funcs.len()
    } else {
        4
    };
    let mut names: Vec<String> = Vec::new();
    for i in 0..count
        invariant
            count == some_names(hir.funcs@).len(),
            count <= hir.funcs@.len(),
            texts(names@) == some_names(hir.funcs@).take(i as int),
    {
        let ghost before = texts(names@);
        names.push(hir.funcs[i].name.clone());
        assert(texts(names@) =~= before.push(hir.funcs@[i as int].name@));
        assert(texts(names@) =~= some_names(hir.funcs@).take(i + 1));
    }
    assert(texts(names@) =~= some_names(hir.funcs@));
    let mut has = "".to_owned();
    if count > 0 {
        has = " This module defines ".to_owned();
        has.append(join(&names, ", ").as_str());
        has.append(".");
    }
    let mut out = "this file has no view to draw.".to_owned();
    out.append(has.as_str());
    out.append(
        " A view is written `view fn main() -> Node { ... }` \u{2014} see examples/strand/view.str. (The todo app is its own command: `strand todo`.)",
    );
    out
}

/// Whether the program is one actor that draws itself.
pub open spec fn draws_itself(hir: Hir) -> bool {
    hir.actors@.len() == 1 && hir.actors@[0].draws
}

/// The view to call: an actor that draws itself wins, because its view needs
/// the state and only the actor has one; otherwise the first view that needs
/// nothing to draw itself. `None` where there is neither.
pub fn entry(hir: &Hir) -> (r: Option<Entry>)
    ensures
        match r {
            Some(Entry::Actor) => draws_itself(*hir),
            Some(Entry::Function(name)) => {
                &&& !draws_itself(*hir)
                &&& bare_view(hir.funcs@, 0) matches Some(index) && name@
                    == hir.funcs@[index as int].name@
            },
            None => !draws_itself(*hir) && bare_view(hir.funcs@, 0) is None,
        },
{
    if let Some(actor) = hir.lone_actor() {
        if actor.draws {
            return Some(Entry::Actor);
        }
    }
    for i in 0..hir.funcs.len()
        invariant
            !draws_itself(*hir),
            bare_view(hir.funcs@, 0) == bare_view(hir.funcs@, i as nat),
    {
        if hir.funcs[i].is_view && hir.funcs[i].param_count == 0 {
            return Some(Entry::Function(hir.funcs[i].name.clone()));
        }
    }
    None
}

/// The view that is called is a view, needs nothing, and is the first such.
pub proof fn the_first_view_that_needs_nothing_is_called(funcs: Seq<FuncDef>, index: nat)
    ensures
        match bare_view(funcs, index) {
            Some(found) => {
                &&& index <= found < funcs.len()
                &&& funcs[found as int].is_view
                &&& funcs[found as int].param_count == 0
                &&& forall|i: int|
                    index <= i < found ==> !((#[trigger] funcs[i]).is_view && funcs[i].param_count
                        == 0)
            },
            None => forall|i: int|
                index <= i < funcs.len() ==> !((#[trigger] funcs[i]).is_view
                    && funcs[i].param_count == 0),
        },
    decreases funcs.len() - index,
{
    if index < funcs.len() && !(funcs[index as int].is_view && funcs[index as int].param_count
        == 0) {
        the_first_view_that_needs_nothing_is_called(funcs, index + 1);
    }
}

} // verus!
