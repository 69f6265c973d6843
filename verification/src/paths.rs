//! What a frame says of each node, wherever it is in the tree.
//!
//! A node is named by its path: which child to take, from the root on. Where
//! it is painted is a sum over that path, what it is confined to is the overlap
//! of the scrolls on it, and a frame is what every node on sight adds, in order.

use vstd::prelude::*;

use crate::flatten::{emitted, emitted_all, lemma_over, lowest, Placed};
use crate::flex::{
    a_child_takes_the_room_it_asks_for, a_text_is_a_leaf, across, along, flexed, sized_as, visited,
    visited_all, Direction, Flex, Seen,
};
use crate::scalar::{
    above, below, clamped, larger_of, minus, over, plus, smaller_of, times, whole, Scalar,
};
use crate::scene::{Bounds, Draw, HitRegion, Picture, ScrollExtent, Tree};

verus! {

/// The node at a path.
pub open spec fn tree_at<T>(tree: Tree<T>, path: Seq<int>) -> Tree<T>
    decreases path.len(),
{
    if path.len() == 0 {
        tree
    } else {
        tree_at(tree.children()[path[0]], path.drop_first())
    }
}

/// Where the solver put the node at a path, relative to its parent.
pub open spec fn placed_at<T>(placed: Placed<T>, path: Seq<int>) -> Placed<T>
    decreases path.len(),
{
    if path.len() == 0 {
        placed
    } else {
        placed_at(placed.children@[path[0]], path.drop_first())
    }
}

/// The left edge of the node at a path: where the root is, and every step to
/// the right on the way.
pub open spec fn x_at<T: Scalar>(placed: Placed<T>, x: T, path: Seq<int>) -> T
    decreases path.len(),
{
    let here = plus(x, placed.x);
    if path.len() == 0 {
        here
    } else {
        x_at(placed.children@[path[0]], here, path.drop_first())
    }
}

/// How far down a scroll that asks for `offset` has moved its content: as far
/// as it asks, but not above the top, and not past what it can show.
pub open spec fn moved_by<T: Scalar>(placed: Placed<T>, offset: T) -> T {
    clamped(offset, whole::<T>(0), room_in(placed))
}

/// How much more content there is than fits.
pub open spec fn room_in<T: Scalar>(placed: Placed<T>) -> T {
    larger_of(
        minus(plus(bottom_of(placed.children@, placed.children@.len()), placed.padding_bottom), placed.height),
        whole::<T>(0),
    )
}

/// The lowest edge of the first `count` children, or zero.
pub open spec fn bottom_of<T: Scalar>(children: Seq<Placed<T>>, count: nat) -> T
    decreases count,
{
    if count == 0 {
        whole::<T>(0)
    } else {
        larger_of(
            bottom_of(children, (count - 1) as nat),
            plus(children[count - 1].y, children[count - 1].height),
        )
    }
}

/// The top edge of the node at a path: where the root is, and every step down on
/// the way, less what each scroll has moved its content up.
pub open spec fn y_at<T: Scalar>(tree: Tree<T>, placed: Placed<T>, y: T, path: Seq<int>) -> T
    decreases path.len(),
{
    let here = plus(y, placed.y);
    if path.len() == 0 {
        here
    } else {
        let inside = match tree {
            Tree::Scroll { offset, .. } => minus(here, moved_by(placed, offset)),
            _ => here,
        };
        y_at(tree.children()[path[0]], placed.children@[path[0]], inside, path.drop_first())
    }
}

/// What is left of a rectangle inside a clip.
pub open spec fn in_sight<T: Scalar>(clip: Option<Bounds<T>>, bounds: Bounds<T>) -> Option<
    Bounds<T>,
> {
    if clip is None {
        Some(bounds)
    } else {
        clip->Some_0.meet(bounds)
    }
}

/// What the node at a path is confined to: what is left of every scroll on the
/// way.
pub open spec fn clip_at<T: Scalar>(
    tree: Tree<T>,
    placed: Placed<T>,
    x: T,
    y: T,
    clip: Option<Bounds<T>>,
    path: Seq<int>,
) -> Option<Bounds<T>>
    decreases path.len(),
{
    if path.len() == 0 {
        clip
    } else {
        let (left, top) = (plus(x, placed.x), plus(y, placed.y));
        let (child, rest) = (placed.children@[path[0]], path.drop_first());
        match tree {
            Tree::Scroll { offset, children, .. } => clip_at(
                children[path[0]],
                child,
                left,
                minus(top, moved_by(placed, offset)),
                in_sight(
                    clip,
                    Bounds { x: left, y: top, width: placed.width, height: placed.height },
                ),
                rest,
            ),
            _ => clip_at(tree.children()[path[0]], child, left, top, clip, rest),
        }
    }
}

/// A step of the walk: a node is reached, or a scroll is done with its content.
pub struct Step {
    pub path: Seq<int>,
    pub reached: bool,
}

/// The steps of a walk through a tree: a node before its children, its children
/// in order, and nothing in a scroll that is out of sight.
pub open spec fn steps<T: Scalar>(
    tree: Tree<T>,
    placed: Placed<T>,
    x: T,
    y: T,
    clip: Option<Bounds<T>>,
) -> Seq<Step>
    decreases tree,
{
    let (left, top) = (plus(x, placed.x), plus(y, placed.y));
    let here = seq![Step { path: Seq::empty(), reached: true }];
    match tree {
        Tree::Row { children, .. } => here + steps_in(
            children,
            placed.children@,
            children.len(),
            left,
            top,
            clip,
        ),
        Tree::Column { children, .. } => here + steps_in(
            children,
            placed.children@,
            children.len(),
            left,
            top,
            clip,
        ),
        Tree::Scroll { offset, children, .. } => {
            let seen = in_sight(
                clip,
                Bounds { x: left, y: top, width: placed.width, height: placed.height },
            );
            if seen is None {
                here
            } else {
                here + steps_in(
                    children,
                    placed.children@,
                    children.len(),
                    left,
                    minus(top, moved_by(placed, offset)),
                    seen,
                ) + seq![Step { path: Seq::empty(), reached: false }]
            }
        },
        _ => here,
    }
}

/// The steps of a walk through the first `count` children of a node.
pub open spec fn steps_in<T: Scalar>(
    children: Seq<Tree<T>>,
    places: Seq<Placed<T>>,
    count: nat,
    x: T,
    y: T,
    clip: Option<Bounds<T>>,
) -> Seq<Step>
    decreases children, count,
{
    if count == 0 || count > children.len() {
        Seq::empty()
    } else if count > places.len() {
        steps_in(children, places, (count - 1) as nat, x, y, clip)
    } else {
        steps_in(children, places, (count - 1) as nat, x, y, clip) + below_child(
            count - 1,
            steps(children[count - 1], places[count - 1], x, y, clip),
        )
    }
}

/// Steps in a child, as steps in its parent.
pub open spec fn below_child(index: int, inner: Seq<Step>) -> Seq<Step> {
    Seq::new(
        inner.len(),
        |k: int| Step { path: seq![index] + inner[k].path, reached: inner[k].reached },
    )
}

/// What a step adds to the frame. A node that is reached paints its background
/// over its whole box, its text where it is, and opens a clip if it scrolls; it
/// can be hit where it is in sight, and a scroll says how far it can go. A
/// scroll that is done closes its clip, and shows where it is if there is more
/// than fits.
pub open spec fn stroke<T: Scalar>(
    root: Tree<T>,
    places: Placed<T>,
    x: T,
    y: T,
    clip: Option<Bounds<T>>,
    step: Step,
) -> Picture<T> {
    let node = tree_at(root, step.path);
    let placed = placed_at(places, step.path);
    let left = x_at(places, x, step.path);
    let top = y_at(root, places, y, step.path);
    let (width, height) = (placed.width, placed.height);
    let seen = in_sight(
        clip_at(root, places, x, y, clip, step.path),
        Bounds { x: left, y: top, width, height },
    );
    if step.reached {
        let back = match node.style() {
            Some(style) => match style.background {
                Some(color) => seq![Draw::Rect { x: left, y: top, width, height, color }],
                None => Seq::empty(),
            },
            None => Seq::empty(),
        };
        let front = match (node, seen) {
            (Tree::Text { text, style }, _) => seq![
                Draw::Text { x: left, y: top, size: style.size, color: style.color, text },
            ],
            (Tree::Scroll { .. }, Some(part)) => seq![
                Draw::ClipStart { x: part.x, y: part.y, width: part.width, height: part.height },
            ],
            _ => Seq::empty(),
        };
        Picture {
            commands: back + front,
            hits: match (node.style(), seen) {
                (Some(style), Some(part)) => match style.id {
                    Some(id) => seq![
                        HitRegion {
                            id,
                            x: part.x,
                            y: part.y,
                            width: part.width,
                            height: part.height,
                            focusable: style.focusable,
                        },
                    ],
                    None => Seq::empty(),
                },
                _ => Seq::empty(),
            },
            scrolls: match node {
                Tree::Scroll { style, offset, .. } => match style.id {
                    Some(id) => seq![
                        ScrollExtent {
                            id,
                            x: left,
                            y: top,
                            width,
                            height,
                            offset: moved_by(placed, offset),
                            max_offset: room_in(placed),
                        },
                    ],
                    None => Seq::empty(),
                },
                _ => Seq::empty(),
            },
        }
    } else {
        let thumb = match node {
            Tree::Scroll { offset, bar: Some(color), .. } => {
                let room = room_in(placed);
                if above(room, whole::<T>(0)) {
                    let content = plus(
                        bottom_of(placed.children@, placed.children@.len()),
                        placed.padding_bottom,
                    );
                    let long = clamped(
                        times(over(height, content), height),
                        smaller_of(whole::<T>(24), height),
                        height,
                    );
                    let done = over(moved_by(placed, offset), room);
                    seq![
                        Draw::Rect {
                            x: minus(plus(left, width), whole::<T>(4)),
                            y: plus(top, times(done, minus(height, long))),
                            width: whole::<T>(4),
                            height: long,
                            color,
                        },
                    ]
                } else {
                    Seq::empty()
                }
            },
            _ => Seq::empty(),
        };
        Picture {
            commands: seq![Draw::<T>::ClipEnd] + thumb,
            hits: Seq::empty(),
            scrolls: Seq::empty(),
        }
    }
}

/// What steps add to the frame, one after the other.
pub open spec fn strokes<T: Scalar>(
    root: Tree<T>,
    places: Placed<T>,
    x: T,
    y: T,
    clip: Option<Bounds<T>>,
    walk: Seq<Step>,
) -> Picture<T>
    decreases walk.len(),
{
    if walk.len() == 0 {
        Picture::<T>::blank()
    } else {
        stroke(root, places, x, y, clip, walk.last()).over(
            strokes(root, places, x, y, clip, walk.drop_last()),
        )
    }
}

proof fn lemma_strokes_join<T: Scalar>(
    root: Tree<T>,
    places: Placed<T>,
    x: T,
    y: T,
    clip: Option<Bounds<T>>,
    a: Seq<Step>,
    b: Seq<Step>,
)
    ensures
        strokes(root, places, x, y, clip, a + b) == strokes(root, places, x, y, clip, b).over(
            strokes(root, places, x, y, clip, a),
        ),
    decreases b.len(),
{
    let before = strokes(root, places, x, y, clip, a);
    if b.len() == 0 {
        assert(a + b =~= a);
        lemma_over(before, before, before);
    } else {
        lemma_strokes_join(root, places, x, y, clip, a, b.drop_last());
        assert((a + b).drop_last() =~= a + b.drop_last());
        assert((a + b).last() == b.last());
        lemma_over(
            stroke(root, places, x, y, clip, b.last()),
            strokes(root, places, x, y, clip, b.drop_last()),
            before,
        );
    }
}

proof fn lemma_one_stroke<T: Scalar>(
    root: Tree<T>,
    places: Placed<T>,
    x: T,
    y: T,
    clip: Option<Bounds<T>>,
    step: Step,
)
    ensures
        strokes(root, places, x, y, clip, seq![step]) == stroke(root, places, x, y, clip, step),
{
    let walk = seq![step];
    assert(walk.drop_last() =~= Seq::<Step>::empty());
    assert(walk.last() == step);
    assert(strokes(root, places, x, y, clip, Seq::<Step>::empty()) == Picture::<T>::blank());
    let own = stroke(root, places, x, y, clip, step);
    lemma_over(own, own, own);
}

/// What the content of a node adds is what its children add on their own.
proof fn lemma_strokes_below<T: Scalar>(
    root: Tree<T>,
    places: Placed<T>,
    x: T,
    y: T,
    clip: Option<Bounds<T>>,
    index: int,
    inner: Seq<Step>,
)
    requires
        0 <= index < root.children().len(),
        0 <= index < places.children@.len(),
    ensures
        ({
            let (left, top) = (plus(x, places.x), plus(y, places.y));
            let (low, confined) = match root {
                Tree::Scroll { offset, .. } => (
                    minus(top, moved_by(places, offset)),
                    in_sight(
                        clip,
                        Bounds { x: left, y: top, width: places.width, height: places.height },
                    ),
                ),
                _ => (top, clip),
            };
            strokes(root, places, x, y, clip, below_child(index, inner)) == strokes(
                root.children()[index],
                places.children@[index],
                left,
                low,
                confined,
                inner,
            )
        }),
    decreases inner.len(),
{
    let walk = below_child(index, inner);
    if inner.len() > 0 {
        lemma_strokes_below(root, places, x, y, clip, index, inner.drop_last());
        assert(walk.drop_last() =~= below_child(index, inner.drop_last()));
        let path = walk.last().path;
        assert(path[0] == index);
        assert(path.drop_first() =~= inner.last().path);
    } else {
        assert(walk =~= Seq::<Step>::empty());
    }
}

/// A frame is what each node in sight adds, in order: every text and every
/// background where the steps down its path lead, each in the room the solver
/// gave it, and every target cut to what the scrolls on its path leave of it.
pub proof fn every_node_is_painted_where_its_path_leads<T: Scalar>(
    tree: Tree<T>,
    placed: Placed<T>,
    x: T,
    y: T,
    clip: Option<Bounds<T>>,
)
    ensures
        emitted(tree, placed, x, y, clip) == strokes(
            tree,
            placed,
            x,
            y,
            clip,
            steps(tree, placed, x, y, clip),
        ),
    decreases tree, 0nat,
{
    let none = Seq::<int>::empty();
    let first = Step { path: none, reached: true };
    let last = Step { path: none, reached: false };
    let (left, top) = (plus(x, placed.x), plus(y, placed.y));
    let own = stroke(tree, placed, x, y, clip, first);
    let all = emitted(tree, placed, x, y, clip);
    lemma_one_stroke(tree, placed, x, y, clip, first);
    lemma_one_stroke(tree, placed, x, y, clip, last);
    match tree {
        Tree::Row { style, children } => {
            let n = children.len();
            lemma_content(tree, placed, x, y, clip, n);
            let inner = steps_in(children, placed.children@, n, left, top, clip);
            lemma_strokes_join(tree, placed, x, y, clip, seq![first], inner);
            let content = emitted_all(children, placed.children@, n, left, top, clip);
            assert(all.commands =~= content.over(own).commands);
            assert(all.hits =~= content.over(own).hits);
            assert(all.scrolls =~= content.over(own).scrolls);
        },
        Tree::Column { style, children } => {
            let n = children.len();
            lemma_content(tree, placed, x, y, clip, n);
            let inner = steps_in(children, placed.children@, n, left, top, clip);
            lemma_strokes_join(tree, placed, x, y, clip, seq![first], inner);
            let content = emitted_all(children, placed.children@, n, left, top, clip);
            assert(all.commands =~= content.over(own).commands);
            assert(all.hits =~= content.over(own).hits);
            assert(all.scrolls =~= content.over(own).scrolls);
        },
        Tree::Box { style } => {
            assert(all.commands =~= own.commands);
            assert(all.hits =~= own.hits);
            assert(all.scrolls =~= own.scrolls);
        },
        Tree::Text { .. } => {
            assert(all.commands =~= own.commands);
            assert(all.hits =~= own.hits);
            assert(all.scrolls =~= own.scrolls);
        },
        Tree::Scroll { style, offset, bar, children } => {
            let n = children.len();
            lemma_scrolled(placed, offset);
            let seen = in_sight(
                clip,
                Bounds { x: left, y: top, width: placed.width, height: placed.height },
            );
            if seen is None {
                assert(all.commands =~= own.commands);
                assert(all.hits =~= own.hits);
                assert(all.scrolls =~= own.scrolls);
            } else {
                let low = minus(top, moved_by(placed, offset));
                lemma_content(tree, placed, x, y, clip, n);
                let inner = steps_in(children, placed.children@, n, left, low, seen);
                let done = stroke(tree, placed, x, y, clip, last);
                lemma_strokes_join(tree, placed, x, y, clip, seq![first], inner);
                lemma_strokes_join(tree, placed, x, y, clip, seq![first] + inner, seq![last]);
                let content = emitted_all(children, placed.children@, n, left, low, seen);
                assert(all.commands =~= done.over(content.over(own)).commands);
                assert(all.hits =~= done.over(content.over(own)).hits);
                assert(all.scrolls =~= done.over(content.over(own)).scrolls);
            }
        },
    }
}

/// A scroll moves its content as the frame says.
proof fn lemma_scrolled<T: Scalar>(placed: Placed<T>, offset: T)
    ensures
        placed.furthest() == room_in(placed),
        placed.scrolled(offset) == moved_by(placed, offset),
        placed.content() == plus(
            bottom_of(placed.children@, placed.children@.len()),
            placed.padding_bottom,
        ),
{
    lemma_lowest(placed.children@, placed.children@.len());
}

proof fn lemma_lowest<T: Scalar>(children: Seq<Placed<T>>, count: nat)
    ensures
        lowest(children, count) == bottom_of(children, count),
    decreases count,
{
    if count > 0 {
        lemma_lowest(children, (count - 1) as nat);
    }
}

proof fn lemma_content<T: Scalar>(
    tree: Tree<T>,
    placed: Placed<T>,
    x: T,
    y: T,
    clip: Option<Bounds<T>>,
    count: nat,
)
    requires
        count <= tree.children().len(),
    ensures
        ({
            let (left, top) = (plus(x, placed.x), plus(y, placed.y));
            let (low, confined) = match tree {
                Tree::Scroll { offset, .. } => (
                    minus(top, moved_by(placed, offset)),
                    in_sight(
                        clip,
                        Bounds { x: left, y: top, width: placed.width, height: placed.height },
                    ),
                ),
                _ => (top, clip),
            };
            let places = placed.children@;
            emitted_all(tree.children(), places, count, left, low, confined) == strokes(
                tree,
                placed,
                x,
                y,
                clip,
                steps_in(tree.children(), places, count, left, low, confined),
            )
        }),
    decreases tree.children(), count,
{
    let children = tree.children();
    let places = placed.children@;
    let (left, top) = (plus(x, placed.x), plus(y, placed.y));
    let (low, confined) = match tree {
        Tree::Scroll { offset, .. } => (
            minus(top, moved_by(placed, offset)),
            in_sight(
                clip,
                Bounds { x: left, y: top, width: placed.width, height: placed.height },
            ),
        ),
        _ => (top, clip),
    };
    if count > 0 {
        let fewer = (count - 1) as nat;
        lemma_content(tree, placed, x, y, clip, fewer);
        if count <= places.len() {
            let child = children[count - 1];
            let place = places[count - 1];
            every_node_is_painted_where_its_path_leads(child, place, left, low, confined);
            let inner = steps(child, place, left, low, confined);
            lemma_strokes_below(tree, placed, x, y, clip, count - 1, inner);
            lemma_strokes_join(
                tree,
                placed,
                x,
                y,
                clip,
                steps_in(children, places, fewer, left, low, confined),
                below_child(count - 1, inner),
            );
        }
    }
}

/// The texts of a command array, in the order they are painted.
pub open spec fn runs<T>(commands: Seq<Draw<T>>) -> Seq<Draw<T>>
    decreases commands.len(),
{
    if commands.len() == 0 {
        Seq::empty()
    } else if commands.last() is Text {
        runs(commands.drop_last()).push(commands.last())
    } else {
        runs(commands.drop_last())
    }
}

/// The text nodes a walk reaches, each painted where the steps down its path
/// lead.
pub open spec fn texts_reached<T: Scalar>(
    tree: Tree<T>,
    placed: Placed<T>,
    x: T,
    y: T,
    walk: Seq<Step>,
) -> Seq<Draw<T>>
    decreases walk.len(),
{
    if walk.len() == 0 {
        Seq::empty()
    } else {
        let before = texts_reached(tree, placed, x, y, walk.drop_last());
        let step = walk.last();
        match tree_at(tree, step.path) {
            Tree::Text { text, style } => if step.reached {
                before.push(
                    Draw::Text {
                        x: x_at(placed, x, step.path),
                        y: y_at(tree, placed, y, step.path),
                        size: style.size,
                        color: style.color,
                        text,
                    },
                )
            } else {
                before
            },
            _ => before,
        }
    }
}

proof fn lemma_runs_join<T>(a: Seq<Draw<T>>, b: Seq<Draw<T>>)
    ensures
        runs(a + b) == runs(a) + runs(b),
    decreases b.len(),
{
    if b.len() == 0 {
        assert(a + b =~= a);
        assert(runs(a) + runs(b) =~= runs(a));
    } else {
        lemma_runs_join(a, b.drop_last());
        assert((a + b).drop_last() =~= a + b.drop_last());
        assert((a + b).last() == b.last());
        assert(runs(a) + runs(b) =~= if b.last() is Text {
            (runs(a) + runs(b.drop_last())).push(b.last())
        } else {
            runs(a) + runs(b.drop_last())
        });
    }
}

proof fn lemma_no_runs<T>(commands: Seq<Draw<T>>)
    requires
        forall|i: int| 0 <= i < commands.len() ==> !(#[trigger] commands[i] is Text),
    ensures
        runs(commands) == Seq::<Draw<T>>::empty(),
    decreases commands.len(),
{
    if commands.len() > 0 {
        lemma_no_runs(commands.drop_last());
    }
}

proof fn lemma_texts_reached<T: Scalar>(
    tree: Tree<T>,
    placed: Placed<T>,
    x: T,
    y: T,
    clip: Option<Bounds<T>>,
    walk: Seq<Step>,
)
    ensures
        runs(strokes(tree, placed, x, y, clip, walk).commands) == texts_reached(
            tree,
            placed,
            x,
            y,
            walk,
        ),
    decreases walk.len(),
{
    if walk.len() > 0 {
        lemma_texts_reached(tree, placed, x, y, clip, walk.drop_last());
        let own = stroke(tree, placed, x, y, clip, walk.last()).commands;
        let before = strokes(tree, placed, x, y, clip, walk.drop_last()).commands;
        lemma_runs_join(before, own);
        if walk.last().reached && tree_at(tree, walk.last().path) is Text {
            assert(own.len() == 1);
            let none = Seq::<Draw<T>>::empty();
            assert(own.drop_last() =~= none);
            assert(runs(none) == none);
            assert(own.last() == own[0]);
            assert(runs(own) == runs(own.drop_last()).push(own.last()));
            assert(runs(own) =~= seq![own[0]]);
            assert(runs(before) + runs(own) =~= runs(before).push(own[0]));
        } else {
            lemma_no_runs(own);
            assert(runs(before) + runs(own) =~= runs(before));
        }
    } else {
        assert(runs(Picture::<T>::blank().commands) =~= Seq::<Draw<T>>::empty());
    }
}

/// Every text in sight is painted once, in order, where the steps down its path
/// lead: as far right as all of them, and as far down as all of them less what
/// the scrolls on the way have moved.
pub proof fn every_text_is_painted_where_its_path_leads<T: Scalar>(
    tree: Tree<T>,
    placed: Placed<T>,
    x: T,
    y: T,
    clip: Option<Bounds<T>>,
)
    ensures
        runs(emitted(tree, placed, x, y, clip).commands) == texts_reached(
            tree,
            placed,
            x,
            y,
            steps(tree, placed, x, y, clip),
        ),
{
    every_node_is_painted_where_its_path_leads(tree, placed, x, y, clip);
    lemma_texts_reached(tree, placed, x, y, clip, steps(tree, placed, x, y, clip));
}

/// Moving the root down moves everything in it down as far, wherever adding is
/// done in either order, and leaves it where it is from left to right: how far
/// right a node is has nothing to do with how far down the root is.
pub proof fn moving_the_root_down_moves_every_node_down<T: Scalar>(
    tree: Tree<T>,
    placed: Placed<T>,
    y: T,
    down: T,
    path: Seq<int>,
)
    requires
        forall|a: T, b: T| #[trigger] plus(plus(a, down), b) == plus(plus(a, b), down),
        forall|a: T, b: T| #[trigger] minus(plus(a, down), b) == plus(minus(a, b), down),
    ensures
        y_at(tree, placed, plus(y, down), path) == plus(y_at(tree, placed, y, path), down),
    decreases path.len(),
{
    let here = plus(y, placed.y);
    assert(plus(plus(y, down), placed.y) == plus(here, down));
    if path.len() > 0 {
        let inside = match tree {
            Tree::Scroll { offset, .. } => minus(here, moved_by(placed, offset)),
            _ => here,
        };
        moving_the_root_down_moves_every_node_down(
            tree.children()[path[0]],
            placed.children@[path[0]],
            inside,
            down,
            path.drop_first(),
        );
    }
}

/// Whether nothing in a tree scrolls.
pub open spec fn still<T>(tree: Tree<T>) -> bool
    decreases tree,
{
    match tree {
        Tree::Scroll { .. } => false,
        Tree::Row { children, .. } => forall|i: int|
            0 <= i < children.len() ==> still(#[trigger] children[i]),
        Tree::Column { children, .. } => forall|i: int|
            0 <= i < children.len() ==> still(#[trigger] children[i]),
        _ => true,
    }
}

/// Whether two commands are the same but for where they are from left to right.
pub open spec fn level<T>(a: Draw<T>, b: Draw<T>) -> bool {
    match (a, b) {
        (
            Draw::Rect { y, width, height, color, .. },
            Draw::Rect { y: y2, width: width2, height: height2, color: color2, .. },
        ) => y == y2 && width == width2 && height == height2 && color == color2,
        (
            Draw::Text { y, size, color, text, .. },
            Draw::Text { y: y2, size: size2, color: color2, text: text2, .. },
        ) => y == y2 && size == size2 && color == color2 && text == text2,
        _ => false,
    }
}

/// Whether two commands are the same but for where they are from top to bottom.
pub open spec fn plumb<T>(a: Draw<T>, b: Draw<T>) -> bool {
    match (a, b) {
        (
            Draw::Rect { x, width, height, color, .. },
            Draw::Rect { x: x2, width: width2, height: height2, color: color2, .. },
        ) => x == x2 && width == width2 && height == height2 && color == color2,
        (
            Draw::Text { x, size, color, text, .. },
            Draw::Text { x: x2, size: size2, color: color2, text: text2, .. },
        ) => x == x2 && size == size2 && color == color2 && text == text2,
        _ => false,
    }
}

/// Whether commands are the same, one by one, but for where they are from left
/// to right, or from top to bottom.
pub open spec fn aligned<T>(a: Seq<Draw<T>>, b: Seq<Draw<T>>, sideways: bool) -> bool {
    &&& a.len() == b.len()
    &&& forall|i: int|
        #![trigger a[i]]
        0 <= i < a.len() ==> if sideways {
            level(a[i], b[i])
        } else {
            plumb(a[i], b[i])
        }
}

/// Moving a tree sideways moves nothing in it up or down, and moving it down
/// moves nothing in it sideways, where nothing scrolls.
pub proof fn moving_one_way_leaves_the_other<T: Scalar>(
    tree: Tree<T>,
    placed: Placed<T>,
    x: T,
    y: T,
    to: T,
)
    requires
        still(tree),
    ensures
        aligned(
            emitted(tree, placed, x, y, None).commands,
            emitted(tree, placed, to, y, None).commands,
            true,
        ),
        aligned(
            emitted(tree, placed, x, y, None).commands,
            emitted(tree, placed, x, to, None).commands,
            false,
        ),
    decreases tree, 0nat,
{
    let places = placed.children@;
    let (left, top) = (plus(x, placed.x), plus(y, placed.y));
    match tree {
        Tree::Row { children, .. } => {
            lemma_aligned(children, places, children.len(), left, top, plus(to, placed.x));
            lemma_aligned(children, places, children.len(), left, top, plus(to, placed.y));
        },
        Tree::Column { children, .. } => {
            lemma_aligned(children, places, children.len(), left, top, plus(to, placed.x));
            lemma_aligned(children, places, children.len(), left, top, plus(to, placed.y));
        },
        _ => {},
    }
}

proof fn lemma_aligned<T: Scalar>(
    children: Seq<Tree<T>>,
    places: Seq<Placed<T>>,
    count: nat,
    x: T,
    y: T,
    to: T,
)
    requires
        count <= children.len(),
        forall|i: int| 0 <= i < children.len() ==> still(#[trigger] children[i]),
    ensures
        aligned(
            emitted_all(children, places, count, x, y, None).commands,
            emitted_all(children, places, count, to, y, None).commands,
            true,
        ),
        aligned(
            emitted_all(children, places, count, x, y, None).commands,
            emitted_all(children, places, count, x, to, None).commands,
            false,
        ),
    decreases children, count,
{
    if count > 0 {
        lemma_aligned(children, places, (count - 1) as nat, x, y, to);
        if count <= places.len() {
            moving_one_way_leaves_the_other(children[count - 1], places[count - 1], x, y, to);
        }
    }
}

/// A scroll goes where it is asked to, as far as there is content: an offset in
/// range is obeyed, one past the end stops at the end, and one above the top at
/// the top.
pub proof fn a_scroll_goes_where_it_is_asked<T: Scalar>(placed: Placed<T>, offset: T)
    ensures
        !below(offset, whole::<T>(0)) && !above(offset, placed.furthest()) ==> placed.scrolled(
            offset,
        ) == offset,
        !below(offset, whole::<T>(0)) && above(offset, placed.furthest()) ==> placed.scrolled(
            offset,
        ) == placed.furthest(),
        below(offset, whole::<T>(0)) && !above(whole::<T>(0), placed.furthest())
            ==> placed.scrolled(offset) == whole::<T>(0),
{
}

/// Every path of a laid-out tree, a node before its children, and its children
/// in order.
pub open spec fn paths_in<T>(tree: Tree<T>, placed: Placed<T>) -> Seq<Seq<int>>
    decreases tree,
{
    let here = seq![Seq::<int>::empty()];
    match tree {
        Tree::Row { children, .. } => here + paths_below(
            children,
            placed.children@,
            children.len(),
        ),
        Tree::Column { children, .. } => here + paths_below(
            children,
            placed.children@,
            children.len(),
        ),
        Tree::Scroll { children, .. } => here + paths_below(
            children,
            placed.children@,
            children.len(),
        ),
        _ => here,
    }
}

/// Every path through the first `count` children of a node.
pub open spec fn paths_below<T>(
    children: Seq<Tree<T>>,
    places: Seq<Placed<T>>,
    count: nat,
) -> Seq<Seq<int>>
    decreases children, count,
{
    if count == 0 || count > children.len() {
        Seq::empty()
    } else if count > places.len() {
        paths_below(children, places, (count - 1) as nat)
    } else {
        paths_below(children, places, (count - 1) as nat) + through(
            count - 1,
            paths_in(children[count - 1], places[count - 1]),
        )
    }
}

/// Paths in a child, as paths in its parent.
pub open spec fn through(index: int, inner: Seq<Seq<int>>) -> Seq<Seq<int>> {
    Seq::new(inner.len(), |k: int| seq![index] + inner[k])
}

/// What the inspector says of the node at each path: as deep as the path is
/// long, where its steps lead, and as large as it was laid out.
pub open spec fn seen_at<T: Scalar>(
    tree: Tree<T>,
    placed: Placed<T>,
    x: T,
    y: T,
    depth: nat,
    paths: Seq<Seq<int>>,
) -> Seq<Seen<T>> {
    Seq::new(
        paths.len(),
        |k: int|
            Seen {
                tree: tree_at(tree, paths[k]),
                depth: depth + paths[k].len(),
                x: x_at(placed, x, paths[k]),
                y: y_at(tree, placed, y, paths[k]),
                width: placed_at(placed, paths[k]).width,
                height: placed_at(placed, paths[k]).height,
            },
    )
}

/// Every node is visited once, in order, as deep as its path is long and where
/// the steps down its path lead, wherever taking nothing away changes nothing.
pub proof fn every_node_is_visited_where_its_path_leads<T: Scalar>(
    tree: Tree<T>,
    placed: Placed<T>,
    x: T,
    y: T,
    depth: nat,
)
    requires
        forall|a: T| #[trigger] minus(a, whole::<T>(0)) == a,
    ensures
        visited(tree, placed, x, y, depth) == seen_at(
            tree,
            placed,
            x,
            y,
            depth,
            paths_in(tree, placed),
        ),
    decreases tree, 0nat,
{
    let all = visited(tree, placed, x, y, depth);
    let told = seen_at(tree, placed, x, y, depth, paths_in(tree, placed));
    if let Tree::Scroll { offset, .. } = tree {
        lemma_scrolled(placed, offset);
    }
    if tree is Row || tree is Column || tree is Scroll {
        lemma_visited(tree, placed, x, y, depth, tree.children().len());
        let below = paths_below(tree.children(), placed.children@, tree.children().len());
        let inner = seen_at(tree, placed, x, y, depth, below);
        assert forall|k: int| 0 <= k < told.len() implies told[k] == all[k] by {
            if k > 0 {
                assert(paths_in(tree, placed)[k] == below[k - 1]);
                assert(all[k] == inner[k - 1]);
            }
        }
    }
    assert(told =~= all);
}

proof fn lemma_visited<T: Scalar>(
    tree: Tree<T>,
    placed: Placed<T>,
    x: T,
    y: T,
    depth: nat,
    count: nat,
)
    requires
        count <= tree.children().len(),
        forall|a: T| #[trigger] minus(a, whole::<T>(0)) == a,
    ensures
        ({
            let (left, top) = (plus(x, placed.x), plus(y, placed.y));
            let low = match tree {
                Tree::Scroll { offset, .. } => minus(top, moved_by(placed, offset)),
                _ => top,
            };
            visited_all(tree.children(), placed.children@, count, left, low, depth + 1) == seen_at(
                tree,
                placed,
                x,
                y,
                depth,
                paths_below(tree.children(), placed.children@, count),
            )
        }),
    decreases tree.children(), count,
{
    let children = tree.children();
    let places = placed.children@;
    let (left, top) = (plus(x, placed.x), plus(y, placed.y));
    let low = match tree {
        Tree::Scroll { offset, .. } => minus(top, moved_by(placed, offset)),
        _ => top,
    };
    let all = visited_all(children, places, count, left, low, depth + 1);
    let told = seen_at(tree, placed, x, y, depth, paths_below(children, places, count));
    if count > 0 {
        let fewer = (count - 1) as nat;
        lemma_visited(tree, placed, x, y, depth, fewer);
        if count <= places.len() {
            let child = children[count - 1];
            let place = places[count - 1];
            every_node_is_visited_where_its_path_leads(child, place, left, low, depth + 1);
            let before = paths_below(children, places, fewer);
            let inner = paths_in(child, place);
            let last = seen_at(child, place, left, low, depth + 1, inner);
            assert forall|k: int| 0 <= k < told.len() implies told[k] == all[k] by {
                if k >= before.len() {
                    let path = seq![count - 1] + inner[k - before.len()];
                    assert(paths_below(children, places, count)[k] == path);
                    assert(path[0] == count - 1);
                    assert(path.drop_first() =~= inner[k - before.len()]);
                    assert(all[k] == last[k - before.len()]);
                } else {
                    assert(paths_below(children, places, count)[k] == before[k]);
                }
            }
        }
    }
    assert(told =~= all);
}

/// The flex box at a path.
pub open spec fn box_at<T>(flex: Flex<T>, path: Seq<int>) -> Flex<T>
    decreases path.len(),
{
    if path.len() == 0 {
        flex
    } else {
        box_at(flex->Container_children[path[0]], path.drop_first())
    }
}

/// Whether a path leads somewhere.
pub open spec fn leads<T>(tree: Tree<T>, path: Seq<int>) -> bool
    decreases path.len(),
{
    path.len() == 0 || (0 <= path[0] < tree.children().len() && leads(
        tree.children()[path[0]],
        path.drop_first(),
    ))
}

/// The solver is told of every node what the node asks for: the box at each
/// path grows and stretches as the node there asks inside the one around it,
/// and a text is a leaf.
pub proof fn every_box_asks_what_its_node_asks<T: Scalar>(
    tree: Tree<T>,
    parent: Option<Direction>,
    rigid: bool,
    path: Seq<int>,
)
    requires
        path.len() > 0,
        leads(tree, path),
    ensures
        ({
            let node = tree_at(tree, path);
            let around = tree_at(tree, path.drop_last());
            let axis = if around is Row {
                Direction::Row
            } else {
                Direction::Column
            };
            match (node.style(), box_at(flexed(tree, parent, rigid), path)) {
                (Some(style), Flex::Container { style: flex, children }) => {
                    &&& flex.grows <==> along(style, axis) is Grow
                    &&& flex.stretches <==> across(style, axis) is Grow
                    &&& sized_as(flex.width, style.width)
                    &&& sized_as(flex.height, style.height)
                    &&& flex.shrinks <==> !(around is Scroll)
                    &&& flex.clips <==> node is Scroll
                    &&& flex.direction is Column <==> node is Column || node is Scroll
                    &&& flex.padding == style.padding
                    &&& flex.gap == style.gap
                    &&& flex.main_axis == style.main_axis
                    &&& children.len() == node.children().len()
                },
                (None, Flex::Text { shrinks }) => shrinks <==> !(around is Scroll),
                _ => false,
            }
        }),
    decreases path.len(),
{
    let index = path[0];
    let child = tree.children()[index];
    let axis = if tree is Row {
        Direction::Row
    } else {
        Direction::Column
    };
    let made = flexed(child, Some(axis), tree is Scroll);
    assert(flexed(tree, parent, rigid)->Container_children[index] == made);
    let rest = path.drop_first();
    if path.len() == 1 {
        assert(path.drop_last() =~= Seq::<int>::empty());
        assert(rest =~= Seq::<int>::empty());
        assert(tree_at(child, rest) == child);
        assert(tree_at(tree, path) == child);
        assert(tree_at(tree, path.drop_last()) == tree);
        assert(box_at(made, rest) == made);
        assert(box_at(flexed(tree, parent, rigid), path) == made);
        a_text_is_a_leaf(tree, index, parent, rigid);
        if child.style() is Some {
            a_child_takes_the_room_it_asks_for(tree, index, parent, rigid);
        }
    } else {
        every_box_asks_what_its_node_asks(child, Some(axis), tree is Scroll, rest);
        assert(path.drop_last()[0] == index);
        assert(path.drop_last().drop_first() =~= rest.drop_last());
    }
}

} // verus!
