//! From a laid-out tree to the flat command array.
//!
//! The flex solver reports each node's place relative to its parent. The walk
//! here accumulates absolute positions as it goes, paints, clips what scrolls,
//! and records where input can land.

use vstd::prelude::*;

use crate::scalar::{
    above, below, clamp, clamped, exact, from_whole, larger, larger_of, minus, over, plus, smaller,
    smaller_of, times, whole, Scalar,
};
use crate::scene::{
    trees_of, Bounds, Color, Command, Draw, Frame, HitId, HitRegion, Node, Picture, ScrollExtent,
    Style, Tree,
};

verus! {

/// Where the solver put a node: relative to its parent, and its children
/// relative to it, in order.
#[derive(Debug, PartialEq)]
pub struct Placed<T> {
    pub x: T,
    pub y: T,
    pub width: T,
    pub height: T,
    pub padding_bottom: T,
    pub children: Vec<Placed<T>>,
}

/// How wide a scroll indicator is, in logical pixels.
pub const SCROLLBAR: u16 = 4;

/// The shortest a scroll thumb may get. Past this it stops meaning "you are
/// here" and starts meaning "there is a lot".
pub const MIN_THUMB: u16 = 24;

/// The lowest edge of the first `count` children.
pub open spec fn lowest<T: Scalar>(children: Seq<Placed<T>>, count: nat) -> T
    decreases count,
{
    if count == 0 {
        whole::<T>(0)
    } else {
        let child = children[count - 1];
        larger_of(lowest(children, (count - 1) as nat), plus(child.y, child.height))
    }
}

impl<T: Scalar> Placed<T> {
    /// The height a scroll's children occupy, overflow included.
    pub open spec fn content(self) -> T {
        plus(lowest(self.children@, self.children@.len()), self.padding_bottom)
    }

    /// The furthest offset that still shows content.
    pub open spec fn furthest(self) -> T {
        larger_of(minus(self.content(), self.height), whole::<T>(0))
    }

    /// How far a scroll's content has actually moved: the app's requested
    /// offset, clamped against the content that was just measured.
    pub open spec fn scrolled(self, offset: T) -> T {
        clamped(offset, whole::<T>(0), self.furthest())
    }

    /// The height a scroll's children occupy, overflow included.
    pub fn content_height(&self) -> (r: T)
        requires
            exact::<T>(),
        ensures
            r == self.content(),
    {
        let mut low: T = from_whole(0);
        for i in 0..self.children.len()
            invariant
                exact::<T>(),
                low == lowest(self.children@, i as nat),
        {
            let child = &self.children[i];
            low = larger(low, child.y + child.height);
        }
        low + self.padding_bottom
    }

    /// How far a scroll's content has actually moved.
    pub fn scrolled_by(&self, offset: T) -> (r: T)
        requires
            exact::<T>(),
        ensures
            r == self.scrolled(offset),
    {
        let room = self.content_height() - self.height;
        clamp(offset, from_whole(0), larger(room, from_whole(0)))
    }
}

/// What is left of a rectangle inside a clip.
pub open spec fn visible<T: Scalar>(clip: Option<Bounds<T>>, region: Bounds<T>) -> Option<
    Bounds<T>,
> {
    match clip {
        None => Some(region),
        Some(outer) => outer.meet(region),
    }
}

/// What is left of a rectangle inside a clip.
pub fn clip_to<T: Scalar>(clip: Option<Bounds<T>>, region: Bounds<T>) -> (r: Option<Bounds<T>>)
    requires
        exact::<T>(),
    ensures
        r == visible(clip, region),
{
    match clip {
        None => Some(region),
        Some(outer) => outer.intersect(region),
    }
}

/// A box's own paint: its background, and where it can be hit.
pub open spec fn boxed<T: Scalar>(
    style: Style<T>,
    region: Bounds<T>,
    clip: Option<Bounds<T>>,
) -> Picture<T> {
    Picture {
        commands: match style.background {
            Some(color) => seq![
                Draw::Rect {
                    x: region.x,
                    y: region.y,
                    width: region.width,
                    height: region.height,
                    color,
                },
            ],
            None => Seq::empty(),
        },
        hits: match (style.id, visible(clip, region)) {
            (Some(id), Some(seen)) => seq![
                HitRegion {
                    id,
                    x: seen.x,
                    y: seen.y,
                    width: seen.width,
                    height: seen.height,
                    focusable: style.focusable,
                },
            ],
            _ => Seq::empty(),
        },
        scrolls: Seq::empty(),
    }
}

/// The indicator of a scroll, where there is more than fits.
pub open spec fn indicator<T: Scalar>(
    placed: Placed<T>,
    region: Bounds<T>,
    offset: T,
    bar: Option<Color<T>>,
) -> Seq<Draw<T>> {
    if let Some(color) = bar {
        let furthest = placed.furthest();
        if above(furthest, whole::<T>(0)) {
            let height = region.height;
            let thumb = clamped(
                times(over(height, placed.content()), height),
                smaller_of(whole::<T>(MIN_THUMB), height),
                height,
            );
            let travel = minus(height, thumb);
            seq![
                Draw::Rect {
                    x: minus(plus(region.x, region.width), whole::<T>(SCROLLBAR)),
                    y: plus(region.y, times(over(offset, furthest), travel)),
                    width: whole::<T>(SCROLLBAR),
                    height: thumb,
                    color,
                },
            ]
        } else {
            Seq::empty()
        }
    } else {
        Seq::empty()
    }
}

/// What a node adds to the frame, when its parent is at `x` and `y` and `clip`
/// is the region an ancestor scroll has confined it to.
pub open spec fn emitted<T: Scalar>(
    tree: Tree<T>,
    placed: Placed<T>,
    x: T,
    y: T,
    clip: Option<Bounds<T>>,
) -> Picture<T>
    decreases tree,
{
    let region = Bounds {
        x: plus(x, placed.x),
        y: plus(y, placed.y),
        width: placed.width,
        height: placed.height,
    };
    match tree {
        Tree::Row { style, children } => emitted_all(
            children,
            placed.children@,
            children.len(),
            region.x,
            region.y,
            clip,
        ).over(boxed(style, region, clip)),
        Tree::Column { style, children } => emitted_all(
            children,
            placed.children@,
            children.len(),
            region.x,
            region.y,
            clip,
        ).over(boxed(style, region, clip)),
        Tree::Box { style } => boxed(style, region, clip),
        Tree::Text { text, style } => Picture {
            commands: seq![
                Draw::Text {
                    x: region.x,
                    y: region.y,
                    size: style.size,
                    color: style.color,
                    text,
                },
            ],
            hits: Seq::empty(),
            scrolls: Seq::empty(),
        },
        Tree::Scroll { style, offset, bar, children } => {
            let moved = placed.scrolled(offset);
            let extent = Picture {
                commands: Seq::empty(),
                hits: Seq::empty(),
                scrolls: match style.id {
                    Some(id) => seq![
                        ScrollExtent {
                            id,
                            x: region.x,
                            y: region.y,
                            width: region.width,
                            height: region.height,
                            offset: moved,
                            max_offset: placed.furthest(),
                        },
                    ],
                    None => Seq::empty(),
                },
            };
            let own = extent.over(boxed(style, region, clip));
            match visible(clip, region) {
                None => own,
                Some(seen) => {
                    let open = Picture {
                        commands: seq![
                            Draw::ClipStart {
                                x: seen.x,
                                y: seen.y,
                                width: seen.width,
                                height: seen.height,
                            },
                        ],
                        hits: Seq::empty(),
                        scrolls: Seq::empty(),
                    };
                    let inner = emitted_all(
                        children,
                        placed.children@,
                        children.len(),
                        region.x,
                        minus(region.y, moved),
                        Some(seen),
                    );
                    let close = Picture {
                        commands: seq![Draw::<T>::ClipEnd] + indicator(placed, region, moved, bar),
                        hits: Seq::empty(),
                        scrolls: Seq::empty(),
                    };
                    close.over(inner.over(open.over(own)))
                },
            }
        },
    }
}

/// What the first `count` children add, each where the solver put it.
pub open spec fn emitted_all<T: Scalar>(
    children: Seq<Tree<T>>,
    places: Seq<Placed<T>>,
    count: nat,
    x: T,
    y: T,
    clip: Option<Bounds<T>>,
) -> Picture<T>
    decreases children, count,
{
    if count == 0 || count > children.len() {
        Picture::<T>::blank()
    } else if count > places.len() {
        emitted_all(children, places, (count - 1) as nat, x, y, clip)
    } else {
        emitted(children[count - 1], places[count - 1], x, y, clip).over(
            emitted_all(children, places, (count - 1) as nat, x, y, clip),
        )
    }
}

fn push_command<T: Scalar>(frame: &mut Frame<T>, command: Command<T>)
    ensures
        final(frame)@ == (Picture {
            commands: seq![command@],
            hits: Seq::empty(),
            scrolls: Seq::empty(),
        }).over(old(frame)@),
{
    frame.commands.push(command);
    assert(frame@.commands =~= old(frame)@.commands + seq![command@]);
    assert(frame@.hits =~= old(frame)@.hits + Seq::empty());
    assert(frame@.scrolls =~= old(frame)@.scrolls + Seq::empty());
}

fn paint<T: Scalar>(
    frame: &mut Frame<T>,
    style: &Style<T>,
    region: Bounds<T>,
    clip: Option<Bounds<T>>,
)
    requires
        exact::<T>(),
    ensures
        final(frame)@ == boxed(*style, region, clip).over(old(frame)@),
{
    if let Some(color) = style.background {
        frame.commands.push(
            Command::Rect {
                x: region.x,
                y: region.y,
                width: region.width,
                height: region.height,
                color,
            },
        );
    }
    if let Some(id) = style.id {
        if let Some(seen) = clip_to(clip, region) {
            frame.hits.push(
                HitRegion {
                    id,
                    x: seen.x,
                    y: seen.y,
                    width: seen.width,
                    height: seen.height,
                    focusable: style.focusable,
                },
            );
        }
    }
    proof {
        let own = boxed(*style, region, clip);
        assert(frame@.commands =~= old(frame)@.commands + own.commands);
        assert(frame@.hits =~= old(frame)@.hits + own.hits);
        assert(frame@.scrolls =~= old(frame)@.scrolls + own.scrolls);
    }
}

/// Painting in steps is painting at once.
pub(crate) proof fn lemma_over<T>(a: Picture<T>, b: Picture<T>, c: Picture<T>)
    ensures
        a.over(b.over(c)) == a.over(b).over(c),
        a.over(Picture::<T>::blank()) == a,
        Picture::<T>::blank().over(a) == a,
{
    assert(a.over(b.over(c)).commands =~= a.over(b).over(c).commands);
    assert(a.over(b.over(c)).hits =~= a.over(b).over(c).hits);
    assert(a.over(b.over(c)).scrolls =~= a.over(b).over(c).scrolls);
    assert(a.over(Picture::<T>::blank()).commands =~= a.commands);
    assert(a.over(Picture::<T>::blank()).hits =~= a.hits);
    assert(a.over(Picture::<T>::blank()).scrolls =~= a.scrolls);
    assert(Picture::<T>::blank().over(a).commands =~= a.commands);
    assert(Picture::<T>::blank().over(a).hits =~= a.hits);
    assert(Picture::<T>::blank().over(a).scrolls =~= a.scrolls);
}

/// Walks the laid-out tree and appends what it paints to `frame`.
///
/// `clip` is the region an ancestor scroll has confined this subtree to, and
/// it is why hit regions are recorded here rather than by the caller: a row
/// scrolled out of sight must stop being clickable at exactly the moment it
/// stops being visible.
pub fn emit<T: Scalar>(
    node: &Node<T>,
    placed: &Placed<T>,
    x: T,
    y: T,
    clip: Option<Bounds<T>>,
    frame: &mut Frame<T>,
)
    requires
        exact::<T>(),
    ensures
        final(frame)@ == emitted(node@, *placed, x, y, clip).over(old(frame)@),
    decreases node, 0nat,
{
    let region = Bounds {
        x: x + placed.x,
        y: y + placed.y,
        width: placed.width,
        height: placed.height,
    };
    match node {
        Node::Row { style, children } => {
            paint(frame, style, region, clip);
            emit_all(children, &placed.children, region.x, region.y, clip, frame);
            proof {
                let own = boxed(*style, region, clip);
                assert(trees_of(children@) =~= node@.children());
                let inner = emitted_all(
                    node@.children(),
                    placed.children@,
                    children@.len(),
                    region.x,
                    region.y,
                    clip,
                );
                lemma_over(inner, own, old(frame)@);
            }
        },
        Node::Column { style, children } => {
            paint(frame, style, region, clip);
            emit_all(children, &placed.children, region.x, region.y, clip, frame);
            proof {
                let own = boxed(*style, region, clip);
                assert(trees_of(children@) =~= node@.children());
                let inner = emitted_all(
                    node@.children(),
                    placed.children@,
                    children@.len(),
                    region.x,
                    region.y,
                    clip,
                );
                lemma_over(inner, own, old(frame)@);
            }
        },
        Node::Box { style } => {
            paint(frame, style, region, clip);
        },
        Node::Text { text, style } => {
            push_command(
                frame,
                Command::Text {
                    x: region.x,
                    y: region.y,
                    size: style.size,
                    color: style.color,
                    text: text.clone(),
                },
            );
        },
        Node::Scroll { style, offset, bar, children } => {
            emit_scroll(node, style, *offset, *bar, children, placed, region, x, y, clip, frame);
        },
    }
}

fn emit_scroll<T: Scalar>(
    node: &Node<T>,
    style: &Style<T>,
    offset: T,
    bar: Option<Color<T>>,
    children: &Vec<Node<T>>,
    placed: &Placed<T>,
    region: Bounds<T>,
    x: T,
    y: T,
    clip: Option<Bounds<T>>,
    frame: &mut Frame<T>,
)
    requires
        exact::<T>(),
        *node == (Node::Scroll { style: *style, offset, bar, children: *children }),
        region == (Bounds {
            x: plus(x, placed.x),
            y: plus(y, placed.y),
            width: placed.width,
            height: placed.height,
        }),
    ensures
        final(frame)@ == emitted(node@, *placed, x, y, clip).over(old(frame)@),
    decreases children, 2nat,
{
    let ghost under = frame@;
    paint(frame, style, region, clip);
    let content = placed.content_height();
    let furthest = larger(content - region.height, from_whole(0));
    let moved = clamp(offset, from_whole(0), furthest);
    let ghost before = frame@;
    // Only an identified scroll can be told about a wheel, so only an
    // identified one is worth reporting.
    if let Some(id) = style.id {
        frame.scrolls.push(
            ScrollExtent {
                id,
                x: region.x,
                y: region.y,
                width: region.width,
                height: region.height,
                offset: moved,
                max_offset: furthest,
            },
        );
    }
    let ghost extent = Picture {
        commands: Seq::<Draw<T>>::empty(),
        hits: Seq::<HitRegion<T>>::empty(),
        scrolls: match style.id {
            Some(id) => seq![
                ScrollExtent {
                    id,
                    x: region.x,
                    y: region.y,
                    width: region.width,
                    height: region.height,
                    offset: moved,
                    max_offset: furthest,
                },
            ],
            None => Seq::empty(),
        },
    };
    let ghost own = extent.over(boxed(*style, region, clip));
    proof {
        assert(frame@.commands =~= extent.over(before).commands);
        assert(frame@.hits =~= extent.over(before).hits);
        assert(frame@.scrolls =~= extent.over(before).scrolls);
        lemma_over(extent, boxed(*style, region, clip), under);
    }
    let seen = match clip_to(clip, region) {
        Some(seen) => seen,
        // Entirely hidden by an ancestor: nothing inside can be seen or
        // clicked, so nothing inside is emitted at all.
        None => {
            return ;
        },
    };
    push_command(
        frame,
        Command::ClipStart { x: seen.x, y: seen.y, width: seen.width, height: seen.height },
    );
    emit_all(children, &placed.children, region.x, region.y - moved, Some(seen), frame);
    let ghost opened = frame@;
    frame.commands.push(Command::ClipEnd);
    // After the clip closes, so the indicator sits over its own content rather
    // than being trimmed by it.
    if let Some(color) = bar {
        if furthest > from_whole(0) {
            let height = region.height;
            let shortest = smaller(from_whole(MIN_THUMB), height);
            let thumb = clamp(height / content * height, shortest, height);
            let travel = height - thumb;
            frame.commands.push(
                Command::Rect {
                    x: region.x + region.width - from_whole(SCROLLBAR),
                    y: region.y + moved / furthest * travel,
                    width: from_whole(SCROLLBAR),
                    height: thumb,
                    color,
                },
            );
        }
    }
    proof {
        let open = Picture {
            commands: seq![
                Draw::ClipStart { x: seen.x, y: seen.y, width: seen.width, height: seen.height },
            ],
            hits: Seq::<HitRegion<T>>::empty(),
            scrolls: Seq::<ScrollExtent<T>>::empty(),
        };
        assert(trees_of(children@) =~= node@.children());
        let inner = emitted_all(
            node@.children(),
            placed.children@,
            children@.len(),
            region.x,
            minus(region.y, moved),
            Some(seen),
        );
        let close = Picture {
            commands: seq![Draw::<T>::ClipEnd] + indicator(*placed, region, moved, bar),
            hits: Seq::<HitRegion<T>>::empty(),
            scrolls: Seq::<ScrollExtent<T>>::empty(),
        };
        assert(frame@.commands =~= close.over(opened).commands);
        assert(frame@.hits =~= close.over(opened).hits);
        assert(frame@.scrolls =~= close.over(opened).scrolls);
        assert(opened == inner.over(open.over(own.over(under))));
        lemma_over(open, own, under);
        lemma_over(inner, open.over(own), under);
        lemma_over(close, inner.over(open.over(own)), under);
    }
}

fn emit_all<T: Scalar>(
    children: &Vec<Node<T>>,
    places: &Vec<Placed<T>>,
    x: T,
    y: T,
    clip: Option<Bounds<T>>,
    frame: &mut Frame<T>,
)
    requires
        exact::<T>(),
    ensures
        final(frame)@ == emitted_all(
            trees_of(children@),
            places@,
            children@.len(),
            x,
            y,
            clip,
        ).over(old(frame)@),
    decreases children, 1nat,
{
    let ghost trees = trees_of(children@);
    let ghost under = frame@;
    proof {
        lemma_over(under, under, under);
    }
    for i in 0..children.len()
        invariant
            exact::<T>(),
            trees == trees_of(children@),
            frame@ == emitted_all(trees, places@, i as nat, x, y, clip).over(under),
    {
        if i < places.len() {
            assert(decreases_to!(*children => children[i as int]));
            emit(&children[i], &places[i], x, y, clip, frame);
            proof {
                lemma_over(
                    emitted(trees[i as int], places@[i as int], x, y, clip),
                    emitted_all(trees, places@, i as nat, x, y, clip),
                    under,
                );
            }
        }
    }
}

/// How many clips are open after the first `count` commands.
pub open spec fn open_clips<T>(commands: Seq<Draw<T>>, count: nat) -> int
    decreases count,
{
    if count == 0 {
        0
    } else {
        open_clips(commands, (count - 1) as nat) + match commands[count - 1] {
            Draw::ClipStart { .. } => 1int,
            Draw::ClipEnd => -1int,
            _ => 0int,
        }
    }
}

/// Whether every clip that ends was open, and every clip that opens ends.
pub open spec fn balanced<T>(commands: Seq<Draw<T>>) -> bool {
    &&& open_clips(commands, commands.len()) == 0
    &&& forall|count: nat| count <= commands.len() ==> #[trigger] open_clips(commands, count) >= 0
}

proof fn lemma_clips_prefix<T>(a: Seq<Draw<T>>, b: Seq<Draw<T>>, count: nat)
    requires
        count <= a.len(),
    ensures
        open_clips(a + b, count) == open_clips(a, count),
    decreases count,
{
    if count > 0 {
        lemma_clips_prefix(a, b, (count - 1) as nat);
    }
}

proof fn lemma_clips_suffix<T>(a: Seq<Draw<T>>, b: Seq<Draw<T>>, count: nat)
    requires
        count <= b.len(),
    ensures
        open_clips(a + b, a.len() + count) == open_clips(a, a.len()) + open_clips(b, count),
    decreases count,
{
    if count > 0 {
        lemma_clips_suffix(a, b, (count - 1) as nat);
        assert((a + b)[a.len() + count - 1] == b[count - 1]);
    } else {
        lemma_clips_prefix(a, b, a.len());
    }
}

proof fn lemma_balanced_concat<T>(a: Seq<Draw<T>>, b: Seq<Draw<T>>)
    requires
        balanced(a),
        balanced(b),
    ensures
        balanced(a + b),
{
    lemma_clips_suffix(a, b, b.len());
    assert forall|count: nat| count <= (a + b).len() implies #[trigger] open_clips(a + b, count)
        >= 0 by {
        if count <= a.len() {
            lemma_clips_prefix(a, b, count);
        } else {
            lemma_clips_suffix(a, b, (count - a.len()) as nat);
        }
    }
}

/// Commands that open and close no clip are balanced.
proof fn lemma_flat_balanced<T>(a: Seq<Draw<T>>, count: nat)
    requires
        count <= a.len(),
        forall|i: int| 0 <= i < a.len() ==> !(#[trigger] a[i] is ClipStart || a[i] is ClipEnd),
    ensures
        open_clips(a, count) == 0,
    decreases count,
{
    if count > 0 {
        lemma_flat_balanced(a, (count - 1) as nat);
    }
}

proof fn lemma_flat<T>(a: Seq<Draw<T>>)
    requires
        forall|i: int| 0 <= i < a.len() ==> !(#[trigger] a[i] is ClipStart || a[i] is ClipEnd),
    ensures
        balanced(a),
{
    lemma_flat_balanced(a, a.len());
    assert forall|count: nat| count <= a.len() implies #[trigger] open_clips(a, count) >= 0 by {
        lemma_flat_balanced(a, count);
    }
}

proof fn lemma_wrapped<T>(start: Draw<T>, a: Seq<Draw<T>>)
    requires
        start is ClipStart,
        balanced(a),
    ensures
        balanced(seq![start] + a + seq![Draw::ClipEnd]),
{
    let open = seq![start];
    let close = seq![Draw::<T>::ClipEnd];
    let all = open + a + close;
    assert(open_clips(open, 1) == 1) by {
        assert(open[0] is ClipStart);
        assert(open_clips(open, 0) == 0);
    }
    assert(open_clips(close, 1) == -1) by {
        assert(close[0] is ClipEnd);
        assert(open_clips(close, 0) == 0);
    }
    lemma_clips_suffix(open, a, a.len());
    lemma_clips_suffix(open + a, close, 1);
    assert forall|count: nat| count <= all.len() implies #[trigger] open_clips(all, count) >= 0 by {
        if count <= 1 {
            lemma_clips_prefix(open + a, close, count);
            lemma_clips_prefix(open, a, count);
            if count == 0 {
                assert(open_clips(open, 0) == 0);
            }
        } else if count <= 1 + a.len() {
            lemma_clips_prefix(open + a, close, count);
            lemma_clips_suffix(open, a, (count - 1) as nat);
        } else {
            assert(count == all.len());
        }
    }
}

/// Every clip that opens closes again, whatever is drawn: a frame never leaves
/// a clip behind, and never closes one it did not open.
pub proof fn clips_balance<T: Scalar>(
    tree: Tree<T>,
    placed: Placed<T>,
    x: T,
    y: T,
    clip: Option<Bounds<T>>,
)
    ensures
        balanced(emitted(tree, placed, x, y, clip).commands),
    decreases tree,
{
    let region = Bounds {
        x: plus(x, placed.x),
        y: plus(y, placed.y),
        width: placed.width,
        height: placed.height,
    };
    match tree {
        Tree::Row { style, children } => {
            let own = boxed(style, region, clip).commands;
            lemma_flat(own);
            lemma_all_balanced(
                children,
                placed.children@,
                children.len(),
                region.x,
                region.y,
                clip,
            );
            let inner = emitted_all(
                children,
                placed.children@,
                children.len(),
                region.x,
                region.y,
                clip,
            ).commands;
            lemma_balanced_concat(own, inner);
        },
        Tree::Column { style, children } => {
            let own = boxed(style, region, clip).commands;
            lemma_flat(own);
            lemma_all_balanced(
                children,
                placed.children@,
                children.len(),
                region.x,
                region.y,
                clip,
            );
            let inner = emitted_all(
                children,
                placed.children@,
                children.len(),
                region.x,
                region.y,
                clip,
            ).commands;
            lemma_balanced_concat(own, inner);
        },
        Tree::Box { style } => {
            lemma_flat(boxed(style, region, clip).commands);
        },
        Tree::Text { text, style } => {
            lemma_flat(emitted(tree, placed, x, y, clip).commands);
        },
        Tree::Scroll { style, offset, bar, children } => {
            let moved = placed.scrolled(offset);
            let own = boxed(style, region, clip).commands;
            lemma_flat(own);
            match visible(clip, region) {
                None => {
                    assert(emitted(tree, placed, x, y, clip).commands =~= own);
                },
                Some(seen) => {
                    let low = minus(region.y, moved);
                    lemma_all_balanced(
                        children,
                        placed.children@,
                        children.len(),
                        region.x,
                        low,
                        Some(seen),
                    );
                    let inner = emitted_all(
                        children,
                        placed.children@,
                        children.len(),
                        region.x,
                        low,
                        Some(seen),
                    ).commands;
                    let start = Draw::ClipStart {
                        x: seen.x,
                        y: seen.y,
                        width: seen.width,
                        height: seen.height,
                    };
                    let wrapped = seq![start] + inner + seq![Draw::<T>::ClipEnd];
                    let mark = indicator(placed, region, moved, bar);
                    lemma_wrapped(start, inner);
                    lemma_flat(mark);
                    lemma_balanced_concat(own, wrapped);
                    lemma_balanced_concat(own + wrapped, mark);
                    assert(emitted(tree, placed, x, y, clip).commands =~= own + wrapped + mark);
                },
            }
        },
    }
}

proof fn lemma_all_balanced<T: Scalar>(
    children: Seq<Tree<T>>,
    places: Seq<Placed<T>>,
    count: nat,
    x: T,
    y: T,
    clip: Option<Bounds<T>>,
)
    ensures
        balanced(emitted_all(children, places, count, x, y, clip).commands),
    decreases children, count,
{
    if count == 0 || count > children.len() {
        lemma_flat(Seq::<Draw<T>>::empty());
    } else {
        lemma_all_balanced(children, places, (count - 1) as nat, x, y, clip);
        if count <= places.len() {
            clips_balance(children[count - 1], places[count - 1], x, y, clip);
            lemma_balanced_concat(
                emitted_all(children, places, (count - 1) as nat, x, y, clip).commands,
                emitted(children[count - 1], places[count - 1], x, y, clip).commands,
            );
        }
    }
}

/// Whether some node of the tree carries `id`.
pub open spec fn carries<T>(tree: Tree<T>, id: HitId) -> bool
    decreases tree,
{
    ||| (tree.style() matches Some(style) && style.id == Some(id))
    ||| match tree {
        Tree::Row { children, .. } => exists|i: int|
            0 <= i < children.len() && carries(#[trigger] children[i], id),
        Tree::Column { children, .. } => exists|i: int|
            0 <= i < children.len() && carries(#[trigger] children[i], id),
        Tree::Scroll { children, .. } => exists|i: int|
            0 <= i < children.len() && carries(#[trigger] children[i], id),
        _ => false,
    }
}

/// Whether some node of some of the trees carries `id`.
pub open spec fn some_carries<T>(trees: Seq<Tree<T>>, id: HitId) -> bool {
    exists|k: int| 0 <= k < trees.len() && carries(#[trigger] trees[k], id)
}

/// Input only ever lands on a node the tree identifies: every hit region and
/// every scroll extent carries the id of a node.
pub proof fn only_identified_nodes_take_input<T: Scalar>(
    tree: Tree<T>,
    placed: Placed<T>,
    x: T,
    y: T,
    clip: Option<Bounds<T>>,
)
    ensures
        forall|i: int|
            0 <= i < emitted(tree, placed, x, y, clip).hits.len() ==> carries(
                tree,
                (#[trigger] emitted(tree, placed, x, y, clip).hits[i]).id,
            ),
        forall|i: int|
            0 <= i < emitted(tree, placed, x, y, clip).scrolls.len() ==> carries(
                tree,
                (#[trigger] emitted(tree, placed, x, y, clip).scrolls[i]).id,
            ),
    decreases tree,
{
    let region = Bounds {
        x: plus(x, placed.x),
        y: plus(y, placed.y),
        width: placed.width,
        height: placed.height,
    };
    let all = emitted(tree, placed, x, y, clip);
    match tree {
        Tree::Row { style, children } => {
            let own = boxed(style, region, clip);
            let n = children.len();
            let (a, b) = (region.x, region.y);
            lemma_all_identified(children, placed.children@, n, a, b, clip);
            let inner = emitted_all(children, placed.children@, n, a, b, clip);
            lemma_parts_identified(tree, own, inner);
        },
        Tree::Column { style, children } => {
            let own = boxed(style, region, clip);
            let n = children.len();
            let (a, b) = (region.x, region.y);
            lemma_all_identified(children, placed.children@, n, a, b, clip);
            let inner = emitted_all(children, placed.children@, n, a, b, clip);
            lemma_parts_identified(tree, own, inner);
        },
        Tree::Scroll { style, offset, bar, children } => {
            let low = minus(region.y, placed.scrolled(offset));
            if let Some(seen) = visible(clip, region) {
                let n = children.len();
                lemma_all_identified(children, placed.children@, n, region.x, low, Some(seen));
                let inner = emitted_all(
                    children,
                    placed.children@,
                    n,
                    region.x,
                    low,
                    Some(seen),
                );
                let own = Picture {
                    commands: Seq::<Draw<T>>::empty(),
                    hits: all.hits.take(all.hits.len() - inner.hits.len()),
                    scrolls: all.scrolls.take(all.scrolls.len() - inner.scrolls.len()),
                };
                assert(all.hits =~= inner.over(own).hits);
                assert(all.scrolls =~= inner.over(own).scrolls);
                lemma_parts_identified(tree, own, inner);
            }
        },
        _ => {},
    }
}

proof fn lemma_parts_identified<T: Scalar>(tree: Tree<T>, own: Picture<T>, inner: Picture<T>)
    requires
        forall|i: int| 0 <= i < own.hits.len() ==> carries(tree, (#[trigger] own.hits[i]).id),
        forall|i: int|
            0 <= i < own.scrolls.len() ==> carries(tree, (#[trigger] own.scrolls[i]).id),
        forall|i: int|
            0 <= i < inner.hits.len() ==> some_carries(tree.children(), (#[trigger] inner.hits[i]).id),
        forall|i: int|
            0 <= i < inner.scrolls.len() ==> some_carries(tree.children(), (#[trigger] inner.scrolls[i]).id),
    ensures
        forall|i: int|
            0 <= i < inner.over(own).hits.len() ==> carries(
                tree,
                (#[trigger] inner.over(own).hits[i]).id,
            ),
        forall|i: int|
            0 <= i < inner.over(own).scrolls.len() ==> carries(
                tree,
                (#[trigger] inner.over(own).scrolls[i]).id,
            ),
{
    let all = inner.over(own);
    assert forall|i: int| 0 <= i < all.hits.len() implies carries(
        tree,
        (#[trigger] all.hits[i]).id,
    ) by {
        if i >= own.hits.len() {
            let h = inner.hits[i - own.hits.len()];
            assert(all.hits[i] == h);
        } else {
            assert(all.hits[i] == own.hits[i]);
        }
    }
    assert forall|i: int| 0 <= i < all.scrolls.len() implies carries(
        tree,
        (#[trigger] all.scrolls[i]).id,
    ) by {
        if i >= own.scrolls.len() {
            let h = inner.scrolls[i - own.scrolls.len()];
            assert(all.scrolls[i] == h);
        } else {
            assert(all.scrolls[i] == own.scrolls[i]);
        }
    }
}

proof fn lemma_all_identified<T: Scalar>(
    children: Seq<Tree<T>>,
    places: Seq<Placed<T>>,
    count: nat,
    x: T,
    y: T,
    clip: Option<Bounds<T>>,
)
    ensures
        forall|i: int|
            0 <= i < emitted_all(children, places, count, x, y, clip).hits.len() ==> some_carries(children, (#[trigger] emitted_all(children, places, count, x, y, clip).hits[i]).id),
        forall|i: int|
            0 <= i < emitted_all(children, places, count, x, y, clip).scrolls.len()
                ==> some_carries(children, (#[trigger] emitted_all(children, places, count, x, y, clip).scrolls[i]).id),
    decreases children, count,
{
    if count > 0 && count <= children.len() {
        lemma_all_identified(children, places, (count - 1) as nat, x, y, clip);
        if count <= places.len() {
            let before = emitted_all(children, places, (count - 1) as nat, x, y, clip);
            let last = emitted(children[count - 1], places[count - 1], x, y, clip);
            let all = emitted_all(children, places, count, x, y, clip);
            only_identified_nodes_take_input(children[count - 1], places[count - 1], x, y, clip);
            assert forall|i: int| 0 <= i < all.hits.len() implies some_carries(children, (#[trigger] all.hits[i]).id) by {
                if i >= before.hits.len() {
                    assert(all.hits[i] == last.hits[i - before.hits.len()]);
                    assert(carries(children[count - 1], all.hits[i].id));
                } else {
                    assert(all.hits[i] == before.hits[i]);
                }
            }
            assert forall|i: int| 0 <= i < all.scrolls.len() implies some_carries(children, (#[trigger] all.scrolls[i]).id) by {
                if i >= before.scrolls.len() {
                    assert(all.scrolls[i] == last.scrolls[i - before.scrolls.len()]);
                    assert(carries(children[count - 1], all.scrolls[i].id));
                } else {
                    assert(all.scrolls[i] == before.scrolls[i]);
                }
            }
        }
    }
}

/// A scroll never leaves its content: the offset that is drawn is neither
/// above the top nor past the furthest that still shows content, whatever the
/// app asked for, wherever no number is below or above itself.
pub proof fn a_scroll_stays_on_its_content<T: Scalar>(placed: Placed<T>, offset: T)
    requires
        forall|a: T| !below(a, a) && !above(a, a),
    ensures
        !below(placed.scrolled(offset), whole::<T>(0)),
        !above(placed.scrolled(offset), placed.furthest()),
{
    let zero = whole::<T>(0);
    assert(!below(zero, zero));
    assert(!above(placed.furthest(), placed.furthest()));
}

/// Whether a point in the overlap of two rectangles is in both of them.
pub open spec fn overlaps_narrow<T: Scalar>() -> bool {
    forall|a: Bounds<T>, b: Bounds<T>, x: T, y: T|
        #![trigger a.meet(b), a.covers(x, y)]
        #![trigger a.meet(b), b.covers(x, y)]
        a.meet(b) matches Some(both) && both.covers(x, y) ==> a.covers(x, y) && b.covers(x, y)
}

/// Whether a point that hits one of these regions is in a rectangle.
pub open spec fn hits_only_in<T: Scalar>(
    hits: Seq<HitRegion<T>>,
    bounds: Bounds<T>,
    x: T,
    y: T,
) -> bool {
    forall|i: int|
        0 <= i < hits.len() && (#[trigger] hits[i]).covers(x, y) ==> bounds.covers(x, y)
}

/// A row scrolled out of sight is not clicked: no point outside the region a
/// tree is confined to hits anything in it, wherever a point in the overlap of
/// two rectangles is in both of them.
pub proof fn what_is_clicked_is_in_sight<T: Scalar>(
    tree: Tree<T>,
    placed: Placed<T>,
    x: T,
    y: T,
    clip: Bounds<T>,
    at_x: T,
    at_y: T,
)
    requires
        overlaps_narrow::<T>(),
    ensures
        hits_only_in(emitted(tree, placed, x, y, Some(clip)).hits, clip, at_x, at_y),
    decreases tree,
{
    let region = Bounds {
        x: plus(x, placed.x),
        y: plus(y, placed.y),
        width: placed.width,
        height: placed.height,
    };
    let n = tree.children().len();
    match tree {
        Tree::Row { style, children } => {
            lemma_all_in_sight(
                children,
                placed.children@,
                n,
                region.x,
                region.y,
                clip,
                at_x,
                at_y,
            );
        },
        Tree::Column { style, children } => {
            lemma_all_in_sight(
                children,
                placed.children@,
                n,
                region.x,
                region.y,
                clip,
                at_x,
                at_y,
            );
        },
        Tree::Scroll { style, offset, bar, children } => {
            if let Some(seen) = clip.meet(region) {
                let low = minus(region.y, placed.scrolled(offset));
                lemma_all_in_sight(
                    children,
                    placed.children@,
                    n,
                    region.x,
                    low,
                    seen,
                    at_x,
                    at_y,
                );
            }
        },
        _ => {},
    }
}

proof fn lemma_all_in_sight<T: Scalar>(
    children: Seq<Tree<T>>,
    places: Seq<Placed<T>>,
    count: nat,
    x: T,
    y: T,
    clip: Bounds<T>,
    at_x: T,
    at_y: T,
)
    requires
        overlaps_narrow::<T>(),
    ensures
        hits_only_in(
            emitted_all(children, places, count, x, y, Some(clip)).hits,
            clip,
            at_x,
            at_y,
        ),
    decreases children, count,
{
    if count > 0 && count <= children.len() {
        lemma_all_in_sight(children, places, (count - 1) as nat, x, y, clip, at_x, at_y);
        if count <= places.len() {
            what_is_clicked_is_in_sight(
                children[count - 1],
                places[count - 1],
                x,
                y,
                clip,
                at_x,
                at_y,
            );
        }
    }
}

/// A scroll and everything in it is only clicked inside the scroll's own box,
/// wherever a point in the overlap of two rectangles is in both of them.
pub proof fn a_scroll_is_only_clicked_in_its_box<T: Scalar>(
    scroll: Tree<T>,
    placed: Placed<T>,
    x: T,
    y: T,
    clip: Option<Bounds<T>>,
    at_x: T,
    at_y: T,
)
    requires
        scroll is Scroll,
        overlaps_narrow::<T>(),
    ensures
        hits_only_in(
            emitted(scroll, placed, x, y, clip).hits,
            Bounds {
                x: plus(x, placed.x),
                y: plus(y, placed.y),
                width: placed.width,
                height: placed.height,
            },
            at_x,
            at_y,
        ),
{
    let region = Bounds {
        x: plus(x, placed.x),
        y: plus(y, placed.y),
        width: placed.width,
        height: placed.height,
    };
    if let Tree::Scroll { style, offset, bar, children } = scroll {
        if let Some(seen) = visible(clip, region) {
            let low = minus(region.y, placed.scrolled(offset));
            lemma_all_in_sight(
                children,
                placed.children@,
                children.len(),
                region.x,
                low,
                seen,
                at_x,
                at_y,
            );
        }
    }
}

} // verus!
