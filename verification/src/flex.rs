//! What the flex solver is told, and what is read back from it.
//!
//! A tree of nodes becomes a tree of flex boxes of the same shape; the solver
//! places them. Which way a box grows depends on the box around it, and that
//! is decided here.

use vstd::prelude::*;
use vstd::string::StrSliceExecFns;

use crate::flatten::Placed;
use crate::scalar::{
    count_of, exact, from_count, from_ratio, from_whole, minus, over, plus, ratio, times, whole,
    Scalar,
};
use crate::scene::{trees_of, Align, Node, Sizing, Style, Tree};

verus! {

/// The way a box lays its children out.
#[derive(Debug, Clone, Copy, PartialEq, Eq, Structural)]
pub enum Direction {
    Row,
    Column,
}

/// A box's own size along one axis.
#[derive(Debug, Clone, Copy, PartialEq)]
pub enum Extent<T> {
    Auto,
    Length(T),
    Percent(T),
}

/// Where children sit across the axis they are laid out along.
#[derive(Debug, Clone, Copy, PartialEq, Eq, Structural)]
pub enum Cross {
    Start,
    Center,
    End,
    Stretch,
}

/// A flex box's style.
#[derive(Debug, Clone, Copy, PartialEq)]
pub struct FlexStyle<T> {
    pub direction: Direction,
    pub width: Extent<T>,
    pub height: Extent<T>,
    /// Takes the free space along its parent's main axis.
    pub grows: bool,
    /// Gives way when there is too little room.
    pub shrinks: bool,
    /// Clips its content instead of being stretched by it.
    pub clips: bool,
    /// Fills its parent across the main axis.
    pub stretches: bool,
    pub padding: T,
    pub gap: T,
    pub main_axis: Align,
    pub cross_axis: Cross,
}

/// A flex box. A text is a leaf whose size is measured.
#[derive(Debug, PartialEq)]
pub enum FlexBox<T> {
    Container { style: FlexStyle<T>, children: Vec<FlexBox<T>> },
    Text { shrinks: bool },
}

/// What a [`FlexBox`] is.
pub enum Flex<T> {
    Container { style: FlexStyle<T>, children: Seq<Flex<T>> },
    Text { shrinks: bool },
}

/// What a flex box is.
pub open spec fn flex_of<T>(flex: FlexBox<T>) -> Flex<T>
    decreases flex,
{
    match flex {
        FlexBox::Container { style, children } => Flex::Container {
            style,
            children: Seq::new(
                children@.len(),
                |i: int|
                    if 0 <= i < children@.len() {
                        flex_of(children@[i])
                    } else {
                        arbitrary()
                    },
            ),
        },
        FlexBox::Text { shrinks } => Flex::Text { shrinks },
    }
}

impl<T> View for FlexBox<T> {
    type V = Flex<T>;

    open spec fn view(&self) -> Flex<T> {
        flex_of(*self)
    }
}

impl<T> Sizing<T> {
    pub open spec fn extent(self) -> Extent<T> {
        match self {
            Sizing::Fixed(length) => Extent::Length(length),
            Sizing::Percent(fraction) => Extent::Percent(fraction),
            _ => Extent::Auto,
        }
    }
}

impl<T: Scalar> Sizing<T> {
    /// The size a box has of its own, before it grows.
    pub fn to_dimension(&self) -> (r: Extent<T>)
        ensures
            r == self.extent(),
    {
        match self {
            Sizing::Fixed(length) => Extent::Length(*length),
            Sizing::Percent(fraction) => Extent::Percent(*fraction),
            Sizing::Fit | Sizing::Grow => Extent::Auto,
        }
    }
}

/// A node's flex style. Along the parent's main axis a node that grows flexes,
/// across it a node that grows stretches; the root flexes inside nothing.
/// `rigid` says the node is a scroll's direct child: squeezed down to fit the
/// very box it is meant to overflow, it would never scroll.
pub open spec fn flex_style_of<T: Scalar>(
    style: Style<T>,
    direction: Direction,
    parent: Option<Direction>,
    scrolls: bool,
    rigid: bool,
) -> FlexStyle<T> {
    FlexStyle {
        direction,
        width: style.width.extent(),
        height: style.height.extent(),
        grows: match parent {
            Some(Direction::Row) => style.width is Grow,
            Some(Direction::Column) => style.height is Grow,
            None => false,
        },
        shrinks: !rigid,
        clips: scrolls,
        stretches: match parent {
            Some(Direction::Row) => style.height is Grow,
            Some(Direction::Column) => style.width is Grow,
            None => false,
        },
        padding: style.padding,
        gap: style.gap,
        main_axis: style.main_axis,
        cross_axis: match style.cross_axis {
            Align::Start => Cross::Start,
            Align::Center => Cross::Center,
            Align::End => Cross::End,
            Align::SpaceBetween => Cross::Stretch,
        },
    }
}

/// A node's flex style, from its own style and the box around it.
pub fn flex_style<T: Scalar>(
    style: &Style<T>,
    direction: Direction,
    parent: Option<Direction>,
    scrolls: bool,
    rigid: bool,
) -> (r: FlexStyle<T>)
    ensures
        r == flex_style_of(*style, direction, parent, scrolls, rigid),
{
    let (grows, stretches) = match parent {
        Some(Direction::Row) => (style.width.is_grow(), style.height.is_grow()),
        Some(Direction::Column) => (style.height.is_grow(), style.width.is_grow()),
        // The root flexes inside nothing; it is sized to the viewport.
        None => (false, false),
    };
    FlexStyle {
        direction,
        width: style.width.to_dimension(),
        height: style.height.to_dimension(),
        grows,
        shrinks: !rigid,
        clips: scrolls,
        stretches,
        padding: style.padding,
        gap: style.gap,
        main_axis: style.main_axis,
        cross_axis: match style.cross_axis {
            Align::Start => Cross::Start,
            Align::Center => Cross::Center,
            Align::End => Cross::End,
            // Stretching is the sensible reading of "space between" on the
            // cross axis, where there is only one item per line.
            Align::SpaceBetween => Cross::Stretch,
        },
    }
}

impl<T> Tree<T> {
    /// The way a node lays its children out.
    pub open spec fn direction(self) -> Direction {
        match self {
            Tree::Row { .. } | Tree::Box { .. } => Direction::Row,
            _ => Direction::Column,
        }
    }
}

/// The flex boxes of a tree inside a box laid out along `parent`.
pub open spec fn flexed<T: Scalar>(tree: Tree<T>, parent: Option<Direction>, rigid: bool) -> Flex<T>
    decreases tree,
{
    match tree {
        Tree::Text { .. } => Flex::Text { shrinks: !rigid },
        Tree::Box { style } => Flex::Container {
            style: flex_style_of(style, Direction::Row, parent, false, rigid),
            children: Seq::empty(),
        },
        Tree::Row { style, children } => Flex::Container {
            style: flex_style_of(style, Direction::Row, parent, false, rigid),
            children: Seq::new(
                children.len(),
                |i: int|
                    if 0 <= i < children.len() {
                        flexed(children[i], Some(Direction::Row), false)
                    } else {
                        arbitrary()
                    },
            ),
        },
        Tree::Column { style, children } => Flex::Container {
            style: flex_style_of(style, Direction::Column, parent, false, rigid),
            children: Seq::new(
                children.len(),
                |i: int|
                    if 0 <= i < children.len() {
                        flexed(children[i], Some(Direction::Column), false)
                    } else {
                        arbitrary()
                    },
            ),
        },
        Tree::Scroll { style, children, .. } => Flex::Container {
            style: flex_style_of(style, Direction::Column, parent, true, rigid),
            children: Seq::new(
                children.len(),
                |i: int|
                    if 0 <= i < children.len() {
                        flexed(children[i], Some(Direction::Column), true)
                    } else {
                        arbitrary()
                    },
            ),
        },
    }
}

/// The flex boxes of a list of children.
pub open spec fn all_flexed<T: Scalar>(
    trees: Seq<Tree<T>>,
    parent: Option<Direction>,
    rigid: bool,
) -> Seq<Flex<T>> {
    Seq::new(trees.len(), |i: int| flexed(trees[i], parent, rigid))
}

/// The root's flex boxes. The root has no parent to grow inside, so growing
/// there means filling the viewport.
pub open spec fn root_flexed<T: Scalar>(tree: Tree<T>, width: T, height: T) -> Flex<T> {
    match (tree.style(), flexed(tree, None, false)) {
        (Some(style), Flex::Container { style: flex, children }) => Flex::Container {
            style: FlexStyle {
                width: if style.width is Grow {
                    Extent::Length(width)
                } else {
                    flex.width
                },
                height: if style.height is Grow {
                    Extent::Length(height)
                } else {
                    flex.height
                },
                ..flex
            },
            children,
        },
        (_, flex) => flex,
    }
}

fn container<T: Scalar>(style: FlexStyle<T>, children: Vec<FlexBox<T>>) -> (r: FlexBox<T>)
    ensures
        r@ == (Flex::Container {
            style,
            children: Seq::new(children@.len(), |i: int| children@[i]@),
        }),
{
    let r = FlexBox::Container { style, children };
    assert(r@->Container_children =~= Seq::new(children@.len(), |i: int| children@[i]@));
    r
}

/// The flex boxes of a tree inside a box laid out along `parent`.
pub fn build<T: Scalar>(node: &Node<T>, parent: Option<Direction>, rigid: bool) -> (r: FlexBox<T>)
    ensures
        r@ == flexed(node@, parent, rigid),
    decreases node, 0nat,
{
    match node {
        Node::Row { style, children } => {
            let inner = build_all(children, Direction::Row, false);
            let r = container(flex_style(style, Direction::Row, parent, false, rigid), inner);
            proof {
                assert(trees_of(children@) =~= node@.children());
                assert(r@->Container_children =~= flexed(
                    node@,
                    parent,
                    rigid,
                )->Container_children);
            }
            r
        },
        Node::Column { style, children } => {
            let inner = build_all(children, Direction::Column, false);
            let r = container(flex_style(style, Direction::Column, parent, false, rigid), inner);
            proof {
                assert(trees_of(children@) =~= node@.children());
                assert(r@->Container_children =~= flexed(
                    node@,
                    parent,
                    rigid,
                )->Container_children);
            }
            r
        },
        Node::Scroll { style, children, .. } => {
            let inner = build_all(children, Direction::Column, true);
            let r = container(flex_style(style, Direction::Column, parent, true, rigid), inner);
            proof {
                assert(trees_of(children@) =~= node@.children());
                assert(r@->Container_children =~= flexed(
                    node@,
                    parent,
                    rigid,
                )->Container_children);
            }
            r
        },
        Node::Box { style } => {
            let r = container(
                flex_style(style, Direction::Row, parent, false, rigid),
                Vec::new(),
            );
            assert(r@->Container_children =~= Seq::empty());
            r
        },
        Node::Text { .. } => FlexBox::Text { shrinks: !rigid },
    }
}

fn build_all<T: Scalar>(children: &Vec<Node<T>>, direction: Direction, rigid: bool) -> (r: Vec<
    FlexBox<T>,
>)
    ensures
        Seq::new(r@.len(), |i: int| r@[i]@) == all_flexed(
            trees_of(children@),
            Some(direction),
            rigid,
        ),
    decreases children, 1nat,
{
    let mut out: Vec<FlexBox<T>> = Vec::new();
    for i in 0..children.len()
        invariant
            out@.len() == i,
            forall|j: int|
                0 <= j < i ==> (#[trigger] out@[j])@ == flexed(
                    children@[j]@,
                    Some(direction),
                    rigid,
                ),
    {
        assert(decreases_to!(*children => children[i as int]));
        let made = build(&children[i], Some(direction), rigid);
        out.push(made);
    }
    assert(Seq::new(out@.len(), |i: int| out@[i]@) =~= all_flexed(
        trees_of(children@),
        Some(direction),
        rigid,
    ));
    out
}

/// The root's flex boxes, for a viewport of this size.
pub fn flex_tree<T: Scalar>(root: &Node<T>, width: T, height: T) -> (r: FlexBox<T>)
    ensures
        r@ == root_flexed(root@, width, height),
{
    let made = build(root, None, false);
    match (root.style(), made) {
        (Some(style), FlexBox::Container { style: flex, children }) => {
            let mut sized = flex;
            if style.width.is_grow() {
                sized.width = Extent::Length(width);
            }
            if style.height.is_grow() {
                sized.height = Extent::Length(height);
            }
            let ghost inner = made@->Container_children;
            let r = container(sized, children);
            assert(r@->Container_children =~= inner);
            r
        },
        (_, other) => other,
    }
}

/// One node of a laid-out tree, with its depth and absolute geometry.
#[derive(Debug)]
pub struct Visit<'a, T> {
    pub node: &'a Node<T>,
    pub depth: usize,
    pub x: T,
    pub y: T,
    pub width: T,
    pub height: T,
}

/// What a [`Visit`] is.
pub struct Seen<T> {
    pub tree: Tree<T>,
    pub depth: nat,
    pub x: T,
    pub y: T,
    pub width: T,
    pub height: T,
}

/// What a list of visits is.
pub open spec fn seen_of<T>(visits: Seq<Visit<T>>) -> Seq<Seen<T>> {
    Seq::new(
        visits.len(),
        |i: int|
            Seen {
                tree: visits[i].node@,
                depth: visits[i].depth as nat,
                x: visits[i].x,
                y: visits[i].y,
                width: visits[i].width,
                height: visits[i].height,
            },
    )
}

/// How deep a tree is.
pub open spec fn tallness<T>(tree: Tree<T>) -> nat
    decreases tree,
{
    match tree {
        Tree::Row { children, .. } => 1 + tallest(children, children.len()),
        Tree::Column { children, .. } => 1 + tallest(children, children.len()),
        Tree::Scroll { children, .. } => 1 + tallest(children, children.len()),
        _ => 1,
    }
}

/// How deep the deepest of the first `count` trees is.
pub open spec fn tallest<T>(trees: Seq<Tree<T>>, count: nat) -> nat
    decreases trees, count,
{
    if count == 0 || count > trees.len() {
        0
    } else {
        let last = tallness(trees[count - 1]);
        let before = tallest(trees, (count - 1) as nat);
        if last > before {
            last
        } else {
            before
        }
    }
}

proof fn lemma_tallest<T>(trees: Seq<Tree<T>>, count: nat, index: int)
    requires
        0 <= index < count <= trees.len(),
    ensures
        tallness(trees[index]) <= tallest(trees, count),
    decreases count,
{
    if index < count - 1 {
        lemma_tallest(trees, (count - 1) as nat, index);
    }
}

/// How far a node's children are moved by being scrolled. Scrolled content is
/// reported where it actually is, not where it would be at rest.
pub open spec fn children_top<T: Scalar>(tree: Tree<T>, placed: Placed<T>, y: T) -> T {
    match tree {
        Tree::Scroll { offset, .. } => minus(y, placed.scrolled(offset)),
        _ => minus(y, whole::<T>(0)),
    }
}

/// Every node of a laid-out tree, parents before children.
pub open spec fn visited<T: Scalar>(
    tree: Tree<T>,
    placed: Placed<T>,
    x: T,
    y: T,
    depth: nat,
) -> Seq<Seen<T>>
    decreases tree,
{
    let (left, top) = (plus(x, placed.x), plus(y, placed.y));
    let own = Seen { tree, depth, x: left, y: top, width: placed.width, height: placed.height };
    let low = children_top(tree, placed, top);
    match tree {
        Tree::Row { children, .. } => seq![own] + visited_all(
            children,
            placed.children@,
            children.len(),
            left,
            low,
            depth + 1,
        ),
        Tree::Column { children, .. } => seq![own] + visited_all(
            children,
            placed.children@,
            children.len(),
            left,
            low,
            depth + 1,
        ),
        Tree::Scroll { children, .. } => seq![own] + visited_all(
            children,
            placed.children@,
            children.len(),
            left,
            low,
            depth + 1,
        ),
        _ => seq![own],
    }
}

/// Every node of the first `count` of a node's children.
pub open spec fn visited_all<T: Scalar>(
    trees: Seq<Tree<T>>,
    places: Seq<Placed<T>>,
    count: nat,
    x: T,
    y: T,
    depth: nat,
) -> Seq<Seen<T>>
    decreases trees, count,
{
    if count == 0 || count > trees.len() {
        Seq::empty()
    } else if count > places.len() {
        visited_all(trees, places, (count - 1) as nat, x, y, depth)
    } else {
        visited_all(trees, places, (count - 1) as nat, x, y, depth) + visited(
            trees[count - 1],
            places[count - 1],
            x,
            y,
            depth,
        )
    }
}

/// Visits every node of a laid-out tree with its depth and absolute geometry.
/// The command array is flat by design, so this is the only place that can
/// still answer "which node produced this rectangle".
pub fn walk_laid_out<'a, T: Scalar>(root: &'a Node<T>, placed: &Placed<T>) -> (r: Vec<
    Visit<'a, T>,
>)
    requires
        exact::<T>(),
        tallness(root@) <= usize::MAX,
    ensures
        seen_of(r@) == visited(
            root@,
            *placed,
            whole::<T>(0),
            whole::<T>(0),
            0,
        ),
{
    let mut out: Vec<Visit<'a, T>> = Vec::new();
    let zero: T = from_whole(0);
    visit_laid_out(root, placed, zero, zero, 0, &mut out);
    assert(seen_of(out@) =~= visited(root@, *placed, zero, zero, 0));
    out
}

fn visit_laid_out<'a, T: Scalar>(
    node: &'a Node<T>,
    placed: &Placed<T>,
    x: T,
    y: T,
    depth: usize,
    out: &mut Vec<Visit<'a, T>>,
)
    requires
        exact::<T>(),
        depth + tallness(node@) <= usize::MAX,
    ensures
        seen_of(final(out)@) == seen_of(old(out)@) + visited(node@, *placed, x, y, depth as nat),
    decreases node, 0nat,
{
    let left = x + placed.x;
    let top = y + placed.y;
    let ghost own = Seen {
        tree: node@,
        depth: depth as nat,
        x: left,
        y: top,
        width: placed.width,
        height: placed.height,
    };
    out.push(Visit { node, depth, x: left, y: top, width: placed.width, height: placed.height });
    assert(seen_of(out@) =~= seen_of(old(out)@) + seq![own]);
    let zero: T = from_whole(0);
    match node {
        Node::Row { children, .. } => {
            assert(trees_of(children@) =~= node@.children());
            visit_all(children, &placed.children, left, top - zero, depth + 1, out);
        },
        Node::Column { children, .. } => {
            assert(trees_of(children@) =~= node@.children());
            visit_all(children, &placed.children, left, top - zero, depth + 1, out);
        },
        Node::Scroll { offset, children, .. } => {
            assert(trees_of(children@) =~= node@.children());
            let low = top - placed.scrolled_by(*offset);
            visit_all(children, &placed.children, left, low, depth + 1, out);
        },
        Node::Box { .. } | Node::Text { .. } => {},
    }
    assert(seen_of(out@) =~= seen_of(old(out)@) + visited(
        node@,
        *placed,
        x,
        y,
        depth as nat,
    ));
}

fn visit_all<'a, T: Scalar>(
    children: &'a Vec<Node<T>>,
    places: &Vec<Placed<T>>,
    x: T,
    y: T,
    depth: usize,
    out: &mut Vec<Visit<'a, T>>,
)
    requires
        exact::<T>(),
        depth + tallest(trees_of(children@), children@.len()) <= usize::MAX,
    ensures
        seen_of(final(out)@) == seen_of(old(out)@) + visited_all(
            trees_of(children@),
            places@,
            children@.len(),
            x,
            y,
            depth as nat,
        ),
    decreases children, 1nat,
{
    let ghost trees = trees_of(children@);
    let ghost before = seen_of(out@);
    assert(before =~= before + visited_all(trees, places@, 0, x, y, depth as nat));
    for i in 0..children.len()
        invariant
            exact::<T>(),
            trees == trees_of(children@),
            depth + tallest(trees, children@.len()) <= usize::MAX,
            seen_of(out@) == before + visited_all(trees, places@, i as nat, x, y, depth as nat),
    {
        if i < places.len() {
            assert(decreases_to!(*children => children[i as int]));
            proof {
                lemma_tallest(trees, children@.len(), i as int);
            }
            visit_laid_out(&children[i], &places[i], x, y, depth, out);
            assert(seen_of(out@) =~= before + visited_all(
                trees,
                places@,
                (i + 1) as nat,
                x,
                y,
                depth as nat,
            ));
        }
    }
}

/// What a node is called in a listing.
pub open spec fn kind_of<T>(tree: Tree<T>) -> Seq<char> {
    match tree {
        Tree::Row { .. } => "row"@,
        Tree::Column { .. } => "column"@,
        Tree::Box { .. } => "box"@,
        Tree::Text { .. } => "text"@,
        Tree::Scroll { .. } => "scroll"@,
    }
}

/// What a node is called in a listing.
pub fn kind<T>(node: &Node<T>) -> (r: &'static str)
    ensures
        r@ == kind_of(node@),
{
    match node {
        Node::Row { .. } => "row",
        Node::Column { .. } => "column",
        Node::Box { .. } => "box",
        Node::Text { .. } => "text",
        Node::Scroll { .. } => "scroll",
    }
}

/// The width and height of a run of text, to a monospace approximation that
/// deliberately errs wide.
pub open spec fn approximately<T: Scalar>(text: Seq<char>, size: T) -> (T, T) {
    (
        times(times(count_of::<T>(text.len()), size), ratio::<T>(55, 100)),
        times(size, ratio::<T>(125, 100)),
    )
}

/// A monospace approximation, for anything laying out without a font stack.
pub struct Approximate;

impl Approximate {
    /// The width and height a run of text will occupy.
    pub fn measure<T: Scalar>(&mut self, text: &str, size: T) -> (r: (T, T))
        requires
            exact::<T>(),
        ensures
            r == approximately(text@, size),
    {
        let count = from_count::<T>(text.unicode_len());
        (count * size * from_ratio(55, 100), size * from_ratio(125, 100))
    }
}

/// A style with its two axes exchanged.
pub open spec fn transposed<T>(style: Style<T>) -> Style<T> {
    Style { width: style.height, height: style.width, ..style }
}

/// Rows and columns are mirror images: what a column makes of a child is what a
/// row makes of it with its axes exchanged, exchanged back.
pub proof fn rows_and_columns_are_mirror_images<T: Scalar>(
    style: Style<T>,
    direction: Direction,
    scrolls: bool,
    rigid: bool,
)
    ensures
        ({
            let column = flex_style_of(style, direction, Some(Direction::Column), scrolls, rigid);
            let row = flex_style_of(
                transposed(style),
                direction,
                Some(Direction::Row),
                scrolls,
                rigid,
            );
            column == (FlexStyle { width: row.height, height: row.width, ..row })
        }),
{
}

/// What a box is asked to be along the axis its parent lays it out along.
pub open spec fn along<T>(style: Style<T>, parent: Direction) -> Sizing<T> {
    match parent {
        Direction::Row => style.width,
        Direction::Column => style.height,
    }
}

/// What a box is asked to be across that axis.
pub open spec fn across<T>(style: Style<T>, parent: Direction) -> Sizing<T> {
    match parent {
        Direction::Row => style.height,
        Direction::Column => style.width,
    }
}

/// Whether an extent is what a box is asked to be: a fixed box is as long as it
/// says, a fraction is of its parent, and one that fits or grows has no length
/// of its own.
pub open spec fn sized_as<T>(extent: Extent<T>, sizing: Sizing<T>) -> bool {
    match extent {
        Extent::Length(length) => sizing == Sizing::Fixed(length),
        Extent::Percent(fraction) => sizing == Sizing::Percent(fraction),
        Extent::Auto => sizing is Fit || sizing is Grow,
    }
}

/// A child grows exactly where it is asked to along its parent's axis, and
/// stretches exactly where it is asked to across it. It keeps the size it is
/// given, gives way unless it is what a scroll scrolls through, clips exactly
/// where it scrolls, and lays its own children out as it says.
pub proof fn a_child_takes_the_room_it_asks_for<T: Scalar>(
    tree: Tree<T>,
    index: int,
    parent: Option<Direction>,
    rigid: bool,
)
    requires
        0 <= index < tree.children().len(),
        tree.children()[index].style() is Some,
    ensures
        ({
            let axis = if tree is Row {
                Direction::Row
            } else {
                Direction::Column
            };
            let child = tree.children()[index];
            let style = child.style()->Some_0;
            &&& flexed(tree, parent, rigid) matches Flex::Container { children, .. } && {
                &&& children.len() == tree.children().len()
                &&& children[index] matches Flex::Container { style: flex, children: inner } && {
                    &&& flex.grows <==> along(style, axis) is Grow
                    &&& flex.stretches <==> across(style, axis) is Grow
                    &&& sized_as(flex.width, style.width)
                    &&& sized_as(flex.height, style.height)
                    &&& flex.shrinks <==> !(tree is Scroll)
                    &&& flex.clips <==> child is Scroll
                    &&& flex.direction is Column <==> child is Column || child is Scroll
                    &&& flex.padding == style.padding
                    &&& flex.gap == style.gap
                    &&& flex.main_axis == style.main_axis
                    &&& flex.cross_axis is Start <==> style.cross_axis is Start
                    &&& flex.cross_axis is Center <==> style.cross_axis is Center
                    &&& flex.cross_axis is End <==> style.cross_axis is End
                    &&& inner.len() == child.children().len()
                }
            }
        }),
{
    let child = tree.children()[index];
    let axis = if tree is Row {
        Direction::Row
    } else {
        Direction::Column
    };
    let made = flexed(child, Some(axis), tree is Scroll);
    assert(flexed(tree, parent, rigid)->Container_children[index] == made);
    assert(made is Container);
}

/// A text is a leaf, and gives way unless it is what a scroll scrolls through.
pub proof fn a_text_is_a_leaf<T: Scalar>(
    tree: Tree<T>,
    index: int,
    parent: Option<Direction>,
    rigid: bool,
)
    requires
        0 <= index < tree.children().len(),
    ensures
        flexed(tree, parent, rigid) matches Flex::Container { children, .. } && (
        tree.children()[index] is Text <==> children[index] is Text) && (
        children[index] matches Flex::Text { shrinks } ==> (shrinks <==> !(tree is Scroll))),
{
    let child = tree.children()[index];
    let axis = if tree is Row {
        Direction::Row
    } else {
        Direction::Column
    };
    let made = flexed(child, Some(axis), tree is Scroll);
    assert(flexed(tree, parent, rigid)->Container_children[index] == made);
}

/// The root fills the viewport along each axis it grows along, keeps the size
/// it is given along the others, and flexes inside nothing.
pub proof fn the_root_fills_the_viewport<T: Scalar>(tree: Tree<T>, width: T, height: T)
    requires
        tree.style() is Some,
    ensures
        ({
            let style = tree.style()->Some_0;
            root_flexed(tree, width, height) matches Flex::Container { style: flex, children } && {
                &&& if style.width is Grow {
                    flex.width == Extent::Length(width)
                } else {
                    sized_as(flex.width, style.width)
                }
                &&& if style.height is Grow {
                    flex.height == Extent::Length(height)
                } else {
                    sized_as(flex.height, style.height)
                }
                &&& !flex.grows && !flex.stretches
                &&& flex.clips <==> tree is Scroll
                &&& flex.direction is Column <==> tree is Column || tree is Scroll
                &&& flex.padding == style.padding
                &&& flex.gap == style.gap
                &&& flex.main_axis == style.main_axis
                &&& children == flexed(tree, None, false)->Container_children
            }
        }),
{
}

/// A text is taken to be as wide as it is long, a little over half its size for
/// each character, and one line high, a quarter more than its size.
pub proof fn a_text_is_as_wide_as_it_is_long<T: Scalar>(a: Seq<char>, b: Seq<char>, size: T)
    ensures
        a.len() == b.len() ==> approximately(a, size) == approximately(b, size),
        approximately(a, size).1 == times(size, over(whole::<T>(125), whole::<T>(100))),
        approximately(a, size).0 == times(
            times(count_of::<T>(a.len()), size),
            over(whole::<T>(55), whole::<T>(100)),
        ),
{
}

/// A node is called by what it is.
pub proof fn a_node_is_called_by_what_it_is<T>(tree: Tree<T>)
    ensures
        kind_of(tree) == "row"@ <==> tree is Row,
        kind_of(tree) == "column"@ <==> tree is Column,
        kind_of(tree) == "box"@ <==> tree is Box,
        kind_of(tree) == "text"@ <==> tree is Text,
        kind_of(tree) == "scroll"@ <==> tree is Scroll,
{
    reveal_strlit("row");
    reveal_strlit("column");
    reveal_strlit("box");
    reveal_strlit("text");
    reveal_strlit("scroll");
    assert("row"@[0] == 'r' && "column"@[0] == 'c' && "box"@[0] == 'b');
    assert("text"@[0] == 't' && "scroll"@[0] == 's');
}

} // verus!
