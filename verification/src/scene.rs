//! UI tree, layout, and the render command array.
//!
//! Layout resolves a tree into a flat list of draw commands: renderer-agnostic,
//! trivially diffable, and cheap to send across an actor channel. The flex
//! solver itself works on the boxes this module describes to it and answers
//! with where each of them goes; everything before and after that is here.
//!
//! Sizing uses a four-word vocabulary (`fit`, `grow`, `fixed`, `percent`) and
//! `main_axis` / `cross_axis` naming, so the meaning does not flip when a row
//! becomes a column.

use vstd::prelude::*;

use crate::scalar::{
    above, below, exact, from_ratio, from_whole, larger, larger_of, minus, plus, ratio, reaches,
    smaller, smaller_of, whole, Scalar,
};

verus! {

/// Straight RGBA, 0..1.
#[derive(Debug, Clone, Copy, PartialEq)]
pub struct Color<T> {
    pub r: T,
    pub g: T,
    pub b: T,
    pub a: T,
}

impl<T: Scalar> Color<T> {
    pub fn rgba(r: T, g: T, b: T, a: T) -> (c: Self)
        ensures
            c == (Color { r, g, b, a }),
    {
        Color { r, g, b, a }
    }

    /// An opaque colour.
    pub fn rgb(r: T, g: T, b: T) -> (c: Self)
        requires
            exact::<T>(),
        ensures
            c == (Color { r, g, b, a: whole::<T>(1) }),
    {
        Color { r, g, b, a: from_whole(1) }
    }

    /// A colour given in hundredths.
    pub open spec fn hundredths(r: u16, g: u16, b: u16, a: u16) -> Self {
        Color {
            r: ratio::<T>(r, 100),
            g: ratio::<T>(g, 100),
            b: ratio::<T>(b, 100),
            a: ratio::<T>(a, 100),
        }
    }

    /// An opaque colour given in hundredths.
    pub open spec fn solid(r: u16, g: u16, b: u16) -> Self {
        Color {
            r: ratio::<T>(r, 100),
            g: ratio::<T>(g, 100),
            b: ratio::<T>(b, 100),
            a: whole::<T>(1),
        }
    }

    /// An opaque colour given in hundredths.
    pub fn of_solid(r: u16, g: u16, b: u16) -> (c: Self)
        requires
            exact::<T>(),
        ensures
            c == Color::<T>::solid(r, g, b),
    {
        Color::rgb(from_ratio(r, 100), from_ratio(g, 100), from_ratio(b, 100))
    }

    /// A colour given in hundredths.
    pub fn of_hundredths(r: u16, g: u16, b: u16, a: u16) -> (c: Self)
        requires
            exact::<T>(),
        ensures
            c == Color::<T>::hundredths(r, g, b, a),
    {
        Color {
            r: from_ratio(r, 100),
            g: from_ratio(g, 100),
            b: from_ratio(b, 100),
            a: from_ratio(a, 100),
        }
    }
}

/// The whole sizing vocabulary. No width/height/min/max/basis/grow/shrink
/// interplay to reason about.
#[derive(Debug, Clone, Copy, PartialEq)]
pub enum Sizing<T> {
    /// Shrink to the content.
    Fit,
    /// Take the free space, sharing it with other `Grow` siblings.
    Grow,
    /// Exactly this many logical pixels.
    Fixed(T),
    /// A fraction of the parent, 0..1.
    Percent(T),
}

impl<T> Sizing<T> {
    pub fn is_grow(&self) -> (r: bool)
        ensures
            r == (*self is Grow),
    {
        matches!(self, Sizing::Grow)
    }
}

/// Alignment along an axis. One mechanism, not five.
#[derive(Debug, Clone, Copy, PartialEq, Eq, Structural)]
pub enum Align {
    Start,
    Center,
    End,
    SpaceBetween,
}

/// Identifies a node that can be hit by input. Stability is what lets input
/// keep targeting the same thing across rebuilt frames.
#[derive(Debug, Clone, Copy, PartialEq, Eq, Hash, Structural)]
pub struct HitId(pub u32);

#[derive(Debug, Clone, Copy, PartialEq)]
pub struct Style<T> {
    /// `Some` makes this node a target for input routing.
    pub id: Option<HitId>,
    pub width: Sizing<T>,
    pub height: Sizing<T>,
    pub padding: T,
    pub gap: T,
    /// `None` paints nothing: the node is pure layout.
    pub background: Option<Color<T>>,
    pub main_axis: Align,
    pub cross_axis: Align,
    /// Whether a click here takes keyboard focus. Keyboards have no position,
    /// so something has to decide where their events go.
    pub focusable: bool,
}

impl<T: Scalar> Style<T> {
    /// A style that paints nothing, takes no input and fits its content.
    pub open spec fn plain() -> Self {
        Style {
            id: None,
            width: Sizing::Fit,
            height: Sizing::Fit,
            padding: whole::<T>(0),
            gap: whole::<T>(0),
            background: None,
            main_axis: Align::Start,
            cross_axis: Align::Start,
            focusable: false,
        }
    }
}

impl<T: Scalar> Default for Style<T> {
    fn default() -> (r: Self)
        ensures
            exact::<T>() ==> r == Style::<T>::plain(),
    {
        Style {
            id: None,
            width: Sizing::Fit,
            height: Sizing::Fit,
            padding: T::from(0),
            gap: T::from(0),
            background: None,
            main_axis: Align::Start,
            cross_axis: Align::Start,
            focusable: false,
        }
    }
}

#[derive(Debug, Clone, Copy, PartialEq)]
pub struct TextStyle<T> {
    pub size: T,
    pub color: Color<T>,
}

impl<T: Scalar> TextStyle<T> {
    /// Body text.
    pub fn standard() -> (r: Self)
        requires
            exact::<T>(),
        ensures
            r.size == whole::<T>(16),
            r.color == Color::<T>::solid(90, 90, 92),
    {
        TextStyle { size: from_whole(16), color: Color::of_solid(90, 90, 92) }
    }
}

/// A node in the UI tree. Built fresh each frame by a view function; the
/// platform owns everything that happens after.
#[derive(Debug, PartialEq)]
pub enum Node<T> {
    Row { style: Style<T>, children: Vec<Node<T>> },
    Column { style: Style<T>, children: Vec<Node<T>> },
    /// A leaf that paints its background and nothing else.
    Box { style: Style<T> },
    Text { text: String, style: TextStyle<T> },
    /// A column that clips its content and can be scrolled through.
    ///
    /// `offset` is how far the content has been scrolled up, and it lives in
    /// the app's state. The platform clamps it against the content it just
    /// measured and hands the clamped value back as an event.
    Scroll {
        style: Style<T>,
        offset: T,
        /// The indicator's colour, or `None` for no indicator.
        bar: Option<Color<T>>,
        children: Vec<Node<T>>,
    },
}

/// What a [`Node`] is.
pub enum Tree<T> {
    Row { style: Style<T>, children: Seq<Tree<T>> },
    Column { style: Style<T>, children: Seq<Tree<T>> },
    Box { style: Style<T> },
    Text { text: Seq<char>, style: TextStyle<T> },
    Scroll { style: Style<T>, offset: T, bar: Option<Color<T>>, children: Seq<Tree<T>> },
}

/// What a node is.
pub open spec fn tree_of<T>(node: Node<T>) -> Tree<T>
    decreases node,
{
    match node {
        Node::Row { style, children } => Tree::Row {
            style,
            children: Seq::new(
                children@.len(),
                |i: int|
                    if 0 <= i < children@.len() {
                        tree_of(children@[i])
                    } else {
                        arbitrary()
                    },
            ),
        },
        Node::Column { style, children } => Tree::Column {
            style,
            children: Seq::new(
                children@.len(),
                |i: int|
                    if 0 <= i < children@.len() {
                        tree_of(children@[i])
                    } else {
                        arbitrary()
                    },
            ),
        },
        Node::Box { style } => Tree::Box { style },
        Node::Text { text, style } => Tree::Text { text: text@, style },
        Node::Scroll { style, offset, bar, children } => Tree::Scroll {
            style,
            offset,
            bar,
            children: Seq::new(
                children@.len(),
                |i: int|
                    if 0 <= i < children@.len() {
                        tree_of(children@[i])
                    } else {
                        arbitrary()
                    },
            ),
        },
    }
}

/// What a list of nodes is.
pub open spec fn trees_of<T>(nodes: Seq<Node<T>>) -> Seq<Tree<T>> {
    Seq::new(nodes.len(), |i: int| tree_of(nodes[i]))
}

impl<T> View for Node<T> {
    type V = Tree<T>;

    open spec fn view(&self) -> Tree<T> {
        tree_of(*self)
    }
}

impl<T> Tree<T> {
    /// The style a node carries, if it has one.
    pub open spec fn style(self) -> Option<Style<T>> {
        match self {
            Tree::Row { style, .. } => Some(style),
            Tree::Column { style, .. } => Some(style),
            Tree::Box { style } => Some(style),
            Tree::Scroll { style, .. } => Some(style),
            Tree::Text { .. } => None,
        }
    }

    /// The children a node lays out, if any.
    pub open spec fn children(self) -> Seq<Tree<T>> {
        match self {
            Tree::Row { children, .. } => children,
            Tree::Column { children, .. } => children,
            Tree::Scroll { children, .. } => children,
            _ => Seq::empty(),
        }
    }
}

impl<T> Node<T> {
    /// The style a node carries, if it has one. `Text` styles its glyphs, not
    /// its box, so it has none.
    pub fn style(&self) -> (r: Option<&Style<T>>)
        ensures
            match (r, self@.style()) {
                (Some(style), Some(expected)) => *style == expected,
                (None, None) => true,
                _ => false,
            },
    {
        match self {
            Node::Row { style, .. } => Some(style),
            Node::Column { style, .. } => Some(style),
            Node::Box { style } => Some(style),
            Node::Scroll { style, .. } => Some(style),
            Node::Text { .. } => None,
        }
    }

    pub fn row(style: Style<T>, children: Vec<Node<T>>) -> (r: Self)
        ensures
            r@ == (Tree::Row { style, children: trees_of(children@) }),
    {
        let r = Node::Row { style, children };
        assert(r@->Row_children =~= trees_of(children@));
        r
    }

    pub fn column(style: Style<T>, children: Vec<Node<T>>) -> (r: Self)
        ensures
            r@ == (Tree::Column { style, children: trees_of(children@) }),
    {
        let r = Node::Column { style, children };
        assert(r@->Column_children =~= trees_of(children@));
        r
    }

    pub fn text(text: String, style: TextStyle<T>) -> (r: Self)
        ensures
            r@ == (Tree::Text { text: text@, style }),
    {
        Node::Text { text, style }
    }
}

impl<T: Scalar> Node<T> {
    /// The same tree again.
    pub fn copied(&self) -> (r: Self)
        ensures
            r@ == self@,
        decreases self, 0nat,
    {
        match self {
            Node::Row { style, children } => {
                let r = Node::row(*style, copy_all(children));
                assert(r@.children() =~= self@.children());
                r
            },
            Node::Column { style, children } => {
                let r = Node::column(*style, copy_all(children));
                assert(r@.children() =~= self@.children());
                r
            },
            Node::Box { style } => Node::Box { style: *style },
            Node::Text { text, style } => Node::text(text.clone(), *style),
            Node::Scroll { style, offset, bar, children } => {
                let copies = copy_all(children);
                let r = Node::Scroll {
                    style: *style,
                    offset: *offset,
                    bar: *bar,
                    children: copies,
                };
                assert(r@.children() =~= trees_of(copies@));
                assert(self@.children() =~= trees_of(children@));
                r
            },
        }
    }
}

impl<T: Scalar> Clone for Node<T> {
    fn clone(&self) -> (r: Self)
        ensures
            r@ == self@,
    {
        self.copied()
    }
}

fn copy_all<T: Scalar>(nodes: &Vec<Node<T>>) -> (r: Vec<Node<T>>)
    ensures
        trees_of(r@) == trees_of(nodes@),
    decreases nodes, 1nat,
{
    let mut out: Vec<Node<T>> = Vec::new();
    for i in 0..nodes.len()
        invariant
            out@.len() == i,
            forall|j: int| 0 <= j < i ==> (#[trigger] out@[j])@ == nodes@[j]@,
    {
        assert(decreases_to!(*nodes => nodes[i as int]));
        let copy = nodes[i].copied();
        out.push(copy);
    }
    assert(trees_of(out@) =~= trees_of(nodes@));
    out
}

/// One drawing instruction. Deliberately flat and free of tree structure, so a
/// frame is a `Vec` that can be diffed, serialised, or replayed.
#[derive(Debug, Clone, PartialEq)]
pub enum Command<T> {
    Rect { x: T, y: T, width: T, height: T, color: Color<T> },
    Text { x: T, y: T, size: T, color: Color<T>, text: String },
    /// Everything up to the matching `ClipEnd` is confined to this rectangle.
    /// Nested clips intersect, so a scroll inside a scroll shows only what
    /// both allow.
    ClipStart { x: T, y: T, width: T, height: T },
    ClipEnd,
}

/// What a [`Command`] is.
pub enum Draw<T> {
    Rect { x: T, y: T, width: T, height: T, color: Color<T> },
    Text { x: T, y: T, size: T, color: Color<T>, text: Seq<char> },
    ClipStart { x: T, y: T, width: T, height: T },
    ClipEnd,
}

impl<T> View for Command<T> {
    type V = Draw<T>;

    open spec fn view(&self) -> Draw<T> {
        match *self {
            Command::Rect { x, y, width, height, color } => Draw::Rect {
                x,
                y,
                width,
                height,
                color,
            },
            Command::Text { x, y, size, color, text } => Draw::Text {
                x,
                y,
                size,
                color,
                text: text@,
            },
            Command::ClipStart { x, y, width, height } => Draw::ClipStart { x, y, width, height },
            Command::ClipEnd => Draw::ClipEnd,
        }
    }
}

/// What a list of commands is.
pub open spec fn draws_of<T>(commands: Seq<Command<T>>) -> Seq<Draw<T>> {
    Seq::new(commands.len(), |i: int| commands[i]@)
}

/// Where an identified node ended up, so input can be routed to it.
#[derive(Debug, Clone, Copy, PartialEq)]
pub struct HitRegion<T> {
    pub id: HitId,
    pub x: T,
    pub y: T,
    pub width: T,
    pub height: T,
    /// Whether clicking here takes keyboard focus.
    pub focusable: bool,
}

/// A rectangle, where geometry is geometry and nothing more.
#[derive(Debug, Clone, Copy, PartialEq)]
pub struct Bounds<T> {
    pub x: T,
    pub y: T,
    pub width: T,
    pub height: T,
}

/// A scrollable region as it stood in the frame that was drawn.
///
/// The platform measures the content and reports how far it *could* scroll;
/// the app owns where it *is*.
#[derive(Debug, Clone, Copy, PartialEq)]
pub struct ScrollExtent<T> {
    pub id: HitId,
    pub x: T,
    pub y: T,
    pub width: T,
    pub height: T,
    /// Where the content sits right now.
    pub offset: T,
    /// The furthest offset that still shows content. Zero means it all fits.
    pub max_offset: T,
}

/// A finished frame: draw these in order.
#[derive(Debug, Clone, PartialEq)]
pub struct Frame<T> {
    pub commands: Vec<Command<T>>,
    /// Identified regions, in paint order.
    pub hits: Vec<HitRegion<T>>,
    /// Scrollable regions, in paint order.
    pub scrolls: Vec<ScrollExtent<T>>,
}

/// What a [`Frame`] is.
pub struct Picture<T> {
    pub commands: Seq<Draw<T>>,
    pub hits: Seq<HitRegion<T>>,
    pub scrolls: Seq<ScrollExtent<T>>,
}

impl<T> View for Frame<T> {
    type V = Picture<T>;

    open spec fn view(&self) -> Picture<T> {
        Picture { commands: draws_of(self.commands@), hits: self.hits@, scrolls: self.scrolls@ }
    }
}

impl<T: Scalar> Default for Frame<T> {
    fn default() -> (r: Self)
        ensures
            r@ == Picture::<T>::blank(),
    {
        Frame::new()
    }
}

impl<T> Picture<T> {
    pub open spec fn blank() -> Self {
        Picture { commands: Seq::empty(), hits: Seq::empty(), scrolls: Seq::empty() }
    }

    /// One picture painted over another.
    pub open spec fn over(self, under: Self) -> Self {
        Picture {
            commands: under.commands + self.commands,
            hits: under.hits + self.hits,
            scrolls: under.scrolls + self.scrolls,
        }
    }
}

/// Whether a point is inside a rectangle: on its top or left edge or past it,
/// and before its bottom and right edges.
pub open spec fn inside<T: Scalar>(x: T, y: T, left: T, top: T, width: T, height: T) -> bool {
    &&& reaches(x, left)
    &&& below(x, plus(left, width))
    &&& reaches(y, top)
    &&& below(y, plus(top, height))
}

/// Whether a point is inside a rectangle.
fn is_inside<T: Scalar>(x: T, y: T, left: T, top: T, width: T, height: T) -> (r: bool)
    requires
        exact::<T>(),
    ensures
        r == inside(x, y, left, top, width, height),
{
    x >= left && x < left + width && y >= top && y < top + height
}

impl<T: Scalar> HitRegion<T> {
    pub open spec fn covers(self, x: T, y: T) -> bool {
        inside(x, y, self.x, self.y, self.width, self.height)
    }
}

impl<T: Scalar> ScrollExtent<T> {
    pub open spec fn covers(self, x: T, y: T) -> bool {
        inside(x, y, self.x, self.y, self.width, self.height)
    }
}

impl<T: Scalar> Bounds<T> {
    pub open spec fn covers(self, x: T, y: T) -> bool {
        inside(x, y, self.x, self.y, self.width, self.height)
    }

    /// The overlap of two rectangles, or `None` where they do not meet.
    pub open spec fn meet(self, other: Bounds<T>) -> Option<Bounds<T>> {
        let left = larger_of(self.x, other.x);
        let top = larger_of(self.y, other.y);
        let right = smaller_of(plus(self.x, self.width), plus(other.x, other.width));
        let bottom = smaller_of(plus(self.y, self.height), plus(other.y, other.height));
        if above(right, left) && above(bottom, top) {
            Some(
                Bounds {
                    x: left,
                    y: top,
                    width: minus(right, left),
                    height: minus(bottom, top),
                },
            )
        } else {
            None
        }
    }

    /// The overlap of two rectangles, or `None` where they do not meet. This is
    /// what makes nested clips intersect, and what stops a hit region scrolled
    /// out of sight from still being clickable.
    pub fn intersect(self, other: Bounds<T>) -> (r: Option<Bounds<T>>)
        requires
            exact::<T>(),
        ensures
            r == self.meet(other),
    {
        let left = larger(self.x, other.x);
        let top = larger(self.y, other.y);
        let right = smaller(self.x + self.width, other.x + other.width);
        let bottom = smaller(self.y + self.height, other.y + other.height);
        if right > left && bottom > top {
            Some(Bounds { x: left, y: top, width: right - left, height: bottom - top })
        } else {
            None
        }
    }
}

impl<T: Scalar> Picture<T> {
    /// The index of the last hit region a point is in.
    pub open spec fn topmost_hit(self, x: T, y: T, count: nat) -> Option<HitRegion<T>>
        decreases count,
    {
        if count == 0 || count > self.hits.len() {
            None
        } else if self.hits[count - 1].covers(x, y) {
            Some(self.hits[count - 1])
        } else {
            self.topmost_hit(x, y, (count - 1) as nat)
        }
    }

    /// The last scrollable region a point is in.
    pub open spec fn innermost_scroll(self, x: T, y: T, count: nat) -> Option<ScrollExtent<T>>
        decreases count,
    {
        if count == 0 || count > self.scrolls.len() {
            None
        } else if self.scrolls[count - 1].covers(x, y) {
            Some(self.scrolls[count - 1])
        } else {
            self.innermost_scroll(x, y, (count - 1) as nat)
        }
    }
}

impl<T: Scalar> Frame<T> {
    /// An empty frame.
    pub fn new() -> (r: Self)
        ensures
            r@ == Picture::<T>::blank(),
    {
        let r = Frame { commands: Vec::new(), hits: Vec::new(), scrolls: Vec::new() };
        assert(r@.commands =~= Seq::empty());
        r
    }

    /// Keeps the capacity, drops the contents.
    pub fn clear(&mut self)
        ensures
            final(self)@ == Picture::<T>::blank(),
    {
        self.commands.clear();
        self.hits.clear();
        self.scrolls.clear();
        assert(self@.commands =~= Seq::empty());
    }

    /// The innermost scrollable region under a point, or `None`.
    ///
    /// Found by geometry rather than by hit id, because the node under the
    /// pointer is usually a row *inside* the scroll, and the wheel belongs to
    /// the container either way.
    pub fn scroll_at(&self, x: T, y: T) -> (r: Option<&ScrollExtent<T>>)
        requires
            exact::<T>(),
        ensures
            match (r, self@.innermost_scroll(x, y, self@.scrolls.len())) {
                (Some(extent), Some(expected)) => *extent == expected,
                (None, None) => true,
                _ => false,
            },
    {
        let mut i: usize = self.scrolls.len();
        while i > 0
            invariant
                exact::<T>(),
                i <= self.scrolls@.len(),
                self@.innermost_scroll(x, y, self@.scrolls.len()) == self@.innermost_scroll(
                    x,
                    y,
                    i as nat,
                ),
            decreases i,
        {
            i = i - 1;
            let extent = &self.scrolls[i];
            if is_inside(x, y, extent.x, extent.y, extent.width, extent.height) {
                return Some(extent);
            }
        }
        None
    }

    /// Finds the node under a point. Paint order is tree order, so the last
    /// region painted is the one on top, and the search runs backwards.
    pub fn hit_test(&self, x: T, y: T) -> (r: Option<HitId>)
        requires
            exact::<T>(),
        ensures
            r == match self@.topmost_hit(x, y, self@.hits.len()) {
                Some(region) => Some(region.id),
                None => None,
            },
    {
        match self.hit_region(x, y) {
            Some(region) => Some(region.id),
            None => None,
        }
    }

    /// As `hit_test`, but keeping the region: the platform needs to know
    /// whether what was clicked takes focus, not merely what it was called.
    pub fn hit_region(&self, x: T, y: T) -> (r: Option<&HitRegion<T>>)
        requires
            exact::<T>(),
        ensures
            match (r, self@.topmost_hit(x, y, self@.hits.len())) {
                (Some(region), Some(expected)) => *region == expected,
                (None, None) => true,
                _ => false,
            },
    {
        let mut i: usize = self.hits.len();
        while i > 0
            invariant
                exact::<T>(),
                i <= self.hits@.len(),
                self@.topmost_hit(x, y, self@.hits.len()) == self@.topmost_hit(x, y, i as nat),
            decreases i,
        {
            i = i - 1;
            let region = &self.hits[i];
            if is_inside(x, y, region.x, region.y, region.width, region.height) {
                return Some(region);
            }
        }
        None
    }

    /// How many commands there are.
    pub fn len(&self) -> (r: usize)
        ensures
            r == self@.commands.len(),
    {
        self.commands.len()
    }

    pub fn is_empty(&self) -> (r: bool)
        ensures
            r == (self@.commands.len() == 0),
    {
        self.commands.len() == 0
    }
}

/// The topmost node wins: what a point hits covers it, and nothing painted
/// later does.
pub proof fn the_topmost_node_wins<T: Scalar>(picture: Picture<T>, x: T, y: T, count: nat)
    requires
        count <= picture.hits.len(),
    ensures
        match picture.topmost_hit(x, y, count) {
            Some(region) => exists|k: int|
                {
                    &&& 0 <= k < count
                    &&& #[trigger] picture.hits[k] == region
                    &&& region.covers(x, y)
                    &&& forall|later: int|
                        k < later < count ==> !(#[trigger] picture.hits[later]).covers(x, y)
                },
            None => forall|k: int|
                0 <= k < count ==> !(#[trigger] picture.hits[k]).covers(x, y),
        },
    decreases count,
{
    if count > 0 {
        if picture.hits[count - 1].covers(x, y) {
            assert(picture.hits[count - 1] == picture.topmost_hit(x, y, count)->Some_0);
        } else {
            the_topmost_node_wins(picture, x, y, (count - 1) as nat);
            if let Some(region) = picture.topmost_hit(x, y, (count - 1) as nat) {
                let k = choose|k: int|
                    {
                        &&& 0 <= k < count - 1
                        &&& #[trigger] picture.hits[k] == region
                        &&& region.covers(x, y)
                        &&& forall|later: int|
                            k < later < count - 1 ==> !(#[trigger] picture.hits[later]).covers(x, y)
                    };
                assert(picture.hits[k] == region);
            }
        }
    }
}

/// The innermost scroll wins: what the wheel moves is the last scrollable region
/// the point is in, and nothing where it is in none.
pub proof fn the_innermost_scroll_wins<T: Scalar>(picture: Picture<T>, x: T, y: T, count: nat)
    requires
        count <= picture.scrolls.len(),
    ensures
        match picture.innermost_scroll(x, y, count) {
            Some(found) => exists|k: int|
                0 <= k < count && found == #[trigger] picture.scrolls[k] && inside(
                    x,
                    y,
                    found.x,
                    found.y,
                    found.width,
                    found.height,
                ) && forall|j: int|
                    k < j < count ==> !(#[trigger] picture.scrolls[j]).covers(x, y),
            None => forall|j: int| 0 <= j < count ==> !(#[trigger] picture.scrolls[j]).covers(x, y),
        },
    decreases count,
{
    if count > 0 && !picture.scrolls[count - 1].covers(x, y) {
        the_innermost_scroll_wins(picture, x, y, (count - 1) as nat);
    } else if count > 0 {
        assert(picture.scrolls[count - 1].covers(x, y));
    }
}

/// A style that says nothing asks for nothing: it fits its content, leaves no
/// room around or between it, paints nothing, is no target, and starts its
/// children at the start.
pub proof fn a_plain_style_asks_for_nothing<T: Scalar>()
    ensures
        ({
            let style = Style::<T>::plain();
            &&& style.width is Fit && style.height is Fit
            &&& style.padding == whole::<T>(0) && style.gap == whole::<T>(0)
            &&& style.main_axis is Start && style.cross_axis is Start
            &&& style.background is None
            &&& style.id is None && !style.focusable
        }),
{
}

} // verus!
