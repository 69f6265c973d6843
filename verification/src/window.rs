//! What the window does with what the platform tells it.
//!
//! The event loop belongs to the platform. What an event means is decided
//! here: which node the pointer entered or left, which one was pressed,
//! whether a resize is worth following, and when it is time to report the
//! compositor's own rate.

use vstd::prelude::*;

use crate::input::InputEvent;
use crate::scalar::{exact, from_ratio, from_whole, ratio, whole, Scalar};
use crate::scene::{trees_of, Color, Frame, HitId, Node, Sizing, Style, TextStyle, Tree};

verus! {

/// Where the pointer is, and what was counted since the last report.
#[derive(Debug, Clone, Copy, PartialEq)]
pub struct WindowState<T> {
    pub x: T,
    pub y: T,
    pub hovered: Option<HitId>,
    /// Frames drawn, so the compositor's own rate is measurable rather than
    /// merely claimed.
    pub frames: u32,
    /// Scenes drawn, to show how far the app fell behind.
    pub updates: u32,
}

/// What the app is told when the pointer goes from one node to another.
pub open spec fn crossing<T>(from: Option<HitId>, to: Option<HitId>) -> Seq<InputEvent<T>> {
    if from == to {
        Seq::empty()
    } else {
        (match from {
            Some(id) => seq![InputEvent::<T>::PointerLeave { id }],
            None => Seq::empty(),
        }) + (match to {
            Some(id) => seq![InputEvent::<T>::PointerEnter { id }],
            None => Seq::empty(),
        })
    }
}

impl<T: Scalar> WindowState<T> {
    pub fn new() -> (r: Self)
        requires
            exact::<T>(),
        ensures
            r == (WindowState {
                x: whole::<T>(0),
                y: whole::<T>(0),
                hovered: None,
                frames: 0,
                updates: 0,
            }),
    {
        WindowState { x: from_whole(0), y: from_whole(0), hovered: None, frames: 0, updates: 0 }
    }

    /// The pointer moved. It is hit-tested against the frame actually on
    /// screen, and what it left and entered is what the app is told, if an app
    /// is listening.
    pub fn cursor_moved(&mut self, frame: &Frame<T>, x: T, y: T, listening: bool) -> (r: Vec<
        InputEvent<T>,
    >)
        requires
            exact::<T>(),
        ensures
            ({
                let hit = match frame@.topmost_hit(x, y, frame@.hits.len()) {
                    Some(region) => Some(region.id),
                    None => None,
                };
                &&& *final(self) == (WindowState { x, y, hovered: hit, ..*old(self) })
                &&& r@ == if listening {
                    crossing::<T>(old(self).hovered, hit)
                } else {
                    Seq::empty()
                }
            }),
    {
        self.x = x;
        self.y = y;
        let hit = frame.hit_test(x, y);
        let mut events: Vec<InputEvent<T>> = Vec::new();
        if hit != self.hovered {
            if listening {
                if let Some(id) = self.hovered {
                    events.push(InputEvent::PointerLeave { id });
                }
                if let Some(id) = hit {
                    events.push(InputEvent::PointerEnter { id });
                }
                assert(events@ =~= crossing::<T>(self.hovered, hit));
            }
            self.hovered = hit;
        }
        events
    }

    /// A button was pressed or released. It belongs to the node under the
    /// pointer, if there is one.
    pub fn mouse_input(&self, pressed: bool) -> (r: Option<InputEvent<T>>)
        ensures
            r == match self.hovered {
                None => None,
                Some(id) => if pressed {
                    Some(InputEvent::PointerDown { id, x: self.x, y: self.y })
                } else {
                    Some(InputEvent::PointerUp { id, x: self.x, y: self.y })
                },
            },
    {
        let (x, y) = (self.x, self.y);
        match self.hovered {
            None => None,
            Some(id) => if pressed {
                Some(InputEvent::PointerDown { id, x, y })
            } else {
                Some(InputEvent::PointerUp { id, x, y })
            },
        }
    }

    /// A frame is drawn, of a new scene or of the same one. Once a second has
    /// passed, the frames and scenes counted since are reported.
    pub fn drew(&mut self, new_scene: bool, second_passed: bool) -> (r: Option<(u32, u32)>)
        requires
            old(self).frames < u32::MAX,
            old(self).updates < u32::MAX,
        ensures
            ({
                let frames = (old(self).frames + 1) as u32;
                let updates = (old(self).updates + if new_scene {
                    1int
                } else {
                    0int
                }) as u32;
                if second_passed {
                    &&& r == Some((frames, updates))
                    &&& *final(self) == (WindowState { frames: 0, updates: 0, ..*old(self) })
                } else {
                    &&& r is None
                    &&& *final(self) == (WindowState { frames, updates, ..*old(self) })
                }
            }),
    {
        if new_scene {
            self.updates = self.updates + 1;
        }
        self.frames = self.frames + 1;
        if second_passed {
            let counted = (self.frames, self.updates);
            self.frames = 0;
            self.updates = 0;
            Some(counted)
        } else {
            None
        }
    }
}

/// The size a surface is given when the window becomes this large. A window
/// with no area has no surface to configure.
pub fn resize(width: u32, height: u32) -> (r: Option<(u32, u32)>)
    ensures
        r == if width > 0 && height > 0 {
            Some((width, height))
        } else {
            None
        },
{
    if width > 0 && height > 0 {
        Some((width, height))
    } else {
        None
    }
}

/// Going somewhere and back tells the app as much as it undoes: every node
/// that was entered on the way is left again.
pub proof fn what_is_entered_is_left<T>(from: Option<HitId>, to: Option<HitId>)
    requires
        from != to,
    ensures
        to matches Some(id) ==> crossing::<T>(from, to).last() == (InputEvent::<T>::PointerEnter {
            id,
        }) && crossing::<T>(to, from)[0] == (InputEvent::<T>::PointerLeave { id }),
        from matches Some(id) ==> crossing::<T>(from, to)[0] == (InputEvent::<T>::PointerLeave {
            id,
        }) && crossing::<T>(to, from).last() == (InputEvent::<T>::PointerEnter { id }),
{
}

/// A bar as wide as its parent.
pub open spec fn bar_of<T: Scalar>(height: u16, color: Color<T>) -> Tree<T> {
    Tree::Box {
        style: Style {
            width: Sizing::Grow,
            height: Sizing::Fixed(whole::<T>(height)),
            background: Some(color),
            ..Style::<T>::plain()
        },
    }
}

fn bar<T: Scalar>(height: u16, color: Color<T>) -> (r: Node<T>)
    requires
        exact::<T>(),
    ensures
        r@ == bar_of(height, color),
{
    Node::Box {
        style: Style {
            width: Sizing::Grow,
            height: Sizing::Fixed(from_whole(height)),
            background: Some(color),
            ..Style::default()
        },
    }
}

/// What the window shows before an app has submitted anything.
pub open spec fn demo_tree<T: Scalar>() -> Tree<T> {
    let panel = Color::<T>::solid(13, 14, 18);
    let accent = Color::<T>::solid(35, 55, 95);
    let muted = Color::<T>::solid(22, 23, 28);
    let plain = Style::<T>::plain();
    let sidebar = Tree::Box {
        style: Style {
            width: Sizing::Percent(ratio::<T>(28, 100)),
            height: Sizing::Grow,
            background: Some(panel),
            ..plain
        },
    };
    let list = Tree::Column {
        style: Style {
            width: Sizing::Grow,
            height: Sizing::Grow,
            padding: whole::<T>(12),
            gap: whole::<T>(8),
            background: Some(panel),
            ..plain
        },
        children: seq![
            bar_of(28, muted),
            bar_of(28, muted),
            bar_of(28, accent),
            bar_of(28, muted),
        ],
    };
    let body = Tree::Row {
        style: Style {
            width: Sizing::Grow,
            height: Sizing::Grow,
            gap: whole::<T>(12),
            ..plain
        },
        children: seq![sidebar, list],
    };
    Tree::Column {
        style: Style {
            width: Sizing::Grow,
            height: Sizing::Grow,
            padding: whole::<T>(16),
            gap: whole::<T>(12),
            ..plain
        },
        children: seq![
            bar_of(48, accent),
            body,
            Tree::Text {
                text: "strand"@,
                style: TextStyle { size: whole::<T>(16), color: Color::<T>::solid(90, 90, 92) },
            },
        ],
    }
}

/// A stand-in UI until an app actor submits one: a header, a sidebar and a few
/// rows, enough to show layout and painting working together.
pub fn demo_scene<T: Scalar>() -> (r: Node<T>)
    requires
        exact::<T>(),
    ensures
        r@ == demo_tree::<T>(),
{
    let panel = Color::<T>::of_solid(13, 14, 18);
    let accent = Color::<T>::of_solid(35, 55, 95);
    let muted = Color::<T>::of_solid(22, 23, 28);
    let sidebar = Node::Box {
        style: Style {
            width: Sizing::Percent(from_ratio(28, 100)),
            height: Sizing::Grow,
            background: Some(panel),
            ..Style::default()
        },
    };
    let rows = vec![bar(28, muted), bar(28, muted), bar(28, accent), bar(28, muted)];
    assert(trees_of(rows@) =~= seq![
        bar_of(28, muted),
        bar_of(28, muted),
        bar_of(28, accent),
        bar_of(28, muted),
    ]);
    let list = Node::column(
        Style {
            width: Sizing::Grow,
            height: Sizing::Grow,
            padding: from_whole(12),
            gap: from_whole(8),
            background: Some(panel),
            ..Style::default()
        },
        rows,
    );
    let ghost side = sidebar@;
    let ghost lines = list@;
    let columns = vec![sidebar, list];
    assert(trees_of(columns@) =~= seq![side, lines]);
    let body = Node::row(
        Style {
            width: Sizing::Grow,
            height: Sizing::Grow,
            gap: from_whole(12),
            ..Style::default()
        },
        columns,
    );
    let ghost middle = body@;
    let title = Node::text("strand".to_owned(), TextStyle::standard());
    let ghost last = title@;
    let children = vec![bar(48, accent), body, title];
    assert(trees_of(children@) =~= seq![bar_of(48, accent), middle, last]);
    Node::column(
        Style {
            width: Sizing::Grow,
            height: Sizing::Grow,
            padding: from_whole(16),
            gap: from_whole(12),
            ..Style::default()
        },
        children,
    )
}

} // verus!
