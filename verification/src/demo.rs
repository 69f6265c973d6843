//! The demos: what their actors do next, and what they show.

use core::ops::Rem;

use vstd::prelude::*;
use vstd::std_specs::ops::RemSpec;
use vstd::string::StringExecFns;

use crate::input::InputEvent;
use crate::scalar::{exact, from_ratio, from_whole, over, plus, ratio, times, whole, Scalar};
use crate::scene::{trees_of, Color, HitId, Node, Sizing, Style, Tree};
use crate::text::{decimal, push_number};

verus! {

/// One step of the crash demo's script.
#[derive(Debug, Clone, Copy, PartialEq, Eq, Structural)]
pub enum Act {
    /// Let this many beats pass.
    Wait(u32),
    /// Send the crasher something it can handle.
    Ping,
    /// Send the crasher something it cannot.
    Boom,
    /// Say that the crasher is about to be sent something it cannot handle.
    SayBoom,
    /// Say that the restarted actor is about to be pinged.
    SayPing,
    /// Stop both actors.
    Finish,
}

/// One round of the script.
pub open spec fn round() -> Seq<Act> {
    seq![
        Act::Wait(1),
        Act::Ping,
        Act::Wait(1),
        Act::Ping,
        Act::Wait(1),
        Act::SayBoom,
        Act::Boom,
        Act::Wait(1),
        Act::SayPing,
        Act::Ping,
        Act::Wait(1),
    ]
}

/// What the script does at a step, and which step follows. A crasher is pinged
/// twice, crashed, and pinged again once it has been restarted; `forever` runs
/// the round again, after long enough to read the overlay, instead of ending.
pub fn crash_step(step: u32, forever: bool) -> (r: (Act, u32))
    ensures
        step < round().len() ==> r == (round()[step as int], (step + 1) as u32),
        step >= round().len() && forever ==> r == (Act::Wait(8), 0u32),
        step >= round().len() && !forever ==> r == (Act::Finish, step),
{
    if step == 1 || step == 3 || step == 9 {
        (Act::Ping, step + 1)
    } else if step == 5 {
        (Act::SayBoom, step + 1)
    } else if step == 6 {
        (Act::Boom, step + 1)
    } else if step == 8 {
        (Act::SayPing, step + 1)
    } else if step < 11 {
        (Act::Wait(1), step + 1)
    } else if forever {
        (Act::Wait(8), 0)
    } else {
        (Act::Finish, step)
    }
}

/// The bytes a step of the script sends.
pub fn poke(act: Act) -> (r: Vec<u8>)
    requires
        act is Ping || act is Boom,
    ensures
        r@ == if act is Boom {
            seq![0x42u8, 0x4f, 0x4f, 0x4d]
        } else {
            seq![0x50u8, 0x49, 0x4e, 0x47]
        },
{
    match act {
        Act::Boom => vec![0x42, 0x4f, 0x4f, 0x4d],
        _ => vec![0x50, 0x49, 0x4e, 0x47],
    }
}

/// The one node of the panel demo that takes input.
pub const PANEL: u32 = 1;

/// What the panel demo says about an event, and whether it arms the panel or
/// disarms it. It has no field to type into and nothing to scroll.
pub open spec fn heard<T>(event: InputEvent<T>) -> (Option<Seq<char>>, bool) {
    match event {
        InputEvent::PointerDown { id, .. } => (
            Some("app: pointer down on node "@ + decimal(id.0 as int)),
            true,
        ),
        InputEvent::PointerEnter { id } => (Some("app: enter "@ + decimal(id.0 as int)), false),
        InputEvent::PointerLeave { id } => (Some("app: leave "@ + decimal(id.0 as int)), false),
        _ => (None, false),
    }
}

/// Takes an event: a click on the panel arms it, and the next disarms it.
/// Returns what there is to say about it.
pub fn hear<T>(armed: &mut bool, event: InputEvent<T>) -> (r: Option<String>)
    ensures
        *final(armed) == (*old(armed) != heard(event).1),
        match (r, heard(event).0) {
            (Some(line), Some(expected)) => line@ == expected,
            (None, None) => true,
            _ => false,
        },
{
    match event {
        InputEvent::PointerDown { id, .. } => {
            *armed = !*armed;
            let mut out = "app: pointer down on node ".to_owned();
            push_number(&mut out, id.0 as u64);
            Some(out)
        },
        InputEvent::PointerEnter { id } => {
            let mut out = "app: enter ".to_owned();
            push_number(&mut out, id.0 as u64);
            Some(out)
        },
        InputEvent::PointerLeave { id } => {
            let mut out = "app: leave ".to_owned();
            push_number(&mut out, id.0 as u64);
            Some(out)
        },
        _ => None,
    }
}

/// The next step of the bar, which starts over when it is full.
pub fn advance<T: Scalar + Rem<Output = T>>(step: T) -> (r: T)
    requires
        exact::<T>(),
        T::obeys_rem_spec(),
        plus(step, ratio::<T>(2, 100)).rem_req(whole::<T>(1)),
    ensures
        r == plus(step, ratio::<T>(2, 100)).rem_spec(whole::<T>(1)),
{
    (step + from_ratio(2, 100)) % from_whole(1)
}

/// A bar whose width tracks `step`, so that movement is progress, over a panel
/// that can be clicked.
pub open spec fn ui_tree<T: Scalar>(step: T, armed: bool) -> Tree<T> {
    let plain = Style::<T>::plain();
    Tree::Column {
        style: Style {
            width: Sizing::Grow,
            height: Sizing::Grow,
            padding: whole::<T>(24),
            gap: whole::<T>(16),
            ..plain
        },
        children: seq![
            Tree::Box {
                style: Style {
                    width: Sizing::Percent(
                        plus(ratio::<T>(10, 100), times(step, ratio::<T>(85, 100))),
                    ),
                    height: Sizing::Fixed(whole::<T>(56)),
                    background: Some(Color::<T>::solid(35, 55, 95)),
                    ..plain
                },
            },
            Tree::Box {
                style: Style {
                    id: Some(HitId(PANEL)),
                    width: Sizing::Grow,
                    height: Sizing::Grow,
                    background: Some(
                        if armed {
                            Color::<T>::solid(95, 45, 35)
                        } else {
                            Color::<T>::solid(13, 14, 18)
                        },
                    ),
                    ..plain
                },
            },
        ],
    }
}

/// What the panel demo shows.
pub fn ui_scene<T: Scalar>(step: T, armed: bool) -> (r: Node<T>)
    requires
        exact::<T>(),
    ensures
        r@ == ui_tree(step, armed),
{
    let bar = Node::Box {
        style: Style {
            width: Sizing::Percent(from_ratio::<T>(10, 100) + step * from_ratio(85, 100)),
            height: Sizing::Fixed(from_whole(56)),
            background: Some(Color::of_solid(35, 55, 95)),
            ..Style::default()
        },
    };
    // A clickable panel: it carries a `HitId`, so input routes here.
    let color = if armed {
        Color::<T>::of_solid(95, 45, 35)
    } else {
        Color::<T>::of_solid(13, 14, 18)
    };
    let panel = Node::Box {
        style: Style {
            id: Some(HitId(PANEL)),
            width: Sizing::Grow,
            height: Sizing::Grow,
            background: Some(color),
            ..Style::default()
        },
    };
    let children = vec![bar, panel];
    assert(trees_of(children@) =~= ui_tree(step, armed).children());
    Node::column(
        Style {
            width: Sizing::Grow,
            height: Sizing::Grow,
            padding: from_whole(24),
            gap: from_whole(16),
            ..Style::default()
        },
        children,
    )
}

/// The bar is as long as the step it is at, and the panel under it is what is
/// clicked: it fills what is left, and being armed changes its colour and
/// nothing else.
pub proof fn the_bar_shows_the_step<T: Scalar>(step: T, other: T, armed: bool)
    ensures
        ({
            let tree = ui_tree(step, armed);
            let bar = tree.children()[0].style()->Some_0;
            let panel = tree.children()[1].style()->Some_0;
            let same = ui_tree(step, !armed);
            &&& tree is Column && tree.children().len() == 2
            &&& bar.width == Sizing::Percent(
                plus(
                    over(whole::<T>(10), whole::<T>(100)),
                    times(step, over(whole::<T>(85), whole::<T>(100))),
                ),
            )
            &&& bar.height == Sizing::Fixed(whole::<T>(56)) && bar.id is None
            &&& panel.id == Some(HitId(PANEL)) && panel.width is Grow && panel.height is Grow
            &&& ui_tree(other, armed).children()[1] == tree.children()[1]
            &&& same.children()[0] == tree.children()[0]
            &&& same.children()[1].style()->Some_0 == (Style {
                background: same.children()[1].style()->Some_0.background,
                ..panel
            })
            &&& panel.background == Some(
                if armed {
                    Color {
                        r: over(whole::<T>(95), whole::<T>(100)),
                        g: over(whole::<T>(45), whole::<T>(100)),
                        b: over(whole::<T>(35), whole::<T>(100)),
                        a: whole::<T>(1),
                    }
                } else {
                    Color {
                        r: over(whole::<T>(13), whole::<T>(100)),
                        g: over(whole::<T>(14), whole::<T>(100)),
                        b: over(whole::<T>(18), whole::<T>(100)),
                        a: whole::<T>(1),
                    }
                },
            )
        }),
{
}

/// A press arms and the next one disarms; nothing else does either, and what is
/// said names the node it is about.
pub proof fn only_a_press_arms<T>(event: InputEvent<T>)
    ensures
        heard(event).1 <==> event is PointerDown,
        heard(event).0 is Some <==> event is PointerDown || event is PointerEnter
            || event is PointerLeave,
        event matches InputEvent::PointerDown { id, .. } ==> heard(event).0 == Some(
            "app: pointer down on node "@ + decimal(id.0 as int),
        ),
        event matches InputEvent::PointerEnter { id } ==> heard(event).0 == Some(
            "app: enter "@ + decimal(id.0 as int),
        ),
        event matches InputEvent::PointerLeave { id } ==> heard(event).0 == Some(
            "app: leave "@ + decimal(id.0 as int),
        ),
{
}

} // verus!
