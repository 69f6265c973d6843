//! Input on its way to an actor, and what the window does with it.

use strand::demo::{advance, crash_step, hear, poke, ui_scene, Act, PANEL};
use strand::input::{spec_for, InputEvent, Key};
use strand::scene::{Frame, HitId, HitRegion, Node};
use strand::window::{demo_scene, resize, WindowState};

/// The variants of the platform's input type, and how many fields each has.
const VARIANTS: [(&str, usize); 7] = [
    ("Click", 1),
    ("Typed", 1),
    ("Backspace", 0),
    ("Enter", 0),
    ("Escape", 0),
    ("Focus", 1),
    ("Scrolled", 2),
];

#[test]
fn every_event_an_actor_can_receive_has_a_spec() {
    // The two tables have to line up: anything `spec_for` produces must name a
    // variant the input type declares, or the encoder will reject it at the
    // moment someone clicks.
    let events = [
        InputEvent::PointerDown { id: HitId(7), x: 0.0, y: 0.0 },
        InputEvent::Key { id: HitId(1), key: Key::Char('a') },
        InputEvent::Key { id: HitId(1), key: Key::Backspace },
        InputEvent::Key { id: HitId(1), key: Key::Enter },
        InputEvent::Key { id: HitId(1), key: Key::Escape },
        InputEvent::FocusChanged { id: Some(HitId(3)) },
        InputEvent::FocusChanged { id: None },
        InputEvent::Scroll { id: HitId(4), offset: 12.5 },
    ];

    for event in events {
        let spec = spec_for(event).unwrap_or_else(|| panic!("no spec for {event:?}"));
        let head = spec.split_whitespace().next().expect("a variant name");
        let (_, fields) = VARIANTS
            .iter()
            .find(|(name, _)| *name == head)
            .unwrap_or_else(|| panic!("`{head}` is not a declared input variant"));
        let args = spec.split_whitespace().count() - 1;
        assert_eq!(
            args, *fields,
            "`{head}` was given {args} argument(s), but takes {fields}"
        );
    }
}

#[test]
fn events_no_actor_can_ask_for_are_not_delivered() {
    // Pointer release and hover have no variant, so there is nothing to
    // deliver them to. Silently dropping them beats inventing a message.
    assert!(spec_for(InputEvent::PointerUp { id: HitId(1), x: 0.0, y: 0.0 }).is_none());
    assert!(spec_for(InputEvent::<f32>::PointerEnter { id: HitId(1) }).is_none());
    assert!(spec_for(InputEvent::<f32>::PointerLeave { id: HitId(1) }).is_none());
}

#[test]
fn nothing_focused_is_the_same_zero_a_node_without_an_id_has() {
    assert_eq!(
        spec_for(InputEvent::<f32>::FocusChanged { id: None }).as_deref(),
        Some("Focus 0")
    );
}

#[test]
fn a_typed_character_travels_as_its_scalar_value() {
    // A message may carry no pointer, so the character cannot be a string.
    let spec = spec_for(InputEvent::<f32>::Key { id: HitId(1), key: Key::Char('é') });
    assert_eq!(spec.as_deref(), Some("Typed 233"));
}

#[test]
fn every_event_is_spelt_exactly() {
    let spec = |event: InputEvent<f32>| spec_for(event).unwrap();
    assert_eq!(spec(InputEvent::PointerDown { id: HitId(7), x: 1.0, y: 2.0 }), "Click 7");
    assert_eq!(spec(InputEvent::Key { id: HitId(1), key: Key::Escape }), "Escape");
    assert_eq!(spec(InputEvent::FocusChanged { id: Some(HitId(3)) }), "Focus 3");
    assert_eq!(spec(InputEvent::Scroll { id: HitId(4), offset: 12.5 }), "Scrolled 4 12.5");
    assert_eq!(spec(InputEvent::Scroll { id: HitId(4), offset: 12.0 }), "Scrolled 4 12");
}

fn region(id: u32, x: f32, width: f32) -> HitRegion<f32> {
    HitRegion { id: HitId(id), x, y: 0.0, width, height: 10.0, focusable: false }
}

#[test]
fn the_pointer_leaves_one_node_and_enters_the_next() {
    let mut frame: Frame<f32> = Frame::default();
    frame.hits = vec![region(1, 0.0, 10.0), region(2, 10.0, 10.0)];
    let mut window = WindowState::new();
    assert_eq!(
        window.cursor_moved(&frame, 5.0, 5.0, true),
        vec![InputEvent::PointerEnter { id: HitId(1) }]
    );
    assert!(window.cursor_moved(&frame, 6.0, 5.0, true).is_empty(), "still the same node");
    assert_eq!(
        window.cursor_moved(&frame, 10.0, 5.0, true),
        vec![
            InputEvent::PointerLeave { id: HitId(1) },
            InputEvent::PointerEnter { id: HitId(2) },
        ]
    );
    assert_eq!(
        window.mouse_input(true),
        Some(InputEvent::PointerDown { id: HitId(2), x: 10.0, y: 5.0 })
    );
    assert_eq!(
        window.mouse_input(false),
        Some(InputEvent::PointerUp { id: HitId(2), x: 10.0, y: 5.0 })
    );
    assert!(window.cursor_moved(&frame, 99.0, 5.0, false).is_empty(), "nobody is listening");
    assert_eq!(window.hovered, None);
    assert_eq!(window.mouse_input(true), None);
}

#[test]
fn a_second_of_frames_is_reported_and_counting_starts_over() {
    let mut window: WindowState<f32> = WindowState::new();
    assert_eq!(window.drew(true, false), None);
    assert_eq!(window.drew(false, false), None);
    assert_eq!(window.drew(true, true), Some((3, 2)));
    assert_eq!((window.frames, window.updates), (0, 0));
}

#[test]
fn a_window_with_no_area_is_not_resized() {
    assert_eq!(resize(640, 480), Some((640, 480)));
    assert_eq!(resize(0, 480), None);
    assert_eq!(resize(640, 0), None);
}

#[test]
fn the_stand_in_scene_has_a_header_a_body_and_a_title() {
    let tree: Node<f32> = demo_scene();
    let Node::Column { style, children } = &tree else { panic!("a column") };
    assert_eq!((style.padding, style.gap), (16.0, 12.0));
    assert_eq!(children.len(), 3);
    let Node::Box { style } = &children[0] else { panic!("a header") };
    let accent = style.background.unwrap();
    assert_eq!((accent.r, accent.g, accent.b, accent.a), (0.35, 0.55, 0.95, 1.0));
    let Node::Text { text, style } = &children[2] else { panic!("a title") };
    assert_eq!((text.as_str(), style.size), ("strand", 16.0));
    assert_eq!(tree.copied(), tree);
}

#[test]
fn the_crash_script_pings_crashes_and_pings_again() {
    let run = |forever: bool| {
        let mut step = 0;
        let mut acts = Vec::new();
        while acts.len() < 13 {
            let (act, next) = crash_step(step, forever);
            acts.push(act);
            step = next;
        }
        acts
    };
    let once = run(false);
    assert_eq!(once[0], Act::Wait(1));
    assert_eq!(once[1], Act::Ping);
    assert_eq!(once[6], Act::Boom);
    assert_eq!(once[9], Act::Ping);
    assert_eq!(once[11], Act::Finish);
    let again = run(true);
    assert_eq!(again[11], Act::Wait(8));
    assert_eq!(again[12], Act::Wait(1));
    assert_eq!(poke(Act::Boom), b"BOOM");
    assert_eq!(poke(Act::Ping), b"PING");
}

#[test]
fn the_panel_demo_arms_on_a_click() {
    let mut armed = false;
    let click = InputEvent::PointerDown { id: HitId(PANEL), x: 0.0, y: 0.0 };
    assert_eq!(hear(&mut armed, click).as_deref(), Some("app: pointer down on node 1"));
    assert!(armed);
    assert_eq!(
        hear(&mut armed, InputEvent::<f32>::PointerEnter { id: HitId(1) }).as_deref(),
        Some("app: enter 1")
    );
    assert!(hear(&mut armed, InputEvent::<f32>::FocusChanged { id: None }).is_none());
    let Node::Column { children, .. } = ui_scene(0.5f32, armed) else { panic!("a column") };
    let Node::Box { style } = &children[1] else { panic!("a panel") };
    assert_eq!(style.background.unwrap().r, 0.95);
    hear(&mut armed, click);
    assert!(!armed);
    assert_eq!(advance(0.5f32), 0.52);
    assert!(advance(0.99f32) < 0.02, "the bar starts over");
}
