//! The todo list.

use strand::input::InputEvent;
use strand::scene::HitId;
use strand::todo::{view, State, ADD_BUTTON, CHECKBOX_BASE, CLEAR_BUTTON};

type Theme = strand::widgets::Theme<f32>;

fn click(id: HitId) -> InputEvent<f32> {
    InputEvent::PointerDown { id, x: 0.0, y: 0.0 }
}

#[test]
fn toggling_a_checkbox_flips_one_todo() {
    let state = State::new();
    let before = state.todos[2].done;
    let after = state.update(click(HitId(CHECKBOX_BASE + 2)));
    assert_eq!(after.todos[2].done, !before);
    assert_eq!(after.todos[0].done, State::new().todos[0].done, "others untouched");
}

#[test]
fn add_appends_a_todo() {
    let state = State::new().update(click(HitId(ADD_BUTTON)));
    assert_eq!(state.todos.len(), 4);
    assert!(!state.todos[3].done, "a new todo starts undone");
}

#[test]
fn clear_removes_completed_todos() {
    let state = State::new().update(click(HitId(CLEAR_BUTTON)));
    assert_eq!(state.todos.len(), 1, "the two done ones go");
    assert!(state.todos.iter().all(|todo| !todo.done));
}

#[test]
fn clearing_nothing_shows_a_notice_rather_than_failing() {
    let mut state = State::new();
    state.todos.iter_mut().for_each(|todo| todo.done = false);
    let state = state.update(click(HitId(CLEAR_BUTTON)));
    assert_eq!(state.notice.as_deref(), Some("nothing completed to clear"));
    assert_eq!(state.todos.len(), 3, "and nothing was removed");
}

#[test]
fn a_notice_clears_on_the_next_action() {
    let mut state = State::new();
    state.todos.iter_mut().for_each(|todo| todo.done = false);
    let state = state.update(click(HitId(CLEAR_BUTTON)));
    assert!(state.notice.is_some());
    let state = state.update(click(HitId(ADD_BUTTON)));
    assert!(state.notice.is_none(), "the notice is about the last action only");
}

#[test]
fn clicks_that_hit_nothing_known_change_nothing() {
    let state = State::new();
    let after = state.clone().update(click(HitId(999)));
    assert_eq!(after.todos, state.todos);
}

#[test]
fn the_view_is_a_pure_function_of_state() {
    // Re-running the view must produce the same tree, which is what lets
    // the compositor treat frames as interchangeable.
    let state = State::new();
    let theme = Theme::standard();
    assert_eq!(view(&theme, &state), view(&theme, &state));
}

#[test]
fn toggling_the_same_box_twice_changes_nothing() {
    let once = State::new().update(click(HitId(CHECKBOX_BASE)));
    assert_ne!(once.todos, State::new().todos);
    let twice = once.update(click(HitId(CHECKBOX_BASE)));
    assert_eq!(twice.todos, State::new().todos);
}
