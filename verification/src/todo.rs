//! A todo list: state, handler and view.
//!
//! The actor owns a record, events are messages, and the handler returns the
//! next state. The view is a pure function of it.

use vstd::prelude::*;
use vstd::string::StringExecFns;

use crate::input::InputEvent;
use crate::scalar::{exact, Scalar};
use crate::scene::{trees_of, HitId, Node, Sizing, Style, Tree};
use crate::text::{decimal, push_number};
use crate::widgets::{
    button, button_of, checkbox, checkbox_of, label, label_of, muted_label, muted_label_of, panel,
    panel_of, screen, screen_of, Theme,
};
use crate::widgets::{
    a_widget_says_what_it_was_given, checking_a_box_fills_its_mark, is_mark, texts_in,
};

verus! {

#[derive(Debug, Clone, PartialEq)]
pub struct Todo {
    pub title: String,
    pub done: bool,
}

#[derive(Debug, Clone, PartialEq)]
pub struct State {
    pub todos: Vec<Todo>,
    /// Set when a rule rejects an action: it shows a notice, not a crash.
    pub notice: Option<String>,
}

/// What a [`Todo`] is.
pub struct Item {
    pub title: Seq<char>,
    pub done: bool,
}

/// What a [`State`] is.
pub struct TodoList {
    pub todos: Seq<Item>,
    pub notice: Option<Seq<char>>,
}

impl View for Todo {
    type V = Item;

    open spec fn view(&self) -> Item {
        Item { title: self.title@, done: self.done }
    }
}

pub open spec fn items_of(todos: Seq<Todo>) -> Seq<Item> {
    Seq::new(todos.len(), |i: int| todos[i]@)
}

impl View for State {
    type V = TodoList;

    open spec fn view(&self) -> TodoList {
        TodoList {
            todos: items_of(self.todos@),
            notice: match self.notice {
                Some(text) => Some(text@),
                None => None,
            },
        }
    }
}

/// Ids are assigned by position, with a base per widget kind so a checkbox and
/// a button can never collide.
pub const CHECKBOX_BASE: u32 = 1000;

pub const ADD_BUTTON: u32 = 1;

pub const CLEAR_BUTTON: u32 = 2;

/// The todos that are not done, of the first `count`.
pub open spec fn pending(todos: Seq<Item>, count: nat) -> Seq<Item>
    decreases count,
{
    if count == 0 {
        Seq::empty()
    } else {
        let before = pending(todos, (count - 1) as nat);
        if todos[count - 1].done {
            before
        } else {
            before.push(todos[count - 1])
        }
    }
}

/// How many of the first `count` todos are done.
pub open spec fn done_count(todos: Seq<Item>, count: nat) -> nat
    decreases count,
{
    if count == 0 {
        0
    } else {
        done_count(todos, (count - 1) as nat) + if todos[count - 1].done {
            1nat
        } else {
            0nat
        }
    }
}

impl TodoList {
    /// The list once a node was clicked.
    pub open spec fn clicked(self, id: HitId) -> TodoList {
        if id.0 == ADD_BUTTON {
            TodoList {
                todos: self.todos.push(
                    Item {
                        title: "new todo "@ + decimal(self.todos.len() as int + 1),
                        done: false,
                    },
                ),
                notice: None,
            }
        } else if id.0 == CLEAR_BUTTON {
            let left = pending(self.todos, self.todos.len());
            TodoList {
                todos: left,
                notice: if left.len() == self.todos.len() {
                    Some("nothing completed to clear"@)
                } else {
                    None
                },
            }
        } else if id.0 >= CHECKBOX_BASE && id.0 - CHECKBOX_BASE < self.todos.len() {
            let index = id.0 - CHECKBOX_BASE;
            TodoList {
                todos: self.todos.update(
                    index,
                    Item { done: !self.todos[index].done, ..self.todos[index] },
                ),
                notice: None,
            }
        } else {
            TodoList { notice: None, ..self }
        }
    }

    /// The list once something happened. Only a click means anything to it.
    pub open spec fn next<T>(self, event: InputEvent<T>) -> TodoList {
        match event {
            InputEvent::PointerDown { id, .. } => self.clicked(id),
            _ => self,
        }
    }
}

impl State {
    /// Three todos, the first two done.
    pub fn new() -> (r: Self)
        ensures
            r@ == (TodoList {
                todos: seq![
                    Item { title: "write the compiler"@, done: true },
                    Item { title: "write the runtime"@, done: true },
                    Item { title: "write the renderer"@, done: false },
                ],
                notice: None,
            }),
    {
        let todos = vec![
            Todo { title: "write the compiler".to_owned(), done: true },
            Todo { title: "write the runtime".to_owned(), done: true },
            Todo { title: "write the renderer".to_owned(), done: false },
        ];
        let r = State { todos, notice: None };
        assert(r@.todos =~= seq![
            Item { title: "write the compiler"@, done: true },
            Item { title: "write the runtime"@, done: true },
            Item { title: "write the renderer"@, done: false },
        ]);
        r
    }

    /// The handler: takes an event, returns the next state.
    pub fn update<T>(self, event: InputEvent<T>) -> (r: Self)
        requires
            self.todos@.len() < usize::MAX,
        ensures
            r@ == self@.next(event),
    {
        let id = match event {
            InputEvent::PointerDown { id, .. } => id,
            _ => {
                return self;
            },
        };
        let ghost before = self@;
        let mut state = self;
        state.notice = None;
        if id.0 == ADD_BUTTON {
            let next: usize = state.todos.len() + 1;
            let mut title = "new todo ".to_owned();
            push_number(&mut title, next as u64);
            state.todos.push(Todo { title, done: false });
            assert(state@.todos =~= before.clicked(id).todos);
        } else if id.0 == CLEAR_BUTTON {
            let count: usize = state.todos.len();
            let mut left: Vec<Todo> = Vec::new();
            for i in 0..count
                invariant
                    count == state.todos@.len(),
                    before.todos == items_of(state.todos@),
                    items_of(left@) == pending(before.todos, i as nat),
                    left@.len() <= i,
            {
                let todo = &state.todos[i];
                assert(before.todos[i as int] == todo@);
                if !todo.done {
                    let ghost kept = items_of(left@);
                    left.push(Todo { title: todo.title.clone(), done: todo.done });
                    assert(items_of(left@) =~= kept.push(todo@));
                }
            }
            if left.len() == count {
                state.notice = Some("nothing completed to clear".to_owned());
            }
            state.todos = left;
        } else if id.0 >= CHECKBOX_BASE && ((id.0 - CHECKBOX_BASE) as usize) < state.todos.len() {
            let index: usize = (id.0 - CHECKBOX_BASE) as usize;
            let done: bool = state.todos[index].done;
            let title = state.todos[index].title.clone();
            state.todos[index] = Todo { title, done: !done };
            assert(state@.todos =~= before.clicked(id).todos);
        } else {
            assert(state@.todos =~= before.todos);
        }
        state
    }
}

/// The rows of the first `count` todos.
pub open spec fn rows_of<T: Scalar>(theme: Theme<T>, todos: Seq<Item>, count: nat) -> Seq<Tree<T>>
    decreases count,
{
    if count == 0 {
        Seq::empty()
    } else {
        let item = todos[count - 1];
        rows_of(theme, todos, (count - 1) as nat).push(
            checkbox_of(
                theme,
                HitId((CHECKBOX_BASE + (count - 1)) as u32),
                item.done,
                item.title,
            ),
        )
    }
}

/// The tree a list is shown as.
pub open spec fn shown<T: Scalar>(theme: Theme<T>, list: TodoList) -> Tree<T> {
    let count = list.todos.len();
    let plain = Style::<T>::plain();
    screen_of(
        theme,
        seq![
            label_of(
                theme,
                "todo \u{2014} "@ + decimal(done_count(list.todos, count) as int) + "/"@ + decimal(
                    count as int,
                ) + " done"@,
            ),
            panel_of(theme, rows_of(theme, list.todos, count)),
            Tree::Row {
                style: Style { gap: theme.gap, ..plain },
                children: seq![
                    button_of(theme, HitId(ADD_BUTTON), "Add"@),
                    button_of(theme, HitId(CLEAR_BUTTON), "Clear done"@),
                ],
            },
        ] + (match list.notice {
            Some(notice) => seq![muted_label_of(theme, notice)],
            None => Seq::empty(),
        }) + seq![Tree::Box { style: Style { height: Sizing::Grow, ..plain } }],
    )
}

/// The view: state in, tree out. Pure, so it can be re-run every frame.
pub fn view<T: Scalar>(theme: &Theme<T>, state: &State) -> (r: Node<T>)
    requires
        exact::<T>(),
        state.todos@.len() + CHECKBOX_BASE <= u32::MAX,
    ensures
        r@ == shown(*theme, state@),
{
    let ghost list = state@;
    let mut rows: Vec<Node<T>> = Vec::new();
    let mut done: usize = 0;
    assert(trees_of(rows@) =~= rows_of(*theme, list.todos, 0));
    for i in 0..state.todos.len()
        invariant
            exact::<T>(),
            state.todos@.len() + CHECKBOX_BASE <= u32::MAX,
            list == state@,
            trees_of(rows@) == rows_of(*theme, list.todos, i as nat),
            done == done_count(list.todos, i as nat),
            done <= i,
    {
        let todo = &state.todos[i];
        assert(list.todos[i as int] == todo@);
        let ghost before = trees_of(rows@);
        let row = checkbox(
            theme,
            HitId(CHECKBOX_BASE + i as u32),
            todo.done,
            todo.title.clone(),
        );
        rows.push(row);
        assert(trees_of(rows@) =~= before.push(row@));
        if todo.done {
            done = done + 1;
        }
    }
    let mut title = "todo \u{2014} ".to_owned();
    push_number(&mut title, done as u64);
    title.append("/");
    push_number(&mut title, state.todos.len() as u64);
    title.append(" done");
    let buttons = vec![
        button(theme, HitId(ADD_BUTTON), "Add".to_owned()),
        button(theme, HitId(CLEAR_BUTTON), "Clear done".to_owned()),
    ];
    assert(trees_of(buttons@) =~= seq![
        button_of(*theme, HitId(ADD_BUTTON), "Add"@),
        button_of(*theme, HitId(CLEAR_BUTTON), "Clear done"@),
    ]);
    let mut children = vec![
        label(theme, title),
        panel(theme, rows),
        Node::row(Style { gap: theme.gap, ..Style::default() }, buttons),
    ];
    if let Some(notice) = &state.notice {
        children.push(muted_label(theme, notice.clone()));
    }
    children.push(Node::Box { style: Style { height: Sizing::Grow, ..Style::default() } });
    assert(trees_of(children@) =~= shown(*theme, list).children());
    screen(theme, children)
}

/// Toggling a todo twice leaves the list as it was, but for the notice.
pub proof fn toggling_twice_is_nothing(list: TodoList, index: int)
    requires
        0 <= index < list.todos.len(),
        index + CHECKBOX_BASE <= u32::MAX,
    ensures
        ({
            let id = HitId((CHECKBOX_BASE + index) as u32);
            list.clicked(id).clicked(id) == (TodoList { notice: None, ..list })
        }),
{
    let id = HitId((CHECKBOX_BASE + index) as u32);
    let once = list.clicked(id);
    assert(once.todos[index].title == list.todos[index].title);
    assert(list.clicked(id).clicked(id).todos =~= list.todos);
}

/// Toggling one todo leaves every other as it was.
pub proof fn toggling_leaves_the_others(list: TodoList, index: int, other: int)
    requires
        0 <= index < list.todos.len(),
        0 <= other < list.todos.len(),
        index != other,
        index + CHECKBOX_BASE <= u32::MAX,
    ensures
        ({
            let after = list.clicked(HitId((CHECKBOX_BASE + index) as u32));
            &&& after.todos.len() == list.todos.len()
            &&& after.todos[other] == list.todos[other]
            &&& after.todos[index].done == !list.todos[index].done
        }),
{
}

proof fn lemma_pending(todos: Seq<Item>, count: nat)
    requires
        count <= todos.len(),
    ensures
        forall|i: int|
            0 <= i < pending(todos, count).len() ==> !(#[trigger] pending(todos, count)[i]).done,
        pending(todos, count).len() == count - done_count(todos, count),
    decreases count,
{
    if count > 0 {
        lemma_pending(todos, (count - 1) as nat);
    }
}

/// Clearing leaves nothing that is done and takes nothing that is not, and a
/// notice says so exactly when there was nothing to clear.
pub proof fn clearing_takes_what_is_done(list: TodoList)
    ensures
        ({
            let after = list.clicked(HitId(CLEAR_BUTTON));
            let done = done_count(list.todos, list.todos.len());
            &&& forall|i: int|
                0 <= i < after.todos.len() ==> !(#[trigger] after.todos[i]).done
            &&& after.todos.len() == list.todos.len() - done
            &&& after.notice is Some <==> done == 0
        }),
{
    lemma_pending(list.todos, list.todos.len());
}

/// Every row has a hit target of its own, and none is a button's.
pub proof fn every_row_has_its_own_target<T: Scalar>(
    theme: Theme<T>,
    todos: Seq<Item>,
    count: nat,
    index: int,
)
    requires
        0 <= index < count <= todos.len(),
        count + CHECKBOX_BASE <= u32::MAX,
    ensures
        rows_of(theme, todos, count).len() == count,
        ({
            let style = rows_of(theme, todos, count)[index].style()->Some_0;
            &&& style.id == Some(HitId((CHECKBOX_BASE + index) as u32))
            &&& style.id != Some(HitId(ADD_BUTTON))
            &&& style.id != Some(HitId(CLEAR_BUTTON))
        }),
    decreases count,
{
    lemma_rows_len(theme, todos, (count - 1) as nat);
    if index < count - 1 {
        every_row_has_its_own_target(theme, todos, (count - 1) as nat, index);
    }
}

proof fn lemma_rows_len<T: Scalar>(theme: Theme<T>, todos: Seq<Item>, count: nat)
    ensures
        rows_of(theme, todos, count).len() == count,
    decreases count,
{
    if count > 0 {
        lemma_rows_len(theme, todos, (count - 1) as nat);
    }
}

proof fn lemma_filtered(todos: Seq<Item>, count: nat)
    requires
        count <= todos.len(),
    ensures
        pending(todos, count) == todos.take(count as int).filter(|item: Item| !item.done),
        done_count(todos, count) == todos.take(count as int).filter(|item: Item| item.done).len(),
    decreases count,
{
    reveal(Seq::filter);
    let all = todos.take(count as int);
    if count > 0 {
        lemma_filtered(todos, (count - 1) as nat);
        assert(all.drop_last() =~= todos.take(count - 1));
        assert(all.last() == todos[count - 1]);
    }
}

/// Clearing keeps what is not done, in order and as it was, and nothing else.
pub proof fn clearing_keeps_what_is_not_done(list: TodoList)
    ensures
        list.clicked(HitId(CLEAR_BUTTON)).todos == list.todos.filter(|item: Item| !item.done),
{
    lemma_filtered(list.todos, list.todos.len());
    assert(list.todos.take(list.todos.len() as int) =~= list.todos);
}

/// Adding puts one todo at the end, not done and numbered after those there
/// are, and leaves the others as they were.
pub proof fn adding_appends_one(list: TodoList)
    ensures
        ({
            let after = list.clicked(HitId(ADD_BUTTON));
            &&& after.todos.len() == list.todos.len() + 1
            &&& after.todos.drop_last() == list.todos
            &&& !after.todos.last().done
            &&& after.todos.last().title == "new todo "@ + decimal(list.todos.len() as int + 1)
            &&& after.notice is None
        }),
{
    assert(list.clicked(HitId(ADD_BUTTON)).todos.drop_last() =~= list.todos);
}

/// What is no target of the list changes none of it, and neither does anything
/// but a press.
pub proof fn what_is_no_target_changes_nothing<T>(list: TodoList, event: InputEvent<T>)
    requires
        event matches InputEvent::PointerDown { id, .. } ==> id.0 != ADD_BUTTON && id.0
            != CLEAR_BUTTON && !(CHECKBOX_BASE <= id.0 < CHECKBOX_BASE + list.todos.len()),
    ensures
        list.next(event).todos == list.todos,
{
}

/// The list shows every title in order, under how many are done, with a mark
/// that is filled exactly where a todo is done.
pub proof fn the_list_shows_what_it_holds<T: Scalar>(theme: Theme<T>, list: TodoList, index: int)
    requires
        0 <= index < list.todos.len(),
    ensures
        ({
            let done = list.todos.filter(|item: Item| item.done).len();
            let tree = shown(theme, list);
            let rows = tree.children()[1].children();
            &&& texts_in(tree.children()[0]) == seq![
                "todo \u{2014} "@ + decimal(done as int) + "/"@ + decimal(list.todos.len() as int)
                    + " done"@,
            ]
            &&& rows.len() == list.todos.len()
            &&& texts_in(rows[index]) == seq![list.todos[index].title]
            &&& is_mark(
                rows[index].children()[0],
                if list.todos[index].done {
                    theme.accent
                } else {
                    theme.muted
                },
            )
            &&& list.notice matches Some(notice) ==> texts_in(tree.children()[3]) == seq![notice]
            &&& list.notice is None ==> tree.children().len() == 4
        }),
{
    let count = list.todos.len();
    lemma_filtered(list.todos, count);
    assert(list.todos.take(count as int) =~= list.todos);
    lemma_row(theme, list.todos, count, index);
    let item = list.todos[index];
    let id = HitId((CHECKBOX_BASE + index) as u32);
    a_widget_says_what_it_was_given(theme, id, item.title, item.title, item.done);
    checking_a_box_fills_its_mark(theme, id, item.title);
    let tree = shown(theme, list);
    let title = "todo \u{2014} "@ + decimal(done_count(list.todos, count) as int) + "/"@ + decimal(
        count as int,
    ) + " done"@;
    assert(tree.children()[0] == label_of(theme, title));
    a_widget_says_what_it_was_given(theme, id, title, title, false);
    assert(tree.children()[1] == panel_of(theme, rows_of(theme, list.todos, count)));
    if let Some(notice) = list.notice {
        assert(tree.children()[3] == muted_label_of(theme, notice));
        a_widget_says_what_it_was_given(theme, id, notice, notice, false);
    }
}

proof fn lemma_row<T: Scalar>(theme: Theme<T>, todos: Seq<Item>, count: nat, index: int)
    requires
        0 <= index < count <= todos.len(),
    ensures
        rows_of(theme, todos, count).len() == count,
        rows_of(theme, todos, count)[index] == checkbox_of(
            theme,
            HitId((CHECKBOX_BASE + index) as u32),
            todos[index].done,
            todos[index].title,
        ),
    decreases count,
{
    lemma_rows_len(theme, todos, (count - 1) as nat);
    if index < count - 1 {
        lemma_row(theme, todos, (count - 1) as nat, index);
    }
}

/// The two buttons are labelled with what they do: what `Add` is clicked as adds
/// a todo, and what `Clear done` is clicked as clears.
pub proof fn the_buttons_do_what_they_say<T: Scalar>(theme: Theme<T>, list: TodoList)
    ensures
        ({
            let buttons = shown(theme, list).children()[2].children();
            let first = buttons[0].style()->Some_0.id->Some_0;
            let second = buttons[1].style()->Some_0.id->Some_0;
            &&& buttons.len() == 2
            &&& texts_in(buttons[0]) == seq!["Add"@]
            &&& texts_in(buttons[1]) == seq!["Clear done"@]
            &&& list.clicked(first).todos.len() == list.todos.len() + 1
            &&& list.clicked(second).todos == list.todos.filter(|item: Item| !item.done)
        }),
{
    let id = HitId(ADD_BUTTON);
    a_widget_says_what_it_was_given(theme, id, "Add"@, "Add"@, false);
    a_widget_says_what_it_was_given(theme, HitId(CLEAR_BUTTON), "Clear done"@, "Add"@, false);
    clearing_keeps_what_is_not_done(list);
    let tree = shown(theme, list);
    assert(tree.children()[2].children()[0] == button_of(theme, id, "Add"@));
    assert(tree.children()[2].children()[1] == button_of(
        theme,
        HitId(CLEAR_BUTTON),
        "Clear done"@,
    ));
}

/// Clicking a row's mark toggles that row: the target of the row that shows a
/// todo is what toggles it.
pub proof fn a_row_toggles_its_own_todo<T: Scalar>(theme: Theme<T>, list: TodoList, index: int)
    requires
        0 <= index < list.todos.len(),
        list.todos.len() + CHECKBOX_BASE <= u32::MAX,
    ensures
        ({
            let row = shown(theme, list).children()[1].children()[index];
            let after = list.clicked(row.style()->Some_0.id->Some_0);
            &&& after.todos.len() == list.todos.len()
            &&& after.todos[index].done == !list.todos[index].done
            &&& after.todos[index].title == list.todos[index].title
            &&& forall|j: int|
                0 <= j < list.todos.len() && j != index ==> after.todos[j]
                    == #[trigger] list.todos[j]
        }),
{
    let count = list.todos.len();
    lemma_row(theme, list.todos, count, index);
    let tree = shown(theme, list);
    assert(tree.children()[1] == panel_of(theme, rows_of(theme, list.todos, count)));
}

} // verus!
