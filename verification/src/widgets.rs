//! The widget set, built from the layout primitives.
//!
//! These are plain functions returning `Node`. Nothing here is a framework: a
//! widget is a tree its caller could have written by hand. Styling is typed
//! props with no cascade, so a widget's appearance comes from a theme value
//! passed in, never from ambient global state.

use vstd::prelude::*;

use crate::scalar::{exact, from_whole, over, plus, times, whole, Scalar};
use crate::scene::{trees_of, Align, Color, HitId, Node, Sizing, Style, TextStyle, Tree};

verus! {

/// Typed theme constants. A plain struct: unused fields are dead code the
/// compiler can see.
#[derive(Debug, Clone, Copy, PartialEq)]
pub struct Theme<T> {
    pub surface: Color<T>,
    pub raised: Color<T>,
    pub accent: Color<T>,
    pub text: Color<T>,
    pub muted: Color<T>,
    pub gap: T,
    pub padding: T,
}

impl<T: Scalar> Theme<T> {
    /// The platform's own theme.
    pub open spec fn plain() -> Self {
        Theme {
            surface: Color::<T>::solid(7, 7, 9),
            raised: Color::<T>::solid(13, 14, 18),
            accent: Color::<T>::solid(35, 55, 95),
            text: Color::<T>::solid(90, 90, 93),
            muted: Color::<T>::solid(45, 46, 52),
            gap: whole::<T>(8),
            padding: whole::<T>(12),
        }
    }

    /// The platform's own theme.
    pub fn standard() -> (r: Self)
        requires
            exact::<T>(),
        ensures
            r == Theme::<T>::plain(),
    {
        Theme {
            surface: Color::of_solid(7, 7, 9),
            raised: Color::of_solid(13, 14, 18),
            accent: Color::of_solid(35, 55, 95),
            text: Color::of_solid(90, 90, 93),
            muted: Color::of_solid(45, 46, 52),
            gap: from_whole(8),
            padding: from_whole(12),
        }
    }
}

/// The size a field types at.
pub const FIELD_SIZE: u16 = 16;

/// The line box that follows from it: a run is five quarters of its size high,
/// and the caret is exactly one line tall, so that a field holding nothing but
/// a caret is the same height as one holding text.
pub const FIELD_LINE: u16 = 20;

pub const CARET_WIDTH: u16 = 2;

/// A text run of a size and colour.
pub open spec fn run_of<T: Scalar>(text: Seq<char>, size: u16, color: Color<T>) -> Tree<T> {
    Tree::Text { text, style: TextStyle { size: whole::<T>(size), color } }
}

/// A text run in the theme's body colour.
pub open spec fn label_of<T: Scalar>(theme: Theme<T>, text: Seq<char>) -> Tree<T> {
    run_of(text, 16, theme.text)
}

/// A text run in the theme's body colour.
pub fn label<T: Scalar>(theme: &Theme<T>, text: String) -> (r: Node<T>)
    requires
        exact::<T>(),
    ensures
        r@ == label_of(*theme, text@),
{
    Node::text(text, TextStyle { size: from_whole(16), color: theme.text })
}

/// Secondary text: the same widget, a different token.
pub open spec fn muted_label_of<T: Scalar>(theme: Theme<T>, text: Seq<char>) -> Tree<T> {
    run_of(text, 14, theme.muted)
}

/// Secondary text: the same widget, a different token.
pub fn muted_label<T: Scalar>(theme: &Theme<T>, text: String) -> (r: Node<T>)
    requires
        exact::<T>(),
    ensures
        r@ == muted_label_of(*theme, text@),
{
    Node::text(text, TextStyle { size: from_whole(14), color: theme.muted })
}

/// A clickable box with a label.
pub open spec fn button_of<T: Scalar>(theme: Theme<T>, id: HitId, text: Seq<char>) -> Tree<T> {
    Tree::Row {
        style: Style {
            id: Some(id),
            padding: theme.padding,
            background: Some(theme.accent),
            main_axis: Align::Center,
            cross_axis: Align::Center,
            ..Style::<T>::plain()
        },
        children: seq![label_of(theme, text)],
    }
}

/// A clickable box with a label. `id` is what input events will name, so it
/// must be stable across frames for clicks to keep landing on the same button.
pub fn button<T: Scalar>(theme: &Theme<T>, id: HitId, text: String) -> (r: Node<T>)
    requires
        exact::<T>(),
    ensures
        r@ == button_of(*theme, id, text@),
{
    let children = vec![label(theme, text)];
    assert(trees_of(children@) =~= seq![label_of(*theme, text@)]);
    Node::row(
        Style {
            id: Some(id),
            padding: theme.padding,
            background: Some(theme.accent),
            main_axis: Align::Center,
            cross_axis: Align::Center,
            ..Style::default()
        },
        children,
    )
}

/// A checkbox and its label, as one hit target.
pub open spec fn checkbox_of<T: Scalar>(
    theme: Theme<T>,
    id: HitId,
    checked: bool,
    text: Seq<char>,
) -> Tree<T> {
    let mark = Tree::Box {
        style: Style {
            width: Sizing::Fixed(whole::<T>(18)),
            height: Sizing::Fixed(whole::<T>(18)),
            background: Some(
                if checked {
                    theme.accent
                } else {
                    theme.muted
                },
            ),
            ..Style::<T>::plain()
        },
    };
    Tree::Row {
        style: Style {
            id: Some(id),
            gap: theme.gap,
            cross_axis: Align::Center,
            ..Style::<T>::plain()
        },
        children: seq![mark, label_of(theme, text)],
    }
}

/// A checkbox and its label, as one hit target: clicking the text toggles it,
/// which is the behaviour people expect and the reason the row carries the id.
pub fn checkbox<T: Scalar>(theme: &Theme<T>, id: HitId, checked: bool, text: String) -> (r: Node<T>)
    requires
        exact::<T>(),
    ensures
        r@ == checkbox_of(*theme, id, checked, text@),
{
    let mark = Node::Box {
        style: Style {
            width: Sizing::Fixed(from_whole(18)),
            height: Sizing::Fixed(from_whole(18)),
            background: Some(
                if checked {
                    theme.accent
                } else {
                    theme.muted
                },
            ),
            ..Style::default()
        },
    };
    let ghost mark_tree = mark@;
    let children = vec![mark, label(theme, text)];
    assert(trees_of(children@) =~= seq![mark_tree, label_of(*theme, text@)]);
    Node::row(
        Style { id: Some(id), gap: theme.gap, cross_axis: Align::Center, ..Style::default() },
        children,
    )
}

/// A panel: a raised surface that lays its children out vertically.
pub open spec fn panel_of<T: Scalar>(theme: Theme<T>, children: Seq<Tree<T>>) -> Tree<T> {
    Tree::Column {
        style: Style {
            width: Sizing::Grow,
            padding: theme.padding,
            gap: theme.gap,
            background: Some(theme.raised),
            ..Style::<T>::plain()
        },
        children,
    }
}

/// A panel: a raised surface that lays its children out vertically.
pub fn panel<T: Scalar>(theme: &Theme<T>, children: Vec<Node<T>>) -> (r: Node<T>)
    requires
        exact::<T>(),
    ensures
        r@ == panel_of(*theme, trees_of(children@)),
{
    Node::column(
        Style {
            width: Sizing::Grow,
            padding: theme.padding,
            gap: theme.gap,
            background: Some(theme.raised),
            ..Style::default()
        },
        children,
    )
}

/// The caret: a box one line tall.
pub open spec fn caret_of<T: Scalar>(theme: Theme<T>) -> Tree<T> {
    Tree::Box {
        style: Style {
            width: Sizing::Fixed(whole::<T>(CARET_WIDTH)),
            height: Sizing::Fixed(whole::<T>(FIELD_LINE)),
            background: Some(theme.accent),
            ..Style::<T>::plain()
        },
    }
}

/// What a field holds. The prompt and the caret never share it.
pub open spec fn field_of<T: Scalar>(
    theme: Theme<T>,
    value: Seq<char>,
    placeholder: Seq<char>,
    focused: bool,
) -> Seq<Tree<T>> {
    if value.len() == 0 {
        if focused {
            seq![caret_of(theme)]
        } else {
            seq![run_of(placeholder, FIELD_SIZE, theme.muted)]
        }
    } else {
        if focused {
            seq![run_of(value, FIELD_SIZE, theme.text), caret_of(theme)]
        } else {
            seq![run_of(value, FIELD_SIZE, theme.text)]
        }
    }
}

/// A single-line text field.
pub open spec fn text_input_of<T: Scalar>(
    theme: Theme<T>,
    id: HitId,
    value: Seq<char>,
    placeholder: Seq<char>,
    focused: bool,
) -> Tree<T> {
    Tree::Row {
        style: Style {
            id: Some(id),
            focusable: true,
            width: Sizing::Grow,
            height: Sizing::Fixed(
                plus(whole::<T>(FIELD_LINE), times(theme.padding, whole::<T>(2))),
            ),
            padding: theme.padding,
            gap: whole::<T>(CARET_WIDTH),
            background: Some(theme.raised),
            cross_axis: Align::Center,
            ..Style::<T>::plain()
        },
        children: field_of(theme, value, placeholder, focused),
    }
}

fn caret<T: Scalar>(theme: &Theme<T>) -> (r: Node<T>)
    requires
        exact::<T>(),
    ensures
        r@ == caret_of(*theme),
{
    Node::Box {
        style: Style {
            width: Sizing::Fixed(from_whole(CARET_WIDTH)),
            height: Sizing::Fixed(from_whole(FIELD_LINE)),
            background: Some(theme.accent),
            ..Style::default()
        },
    }
}

fn run<T: Scalar>(text: &str, color: Color<T>) -> (r: Node<T>)
    requires
        exact::<T>(),
    ensures
        r@ == run_of(text@, FIELD_SIZE, color),
{
    Node::text(text.to_owned(), TextStyle { size: from_whole(FIELD_SIZE), color })
}

/// A single-line text field.
///
/// The caret is a sibling box, not a measured position: layout places it
/// immediately after the glyphs because that is where the next sibling goes.
/// The prompt and the caret never share the field, so the value's left edge is
/// the same in every state; and the height is fixed, not fitted, because the
/// contents change on every keystroke.
pub fn text_input<T: Scalar>(
    theme: &Theme<T>,
    id: HitId,
    value: &str,
    placeholder: &str,
    focused: bool,
) -> (r: Node<T>)
    requires
        exact::<T>(),
    ensures
        r@ == text_input_of(*theme, id, value@, placeholder@, focused),
{
    let mut children: Vec<Node<T>> = Vec::new();
    if value.is_empty() {
        if focused {
            children.push(caret(theme));
        } else {
            children.push(run(placeholder, theme.muted));
        }
    } else {
        children.push(run(value, theme.text));
        if focused {
            children.push(caret(theme));
        }
    }
    assert(trees_of(children@) =~= field_of(*theme, value@, placeholder@, focused));
    Node::row(
        Style {
            id: Some(id),
            focusable: true,
            width: Sizing::Grow,
            height: Sizing::Fixed(from_whole::<T>(FIELD_LINE) + theme.padding * from_whole(2)),
            padding: theme.padding,
            gap: from_whole(CARET_WIDTH),
            background: Some(theme.raised),
            cross_axis: Align::Center,
            ..Style::default()
        },
        children,
    )
}

/// A panel that scrolls.
pub open spec fn scroll_of<T: Scalar>(
    theme: Theme<T>,
    id: HitId,
    offset: T,
    height: Sizing<T>,
    children: Seq<Tree<T>>,
) -> Tree<T> {
    Tree::Scroll {
        style: Style {
            id: Some(id),
            width: Sizing::Grow,
            height,
            padding: theme.padding,
            gap: theme.gap,
            background: Some(theme.raised),
            ..Style::<T>::plain()
        },
        offset,
        bar: Some(theme.muted),
        children,
    }
}

/// A panel you can scroll: raised surface, clipped content, and an indicator
/// when there is more than fits.
///
/// `offset` is the app's, not the platform's. The platform clamps it against
/// the content it just measured and reports the clamped value back as an
/// event, so the app can hold a scroll position but never an impossible one.
pub fn scroll<T: Scalar>(
    theme: &Theme<T>,
    id: HitId,
    offset: T,
    height: Sizing<T>,
    children: Vec<Node<T>>,
) -> (r: Node<T>)
    requires
        exact::<T>(),
    ensures
        r@ == scroll_of(*theme, id, offset, height, trees_of(children@)),
{
    let r = Node::Scroll {
        style: Style {
            id: Some(id),
            width: Sizing::Grow,
            height,
            padding: theme.padding,
            gap: theme.gap,
            background: Some(theme.raised),
            ..Style::default()
        },
        offset,
        bar: Some(theme.muted),
        children,
    };
    assert(r@->Scroll_children =~= trees_of(children@));
    r
}

/// The window-filling background every screen starts from.
pub open spec fn screen_of<T: Scalar>(theme: Theme<T>, children: Seq<Tree<T>>) -> Tree<T> {
    Tree::Column {
        style: Style {
            width: Sizing::Grow,
            height: Sizing::Grow,
            padding: theme.padding,
            gap: theme.gap,
            background: Some(theme.surface),
            ..Style::<T>::plain()
        },
        children,
    }
}

/// The window-filling background every screen starts from.
pub fn screen<T: Scalar>(theme: &Theme<T>, children: Vec<Node<T>>) -> (r: Node<T>)
    requires
        exact::<T>(),
    ensures
        r@ == screen_of(*theme, trees_of(children@)),
{
    Node::column(
        Style {
            width: Sizing::Grow,
            height: Sizing::Grow,
            padding: theme.padding,
            gap: theme.gap,
            background: Some(theme.surface),
            ..Style::default()
        },
        children,
    )
}

/// A field is the same size in every state: nothing it holds, and no focus,
/// changes the box it is laid out in.
pub proof fn a_field_is_one_size_in_every_state<T: Scalar>(
    theme: Theme<T>,
    id: HitId,
    value: Seq<char>,
    other_value: Seq<char>,
    placeholder: Seq<char>,
    focused: bool,
    other_focused: bool,
)
    ensures
        text_input_of(theme, id, value, placeholder, focused).style() == text_input_of(
            theme,
            id,
            other_value,
            placeholder,
            other_focused,
        ).style(),
{
}

/// The prompt and the caret never share a field.
pub proof fn the_prompt_and_the_caret_never_meet<T: Scalar>(
    theme: Theme<T>,
    value: Seq<char>,
    placeholder: Seq<char>,
    focused: bool,
)
    ensures
        ({
            let held = field_of(theme, value, placeholder, focused);
            let prompted = value.len() == 0 && !focused;
            &&& prompted <==> held == seq![run_of(placeholder, FIELD_SIZE, theme.muted)] && value.len()
                == 0
            &&& focused <==> held.last() == caret_of(theme)
            &&& !(prompted && held.contains(caret_of(theme)))
        }),
{
    let held = field_of(theme, value, placeholder, focused);
    assert(caret_of(theme) is Box);
    assert(run_of(placeholder, FIELD_SIZE, theme.muted) is Text);
    if value.len() == 0 && focused {
        assert(held[0] is Box);
    }
}

/// The texts in a tree, in the order they are painted.
pub open spec fn texts_in<T>(tree: Tree<T>) -> Seq<Seq<char>>
    decreases tree,
{
    match tree {
        Tree::Text { text, .. } => seq![text],
        Tree::Row { children, .. } => texts_in_all(children, children.len()),
        Tree::Column { children, .. } => texts_in_all(children, children.len()),
        Tree::Scroll { children, .. } => texts_in_all(children, children.len()),
        Tree::Box { .. } => Seq::empty(),
    }
}

/// The texts in the first `count` of some trees.
pub open spec fn texts_in_all<T>(trees: Seq<Tree<T>>, count: nat) -> Seq<Seq<char>>
    decreases trees, count,
{
    if count == 0 || count > trees.len() {
        Seq::empty()
    } else {
        texts_in_all(trees, (count - 1) as nat) + texts_in(trees[count - 1])
    }
}

/// Whether a tree is a filled box of one colour.
pub open spec fn is_mark<T>(tree: Tree<T>, color: Color<T>) -> bool {
    tree matches Tree::Box { style } && style.background == Some(color)
}

proof fn lemma_texts_in<T: Scalar>(trees: Seq<Tree<T>>)
    ensures
        trees.len() == 1 ==> texts_in_all(trees, 1) == texts_in(trees[0]),
        trees.len() == 2 ==> texts_in_all(trees, 2) == texts_in(trees[0]) + texts_in(trees[1]),
{
    let none = Seq::<Seq<char>>::empty();
    if trees.len() > 0 {
        assert(texts_in_all(trees, 0) =~= none);
        assert(texts_in_all(trees, 1) == texts_in_all(trees, 0) + texts_in(trees[0]));
        assert(none + texts_in(trees[0]) =~= texts_in(trees[0]));
    }
    if trees.len() == 2 {
        assert(texts_in_all(trees, 2) == texts_in_all(trees, 1) + texts_in(trees[1]));
    }
}

/// A widget says what it was given: a label, a button and a checkbox show their
/// text and nothing else; a field shows its value, or its prompt where it has
/// neither value nor focus.
pub proof fn a_widget_says_what_it_was_given<T: Scalar>(
    theme: Theme<T>,
    id: HitId,
    text: Seq<char>,
    prompt: Seq<char>,
    flag: bool,
)
    ensures
        texts_in(label_of(theme, text)) == seq![text],
        texts_in(muted_label_of(theme, text)) == seq![text],
        texts_in(button_of(theme, id, text)) == seq![text],
        texts_in(checkbox_of(theme, id, flag, text)) == seq![text],
        texts_in(text_input_of(theme, id, text, prompt, flag)) == if text.len() > 0 {
            seq![text]
        } else if flag {
            Seq::empty()
        } else {
            seq![prompt]
        },
{
    let none = Seq::<Seq<char>>::empty();
    let button = button_of(theme, id, text);
    let checkbox = checkbox_of(theme, id, flag, text);
    let input = text_input_of(theme, id, text, prompt, flag);
    assert(texts_in(label_of(theme, text)) == seq![text]);
    lemma_texts_in(button.children());
    lemma_texts_in(checkbox.children());
    lemma_texts_in(input.children());
    assert(texts_in(checkbox.children()[0]) =~= none);
    assert(texts_in(checkbox.children()[1]) == seq![text]);
    assert(none + seq![text] =~= seq![text]);
    assert(texts_in(caret_of(theme)) =~= none);
    assert(texts_in(run_of(text, FIELD_SIZE, theme.text)) == seq![text]);
    assert(texts_in(run_of(prompt, FIELD_SIZE, theme.muted)) == seq![prompt]);
    assert(seq![text] + none =~= seq![text]);
}

/// A widget that can be clicked is one target: the whole of it carries the id
/// it was given, and nothing in it carries one of its own. Only a field takes
/// focus.
pub proof fn a_widget_is_one_target<T: Scalar>(
    theme: Theme<T>,
    id: HitId,
    text: Seq<char>,
    prompt: Seq<char>,
    flag: bool,
    index: int,
)
    ensures
        ({
            let button = button_of(theme, id, text);
            let checkbox = checkbox_of(theme, id, flag, text);
            let input = text_input_of(theme, id, text, prompt, flag);
            let bare = |tree: Tree<T>|
                tree.style() matches Some(style) ==> style.id is None && !style.focusable;
            &&& button.style() matches Some(style) && style.id == Some(id) && !style.focusable
            &&& checkbox.style() matches Some(style) && style.id == Some(id) && !style.focusable
            &&& input.style() matches Some(style) && style.id == Some(id) && style.focusable
            &&& 0 <= index < button.children().len() ==> bare(button.children()[index])
            &&& 0 <= index < checkbox.children().len() ==> bare(checkbox.children()[index])
            &&& 0 <= index < input.children().len() ==> bare(input.children()[index])
            &&& bare(label_of(theme, text))
            &&& bare(muted_label_of(theme, text))
        }),
{
}

/// Checking a box fills its mark with the accent, and changes nothing else; an
/// unchecked one is muted.
pub proof fn checking_a_box_fills_its_mark<T: Scalar>(theme: Theme<T>, id: HitId, text: Seq<char>)
    ensures
        ({
            let on = checkbox_of(theme, id, true, text);
            let off = checkbox_of(theme, id, false, text);
            &&& is_mark(on.children()[0], theme.accent)
            &&& is_mark(off.children()[0], theme.muted)
            &&& on is Row && off is Row
            &&& on.style() == off.style()
            &&& on.children().len() == 2 && off.children().len() == 2
            &&& on.children()[1] == off.children()[1]
            &&& on.children()[0].style()->Some_0.width == off.children()[0].style()->Some_0.width
            &&& on.children()[0].style()->Some_0.height == off.children()[0].style()->Some_0.height
        }),
{
}

/// Focus puts a caret after what a field holds, and takes the prompt away.
pub proof fn focus_puts_a_caret_last<T: Scalar>(
    theme: Theme<T>,
    id: HitId,
    value: Seq<char>,
    prompt: Seq<char>,
)
    ensures
        ({
            let on = text_input_of(theme, id, value, prompt, true).children();
            let off = text_input_of(theme, id, value, prompt, false).children();
            &&& on.len() > 0 && is_mark(on.last(), theme.accent)
            &&& value.len() > 0 ==> on.drop_last() == off
            &&& value.len() == 0 ==> on.len() == 1
            &&& off.len() == 1 && off[0] is Text
        }),
{
    let on = text_input_of(theme, id, value, prompt, true).children();
    let off = text_input_of(theme, id, value, prompt, false).children();
    if value.len() > 0 {
        assert(on.drop_last() =~= off);
    }
}

/// A widget wears the theme: a button and the mark of a checked box its accent,
/// a field, a panel and a scroll its raised surface, a screen its surface; what
/// has room around or inside takes it from the theme, and secondary text is
/// muted and a size smaller.
pub proof fn a_widget_wears_the_theme<T: Scalar>(
    theme: Theme<T>,
    id: HitId,
    text: Seq<char>,
    prompt: Seq<char>,
    flag: bool,
    offset: T,
    height: Sizing<T>,
    children: Seq<Tree<T>>,
)
    ensures
        ({
            let body = label_of(theme, text);
            let second = muted_label_of(theme, text);
            let button = button_of(theme, id, text).style()->Some_0;
            let checkbox = checkbox_of(theme, id, flag, text);
            let field = text_input_of(theme, id, text, prompt, flag).style()->Some_0;
            let panel = panel_of(theme, children);
            let screen = screen_of(theme, children);
            let scroll = scroll_of(theme, id, offset, height, children);
            &&& body matches Tree::Text { style, .. } && style.color == theme.text && style.size
                == whole::<T>(16)
            &&& second matches Tree::Text { style, .. } && style.color == theme.muted && style.size
                == whole::<T>(14)
            &&& button.background == Some(theme.accent)
            &&& button.padding == theme.padding
            &&& button.main_axis is Center && button.cross_axis is Center
            &&& checkbox.style()->Some_0.background is None
            &&& checkbox.style()->Some_0.gap == theme.gap
            &&& checkbox.style()->Some_0.cross_axis is Center
            &&& checkbox.children()[0].style()->Some_0.width == Sizing::Fixed(whole::<T>(18))
            &&& checkbox.children()[0].style()->Some_0.height == Sizing::Fixed(whole::<T>(18))
            &&& field.background == Some(theme.raised)
            &&& field.padding == theme.padding
            &&& field.width is Grow && field.cross_axis is Center
            &&& field.height == Sizing::Fixed(
                plus(whole::<T>(20), times(theme.padding, whole::<T>(2))),
            )
            &&& panel.children() == children && panel is Column
            &&& panel.style()->Some_0.background == Some(theme.raised)
            &&& panel.style()->Some_0.padding == theme.padding
            &&& panel.style()->Some_0.gap == theme.gap
            &&& panel.style()->Some_0.width is Grow
            &&& screen.children() == children && screen is Column
            &&& screen.style()->Some_0.background == Some(theme.surface)
            &&& screen.style()->Some_0.padding == theme.padding
            &&& screen.style()->Some_0.gap == theme.gap
            &&& screen.style()->Some_0.width is Grow && screen.style()->Some_0.height is Grow
            &&& scroll.children() == children
            &&& scroll matches Tree::Scroll { style, offset: moved, bar, .. } && {
                &&& style.id == Some(id)
                &&& style.background == Some(theme.raised)
                &&& style.padding == theme.padding
                &&& style.gap == theme.gap
                &&& style.width is Grow
                &&& style.height == height
                &&& moved == offset
                &&& bar == Some(theme.muted)
            }
        }),
{
}

/// The caret is one line tall and in the accent, and what is typed beside it is
/// body text; the prompt is muted.
pub proof fn a_field_is_typed_in_body_text<T: Scalar>(
    theme: Theme<T>,
    id: HitId,
    value: Seq<char>,
    prompt: Seq<char>,
    focused: bool,
)
    ensures
        ({
            let held = text_input_of(theme, id, value, prompt, focused).children();
            &&& value.len() > 0 ==> (held[0] matches Tree::Text { style, .. } && style.color
                == theme.text && style.size == whole::<T>(16))
            &&& value.len() == 0 && !focused ==> (held[0] matches Tree::Text { style, .. }
                && style.color == theme.muted && style.size == whole::<T>(16))
            &&& focused ==> (held.last() matches Tree::Box { style } && style.background == Some(
                theme.accent,
            ) && style.width == Sizing::Fixed(whole::<T>(2)) && style.height == Sizing::Fixed(
                whole::<T>(20),
            ))
        }),
{
}

/// A colour of this many hundredths of each channel, and opaque.
pub open spec fn opaque<T: Scalar>(color: Color<T>, r: u16, g: u16, b: u16) -> bool {
    &&& color.r == over(whole::<T>(r), whole::<T>(100))
    &&& color.g == over(whole::<T>(g), whole::<T>(100))
    &&& color.b == over(whole::<T>(b), whole::<T>(100))
    &&& color.a == whole::<T>(1)
}

/// The platform's own theme is dark, with light text on it: its surfaces are
/// near black, its text near white, and everything in it is opaque.
pub proof fn the_theme_is_light_on_dark<T: Scalar>()
    ensures
        opaque(Theme::<T>::plain().surface, 7, 7, 9),
        opaque(Theme::<T>::plain().raised, 13, 14, 18),
        opaque(Theme::<T>::plain().accent, 35, 55, 95),
        opaque(Theme::<T>::plain().text, 90, 90, 93),
        opaque(Theme::<T>::plain().muted, 45, 46, 52),
        Theme::<T>::plain().gap == whole::<T>(8),
        Theme::<T>::plain().padding == whole::<T>(12),
{
}

} // verus!
