//! The textual inspector: a laid-out tree as indented text.
//!
//! Geometry comes from a real layout pass, so this reports where things
//! actually ended up rather than what the tree asked for. Coordinates and
//! colours stay what they are, for the platform to print.

use vstd::prelude::*;

use crate::flex::{kind, kind_of, seen_of, Seen, Visit};
use crate::scalar::Scalar;
use crate::scene::{Color, Node, Tree};
use crate::text::{debug_text, decimal, number, quoted};
use crate::words::letters;

verus! {

/// A part of a description.
#[derive(Debug, Clone, Copy, PartialEq)]
pub enum Note<T> {
    Char(char),
    /// A coordinate, to be printed as a whole number.
    Rounded(T),
    /// A colour, to be printed as its channels.
    Hue(Color<T>),
}

/// A character, as a part of a description.
pub open spec fn letter<T>(c: char) -> Note<T> {
    Note::Char(c)
}

/// A text, as a description.
pub open spec fn told<T>(text: Seq<char>) -> Seq<Note<T>> {
    Seq::new(text.len(), |i: int| letter::<T>(text[i]))
}

/// Two spaces per level, and two more.
pub open spec fn indent(depth: nat) -> Seq<char>
    decreases depth,
{
    if depth == 0 {
        "  "@
    } else {
        indent((depth - 1) as nat) + "  "@
    }
}

/// The id of a node, if it has one.
pub open spec fn id_told<T>(tree: Tree<T>) -> Seq<Note<T>> {
    match tree.style() {
        Some(style) => match style.id {
            Some(id) => told::<T>(" #"@ + decimal(id.0 as int)),
            None => Seq::empty(),
        },
        None => Seq::empty(),
    }
}

/// Where a node is and how large.
pub open spec fn place_told<T>(seen: Seen<T>) -> Seq<Note<T>> {
    told::<T>("  ("@) + seq![Note::Rounded(seen.x)] + told::<T>(","@) + seq![Note::Rounded(seen.y)]
        + told::<T>(" "@) + seq![Note::Rounded(seen.width)] + told::<T>("x"@) + seq![
        Note::Rounded(seen.height),
    ] + told::<T>(")"@)
}

/// The background of a node, if it paints one.
pub open spec fn background_told<T>(tree: Tree<T>) -> Seq<Note<T>> {
    match tree.style() {
        Some(style) => match style.background {
            Some(color) => told::<T>("  bg "@) + seq![Note::Hue(color)],
            None => Seq::empty(),
        },
        None => Seq::empty(),
    }
}

/// The text of a node, if it is one.
pub open spec fn text_told<T>(tree: Tree<T>) -> Seq<Note<T>> {
    match tree {
        Tree::Text { text, style } => told::<T>("  "@ + debug_text(text) + " "@) + seq![
            Note::Hue(style.color),
        ],
        _ => Seq::empty(),
    }
}

/// One line of the description.
pub open spec fn line_told<T>(seen: Seen<T>) -> Seq<Note<T>> {
    told::<T>(indent(seen.depth) + kind_of(seen.tree)) + id_told(seen.tree) + place_told(seen)
        + background_told(seen.tree) + text_told(seen.tree) + told::<T>("\n"@)
}

/// The lines of the first `count` nodes.
pub open spec fn lines_told<T>(all: Seq<Seen<T>>, count: nat) -> Seq<Note<T>>
    decreases count,
{
    if count == 0 {
        Seq::empty()
    } else {
        lines_told(all, (count - 1) as nat) + line_told(all[count - 1])
    }
}

/// A laid-out tree as indented text, under the size of the viewport.
pub open spec fn described<T>(width: T, height: T, all: Seq<Seen<T>>) -> Seq<Note<T>> {
    told::<T>("viewport "@) + seq![Note::Rounded(width)] + told::<T>("x"@) + seq![
        Note::Rounded(height),
    ] + told::<T>("\n"@) + lines_told(all, all.len())
}

fn tell_letter<T>(out: &mut Vec<Note<T>>, c: char)
    ensures
        final(out)@ == old(out)@.push(letter::<T>(c)),
{
    out.push(Note::Char(c));
}

fn tell<T>(out: &mut Vec<Note<T>>, text: &str)
    ensures
        final(out)@ == old(out)@ + told::<T>(text@),
{
    let ghost before = out@;
    let all = letters(text);
    assert(out@ =~= before + told::<T>(text@.take(0)));
    for i in 0..all.len()
        invariant
            all@ == text@,
            out@ == before + told::<T>(text@.take(i as int)),
    {
        tell_letter(out, all[i]);
        assert(told::<T>(text@.take(i + 1)) =~= told::<T>(text@.take(i as int)).push(
            letter::<T>(text@[i as int]),
        ));
        assert(out@ =~= before + told::<T>(text@.take(i + 1)));
    }
    assert(text@.take(text@.len() as int) =~= text@);
}

fn tell_indent<T>(out: &mut Vec<Note<T>>, depth: usize)
    ensures
        final(out)@ == old(out)@ + told::<T>(indent(depth as nat)),
{
    let ghost before = out@;
    tell(out, "  ");
    for i in 0..depth
        invariant
            out@ == before + told::<T>(indent(i as nat)),
    {
        tell(out, "  ");
        assert(told::<T>(indent((i + 1) as nat)) =~= told::<T>(indent(i as nat)) + told::<T>(
            "  "@,
        ));
        assert(out@ =~= before + told::<T>(indent((i + 1) as nat)));
    }
}

fn tell_node<T: Scalar>(out: &mut Vec<Note<T>>, visit: &Visit<T>)
    ensures
        final(out)@ == old(out)@ + line_told(seen_as(*visit)),
{
    let ghost seen = seen_as(*visit);
    let ghost before = out@;
    tell_indent(out, visit.depth);
    tell(out, kind(visit.node));
    assert(told::<T>(indent(seen.depth) + kind_of(seen.tree)) =~= told::<T>(indent(seen.depth))
        + told::<T>(kind_of(seen.tree)));
    assert(out@ =~= before + told::<T>(indent(seen.depth) + kind_of(seen.tree)));
    let ghost named = out@;
    if let Some(style) = visit.node.style() {
        if let Some(id) = style.id {
            tell(out, " #");
            tell(out, number(id.0 as u64).as_str());
            assert(told::<T>(" #"@ + decimal(id.0 as int)) =~= told::<T>(" #"@) + told::<T>(
                decimal(id.0 as int),
            ));
        }
    }
    assert(out@ =~= named + id_told(seen.tree));
    let ghost identified = out@;
    tell(out, "  (");
    out.push(Note::Rounded(visit.x));
    tell(out, ",");
    out.push(Note::Rounded(visit.y));
    tell(out, " ");
    out.push(Note::Rounded(visit.width));
    tell(out, "x");
    out.push(Note::Rounded(visit.height));
    tell(out, ")");
    assert(out@ =~= identified + place_told(seen));
    let ghost placed = out@;
    if let Some(style) = visit.node.style() {
        if let Some(color) = style.background {
            tell(out, "  bg ");
            out.push(Note::Hue(color));
        }
    }
    assert(out@ =~= placed + background_told(seen.tree));
    let ghost painted = out@;
    if let Node::Text { text, style } = visit.node {
        tell(out, "  ");
        tell(out, quoted(text.as_str()).as_str());
        tell(out, " ");
        out.push(Note::Hue(style.color));
        assert(told::<T>("  "@ + debug_text(text@) + " "@) =~= told::<T>("  "@) + told::<T>(
            debug_text(text@),
        ) + told::<T>(" "@));
    }
    assert(out@ =~= painted + text_told(seen.tree));
    tell(out, "\n");
    assert(out@ =~= before + line_told(seen));
}

/// What a visit is.
pub open spec fn seen_as<T>(visit: Visit<T>) -> Seen<T> {
    Seen {
        tree: visit.node@,
        depth: visit.depth as nat,
        x: visit.x,
        y: visit.y,
        width: visit.width,
        height: visit.height,
    }
}

/// Renders a laid-out tree as indented text, from a visit of every node.
pub fn describe<T: Scalar>(width: T, height: T, visits: &Vec<Visit<T>>) -> (r: Vec<Note<T>>)
    ensures
        r@ == described(width, height, seen_of(visits@)),
{
    let mut out: Vec<Note<T>> = Vec::new();
    tell(&mut out, "viewport ");
    out.push(Note::Rounded(width));
    tell(&mut out, "x");
    out.push(Note::Rounded(height));
    tell(&mut out, "\n");
    let ghost top = told::<T>("viewport "@) + seq![Note::Rounded(width)] + told::<T>("x"@) + seq![
        Note::Rounded(height),
    ] + told::<T>("\n"@);
    let ghost all = seen_of(visits@);
    assert(out@ =~= top + lines_told(all, 0));
    for i in 0..visits.len()
        invariant
            all == seen_of(visits@),
            out@ == top + lines_told(all, i as nat),
    {
        let ghost before = out@;
        tell_node(&mut out, &visits[i]);
        assert(all[i as int] == seen_as(visits@[i as int]));
        assert(out@ =~= top + lines_told(all, (i + 1) as nat));
    }
    out
}

/// A line says of its node what it is, where it is and how large: it starts two
/// columns in for each level and two more, goes on with the kind of node, and
/// ends with a line break; the four numbers in it are where the node is from the
/// left and from the top, how wide it is and how high, in that order.
pub proof fn a_line_says_where_its_node_is<T>(seen: Seen<T>)
    ensures
        ({
            let line = line_told(seen);
            let start = told::<T>(indent(seen.depth) + kind_of(seen.tree));
            let place = told::<T>("  ("@).push(Note::Rounded(seen.x)) + told::<T>(","@).push(
                Note::Rounded(seen.y),
            ) + told::<T>(" "@).push(Note::Rounded(seen.width)) + told::<T>("x"@).push(
                Note::Rounded(seen.height),
            ) + told::<T>(")"@);
            let named = match seen.tree.style() {
                Some(style) => match style.id {
                    Some(id) => told::<T>(" #"@ + decimal(id.0 as int)),
                    None => Seq::empty(),
                },
                None => Seq::empty(),
            };
            let here = start + named + place;
            &&& indent(seen.depth).len() == 2 * (seen.depth + 1)
            &&& here.len() < line.len()
            &&& line.take(here.len() as int) == here
            &&& line.last() == letter::<T>('\n')
            &&& line == here + (match seen.tree.style() {
                Some(style) => match style.background {
                    Some(color) => told::<T>("  bg "@).push(Note::Hue(color)),
                    None => Seq::empty(),
                },
                None => Seq::empty(),
            }) + (match seen.tree {
                Tree::Text { text, style } => told::<T>("  "@ + debug_text(text) + " "@).push(
                    Note::Hue(style.color),
                ),
                _ => Seq::empty(),
            }) + told::<T>("\n"@)
        }),
{
    reveal_strlit("\n");
    lemma_indent(seen.depth);
    let line = line_told(seen);
    let start = told::<T>(indent(seen.depth) + kind_of(seen.tree));
    let here = start + id_told(seen.tree) + place_told(seen);
    assert(place_told(seen) =~= told::<T>("  ("@).push(Note::Rounded(seen.x)) + told::<T>(","@).push(
        Note::Rounded(seen.y),
    ) + told::<T>(" "@).push(Note::Rounded(seen.width)) + told::<T>("x"@).push(
        Note::Rounded(seen.height),
    ) + told::<T>(")"@));
    assert(line.take(here.len() as int) =~= here);
    assert(told::<T>("\n"@).last() == letter::<T>('\n'));
    let back: Seq<Note<T>> = match seen.tree.style() {
        Some(style) => match style.background {
            Some(color) => told::<T>("  bg "@).push(Note::Hue(color)),
            None => Seq::empty(),
        },
        None => Seq::empty(),
    };
    let said: Seq<Note<T>> = match seen.tree {
        Tree::Text { text, style } => told::<T>("  "@ + debug_text(text) + " "@).push(
            Note::Hue(style.color),
        ),
        _ => Seq::empty(),
    };
    assert(background_told(seen.tree) =~= back);
    assert(text_told(seen.tree) =~= said);
    assert(line =~= here + back + said + told::<T>("\n"@));
}

proof fn lemma_indent(depth: nat)
    ensures
        indent(depth).len() == 2 * (depth + 1),
        forall|i: int| 0 <= i < indent(depth).len() ==> indent(depth)[i] == ' ',
    decreases depth,
{
    reveal_strlit("  ");
    if depth > 0 {
        lemma_indent((depth - 1) as nat);
    }
}

/// Every node has a line, in order, under the size of the viewport.
pub proof fn every_node_has_a_line<T>(width: T, height: T, all: Seq<Seen<T>>, index: int)
    requires
        0 <= index < all.len(),
    ensures
        ({
            let text = described(width, height, all);
            let head = told::<T>("viewport "@).push(Note::Rounded(width)) + told::<T>("x"@).push(
                Note::Rounded(height),
            ) + told::<T>("\n"@);
            let before = head + lines_told(all, index as nat);
            let here = before + line_told(all[index]);
            here.len() <= text.len() && text.take(here.len() as int) == here
        }),
{
    lemma_lines(all, (index + 1) as nat, all.len());
    let text = described(width, height, all);
    let head = told::<T>("viewport "@).push(Note::Rounded(width)) + told::<T>("x"@).push(
        Note::Rounded(height),
    ) + told::<T>("\n"@);
    assert(text =~= head + lines_told(all, all.len()));
    let lines = lines_told(all, all.len());
    let some = lines_told(all, (index + 1) as nat);
    let here = head + lines_told(all, index as nat) + line_told(all[index]);
    assert(here =~= head + some);
    assert(text.take(here.len() as int) =~= head + lines.take(some.len() as int));
}

proof fn lemma_lines<T>(all: Seq<Seen<T>>, less: nat, more: nat)
    requires
        less <= more,
    ensures
        ({
            let (a, b) = (lines_told(all, less), lines_told(all, more));
            a.len() <= b.len() && b.take(a.len() as int) == a
        }),
    decreases more,
{
    let (a, b) = (lines_told(all, less), lines_told(all, more));
    if less < more {
        lemma_lines(all, less, (more - 1) as nat);
        let c = lines_told(all, (more - 1) as nat);
        assert(b.take(a.len() as int) =~= c.take(a.len() as int));
    } else {
        assert(b.take(b.len() as int) =~= b);
    }
}

} // verus!
