//! Reading a frame out of a guest's memory.
//!
//! A view emits nodes as it evaluates, so what it leaves behind is a
//! post-order array: every node's children are the finished roots immediately
//! before it, and it says how many of them are its own. Rebuilding the tree is
//! therefore one left-to-right pass with a stack.
//!
//! The bytes the guest wrote are the bytes read here. Where each prop of a
//! record is, and which tag is which widget, comes in a [`RecordTable`]; the
//! two numbers a record carries are handed on as their bits, for the platform
//! to read as the floats they are.

use vstd::prelude::*;
use vstd::slice::slice_subrange;
use vstd::string::StringExecFns;

use crate::bytes::{
    bytes32, le32, lemma_bytes32, lemma_le32_congruent, read_u32, signed32, to_signed32,
};
use crate::scalar::{exact, Scalar};
use crate::scene::{trees_of, Align, HitId, Node, Sizing, Style, Tree};
use crate::text::{address, decimal, hexadecimal, lossy, lossy_text, number, signed_number};
use crate::widgets::{
    a_widget_says_what_it_was_given, button, button_of, checkbox, checkbox_of,
    checking_a_box_fills_its_mark, focus_puts_a_caret_last, is_mark, label, label_of, muted_label,
    muted_label_of, scroll, scroll_of, text_input, text_input_of, texts_in, Theme,
};

verus! {

/// A widget a view can name.
#[derive(Debug, Clone, Copy, PartialEq, Eq, Structural)]
pub enum NodeKind {
    Screen,
    Column,
    Row,
    Panel,
    Scroll,
    Text,
    Muted,
    Button,
    Checkbox,
    TextInput,
    Spacer,
}

/// Where a node record's parts are, as offsets from its start, and which
/// widget each tag names.
#[derive(Debug)]
pub struct RecordTable {
    /// The size of one record.
    pub size: u32,
    pub kind: u32,
    pub children: u32,
    pub id: u32,
    pub flag: u32,
    pub text: u32,
    pub text2: u32,
    pub number: u32,
    pub number2: u32,
    /// The widgets, by tag.
    pub kinds: Vec<NodeKind>,
}

/// One node record, read out of guest memory.
#[derive(Debug)]
pub struct Record {
    pub kind: NodeKind,
    pub children: u32,
    pub id: u32,
    pub flag: bool,
    pub text: String,
    pub text2: String,
    /// The bits of the first number.
    pub number: u32,
    /// The bits of the second number.
    pub number2: u32,
}

/// What a [`Record`] is.
pub struct Entry {
    pub kind: NodeKind,
    pub children: u32,
    pub id: u32,
    pub flag: bool,
    pub text: Seq<char>,
    pub text2: Seq<char>,
    pub number: u32,
    pub number2: u32,
}

impl View for Record {
    type V = Entry;

    open spec fn view(&self) -> Entry {
        Entry {
            kind: self.kind,
            children: self.children,
            id: self.id,
            flag: self.flag,
            text: self.text@,
            text2: self.text2@,
            number: self.number,
            number2: self.number2,
        }
    }
}

/// Why a frame was refused.
#[derive(Debug, Clone, Copy, PartialEq, Eq, Structural)]
pub enum FrameError {
    /// The frame runs past the guest's memory at this address.
    Past { at: u64 },
    /// A record's tag names no widget.
    UnknownKind { tag: i32 },
    /// A string claims more bytes than there are.
    BadString { ptr: u32, len: u32 },
    /// A node claims more children than are unclaimed.
    NotPostOrder { index: usize, children: u32, unclaimed: usize },
    /// The view drew nothing.
    Nothing,
    /// The view left several roots.
    Roots { count: usize },
}

impl FrameError {
    /// The error in words.
    pub open spec fn words(self) -> Seq<char> {
        match self {
            FrameError::Past { at } => "frame runs past the guest's memory at "@ + hexadecimal(
                at as nat,
            ),
            FrameError::UnknownKind { tag } => "frame holds an unknown node kind "@ + decimal(
                tag as int,
            ),
            FrameError::BadString { ptr, len } => "string at "@ + hexadecimal(ptr as nat)
                + " claims "@ + decimal(len as int) + " bytes it does not have"@,
            FrameError::NotPostOrder { index, children, unclaimed } => "node "@ + decimal(
                index as int,
            ) + " claims "@ + decimal(children as int) + " children but only "@ + decimal(
                unclaimed as int,
            ) + " are unclaimed \u{2014} the frame is not in post-order"@,
            FrameError::Nothing => "the view drew nothing"@,
            FrameError::Roots { count } => "the view left "@ + decimal(count as int)
                + " roots; a view returns one Node"@,
        }
    }

    /// The error in words.
    pub fn message(&self) -> (r: String)
        ensures
            r@ == self.words(),
    {
        match *self {
            FrameError::Past { at } => {
                let mut out = "frame runs past the guest's memory at ".to_owned();
                out.append(address(at).as_str());
                out
            },
            FrameError::UnknownKind { tag } => {
                let mut out = "frame holds an unknown node kind ".to_owned();
                out.append(signed_number(tag as i64).as_str());
                out
            },
            FrameError::BadString { ptr, len } => {
                let mut out = "string at ".to_owned();
                out.append(address(ptr as u64).as_str());
                out.append(" claims ");
                out.append(number(len as u64).as_str());
                out.append(" bytes it does not have");
                out
            },
            FrameError::NotPostOrder { index, children, unclaimed } => {
                let mut out = "node ".to_owned();
                out.append(number(index as u64).as_str());
                out.append(" claims ");
                out.append(number(children as u64).as_str());
                out.append(" children but only ");
                out.append(number(unclaimed as u64).as_str());
                out.append(" are unclaimed \u{2014} the frame is not in post-order");
                out
            },
            FrameError::Nothing => "the view drew nothing".to_owned(),
            FrameError::Roots { count } => {
                let mut out = "the view left ".to_owned();
                out.append(number(count as u64).as_str());
                out.append(" roots; a view returns one Node");
                out
            },
        }
    }
}

/// The number at `at`.
pub open spec fn word_at(memory: Seq<u8>, at: int) -> Result<u32, FrameError> {
    if at + 4 <= memory.len() {
        Ok(le32(memory, at))
    } else {
        Err(FrameError::Past { at: at as u64 })
    }
}

/// The string at `ptr`. A null pointer is "no text", which is how an unwritten
/// string prop arrives.
pub open spec fn string_at(memory: Seq<u8>, ptr: u32) -> Result<Seq<char>, FrameError> {
    if ptr == 0 {
        Ok(Seq::empty())
    } else {
        match word_at(memory, ptr as int) {
            Err(e) => Err(e),
            Ok(len) => if ptr + 4 + len > memory.len() {
                Err(FrameError::BadString { ptr, len })
            } else {
                Ok(lossy_text(memory.subrange(ptr + 4, ptr + 4 + len)))
            },
        }
    }
}

/// The string whose pointer is at `at`.
pub open spec fn string_behind(memory: Seq<u8>, at: int) -> Result<Seq<char>, FrameError> {
    match word_at(memory, at) {
        Err(e) => Err(e),
        Ok(ptr) => string_at(memory, ptr),
    }
}

/// The record at `at`: its parts are read in order, and the first that cannot
/// be read is the error.
pub open spec fn record_at(table: RecordTable, memory: Seq<u8>, at: int) -> Result<
    Entry,
    FrameError,
> {
    match word_at(memory, at + table.kind) {
        Err(e) => Err(e),
        Ok(tag) => if tag >= table.kinds@.len() {
            Err(FrameError::UnknownKind { tag: signed32(tag) })
        } else {
            match (
                word_at(memory, at + table.children),
                word_at(memory, at + table.id),
                word_at(memory, at + table.flag),
                string_behind(memory, at + table.text),
                string_behind(memory, at + table.text2),
                word_at(memory, at + table.number),
                word_at(memory, at + table.number2),
            ) {
                (Err(e), _, _, _, _, _, _) => Err(e),
                (_, Err(e), _, _, _, _, _) => Err(e),
                (_, _, Err(e), _, _, _, _) => Err(e),
                (_, _, _, Err(e), _, _, _) => Err(e),
                (_, _, _, _, Err(e), _, _) => Err(e),
                (_, _, _, _, _, Err(e), _) => Err(e),
                (_, _, _, _, _, _, Err(e)) => Err(e),
                (
                    Ok(children),
                    Ok(id),
                    Ok(flag),
                    Ok(text),
                    Ok(text2),
                    Ok(number),
                    Ok(number2),
                ) => Ok(
                    Entry {
                        kind: table.kinds@[tag as int],
                        children,
                        id,
                        flag: flag != 0,
                        text,
                        text2,
                        number,
                        number2,
                    },
                ),
            }
        },
    }
}

fn read_word(memory: &[u8], at: u64) -> (r: Result<u32, FrameError>)
    ensures
        r == word_at(memory@, at as int),
{
    match read_u32(memory, at) {
        Some(value) => Ok(value),
        None => Err(FrameError::Past { at }),
    }
}

fn read_str(memory: &[u8], ptr: u32) -> (r: Result<String, FrameError>)
    ensures
        match (r, string_at(memory@, ptr)) {
            (Ok(text), Ok(expected)) => text@ == expected,
            (Err(e), Err(f)) => e == f,
            _ => false,
        },
{
    if ptr == 0 {
        return Ok(String::new());
    }
    let len: u32 = match read_word(memory, ptr as u64) {
        Ok(len) => len,
        Err(e) => {
            return Err(e);
        },
    };
    let start: u64 = ptr as u64 + 4;
    let end: u64 = start + len as u64;
    if end > memory.len() as u64 {
        return Err(FrameError::BadString { ptr, len });
    }
    Ok(lossy(slice_subrange(memory, start as usize, end as usize)))
}

fn read_str_behind(memory: &[u8], at: u64) -> (r: Result<String, FrameError>)
    ensures
        match (r, string_behind(memory@, at as int)) {
            (Ok(text), Ok(expected)) => text@ == expected,
            (Err(e), Err(f)) => e == f,
            _ => false,
        },
{
    match read_word(memory, at) {
        Ok(ptr) => read_str(memory, ptr),
        Err(e) => Err(e),
    }
}

fn read_record(table: &RecordTable, memory: &[u8], at: u64) -> (r: Result<Record, FrameError>)
    requires
        at <= 0xffff_ffff_0000_0000,
    ensures
        match (r, record_at(*table, memory@, at as int)) {
            (Ok(record), Ok(expected)) => record@ == expected,
            (Err(e), Err(f)) => e == f,
            _ => false,
        },
{
    let tag: u32 = match read_word(memory, at + table.kind as u64) {
        Ok(tag) => tag,
        Err(e) => {
            return Err(e);
        },
    };
    if tag as usize >= table.kinds.len() {
        return Err(FrameError::UnknownKind { tag: to_signed32(tag) });
    }
    let children: u32 = match read_word(memory, at + table.children as u64) {
        Ok(value) => value,
        Err(e) => {
            return Err(e);
        },
    };
    let id: u32 = match read_word(memory, at + table.id as u64) {
        Ok(value) => value,
        Err(e) => {
            return Err(e);
        },
    };
    let flag: u32 = match read_word(memory, at + table.flag as u64) {
        Ok(value) => value,
        Err(e) => {
            return Err(e);
        },
    };
    let text = match read_str_behind(memory, at + table.text as u64) {
        Ok(text) => text,
        Err(e) => {
            return Err(e);
        },
    };
    let text2 = match read_str_behind(memory, at + table.text2 as u64) {
        Ok(text) => text,
        Err(e) => {
            return Err(e);
        },
    };
    let first: u32 = match read_word(memory, at + table.number as u64) {
        Ok(value) => value,
        Err(e) => {
            return Err(e);
        },
    };
    let second: u32 = match read_word(memory, at + table.number2 as u64) {
        Ok(value) => value,
        Err(e) => {
            return Err(e);
        },
    };
    Ok(
        Record {
            kind: table.kinds[tag as usize],
            children,
            id,
            flag: flag != 0,
            text,
            text2,
            number: first,
            number2: second,
        },
    )
}

/// The records of a frame, as far as they could be read, and what stopped the
/// reading if something did.
#[derive(Debug)]
pub struct Records {
    pub read: Vec<Record>,
    pub stopped: Option<FrameError>,
}

/// What a list of records is.
pub open spec fn entries_of(records: Seq<Record>) -> Seq<Entry> {
    Seq::new(records.len(), |i: int| records[i]@)
}

/// Where the record at `index` of a frame starts.
pub open spec fn record_start(table: RecordTable, base: u32, index: int) -> int {
    base + index * table.size
}

/// Whether `entries` are the records of a frame up to the first that cannot be
/// read, and `stopped` is why it could not.
pub open spec fn reads(
    table: RecordTable,
    memory: Seq<u8>,
    base: u32,
    count: u32,
    entries: Seq<Entry>,
    stopped: Option<FrameError>,
) -> bool {
    &&& entries.len() <= count
    &&& forall|i: int|
        0 <= i < entries.len() ==> record_at(table, memory, record_start(table, base, i))
            == Ok::<Entry, FrameError>(#[trigger] entries[i])
    &&& match stopped {
        None => entries.len() == count,
        Some(e) => entries.len() < count && record_at(
            table,
            memory,
            record_start(table, base, entries.len() as int),
        ) == Err::<Entry, FrameError>(e),
    }
}

/// Reads the records a view emitted.
pub fn read_records(table: &RecordTable, memory: &[u8], base: u32, count: u32) -> (r: Records)
    ensures
        reads(*table, memory@, base, count, entries_of(r.read@), r.stopped),
{
    let mut read: Vec<Record> = Vec::new();
    for index in 0..count
        invariant
            read@.len() == index,
            forall|i: int|
                0 <= i < index ==> record_at(*table, memory@, record_start(*table, base, i))
                    == Ok::<Entry, FrameError>(#[trigger] entries_of(read@)[i]),
    {
        let size: u64 = table.size as u64;
        assert(index * size <= 0xffff_ffff * 0xffff_ffff) by (nonlinear_arith)
            requires
                index <= 0xffff_ffff,
                size <= 0xffff_ffff,
        ;
        let at: u64 = base as u64 + index as u64 * size;
        match read_record(table, memory, at) {
            Ok(record) => {
                let ghost before = entries_of(read@);
                read.push(record);
                assert(entries_of(read@) =~= before.push(record@));
            },
            Err(e) => {
                return Records { read, stopped: Some(e) };
            },
        }
    }
    Records { read, stopped: None }
}

/// A style with the spacing a record asks for.
pub open spec fn spaced<T>(style: Style<T>, gap: T, padding: T) -> Style<T> {
    Style { gap, padding, ..style }
}

/// The node a record turns into, with `gap` and `padding` the numbers it
/// carries and `children` the nodes it claimed. This is where the theme is
/// applied: the view named a widget, and the colours it wears come from the
/// platform.
pub open spec fn built<T: Scalar>(
    theme: Theme<T>,
    entry: Entry,
    gap: T,
    padding: T,
    children: Seq<Tree<T>>,
) -> Tree<T> {
    let plain = Style::<T>::plain();
    let hit = HitId(entry.id);
    match entry.kind {
        NodeKind::Screen => Tree::Column {
            style: spaced(
                Style {
                    width: Sizing::Grow,
                    height: Sizing::Grow,
                    background: Some(theme.surface),
                    ..plain
                },
                gap,
                padding,
            ),
            children,
        },
        NodeKind::Column => Tree::Column {
            style: spaced(Style { width: Sizing::Grow, ..plain }, gap, padding),
            children,
        },
        NodeKind::Row => Tree::Row {
            style: spaced(
                Style { width: Sizing::Grow, cross_axis: Align::Center, ..plain },
                gap,
                padding,
            ),
            children,
        },
        NodeKind::Panel => Tree::Column {
            style: spaced(
                Style { width: Sizing::Grow, background: Some(theme.raised), ..plain },
                gap,
                padding,
            ),
            children,
        },
        NodeKind::Scroll => scroll_of(theme, hit, gap, Sizing::Grow, children),
        NodeKind::Text => label_of(theme, entry.text),
        NodeKind::Muted => muted_label_of(theme, entry.text),
        NodeKind::Button => button_of(theme, hit, entry.text),
        NodeKind::Checkbox => checkbox_of(theme, hit, entry.flag, entry.text),
        NodeKind::TextInput => text_input_of(theme, hit, entry.text, entry.text2, entry.flag),
        NodeKind::Spacer => Tree::Box {
            style: Style { width: Sizing::Grow, height: Sizing::Grow, ..plain },
        },
    }
}

/// Turns one record into the platform's node.
fn build<T: Scalar>(
    theme: &Theme<T>,
    record: &Record,
    gap: T,
    padding: T,
    children: Vec<Node<T>>,
) -> (r: Node<T>)
    requires
        exact::<T>(),
    ensures
        r@ == built(*theme, record@, gap, padding, trees_of(children@)),
{
    let hit = HitId(record.id);
    match record.kind {
        NodeKind::Screen => Node::column(
            Style {
                width: Sizing::Grow,
                height: Sizing::Grow,
                background: Some(theme.surface),
                gap,
                padding,
                ..Style::default()
            },
            children,
        ),
        // A column fills the width it is given and takes the height it needs:
        // the shape app layout wants nine times out of ten.
        NodeKind::Column => Node::column(
            Style { width: Sizing::Grow, gap, padding, ..Style::default() },
            children,
        ),
        NodeKind::Row => Node::row(
            Style {
                width: Sizing::Grow,
                cross_axis: Align::Center,
                gap,
                padding,
                ..Style::default()
            },
            children,
        ),
        NodeKind::Panel => Node::column(
            Style {
                width: Sizing::Grow,
                background: Some(theme.raised),
                gap,
                padding,
                ..Style::default()
            },
            children,
        ),
        NodeKind::Scroll => scroll(theme, hit, gap, Sizing::Grow, children),
        NodeKind::Text => label(theme, record.text.clone()),
        NodeKind::Muted => muted_label(theme, record.text.clone()),
        NodeKind::Button => button(theme, hit, record.text.clone()),
        NodeKind::Checkbox => checkbox(theme, hit, record.flag, record.text.clone()),
        NodeKind::TextInput => text_input(
            theme,
            hit,
            record.text.as_str(),
            record.text2.as_str(),
            record.flag,
        ),
        // Grows in whichever direction its parent runs, which is what a spacer
        // is for: pushing the rest of the row or column to the far end.
        NodeKind::Spacer => Node::Box {
            style: Style { width: Sizing::Grow, height: Sizing::Grow, ..Style::default() },
        },
    }
}

/// The unclaimed roots after the records from `index` on, when `roots` are the
/// unclaimed roots before them. A container takes the last of them off and
/// pushes itself in their place.
pub open spec fn claimed<T: Scalar>(
    theme: Theme<T>,
    entries: Seq<Entry>,
    numbers: Seq<(T, T)>,
    index: nat,
    roots: Seq<Tree<T>>,
) -> Result<Seq<Tree<T>>, FrameError>
    decreases entries.len() - index,
{
    if index >= entries.len() {
        Ok(roots)
    } else {
        let entry = entries[index as int];
        if entry.children > roots.len() {
            Err(
                FrameError::NotPostOrder {
                    index: index as usize,
                    children: entry.children,
                    unclaimed: roots.len() as usize,
                },
            )
        } else {
            let keep = roots.len() - entry.children;
            let node = built(
                theme,
                entry,
                numbers[index as int].0,
                numbers[index as int].1,
                roots.subrange(keep, roots.len() as int),
            );
            claimed(
                theme,
                entries,
                numbers,
                index + 1,
                roots.subrange(0, keep).push(node),
            )
        }
    }
}

/// The tree a frame is: the one root its records leave unclaimed. A record
/// that could not be read is only reached once those before it have been
/// claimed.
pub open spec fn decoded<T: Scalar>(
    theme: Theme<T>,
    entries: Seq<Entry>,
    stopped: Option<FrameError>,
    numbers: Seq<(T, T)>,
) -> Result<Tree<T>, FrameError> {
    match claimed(theme, entries, numbers, 0, Seq::empty()) {
        Err(e) => Err(e),
        Ok(roots) => match stopped {
            Some(e) => Err(e),
            None => if roots.len() == 1 {
                Ok(roots[0])
            } else if roots.len() == 0 {
                Err(FrameError::Nothing)
            } else {
                Err(FrameError::Roots { count: roots.len() as usize })
            },
        },
    }
}

/// Rebuilds the tree a view emitted, from its records and the numbers they
/// carry.
///
/// One pass, one stack: the stack holds exactly the roots nobody has claimed
/// yet, the same counter the guest kept while building.
pub fn decode<T: Scalar>(theme: &Theme<T>, records: &Records, numbers: &Vec<(T, T)>) -> (r: Result<
    Node<T>,
    FrameError,
>)
    requires
        exact::<T>(),
        numbers@.len() == records.read@.len(),
    ensures
        match (r, decoded(*theme, entries_of(records.read@), records.stopped, numbers@)) {
            (Ok(node), Ok(tree)) => node@ == tree,
            (Err(e), Err(f)) => e == f,
            _ => false,
        },
{
    let mut roots: Vec<Node<T>> = Vec::new();
    let ghost entries = entries_of(records.read@);
    let ghost whole = claimed(*theme, entries, numbers@, 0, Seq::empty());
    assert(trees_of(roots@) =~= Seq::empty());
    for index in 0..records.read.len()
        invariant
            exact::<T>(),
            numbers@.len() == records.read@.len(),
            entries == entries_of(records.read@),
            whole == claimed(*theme, entries, numbers@, 0, Seq::empty()),
            whole == claimed(*theme, entries, numbers@, index as nat, trees_of(roots@)),
    {
        let record = &records.read[index];
        let ghost before = trees_of(roots@);
        assert(entries[index as int] == record@);
        if record.children as u64 > roots.len() as u64 {
            return Err(
                FrameError::NotPostOrder {
                    index,
                    children: record.children,
                    unclaimed: roots.len(),
                },
            );
        }
        let keep: usize = roots.len() - record.children as usize;
        let children = roots.split_off(keep);
        assert(trees_of(children@) =~= before.subrange(keep as int, before.len() as int));
        assert(trees_of(roots@) =~= before.subrange(0, keep as int));
        let (gap, padding) = numbers[index];
        let ghost kept = trees_of(roots@);
        let node = build(theme, record, gap, padding, children);
        roots.push(node);
        assert(trees_of(roots@) =~= kept.push(node@));
    }
    if let Some(e) = records.stopped {
        return Err(e);
    }
    let count: usize = roots.len();
    if count == 1 {
        match roots.pop() {
            Some(node) => Ok(node),
            None => Err(FrameError::Nothing),
        }
    } else if count == 0 {
        Err(FrameError::Nothing)
    } else {
        Err(FrameError::Roots { count })
    }
}

/// What a view draws: a widget with its props and numbers, around others.
pub struct Drawn<T> {
    pub entry: Entry,
    pub gap: T,
    pub padding: T,
    pub children: Seq<Drawn<T>>,
}

/// The records a view emits for what it draws: children first, in order, then
/// the node, which says how many of them are its own.
pub open spec fn post_order<T>(drawn: Drawn<T>) -> Seq<(Entry, (T, T))>
    decreases drawn,
{
    post_order_all(drawn.children, drawn.children.len()).push(
        (
            Entry { children: drawn.children.len() as u32, ..drawn.entry },
            (drawn.gap, drawn.padding),
        ),
    )
}

/// The records a view emits for the first `count` children of a node.
pub open spec fn post_order_all<T>(children: Seq<Drawn<T>>, count: nat) -> Seq<(Entry, (T, T))>
    decreases children, count,
{
    if count == 0 || count > children.len() {
        Seq::empty()
    } else {
        post_order_all(children, (count - 1) as nat) + post_order(children[count - 1])
    }
}

/// The tree that is drawn.
pub open spec fn tree_drawn<T: Scalar>(theme: Theme<T>, drawn: Drawn<T>) -> Tree<T>
    decreases drawn,
{
    built(
        theme,
        Entry { children: drawn.children.len() as u32, ..drawn.entry },
        drawn.gap,
        drawn.padding,
        trees_drawn(theme, drawn.children, drawn.children.len()),
    )
}

/// The trees of the first `count` children.
pub open spec fn trees_drawn<T: Scalar>(
    theme: Theme<T>,
    children: Seq<Drawn<T>>,
    count: nat,
) -> Seq<Tree<T>>
    decreases children, count,
{
    if count == 0 || count > children.len() {
        Seq::empty()
    } else {
        trees_drawn(theme, children, (count - 1) as nat).push(
            tree_drawn(theme, children[count - 1]),
        )
    }
}

/// Whether no node has more children than a record can say.
pub open spec fn countable<T>(drawn: Drawn<T>) -> bool
    decreases drawn,
{
    &&& drawn.children.len() <= u32::MAX
    &&& forall|i: int| 0 <= i < drawn.children.len() ==> countable(#[trigger] drawn.children[i])
}

pub open spec fn entries_in<T>(records: Seq<(Entry, (T, T))>) -> Seq<Entry> {
    Seq::new(records.len(), |i: int| records[i].0)
}

pub open spec fn numbers_in<T>(records: Seq<(Entry, (T, T))>) -> Seq<(T, T)> {
    Seq::new(records.len(), |i: int| records[i].1)
}

proof fn lemma_trees_drawn_len<T: Scalar>(theme: Theme<T>, children: Seq<Drawn<T>>, count: nat)
    requires
        count <= children.len(),
    ensures
        trees_drawn(theme, children, count).len() == count,
    decreases count,
{
    if count > 0 {
        lemma_trees_drawn_len(theme, children, (count - 1) as nat);
    }
}

/// Reading what a node emitted, wherever it stands among other records, pushes
/// exactly that node.
proof fn lemma_claimed<T: Scalar>(
    theme: Theme<T>,
    all: Seq<(Entry, (T, T))>,
    index: nat,
    drawn: Drawn<T>,
    roots: Seq<Tree<T>>,
)
    requires
        countable(drawn),
        index + post_order(drawn).len() <= all.len(),
        all.subrange(index as int, (index + post_order(drawn).len()) as int) == post_order(drawn),
    ensures
        claimed(theme, entries_in(all), numbers_in(all), index, roots) == claimed(
            theme,
            entries_in(all),
            numbers_in(all),
            index + post_order(drawn).len(),
            roots.push(tree_drawn(theme, drawn)),
        ),
    decreases drawn,
{
    let count = drawn.children.len();
    let inner = post_order_all(drawn.children, count);
    let own = post_order(drawn);
    let part = all.subrange(index as int, (index + own.len()) as int);
    assert(all.subrange(index as int, (index + inner.len()) as int) =~= inner) by {
        assert(own.subrange(0, inner.len() as int) =~= inner);
        assert(all.subrange(index as int, (index + inner.len()) as int) =~= part.subrange(
            0,
            inner.len() as int,
        ));
    }
    lemma_claimed_all(theme, all, index, drawn.children, count, roots);
    lemma_trees_drawn_len(theme, drawn.children, count);
    let made = trees_drawn(theme, drawn.children, count);
    let at = index + inner.len();
    assert(all[at as int] == own[inner.len() as int]) by {
        assert(part[inner.len() as int] == all[at as int]);
    }
    let stack = roots + made;
    assert(stack.subrange(0, roots.len() as int) =~= roots);
    assert(stack.subrange(roots.len() as int, stack.len() as int) =~= made);
    assert(entries_in(all)[at as int] == all[at as int].0);
    assert(numbers_in(all)[at as int] == all[at as int].1);
    assert(stack.len() - count == roots.len());
}

proof fn lemma_claimed_all<T: Scalar>(
    theme: Theme<T>,
    all: Seq<(Entry, (T, T))>,
    index: nat,
    children: Seq<Drawn<T>>,
    count: nat,
    roots: Seq<Tree<T>>,
)
    requires
        count <= children.len(),
        forall|i: int| 0 <= i < children.len() ==> countable(#[trigger] children[i]),
        index + post_order_all(children, count).len() <= all.len(),
        all.subrange(index as int, (index + post_order_all(children, count).len()) as int)
            == post_order_all(children, count),
    ensures
        claimed(theme, entries_in(all), numbers_in(all), index, roots) == claimed(
            theme,
            entries_in(all),
            numbers_in(all),
            index + post_order_all(children, count).len(),
            roots + trees_drawn(theme, children, count),
        ),
    decreases children, count,
{
    if count == 0 {
        assert(roots + trees_drawn(theme, children, count) =~= roots);
    } else {
        let fewer = (count - 1) as nat;
        let before = post_order_all(children, fewer);
        let last = post_order(children[count - 1]);
        let part = all.subrange(index as int, (index + before.len() + last.len()) as int);
        assert(all.subrange(index as int, (index + before.len()) as int) =~= before) by {
            assert((before + last).subrange(0, before.len() as int) =~= before);
            assert(all.subrange(index as int, (index + before.len()) as int) =~= part.subrange(
                0,
                before.len() as int,
            ));
        }
        lemma_claimed_all(theme, all, index, children, fewer, roots);
        let at = index + before.len();
        assert(all.subrange(at as int, (at + last.len()) as int) =~= last) by {
            assert((before + last).subrange(before.len() as int, part.len() as int) =~= last);
            assert(all.subrange(at as int, (at + last.len()) as int) =~= part.subrange(
                before.len() as int,
                part.len() as int,
            ));
        }
        let stack = roots + trees_drawn(theme, children, fewer);
        lemma_claimed(theme, all, at, children[count - 1], stack);
        assert(stack.push(tree_drawn(theme, children[count - 1])) =~= roots + trees_drawn(
            theme,
            children,
            count,
        ));
    }
}

/// Post-order rebuilds the tree: reading back what a view emitted gives what
/// it drew, children in the order they were written and nesting intact.
pub proof fn post_order_rebuilds_the_tree<T: Scalar>(theme: Theme<T>, drawn: Drawn<T>)
    requires
        countable(drawn),
    ensures
        decoded(
            theme,
            entries_in(post_order(drawn)),
            None,
            numbers_in(post_order(drawn)),
        ) == Ok::<Tree<T>, FrameError>(tree_drawn(theme, drawn)),
{
    let all = post_order(drawn);
    assert(all.subrange(0, all.len() as int) =~= all);
    lemma_claimed(theme, all, 0, drawn, Seq::empty());
    assert(entries_in(all).len() == all.len());
}

/// What a view wrote of a node: its props, with the bytes of its strings.
/// `None` is a string that was not written.
pub struct Written {
    pub kind: NodeKind,
    pub children: u32,
    pub id: u32,
    pub flag: bool,
    pub text: Option<Seq<u8>>,
    pub text2: Option<Seq<u8>>,
    pub number: u32,
    pub number2: u32,
}

/// Whether these bytes are in memory at `at`.
pub open spec fn laid(memory: Seq<u8>, at: int, bytes: Seq<u8>) -> bool {
    &&& 0 <= at
    &&& at + bytes.len() <= memory.len()
    &&& memory.subrange(at, at + bytes.len()) == bytes
}

/// Whether the pointer at `at` is to this string: its length and then its
/// bytes, somewhere in memory. A string that was not written is a null pointer.
pub open spec fn points_at(memory: Seq<u8>, at: int, string: Option<Seq<u8>>) -> bool {
    match string {
        None => laid(memory, at, bytes32(0)),
        Some(raw) => exists|ptr: u32| #[trigger]
            laid(memory, at, bytes32(ptr)) && ptr != 0 && raw.len() <= u32::MAX && laid(
                memory,
                ptr as int,
                bytes32(raw.len() as u32) + raw,
            ),
    }
}

/// Whether a record at `at` was written from these props, each where the table
/// says it goes: the tag of its widget, its numbers, a one or a zero for its
/// flag, and pointers to its strings.
pub open spec fn stored(table: RecordTable, memory: Seq<u8>, at: int, node: Written) -> bool {
    &&& exists|tag: u32| #[trigger]
        laid(memory, at + table.kind, bytes32(tag)) && tag < table.kinds@.len()
            && table.kinds@[tag as int] == node.kind
    &&& laid(memory, at + table.children, bytes32(node.children))
    &&& laid(memory, at + table.id, bytes32(node.id))
    &&& laid(
        memory,
        at + table.flag,
        bytes32(
            if node.flag {
                1
            } else {
                0
            },
        ),
    )
    &&& points_at(memory, at + table.text, node.text)
    &&& points_at(memory, at + table.text2, node.text2)
    &&& laid(memory, at + table.number, bytes32(node.number))
    &&& laid(memory, at + table.number2, bytes32(node.number2))
}

/// Whether a text is what a string reads as.
pub open spec fn reads_as(text: Seq<char>, string: Option<Seq<u8>>) -> bool {
    match string {
        None => text.len() == 0,
        Some(raw) => text == lossy_text(raw),
    }
}

/// Whether an entry has exactly these props.
pub open spec fn says(entry: Entry, node: Written) -> bool {
    &&& entry.kind == node.kind
    &&& entry.children == node.children
    &&& entry.id == node.id
    &&& entry.flag == node.flag
    &&& reads_as(entry.text, node.text)
    &&& reads_as(entry.text2, node.text2)
    &&& entry.number == node.number
    &&& entry.number2 == node.number2
}

proof fn lemma_laid_word(memory: Seq<u8>, at: int, value: u32)
    requires
        laid(memory, at, bytes32(value)),
    ensures
        word_at(memory, at) == Ok::<u32, FrameError>(value),
{
    lemma_bytes32(value);
    let part = memory.subrange(at, at + 4);
    assert(part[0] == memory[at] && part[1] == memory[at + 1]);
    assert(part[2] == memory[at + 2] && part[3] == memory[at + 3]);
    lemma_le32_congruent(memory, at, bytes32(value), 0);
}

proof fn lemma_points_at(memory: Seq<u8>, at: int, string: Option<Seq<u8>>)
    requires
        points_at(memory, at, string),
    ensures
        string_behind(memory, at) matches Ok(text) && reads_as(text, string),
{
    match string {
        None => {
            lemma_laid_word(memory, at, 0);
        },
        Some(raw) => {
            let ptr = choose|ptr: u32| #[trigger]
                laid(memory, at, bytes32(ptr)) && ptr != 0 && raw.len() <= u32::MAX && laid(
                    memory,
                    ptr as int,
                    bytes32(raw.len() as u32) + raw,
                );
            let len = raw.len() as u32;
            lemma_laid_word(memory, at, ptr);
            lemma_bytes32(len);
            let whole = bytes32(len) + raw;
            let part = memory.subrange(ptr as int, ptr + whole.len());
            assert(memory.subrange(ptr as int, ptr + 4) =~= bytes32(len)) by {
                assert forall|k: int| 0 <= k < 4 implies memory[ptr + k] == #[trigger] bytes32(
                    len,
                )[k] by {
                    assert(part[k] == memory[ptr + k]);
                    assert(whole[k] == bytes32(len)[k]);
                }
            }
            lemma_laid_word(memory, ptr as int, len);
            assert(memory.subrange(ptr + 4, ptr + 4 + len) =~= raw) by {
                assert forall|k: int| 0 <= k < len implies memory[ptr + 4 + k] == #[trigger] raw[k] by {
                    assert(part[4 + k] == memory[ptr + (4 + k)]);
                    assert(whole[4 + k] == raw[k]);
                }
            }
        },
    }
}

/// Reading back what a view wrote gives its props: a record that was written is
/// read as the widget, the flag, the numbers and the strings it was written
/// from.
pub proof fn a_record_reads_back_as_it_was_written(
    table: RecordTable,
    memory: Seq<u8>,
    at: int,
    node: Written,
)
    requires
        stored(table, memory, at, node),
    ensures
        record_at(table, memory, at) matches Ok(entry) && says(entry, node),
{
    let tag = choose|tag: u32| #[trigger]
        laid(memory, at + table.kind, bytes32(tag)) && tag < table.kinds@.len()
            && table.kinds@[tag as int] == node.kind;
    lemma_laid_word(memory, at + table.kind, tag);
    lemma_laid_word(memory, at + table.children, node.children);
    lemma_laid_word(memory, at + table.id, node.id);
    lemma_laid_word(
        memory,
        at + table.flag,
        if node.flag {
            1
        } else {
            0
        },
    );
    lemma_points_at(memory, at + table.text, node.text);
    lemma_points_at(memory, at + table.text2, node.text2);
    lemma_laid_word(memory, at + table.number, node.number);
    lemma_laid_word(memory, at + table.number2, node.number2);
}

/// Reading back the frame a view wrote gives every node of it, in order, and
/// nothing stops the reading.
pub proof fn a_frame_reads_back_as_it_was_written(
    table: RecordTable,
    memory: Seq<u8>,
    base: u32,
    nodes: Seq<Written>,
    entries: Seq<Entry>,
    stopped: Option<FrameError>,
)
    requires
        nodes.len() <= u32::MAX,
        forall|i: int|
            0 <= i < nodes.len() ==> stored(
                table,
                memory,
                base + i * table.size,
                #[trigger] nodes[i],
            ),
        reads(table, memory, base, nodes.len() as u32, entries, stopped),
    ensures
        stopped is None,
        entries.len() == nodes.len(),
        forall|i: int| 0 <= i < nodes.len() ==> says(#[trigger] entries[i], nodes[i]),
{
    if stopped is Some {
        let i = entries.len() as int;
        assert(stored(table, memory, base + i * table.size, nodes[i]));
        a_record_reads_back_as_it_was_written(table, memory, base + i * table.size, nodes[i]);
        assert(false);
    }
    assert forall|i: int| 0 <= i < nodes.len() implies says(#[trigger] entries[i], nodes[i]) by {
        assert(stored(table, memory, base + i * table.size, nodes[i]));
        a_record_reads_back_as_it_was_written(table, memory, base + i * table.size, nodes[i]);
    }
}

/// A record becomes the widget it names, with the props it carries: its text is
/// what the widget shows, its id what the widget is clicked as, its numbers the
/// spacing of a container or the offset of a scroll, its flag whether a box is
/// checked or a field has focus, and its children are what a container lays
/// out, in order.
pub proof fn a_record_becomes_the_widget_it_names<T: Scalar>(
    theme: Theme<T>,
    entry: Entry,
    first: T,
    second: T,
    children: Seq<Tree<T>>,
)
    ensures
        ({
            let tree = built(theme, entry, first, second, children);
            let kind = entry.kind;
            let stack = kind is Screen || kind is Column || kind is Panel || kind is Row;
            &&& tree is Scroll <==> kind is Scroll
            &&& tree is Column <==> kind is Screen || kind is Column || kind is Panel
            &&& tree is Text <==> kind is Text || kind is Muted
            &&& tree is Box <==> kind is Spacer
            &&& stack || kind is Scroll ==> tree.children() == children
            &&& stack ==> (tree.style() matches Some(style) && style.gap == first && style.padding
                == second && style.width is Grow && style.id is None)
            &&& kind is Screen ==> (tree.style() matches Some(style) && style.height is Grow
                && style.background == Some(theme.surface))
            &&& kind is Panel ==> (tree.style() matches Some(style) && style.height is Fit
                && style.background == Some(theme.raised))
            &&& kind is Column || kind is Row ==> (tree.style() matches Some(style)
                && style.height is Fit && style.background is None)
            &&& stack ==> (tree.style() matches Some(style) && style.main_axis is Start)
            &&& stack ==> (tree.style() matches Some(style) && (style.cross_axis is Center
                <==> kind is Row))
            &&& kind is Spacer ==> (tree.style() matches Some(style) && style.width is Grow
                && style.height is Grow && style.background is None && style.id is None)
            &&& kind is Scroll ==> (tree matches Tree::Scroll { offset, .. } && offset == first)
            &&& kind is Button || kind is Checkbox || kind is TextInput || kind is Scroll ==> (
            tree.style() matches Some(style) && style.id == Some(HitId(entry.id)))
            &&& kind is TextInput <==> (tree.style() matches Some(style) && style.focusable)
            &&& kind is Text || kind is Muted || kind is Button || kind is Checkbox ==> texts_in(
                tree,
            ) == seq![entry.text]
            &&& kind is Text ==> (tree matches Tree::Text { style, .. } && style.color
                == theme.text)
            &&& kind is Muted ==> (tree matches Tree::Text { style, .. } && style.color
                == theme.muted)
            &&& kind is Checkbox ==> is_mark(
                tree.children()[0],
                if entry.flag {
                    theme.accent
                } else {
                    theme.muted
                },
            )
            &&& kind is TextInput && entry.text.len() > 0 ==> texts_in(tree) == seq![entry.text]
            &&& kind is TextInput && entry.text.len() == 0 && !entry.flag ==> texts_in(tree)
                == seq![entry.text2]
            &&& kind is TextInput ==> (entry.flag <==> is_mark(
                tree.children().last(),
                theme.accent,
            ))
        }),
{
    let hit = HitId(entry.id);
    a_widget_says_what_it_was_given(theme, hit, entry.text, entry.text2, entry.flag);
    checking_a_box_fills_its_mark(theme, hit, entry.text);
    focus_puts_a_caret_last(theme, hit, entry.text, entry.text2);
}

/// A refusal is true: a frame that is said to run past memory does, a string
/// that is said to claim too much does, and a tag that is said to name nothing
/// names nothing.
pub proof fn a_refused_record_cannot_be_read(table: RecordTable, memory: Seq<u8>, at: int)
    requires
        0 <= at <= 0xffff_ffff_0000_0000,
    ensures
        match record_at(table, memory, at) {
            Ok(_) => true,
            Err(FrameError::Past { at: place }) => place + 4 > memory.len(),
            Err(FrameError::BadString { ptr, len }) => ptr + 4 + len > memory.len(),
            Err(FrameError::UnknownKind { tag }) => tag < 0 || tag >= table.kinds@.len(),
            Err(_) => false,
        },
{
}

/// A frame is refused for its shape only where its shape is wrong: a node that
/// is said to claim too many does, and a frame is said to have drawn nothing or
/// too much only where it left none or several.
pub proof fn a_refused_frame_is_no_tree<T: Scalar>(
    theme: Theme<T>,
    entries: Seq<Entry>,
    numbers: Seq<(T, T)>,
    index: nat,
    roots: Seq<Tree<T>>,
)
    requires
        entries.len() <= usize::MAX,
        roots.len() + entries.len() - index <= usize::MAX,
        index <= entries.len(),
    ensures
        match claimed(theme, entries, numbers, index, roots) {
            Ok(left) => left.len() + claims(entries, index) == roots.len() + entries.len() - index,
            Err(FrameError::NotPostOrder { index: at, children, unclaimed }) => {
                &&& index <= at < entries.len()
                &&& entries[at as int].children == children
                &&& children > unclaimed
            },
            Err(_) => false,
        },
    decreases entries.len() - index,
{
    if index < entries.len() {
        let entry = entries[index as int];
        if entry.children <= roots.len() {
            let keep = roots.len() - entry.children;
            let node = built(
                theme,
                entry,
                numbers[index as int].0,
                numbers[index as int].1,
                roots.subrange(keep, roots.len() as int),
            );
            a_refused_frame_is_no_tree(
                theme,
                entries,
                numbers,
                index + 1,
                roots.subrange(0, keep).push(node),
            );
        }
    }
}

/// How many children the records from `index` on claim together.
pub open spec fn claims(entries: Seq<Entry>, index: nat) -> nat
    decreases entries.len() - index,
{
    if index >= entries.len() {
        0
    } else {
        entries[index as int].children as nat + claims(entries, index + 1)
    }
}

} // verus!
