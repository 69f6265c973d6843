//! What an editor is told about a file.
//!
//! The compiler front end reports in bytes: where an item is, where a name is,
//! where a problem is. An editor counts lines and characters. The front end's
//! table of positions comes with the file; everything said here is said
//! through it.

use vstd::prelude::*;
use vstd::string::StringExecFns;

use crate::text::{join, joined, texts};

verus! {

/// A stretch of source text, in bytes.
#[derive(Clone, Copy, Debug, PartialEq, Eq, Structural)]
pub struct Span {
    pub start: usize,
    pub end: usize,
}

/// A place in a file, as an editor counts.
#[derive(Clone, Copy, Debug, PartialEq, Eq, Structural)]
pub struct Position {
    pub line: u32,
    pub character: u32,
}

#[derive(Clone, Copy, Debug, PartialEq, Eq, Structural)]
pub struct Range {
    pub start: Position,
    pub end: Position,
}

/// Something the compiler found wrong.
#[derive(Debug)]
pub struct Problem {
    pub span: Span,
    pub message: String,
    /// Only written when the fix is unambiguous.
    pub help: Option<String>,
}

/// A named part of a declaration: a field or a variant.
#[derive(Debug)]
pub struct Part {
    pub name: String,
    pub span: Span,
}

#[derive(Debug)]
pub struct FnDecl {
    pub name: String,
    /// The names of its parameters.
    pub params: Vec<String>,
    pub is_view: bool,
    pub span: Span,
    pub name_span: Span,
}

#[derive(Debug)]
pub enum TypeDef {
    Record(Vec<Part>),
    Sum(Vec<Part>),
    Alias,
}

#[derive(Debug)]
pub struct TypeDecl {
    pub name: String,
    pub def: TypeDef,
    pub span: Span,
    pub name_span: Span,
}

#[derive(Debug)]
pub struct ActorDecl {
    pub name: String,
    pub init: FnDecl,
    pub receive: FnDecl,
    pub view: Option<FnDecl>,
    pub span: Span,
    pub name_span: Span,
}

/// A declaration at the top of a file.
#[derive(Debug)]
pub enum Item {
    Fn(FnDecl),
    Type(TypeDecl),
    Actor(ActorDecl),
}

/// One file, parsed and checked once so every request can be answered from it.
#[derive(Debug)]
pub struct Document {
    /// The position of every byte of the file, and of its end.
    pub positions: Vec<Position>,
    pub items: Vec<Item>,
    pub problems: Vec<Problem>,
}

/// What an editor shows a symbol as.
#[derive(Clone, Copy, Debug, PartialEq, Eq, Structural)]
pub enum SymbolKind {
    Struct,
    Field,
    Enum,
    EnumMember,
    Class,
    Function,
}

/// A declaration, for the outline and breadcrumbs.
#[derive(Debug, PartialEq, Eq)]
pub struct Symbol {
    pub name: String,
    pub detail: Option<String>,
    pub kind: SymbolKind,
    pub range: Range,
    /// What the editor highlights when you pick the symbol: the name, not the
    /// whole declaration.
    pub selection_range: Range,
    /// `None` where there are none.
    pub children: Option<Vec<Symbol>>,
}

/// What a [`Symbol`] is.
pub struct Entry {
    pub name: Seq<char>,
    pub detail: Option<Seq<char>>,
    pub kind: SymbolKind,
    pub range: Range,
    pub selection_range: Range,
    pub children: Option<Seq<Entry>>,
}

/// What a symbol is.
pub open spec fn entry_of(symbol: Symbol) -> Entry
    decreases symbol,
{
    Entry {
        name: symbol.name@,
        detail: match symbol.detail {
            Some(text) => Some(text@),
            None => None,
        },
        kind: symbol.kind,
        range: symbol.range,
        selection_range: symbol.selection_range,
        children: match symbol.children {
            Some(children) => Some(
                Seq::new(
                    children@.len(),
                    |i: int|
                        if 0 <= i < children@.len() {
                            entry_of(children@[i])
                        } else {
                            arbitrary()
                        },
                ),
            ),
            None => None,
        },
    }
}

impl View for Symbol {
    type V = Entry;

    open spec fn view(&self) -> Entry {
        entry_of(*self)
    }
}

/// What a list of symbols is.
pub open spec fn entries_of(symbols: Seq<Symbol>) -> Seq<Entry> {
    Seq::new(symbols.len(), |i: int| symbols[i]@)
}

/// How bad a problem is. Everything the compiler reports is an error.
#[derive(Clone, Copy, Debug, PartialEq, Eq, Structural)]
pub enum Severity {
    Error,
}

/// A problem, as an editor shows it.
#[derive(Debug, PartialEq, Eq)]
pub struct Diagnostic {
    pub range: Range,
    pub severity: Severity,
    /// Who found it.
    pub source: &'static str,
    pub message: String,
}

/// What a [`Diagnostic`] is.
pub struct Finding {
    pub range: Range,
    pub severity: Severity,
    pub source: Seq<char>,
    pub message: Seq<char>,
}

impl View for Diagnostic {
    type V = Finding;

    open spec fn view(&self) -> Finding {
        Finding {
            range: self.range,
            severity: self.severity,
            source: self.source@,
            message: self.message@,
        }
    }
}

/// What a list of diagnostics is.
pub open spec fn findings_of(list: Seq<Diagnostic>) -> Seq<Finding> {
    Seq::new(list.len(), |i: int| list[i]@)
}

impl Position {
    /// Whether a place is before another.
    pub open spec fn before(self, other: Position) -> bool {
        self.line < other.line || (self.line == other.line && self.character < other.character)
    }

    /// Whether a place is before another.
    pub fn is_before(&self, other: &Position) -> (r: bool)
        ensures
            r == self.before(*other),
    {
        self.line < other.line || (self.line == other.line && self.character < other.character)
    }
}

impl Span {
    /// Whether a span lies in a file of this many bytes.
    pub open spec fn within(self, len: nat) -> bool {
        self.start <= len && self.end <= len
    }

    fn is_within(&self, len: usize) -> (r: bool)
        ensures
            r == self.within(len as nat),
    {
        self.start <= len && self.end <= len
    }
}

pub open spec fn parts_within(parts: Seq<Part>, len: nat) -> bool {
    forall|i: int| 0 <= i < parts.len() ==> (#[trigger] parts[i]).span.within(len)
}

fn are_parts_within(parts: &Vec<Part>, len: usize) -> (r: bool)
    ensures
        r == parts_within(parts@, len as nat),
{
    for i in 0..parts.len()
        invariant
            forall|k: int| 0 <= k < i ==> (#[trigger] parts@[k]).span.within(len as nat),
    {
        if !parts[i].span.is_within(len) {
            return false;
        }
    }
    true
}

impl FnDecl {
    pub open spec fn within(self, len: nat) -> bool {
        self.span.within(len) && self.name_span.within(len)
    }

    fn is_within(&self, len: usize) -> (r: bool)
        ensures
            r == self.within(len as nat),
    {
        self.span.is_within(len) && self.name_span.is_within(len)
    }
}

impl Item {
    /// Whether a declaration lies in a file of this many bytes.
    pub open spec fn within(self, len: nat) -> bool {
        match self {
            Item::Fn(decl) => decl.within(len),
            Item::Type(decl) => {
                &&& decl.span.within(len)
                &&& decl.name_span.within(len)
                &&& match decl.def {
                    TypeDef::Record(parts) => parts_within(parts@, len),
                    TypeDef::Sum(parts) => parts_within(parts@, len),
                    TypeDef::Alias => true,
                }
            },
            Item::Actor(decl) => {
                &&& decl.span.within(len)
                &&& decl.name_span.within(len)
                &&& decl.init.within(len)
                &&& decl.receive.within(len)
                &&& decl.view matches Some(view) ==> view.within(len)
            },
        }
    }

    fn is_within(&self, len: usize) -> (r: bool)
        ensures
            r == self.within(len as nat),
    {
        match self {
            Item::Fn(decl) => decl.is_within(len),
            Item::Type(decl) => decl.span.is_within(len) && decl.name_span.is_within(len)
                && match &decl.def {
                TypeDef::Record(parts) => are_parts_within(parts, len),
                TypeDef::Sum(parts) => are_parts_within(parts, len),
                TypeDef::Alias => true,
            },
            Item::Actor(decl) => decl.span.is_within(len) && decl.name_span.is_within(len)
                && decl.init.is_within(len) && decl.receive.is_within(len) && match &decl.view {
                Some(view) => view.is_within(len),
                None => true,
            },
        }
    }
}

impl Document {
    /// The length of the file, in bytes.
    pub open spec fn len(self) -> nat {
        (self.positions@.len() - 1) as nat
    }

    /// Whether everything the front end found lies in the file.
    pub open spec fn valid(self) -> bool {
        &&& self.positions@.len() > 0
        &&& forall|i: int| 0 <= i < self.items@.len() ==> (#[trigger] self.items@[i]).within(self.len())
        &&& forall|i: int|
            0 <= i < self.problems@.len() ==> (#[trigger] self.problems@[i]).span.within(self.len())
    }

    /// Whether everything the front end found lies in the file.
    pub fn is_valid(&self) -> (r: bool)
        ensures
            r == self.valid(),
    {
        if self.positions.len() == 0 {
            return false;
        }
        let len: usize = self.positions.len() - 1;
        for i in 0..self.items.len()
            invariant
                len == self.len(),
                forall|k: int| 0 <= k < i ==> (#[trigger] self.items@[k]).within(self.len()),
        {
            if !self.items[i].is_within(len) {
                return false;
            }
        }
        for i in 0..self.problems.len()
            invariant
                len == self.len(),
                forall|k: int|
                    0 <= k < i ==> (#[trigger] self.problems@[k]).span.within(self.len()),
        {
            if !self.problems[i].span.is_within(len) {
                return false;
            }
        }
        true
    }

    /// Where a span ends on screen. A span of no width, which the parser
    /// produces at the end of input, is widened onto the next character.
    pub open spec fn shown_end(self, span: Span) -> nat {
        if span.end == span.start {
            if span.start + 1 <= self.len() {
                (span.start + 1) as nat
            } else {
                self.len()
            }
        } else {
            span.end as nat
        }
    }

    /// The range of a span.
    pub open spec fn range_of(self, span: Span) -> Range {
        Range {
            start: self.positions@[span.start as int],
            end: self.positions@[self.shown_end(span) as int],
        }
    }

    /// The range of a span.
    pub fn range(&self, span: Span) -> (r: Range)
        requires
            self.positions@.len() > 0,
            span.within(self.len()),
        ensures
            r == self.range_of(span),
    {
        let len: usize = self.positions.len() - 1;
        let end: usize = if span.end == span.start {
            if span.start < len {
                span.start + 1
            } else {
                len
            }
        } else {
            span.end
        };
        Range { start: self.positions[span.start], end: self.positions[end] }
    }

    /// The ranges of every mention of a name.
    pub fn references(&self, spans: &Vec<Span>) -> (r: Vec<Range>)
        requires
            self.positions@.len() > 0,
            forall|i: int| 0 <= i < spans@.len() ==> (#[trigger] spans@[i]).within(self.len()),
        ensures
            r@ == Seq::new(spans@.len(), |i: int| self.range_of(spans@[i])),
    {
        let mut out: Vec<Range> = Vec::new();
        for i in 0..spans.len()
            invariant
                self.positions@.len() > 0,
                forall|i: int| 0 <= i < spans@.len() ==> (#[trigger] spans@[i]).within(self.len()),
                out@.len() == i,
                forall|j: int| 0 <= j < i ==> #[trigger] out@[j] == self.range_of(spans@[j]),
        {
            assert(spans@[i as int].within(self.len()));
            out.push(self.range(spans[i]));
        }
        assert(out@ =~= Seq::new(spans@.len(), |i: int| self.range_of(spans@[i])));
        out
    }

    /// A problem as it is shown: with the fix, where the compiler knows one.
    pub open spec fn finding(self, problem: Problem) -> Finding {
        Finding {
            range: self.range_of(problem.span),
            severity: Severity::Error,
            source: "strandc"@,
            message: match problem.help {
                Some(help) => problem.message@ + "\n\nhelp: "@ + help@,
                None => problem.message@,
            },
        }
    }

    /// The first `count` problems in source order.
    pub open spec fn ordered(self, count: nat) -> Seq<Finding>
        decreases count,
    {
        if count == 0 {
            Seq::empty()
        } else {
            let sorted = self.ordered((count - 1) as nat);
            let next = self.finding(self.problems@[count - 1]);
            sorted.insert(place_for(sorted, next, sorted.len()) as int, next)
        }
    }

    /// Every problem in the file, in source order.
    ///
    /// The compiler reports in phase order (types, then signatures, then
    /// bodies), which does not match how the file reads. Problems that start at
    /// one place stay in the order they were found.
    pub fn diagnostics(&self) -> (r: Vec<Diagnostic>)
        requires
            self.valid(),
        ensures
            findings_of(r@) == self.ordered(self.problems@.len()),
    {
        let mut out: Vec<Diagnostic> = Vec::new();
        assert(findings_of(out@) =~= self.ordered(0));
        for i in 0..self.problems.len()
            invariant
                self.valid(),
                findings_of(out@) == self.ordered(i as nat),
        {
            let problem = &self.problems[i];
            assert(self.problems@[i as int].span.within(self.len()));
            let range = self.range(problem.span);
            let mut message = problem.message.clone();
            if let Some(help) = &problem.help {
                message.append("\n\nhelp: ");
                message.append(help.as_str());
            }
            let ghost sorted = findings_of(out@);
            let ghost next = self.finding(*problem);
            let mut at: usize = out.len();
            while at > 0 && range.start.is_before(&out[at - 1].range.start)
                invariant
                    at <= out@.len(),
                    sorted == findings_of(out@),
                    range == next.range,
                    place_for(sorted, next, sorted.len()) == place_for(sorted, next, at as nat),
                decreases at,
            {
                assert(sorted[at - 1] == out@[at - 1]@);
                at = at - 1;
            }
            proof {
                if at > 0 {
                    assert(sorted[at - 1] == out@[at - 1]@);
                }
            }
            let found = Diagnostic {
                range,
                severity: Severity::Error,
                source: "strandc",
                message,
            };
            assert(found@ == next);
            out.insert(at, found);
            assert(findings_of(out@) =~= sorted.insert(at as int, next));
        }
        out
    }
}

/// Where a problem goes among the first `count` of those that are sorted:
/// after the last that does not start after it.
pub open spec fn place_for(sorted: Seq<Finding>, next: Finding, count: nat) -> nat
    decreases count,
{
    if count == 0 || count > sorted.len() {
        0
    } else if next.range.start.before(sorted[count - 1].range.start) {
        place_for(sorted, next, (count - 1) as nat)
    } else {
        count
    }
}

/// Whether problems are in source order.
pub open spec fn in_order(list: Seq<Finding>) -> bool {
    forall|i: int, j: int|
        #![trigger list[i], list[j]]
        0 <= i < j < list.len() ==> !list[j].range.start.before(list[i].range.start)
}

proof fn lemma_place(sorted: Seq<Finding>, next: Finding, count: nat)
    requires
        count <= sorted.len(),
    ensures
        place_for(sorted, next, count) <= count,
        forall|i: int|
            place_for(sorted, next, count) <= i < count ==> next.range.start.before(
                (#[trigger] sorted[i]).range.start,
            ),
        place_for(sorted, next, count) > 0 ==> !next.range.start.before(
            sorted[place_for(sorted, next, count) - 1].range.start,
        ),
    decreases count,
{
    if count > 0 && next.range.start.before(sorted[count - 1].range.start) {
        lemma_place(sorted, next, (count - 1) as nat);
    }
}

/// Diagnostics come in source order, and every problem is among them exactly
/// as often as it was found.
pub proof fn diagnostics_are_in_source_order(document: Document, count: nat)
    requires
        count <= document.problems@.len(),
    ensures
        in_order(document.ordered(count)),
        document.ordered(count).len() == count,
        document.ordered(count).to_multiset() == Seq::new(
            count,
            |i: int| document.finding(document.problems@[i]),
        ).to_multiset(),
    decreases count,
{
    broadcast use vstd::seq_lib::group_to_multiset_ensures;

    if count == 0 {
        assert(document.ordered(0) =~= Seq::new(
            0,
            |i: int| document.finding(document.problems@[i]),
        ));
    } else {
        let less = (count - 1) as nat;
        diagnostics_are_in_source_order(document, less);
        let sorted = document.ordered(less);
        let next = document.finding(document.problems@[count - 1]);
        let at = place_for(sorted, next, sorted.len());
        lemma_place(sorted, next, sorted.len());
        let all = document.ordered(count);
        assert(all == sorted.insert(at as int, next));
        assert forall|i: int, j: int|
            #![trigger all[i], all[j]]
            0 <= i < j < all.len() implies !all[j].range.start.before(all[i].range.start) by {
            if i < at {
                if j < at {
                    assert(all[i] == sorted[i] && all[j] == sorted[j]);
                } else if j == at {
                    assert(all[i] == sorted[i] && all[j] == next);
                    if i < at - 1 {
                        assert(!sorted[at - 1].range.start.before(sorted[i].range.start));
                    }
                } else {
                    assert(all[i] == sorted[i] && all[j] == sorted[j - 1]);
                }
            } else if i == at {
                assert(all[i] == next && all[j] == sorted[j - 1]);
            } else {
                assert(all[i] == sorted[i - 1] && all[j] == sorted[j - 1]);
            }
        }
        let before = Seq::new(less, |i: int| document.finding(document.problems@[i]));
        let found = Seq::new(count, |i: int| document.finding(document.problems@[i]));
        assert(found =~= before.push(next));
        vstd::seq_lib::to_multiset_insert(sorted, at as int, next);
        vstd::seq_lib::to_multiset_build(before, next);
    }
}

/// A range never ends before it starts, where positions grow with offsets.
pub proof fn a_range_never_ends_before_it_starts(document: Document, span: Span)
    requires
        document.positions@.len() > 0,
        span.within(document.len()),
        span.start <= span.end,
        forall|i: int, j: int|
            #![trigger document.positions@[i], document.positions@[j]]
            0 <= i <= j < document.positions@.len() ==> !document.positions@[j].before(
                document.positions@[i],
            ),
    ensures
        !document.range_of(span).end.before(document.range_of(span).start),
{
    let end = document.shown_end(span);
    assert(!document.positions@[end as int].before(document.positions@[span.start as int]));
}

/// A symbol with these children: none at all is said as `None`.
pub open spec fn children_of(children: Seq<Entry>) -> Option<Seq<Entry>> {
    if children.len() == 0 {
        None
    } else {
        Some(children)
    }
}

/// A function's signature, without its types.
pub open spec fn signature(decl: FnDecl) -> Seq<char> {
    (if decl.is_view {
        "view "@
    } else {
        ""@
    }) + "fn("@ + joined(texts(decl.params@), ", "@) + ")"@
}

impl Document {
    /// The symbol of a function.
    pub open spec fn fn_entry(self, decl: FnDecl) -> Entry {
        Entry {
            name: decl.name@,
            detail: Some(signature(decl)),
            kind: SymbolKind::Function,
            range: self.range_of(decl.span),
            selection_range: self.range_of(decl.name_span),
            children: None,
        }
    }

    /// The symbols of a type's parts.
    pub open spec fn part_entries(self, parts: Seq<Part>, kind: SymbolKind) -> Seq<Entry> {
        Seq::new(
            parts.len(),
            |i: int|
                Entry {
                    name: parts[i].name@,
                    detail: None,
                    kind,
                    range: self.range_of(parts[i].span),
                    selection_range: self.range_of(parts[i].span),
                    children: None,
                },
        )
    }

    /// The symbol of a declaration.
    pub open spec fn item_entry(self, item: Item) -> Entry {
        match item {
            Item::Fn(decl) => self.fn_entry(decl),
            Item::Type(decl) => Entry {
                name: decl.name@,
                detail: None,
                kind: match decl.def {
                    TypeDef::Record(_) => SymbolKind::Struct,
                    TypeDef::Sum(_) => SymbolKind::Enum,
                    TypeDef::Alias => SymbolKind::Class,
                },
                range: self.range_of(decl.span),
                selection_range: self.range_of(decl.name_span),
                children: match decl.def {
                    TypeDef::Record(parts) => children_of(
                        self.part_entries(parts@, SymbolKind::Field),
                    ),
                    TypeDef::Sum(parts) => children_of(
                        self.part_entries(parts@, SymbolKind::EnumMember),
                    ),
                    TypeDef::Alias => None,
                },
            },
            Item::Actor(decl) => Entry {
                name: decl.name@,
                detail: Some("actor"@),
                kind: SymbolKind::Class,
                range: self.range_of(decl.span),
                selection_range: self.range_of(decl.name_span),
                children: children_of(
                    seq![self.fn_entry(decl.init), self.fn_entry(decl.receive)] + (match decl.view {
                        Some(view) => seq![self.fn_entry(view)],
                        None => Seq::empty(),
                    }),
                ),
            },
        }
    }

    fn symbol(
        &self,
        name: &str,
        detail: Option<String>,
        kind: SymbolKind,
        span: Span,
        name_span: Span,
        children: Vec<Symbol>,
    ) -> (r: Symbol)
        requires
            self.positions@.len() > 0,
            span.within(self.len()),
            name_span.within(self.len()),
        ensures
            r@ == (Entry {
                name: name@,
                detail: match detail {
                    Some(text) => Some(text@),
                    None => None,
                },
                kind,
                range: self.range_of(span),
                selection_range: self.range_of(name_span),
                children: children_of(entries_of(children@)),
            }),
    {
        let ghost inner = entries_of(children@);
        let r = Symbol {
            name: name.to_owned(),
            detail,
            kind,
            range: self.range(span),
            selection_range: self.range(name_span),
            children: if children.len() == 0 {
                None
            } else {
                Some(children)
            },
        };
        proof {
            if inner.len() > 0 {
                assert(r@.children->Some_0 =~= inner);
            }
        }
        r
    }

    fn fn_symbol(&self, decl: &FnDecl) -> (r: Symbol)
        requires
            self.positions@.len() > 0,
            decl.within(self.len()),
        ensures
            r@ == self.fn_entry(*decl),
    {
        let mut detail = if decl.is_view {
            "view ".to_owned()
        } else {
            "".to_owned()
        };
        detail.append("fn(");
        detail.append(join(&decl.params, ", ").as_str());
        detail.append(")");
        self.symbol(
            decl.name.as_str(),
            Some(detail),
            SymbolKind::Function,
            decl.span,
            decl.name_span,
            Vec::new(),
        )
    }

    fn part_symbols(&self, parts: &Vec<Part>, kind: SymbolKind) -> (r: Vec<Symbol>)
        requires
            self.positions@.len() > 0,
            parts_within(parts@, self.len()),
        ensures
            entries_of(r@) == self.part_entries(parts@, kind),
    {
        let mut out: Vec<Symbol> = Vec::new();
        for i in 0..parts.len()
            invariant
                self.positions@.len() > 0,
                parts_within(parts@, self.len()),
                entries_of(out@) == self.part_entries(parts@, kind).take(i as int),
        {
            let part = &parts[i];
            assert(parts@[i as int].span.within(self.len()));
            let ghost before = entries_of(out@);
            let made = self.symbol(
                part.name.as_str(),
                None,
                kind,
                part.span,
                part.span,
                Vec::new(),
            );
            out.push(made);
            assert(entries_of(out@) =~= before.push(made@));
            assert(entries_of(out@) =~= self.part_entries(parts@, kind).take(i + 1));
        }
        assert(entries_of(out@) =~= self.part_entries(parts@, kind));
        out
    }

    fn item_symbol(&self, item: &Item) -> (r: Symbol)
        requires
            self.positions@.len() > 0,
            item.within(self.len()),
        ensures
            r@ == self.item_entry(*item),
    {
        match item {
            Item::Fn(decl) => self.fn_symbol(decl),
            Item::Type(decl) => {
                let (kind, children) = match &decl.def {
                    TypeDef::Record(fields) => (
                        SymbolKind::Struct,
                        self.part_symbols(fields, SymbolKind::Field),
                    ),
                    TypeDef::Sum(variants) => (
                        SymbolKind::Enum,
                        self.part_symbols(variants, SymbolKind::EnumMember),
                    ),
                    // There is no alias kind; a plain type name reads best as a
                    // class in every client's icon set.
                    TypeDef::Alias => (SymbolKind::Class, Vec::new()),
                };
                self.symbol(
                    decl.name.as_str(),
                    None,
                    kind,
                    decl.span,
                    decl.name_span,
                    children,
                )
            },
            Item::Actor(decl) => {
                let mut children = vec![self.fn_symbol(&decl.init), self.fn_symbol(&decl.receive)];
                if let Some(view) = &decl.view {
                    children.push(self.fn_symbol(view));
                }
                assert(entries_of(children@) =~= seq![
                    self.fn_entry(decl.init),
                    self.fn_entry(decl.receive),
                ] + (match decl.view {
                    Some(view) => seq![self.fn_entry(view)],
                    None => Seq::empty(),
                }));
                self.symbol(
                    decl.name.as_str(),
                    Some("actor".to_owned()),
                    SymbolKind::Class,
                    decl.span,
                    decl.name_span,
                    children,
                )
            },
        }
    }

    /// The file's declarations, for the outline and breadcrumbs.
    pub fn symbols(&self) -> (r: Vec<Symbol>)
        requires
            self.valid(),
        ensures
            entries_of(r@) == Seq::new(
                self.items@.len(),
                |i: int| self.item_entry(self.items@[i]),
            ),
    {
        let mut out: Vec<Symbol> = Vec::new();
        for i in 0..self.items.len()
            invariant
                self.valid(),
                out@.len() == i,
                forall|j: int|
                    0 <= j < i ==> (#[trigger] out@[j])@ == self.item_entry(self.items@[j]),
        {
            assert(self.items@[i as int].within(self.len()));
            out.push(self.item_symbol(&self.items[i]));
        }
        assert(entries_of(out@) =~= Seq::new(
            self.items@.len(),
            |i: int| self.item_entry(self.items@[i]),
        ));
        out
    }
}

/// A type, rendered as it would be written in source.
pub fn hover(label: &str) -> (r: String)
    ensures
        r@ == "```strand\n"@ + label@ + "\n```"@,
{
    let mut out = "```strand\n".to_owned();
    out.append(label);
    out.append("\n```");
    out
}

/// A range is where its span is: it starts where the span starts and ends where
/// it ends, and one of no width is widened onto the next character there is.
pub proof fn a_range_is_where_its_span_is(document: Document, span: Span)
    requires
        document.positions@.len() > 0,
        span.within(document.len()),
    ensures
        ({
            let range = document.range_of(span);
            let last = document.positions@.len() - 1;
            &&& range.start == document.positions@[span.start as int]
            &&& span.end != span.start ==> range.end == document.positions@[span.end as int]
            &&& span.end == span.start && span.start < last ==> range.end
                == document.positions@[span.start + 1]
            &&& span.end == span.start && span.start == last ==> range.end == range.start
        }),
{
}

/// A diagnostic says what the problem is, and then how to mend it, if anyone
/// knows.
pub proof fn a_diagnostic_says_what_and_how(document: Document, problem: Problem)
    ensures
        ({
            let found = document.finding(problem);
            &&& found.range == document.range_of(problem.span)
            &&& found.message.take(problem.message@.len() as int) == problem.message@
            &&& problem.help is None ==> found.message == problem.message@
            &&& problem.help matches Some(help) ==> found.message.skip(problem.message@.len() as int)
                == "\n\nhelp: "@ + help@
        }),
{
    let found = document.finding(problem);
    assert(found.message.take(problem.message@.len() as int) =~= problem.message@);
    if let Some(help) = problem.help {
        assert(found.message.skip(problem.message@.len() as int) =~= "\n\nhelp: "@ + help@);
    }
}

/// Whether an entry is a function of this name and place, and says so.
pub open spec fn is_function(document: Document, entry: Entry, decl: FnDecl) -> bool {
    &&& entry.kind is Function
    &&& entry.name == decl.name@
    &&& entry.range == document.range_of(decl.span)
    &&& entry.selection_range == document.range_of(decl.name_span)
    &&& entry.children is None
    &&& entry.detail matches Some(detail) && if decl.is_view {
        detail == "view fn("@ + joined(texts(decl.params@), ", "@) + ")"@
    } else {
        detail == "fn("@ + joined(texts(decl.params@), ", "@) + ")"@
    }
}

/// Whether the members an entry lists are these, in order, each where it is.
pub open spec fn lists(
    document: Document,
    children: Option<Seq<Entry>>,
    parts: Seq<Part>,
    kind: SymbolKind,
) -> bool {
    match children {
        None => parts.len() == 0,
        Some(list) => list.len() == parts.len() && list.len() > 0 && forall|i: int|
            0 <= i < list.len() ==> {
                &&& (#[trigger] list[i]).name == parts[i].name@
                &&& list[i].kind == kind
                &&& list[i].range == document.range_of(parts[i].span)
                &&& list[i].selection_range == document.range_of(parts[i].span)
                &&& list[i].children is None
            },
    }
}

/// The outline says what is declared: everything by its own name and where it
/// is, a record with its fields, a sum with its variants, and an actor with
/// what it starts as, what it receives and what it draws, in that order.
pub proof fn the_outline_says_what_is_declared(document: Document, item: Item)
    ensures
        ({
            let entry = document.item_entry(item);
            match item {
                Item::Fn(decl) => is_function(document, entry, decl),
                Item::Type(decl) => {
                    &&& entry.name == decl.name@
                    &&& entry.range == document.range_of(decl.span)
                    &&& entry.selection_range == document.range_of(decl.name_span)
                    &&& match decl.def {
                        TypeDef::Record(parts) => entry.kind is Struct && lists(
                            document,
                            entry.children,
                            parts@,
                            SymbolKind::Field,
                        ),
                        TypeDef::Sum(parts) => entry.kind is Enum && lists(
                            document,
                            entry.children,
                            parts@,
                            SymbolKind::EnumMember,
                        ),
                        TypeDef::Alias => entry.kind is Class && entry.children is None,
                    }
                },
                Item::Actor(decl) => {
                    &&& entry.name == decl.name@
                    &&& entry.kind is Class
                    &&& entry.range == document.range_of(decl.span)
                    &&& entry.selection_range == document.range_of(decl.name_span)
                    &&& entry.children matches Some(list) && {
                        &&& list.len() == if decl.view is Some {
                            3int
                        } else {
                            2int
                        }
                        &&& is_function(document, list[0], decl.init)
                        &&& is_function(document, list[1], decl.receive)
                        &&& decl.view matches Some(view) ==> is_function(document, list[2], view)
                    }
                },
            }
        }),
{
    reveal_strlit("view ");
    reveal_strlit("");
    reveal_strlit("fn(");
    reveal_strlit("view fn(");
    assert("view "@ + "fn("@ =~= "view fn("@);
    assert(""@ + "fn("@ =~= "fn("@);
}

} // verus!
