//! What an editor is told, and the files it has open.

use strand::documents::Documents;
use strand::features::{
    hover, ActorDecl, Document, FnDecl, Item, Part, Position, Problem, Severity, Span, SymbolKind,
    TypeDecl, TypeDef,
};

/// The position of every byte of a file, and of its end: lines, and UTF-16
/// units within them.
fn positions(src: &str) -> Vec<Position> {
    let mut out = Vec::new();
    let (mut line, mut character) = (0, 0);
    for c in src.chars() {
        for _ in 0..c.len_utf8() {
            out.push(Position { line, character });
        }
        if c == '\n' {
            line += 1;
            character = 0;
        } else {
            character += c.len_utf16() as u32;
        }
    }
    out.push(Position { line, character });
    out
}

fn document(src: &str, items: Vec<Item>, problems: Vec<Problem>) -> Document {
    Document { positions: positions(src), items, problems }
}

/// The span of the first place `needle` is.
fn span(src: &str, needle: &str) -> Span {
    let start = src.find(needle).unwrap_or_else(|| panic!("no {needle:?}"));
    Span { start, end: start + needle.len() }
}

/// The span of the `nth` place `needle` is.
fn nth(src: &str, needle: &str, n: usize) -> Span {
    let (start, _) = src.match_indices(needle).nth(n).unwrap();
    Span { start, end: start + needle.len() }
}

fn position_of(src: &str, needle: &str, n: usize) -> Position {
    positions(src)[nth(src, needle, n).start]
}

/// A function, by its name and the text of its declaration.
fn function(src: &str, name: &str, whole: &str, params: &[&str], is_view: bool) -> FnDecl {
    FnDecl {
        name: name.to_string(),
        params: params.iter().map(|param| param.to_string()).collect(),
        is_view,
        span: span(src, whole),
        name_span: span(src, name),
    }
}

fn problem(span: Span, message: &str, help: Option<&str>) -> Problem {
    Problem { span, message: message.to_string(), help: help.map(str::to_string) }
}

// ---- diagnostics ---------------------------------------------------------

#[test]
fn a_clean_file_reports_nothing() {
    let src = "fn main(): int {\n  1\n}\n";
    assert!(document(src, vec![], vec![]).diagnostics().is_empty());
}

#[test]
fn a_type_error_is_reported_at_its_span() {
    let src = "fn main(): int {\n  \"not an int\"\n}\n";
    let found = problem(span(src, "main"), "`main` returns int", None);
    let diagnostics = document(src, vec![], vec![found]).diagnostics();

    assert_eq!(diagnostics.len(), 1, "got: {diagnostics:?}");
    assert_eq!(diagnostics[0].severity, Severity::Error);
    assert_eq!(diagnostics[0].source, "strandc");
    assert_eq!(diagnostics[0].range.start.line, 0, "the signature is what disagrees");
}

#[test]
fn every_type_error_is_reported_not_just_the_first() {
    let src = "fn a(): int {\n  true\n}\nfn b(): int {\n  \"s\"\n}\nfn c(): int {\n  1.5\n}\n";
    let problems = vec![
        problem(span(src, "true"), "expected int, found bool", None),
        problem(span(src, "\"s\""), "expected int, found string", None),
        problem(span(src, "1.5"), "expected int, found float", None),
    ];
    let diagnostics = document(src, vec![], problems).diagnostics();
    assert_eq!(diagnostics.len(), 3, "got: {diagnostics:?}");
}

#[test]
fn syntax_errors_survive_into_diagnostics() {
    let src = "fn ok(): int { 1 }\nfn broken(: int { 2 }\nfn also_ok(): int { 3 }\n";
    let found = problem(span(src, "(: "), "expected a parameter", None);
    let diagnostics = document(src, vec![], vec![found]).diagnostics();
    assert!(!diagnostics.is_empty(), "the broken item should be reported");
}

#[test]
fn a_broken_item_does_not_hide_its_neighbours_from_the_outline() {
    // The reason the parser recovers: the declaration being typed must not take
    // the rest of the outline with it.
    let src = "fn before(): int { 1 }\nfn broken(: int { 2 }\nfn after(): int { 3 }\n";
    let items = vec![
        Item::Fn(function(src, "before", "fn before(): int { 1 }", &[], false)),
        Item::Fn(function(src, "after", "fn after(): int { 3 }", &[], false)),
    ];
    let found = problem(span(src, "(: "), "expected a parameter", None);
    let symbols = document(src, items, vec![found]).symbols();

    let names: Vec<&str> = symbols.iter().map(|s| s.name.as_str()).collect();
    assert_eq!(names, ["before", "after"]);
}

#[test]
fn diagnostics_come_back_in_source_order() {
    // The type checker reports in phase order, signatures before bodies, which is
    // not the order the file reads in.
    let src = "\
fn first(): int {
  true
}
fn second(): int {
  \"s\"
}
fn third(): int {
  1.5
}
";
    let problems = vec![
        problem(span(src, "1.5"), "third", None),
        problem(span(src, "true"), "first", None),
        problem(span(src, "\"s\""), "second", None),
        problem(span(src, "true"), "first again", None),
    ];
    let diagnostics = document(src, vec![], problems).diagnostics();
    let lines: Vec<u32> = diagnostics.iter().map(|d| d.range.start.line).collect();
    let mut sorted = lines.clone();
    sorted.sort();
    assert_eq!(lines, sorted, "should be ordered by position: {lines:?}");
    let messages: Vec<&str> = diagnostics.iter().map(|d| d.message.as_str()).collect();
    assert_eq!(messages, ["first", "first again", "second", "third"], "and found order kept");
}

#[test]
fn the_compilers_help_text_reaches_the_editor() {
    let src = "fn main(): int {\n  let x = 1\n  x = 2\n  x\n}\n";
    let found = problem(
        span(src, "x = 2"),
        "`x` is immutable",
        Some("declare it with `var` to change it"),
    );
    let diagnostics = document(src, vec![], vec![found]).diagnostics();

    let immutable = diagnostics
        .iter()
        .find(|d| d.message.contains("immutable"))
        .unwrap_or_else(|| panic!("expected an immutability error, got: {diagnostics:?}"));
    assert!(
        immutable.message.contains("help:") && immutable.message.contains("var"),
        "the suggested fix should be carried across: {}",
        immutable.message
    );
    assert_eq!(
        immutable.message,
        "`x` is immutable\n\nhelp: declare it with `var` to change it"
    );
}

#[test]
fn a_ranges_end_is_never_before_its_start() {
    // Zero-width spans occur at end of input; a backwards range makes clients
    // misbehave.
    for src in ["fn", "fn main(", "type", "fn main(): int {", ""] {
        let end = Span { start: src.len(), end: src.len() };
        let begin = Span { start: 0, end: 0 };
        let problems = vec![problem(end, "expected more", None), problem(begin, "here", None)];
        for diagnostic in document(src, vec![], problems).diagnostics() {
            let (start, end) = (diagnostic.range.start, diagnostic.range.end);
            assert!(
                (start.line, start.character) <= (end.line, end.character),
                "backwards range in {src:?}: {diagnostic:?}"
            );
        }
    }
}

#[test]
fn a_span_of_no_width_is_widened_onto_the_next_character() {
    let src = "ab";
    let range = |at: usize| document(src, vec![], vec![]).range(Span { start: at, end: at });
    assert_eq!((range(0).start.character, range(0).end.character), (0, 1));
    assert_eq!((range(1).start.character, range(1).end.character), (1, 2));
    assert_eq!((range(2).start.character, range(2).end.character), (2, 2), "nothing follows");
}

// ---- hover, definition and references ------------------------------------

#[test]
fn a_type_is_shown_as_source() {
    assert_eq!(hover("Option<int>"), "```strand\nOption<int>\n```");
}

#[test]
fn definition_points_at_the_declaration() {
    let src = "fn helper(): int { 1 }\nfn main(): int { helper() }\n";
    let found = document(src, vec![], vec![]).range(nth(src, "helper", 0));
    assert_eq!(found.start, position_of(src, "helper", 0));
}

#[test]
fn references_include_the_declaration_and_uses() {
    let src = "fn main(): int {\n  let tally = 1\n  tally + tally\n}\n";
    let spans = (0..3).map(|n| nth(src, "tally", n)).collect();
    let references = document(src, vec![], vec![]).references(&spans);
    assert_eq!(references.len(), 3, "declaration plus two uses: {references:?}");
    assert_eq!(references[0].start, position_of(src, "tally", 0));
    assert_eq!(references[2].start, position_of(src, "tally", 2));
}

// ---- document symbols ----------------------------------------------------

#[test]
fn symbols_list_the_top_level_declarations() {
    let src = "type Id = int\nfn one(): int { 1 }\nfn two(): int { 2 }\n";
    let items = vec![
        Item::Type(TypeDecl {
            name: "Id".to_string(),
            def: TypeDef::Alias,
            span: span(src, "type Id = int"),
            name_span: span(src, "Id"),
        }),
        Item::Fn(function(src, "one", "fn one(): int { 1 }", &[], false)),
        Item::Fn(function(src, "two", "fn two(): int { 2 }", &[], false)),
    ];
    let symbols = document(src, items, vec![]).symbols();

    let names: Vec<&str> = symbols.iter().map(|s| s.name.as_str()).collect();
    assert_eq!(names, ["Id", "one", "two"]);
    assert_eq!(symbols[0].kind, SymbolKind::Class);
    assert_eq!(symbols[0].children, None);
    assert_eq!(symbols[1].kind, SymbolKind::Function);
}

fn parts(src: &str, names: &[&str]) -> Vec<Part> {
    names.iter().map(|name| Part { name: name.to_string(), span: span(src, name) }).collect()
}

#[test]
fn a_record_lists_its_fields() {
    let src = "type Todo = { title: string, done: bool }\n";
    let item = Item::Type(TypeDecl {
        name: "Todo".to_string(),
        def: TypeDef::Record(parts(src, &["title", "done"])),
        span: span(src, src.trim_end()),
        name_span: span(src, "Todo"),
    });
    let symbols = document(src, vec![item], vec![]).symbols();

    assert_eq!(symbols[0].kind, SymbolKind::Struct);
    let fields = symbols[0].children.as_ref().expect("fields");
    let names: Vec<&str> = fields.iter().map(|s| s.name.as_str()).collect();
    assert_eq!(names, ["title", "done"]);
    assert_eq!(fields[0].kind, SymbolKind::Field);
}

#[test]
fn a_sum_lists_its_variants() {
    let src = "type Shape = | Dot | Rect(w: int)\n";
    let item = Item::Type(TypeDecl {
        name: "Shape".to_string(),
        def: TypeDef::Sum(parts(src, &["Dot", "Rect"])),
        span: span(src, src.trim_end()),
        name_span: span(src, "Shape"),
    });
    let symbols = document(src, vec![item], vec![]).symbols();

    assert_eq!(symbols[0].kind, SymbolKind::Enum);
    let variants = symbols[0].children.as_ref().expect("variants");
    assert_eq!(variants.len(), 2);
    assert_eq!(variants[0].kind, SymbolKind::EnumMember);
}

#[test]
fn an_actor_nests_its_members() {
    let src = "\
type Count = { total: int }
actor Counter {
  state: Count
  fn init(): Count { Count { total: 0 } }
  fn receive(state: Count, msg: string): Count { state }
}
";
    let whole = &src[src.find("actor").unwrap()..src.len() - 1];
    let actor = |view: Option<FnDecl>| {
        Item::Actor(ActorDecl {
            name: "Counter".to_string(),
            init: function(src, "init", "fn init(): Count { Count { total: 0 } }", &[], false),
            receive: function(
                src,
                "receive",
                "fn receive(state: Count, msg: string): Count { state }",
                &["state", "msg"],
                false,
            ),
            view,
            span: span(src, whole),
            name_span: span(src, "Counter"),
        })
    };
    let symbols = document(src, vec![actor(None)], vec![]).symbols();
    let actor_symbol = symbols.iter().find(|s| s.name == "Counter").expect("the actor");

    let members = actor_symbol.children.as_ref().expect("members");
    let names: Vec<&str> = members.iter().map(|s| s.name.as_str()).collect();
    assert_eq!(names, ["init", "receive"]);
    assert_eq!(actor_symbol.detail.as_deref(), Some("actor"));
    assert_eq!(members[1].detail.as_deref(), Some("fn(state, msg)"));

    let view = function(src, "state", "state: Count", &["state"], true);
    let symbols = document(src, vec![actor(Some(view))], vec![]).symbols();
    assert_eq!(symbols[0].children.as_ref().unwrap().len(), 3);
}

#[test]
fn a_view_function_says_so_in_its_detail() {
    let src = "view fn panelView(): Node {\n  text(\"hi\")\n}\n";
    let item = Item::Fn(function(src, "panelView", src.trim_end(), &[], true));
    let symbols = document(src, vec![item], vec![]).symbols();
    assert_eq!(symbols[0].detail.as_deref(), Some("view fn()"));
}

#[test]
fn the_selection_range_covers_only_the_name() {
    let src = "fn helper(): int { 1 }\n";
    let item = Item::Fn(function(src, "helper", src.trim_end(), &[], false));
    let symbols = document(src, vec![item], vec![]).symbols();

    assert_eq!(symbols[0].selection_range.start, position_of(src, "helper", 0));
    assert_eq!(
        symbols[0].selection_range.end.character,
        position_of(src, "helper", 0).character + "helper".len() as u32
    );
}

// ---- open files ----------------------------------------------------------

#[test]
fn a_file_is_what_it_was_last_told_to_be() {
    let mut documents = Documents::new();
    assert_eq!(documents.text("a"), None);
    documents.put("a", "one");
    documents.put("b", "two");
    assert_eq!(documents.text("a").as_deref(), Some("one"));
    let changes = vec!["ignored".to_string(), "three".to_string()];
    assert_eq!(documents.change("a", &changes).as_deref(), Some("three"));
    assert_eq!(documents.text("a").as_deref(), Some("three"));
    assert_eq!(documents.change("a", &Vec::new()), None);
    documents.close("a");
    assert_eq!(documents.text("a"), None);
    assert_eq!(documents.text("b").as_deref(), Some("two"));
    documents.close("a");
}

#[test]
fn a_place_past_the_end_of_the_file_is_not_valid() {
    let src = "fn f() { 1 }";
    let at = |start, end| vec![problem(Span { start, end }, "here", None)];
    assert!(document(src, Vec::new(), at(12, 12)).is_valid());
    assert!(!document(src, Vec::new(), at(12, 13)).is_valid());
    let whole = function(src, "f", src, &[], false);
    let outside = FnDecl { name_span: Span { start: 0, end: 99 }, ..whole };
    assert!(!document(src, vec![Item::Fn(outside)], Vec::new()).is_valid());
    let nothing = Document { positions: Vec::new(), items: Vec::new(), problems: Vec::new() };
    assert!(!nothing.is_valid());
}
