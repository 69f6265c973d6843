//! Programs: their shapes, their plans, reloading them, and moving the state
//! of their actors from one arena to another.

use strand::capture::{capture, CaptureError, Codec, GlobalKind, Snapshots};
use strand::hir::{
    ActorDef, AppDef, FuncDef, Hir, Instance, PortDef, RecordDef, RecordId, SumDef, SumId, Ty,
    VariantDef, Wire,
};
use strand::input::{check_receives_input, is_input};
use strand::layout::{boxed_sum_size, field_offset, record_size, stride, wasm_arity, words};
use strand::plan::{instances, plan, Plan, PlanError, Wiring};
use strand::run::{find_main, render, Glyph, MainError};
use strand::shape::{difference, shape, Shape};
use strand::snapshot::{Root, Snapshot};
use strand::val::Val;
use strand::view::{entry, no_view, Entry};
use strand::watch::{changed_shape, reload, wiring, worth_reloading, Baseline, Stamp};

// ---- a reader for the declarations of a program --------------------------

/// Reads the declarations of a program, and skips the bodies.
struct Reader {
    tokens: Vec<String>,
    at: usize,
    names: Vec<String>,
    hir: Hir,
}

fn tokens(source: &str) -> Vec<String> {
    let mut out: Vec<String> = Vec::new();
    let chars: Vec<char> = source.chars().collect();
    let mut i = 0;
    while i < chars.len() {
        let c = chars[i];
        if c.is_whitespace() {
            i += 1;
        } else if c == '/' && chars.get(i + 1) == Some(&'/') {
            while i < chars.len() && chars[i] != '\n' {
                i += 1;
            }
        } else if c == '"' {
            let start = i;
            i += 1;
            while chars[i] != '"' {
                i += 1;
            }
            i += 1;
            out.push(chars[start..i].iter().collect());
        } else if c.is_alphanumeric() || c == '_' {
            let start = i;
            while i < chars.len() && (chars[i].is_alphanumeric() || chars[i] == '_') {
                i += 1;
            }
            out.push(chars[start..i].iter().collect());
        } else if c == '-' && chars.get(i + 1) == Some(&'>') {
            out.push("->".to_string());
            i += 2;
        } else {
            out.push(c.to_string());
            i += 1;
        }
    }
    out
}

impl Reader {
    fn peek(&self) -> &str {
        self.tokens.get(self.at).map(String::as_str).unwrap_or("")
    }

    fn next(&mut self) -> String {
        self.at += 1;
        self.tokens[self.at - 1].clone()
    }

    fn eat(&mut self, token: &str) -> bool {
        let found = self.peek() == token;
        if found {
            self.at += 1;
        }
        found
    }

    fn ty(&mut self) -> Ty {
        let name = self.next();
        match name.as_str() {
            "int" => Ty::Int,
            "float" => Ty::Float,
            "bool" => Ty::Bool,
            "string" => Ty::Str,
            "unit" => Ty::Unit,
            "Node" => Ty::Node,
            "List" | "Option" => {
                self.eat("<");
                let inner = Box::new(self.ty());
                self.eat(">");
                if name == "List" {
                    Ty::List(inner)
                } else {
                    Ty::Option(inner)
                }
            }
            "Result" => {
                self.eat("<");
                let ok = Box::new(self.ty());
                self.eat(",");
                let err = Box::new(self.ty());
                self.eat(">");
                Ty::Result(ok, err)
            }
            _ => {
                // Records come before sums of the same number in `names`.
                let kind = self.names.iter().find(|known| known[2..] == name[..]);
                let kind = kind.unwrap_or_else(|| panic!("no type {name}")).clone();
                let same: Vec<&String> =
                    self.names.iter().filter(|known| known[..2] == kind[..2]).collect();
                let index = same.iter().position(|known| **known == kind).unwrap() as u32;
                if kind.starts_with("r ") {
                    Ty::Record(RecordId(index))
                } else {
                    Ty::Sum(SumId(index))
                }
            }
        }
    }

    fn fields(&mut self, close: &str) -> Vec<(String, Ty)> {
        let mut out = Vec::new();
        while !self.eat(close) {
            let name = self.next();
            self.eat(":");
            out.push((name, self.ty()));
            self.eat(",");
        }
        out
    }

    /// Skips a parameter list, a return type and a body.
    fn skip_function(&mut self) -> usize {
        while self.peek() != "(" {
            self.at += 1;
        }
        self.at += 1;
        let mut params = 0;
        let mut depth = 1;
        while depth > 0 {
            match self.next().as_str() {
                "(" => depth += 1,
                ")" => depth -= 1,
                ":" if depth == 1 => params += 1,
                _ => {}
            }
        }
        while self.peek() != "{" {
            self.at += 1;
        }
        self.at += 1;
        let mut depth = 1;
        while depth > 0 {
            match self.next().as_str() {
                "{" => depth += 1,
                "}" => depth -= 1,
                _ => {}
            }
        }
        params
    }

    fn actor(&mut self) {
        let name = self.next();
        let mut actor = ActorDef {
            name,
            state: Ty::Unit,
            message: Ty::Str,
            draws: false,
            inbox: Vec::new(),
            outbox: Vec::new(),
        };
        self.eat("{");
        while !self.eat("}") {
            match self.next().as_str() {
                "state" => {
                    self.eat(":");
                    actor.state = self.ty();
                }
                "message" => {
                    self.eat(":");
                    actor.message = self.ty();
                }
                "in" => {
                    let name = self.next();
                    self.eat(":");
                    let ty = self.ty();
                    actor.inbox.push(PortDef { name, ty });
                }
                "out" => {
                    let name = self.next();
                    self.eat(":");
                    let ty = self.ty();
                    actor.outbox.push(PortDef { name, ty });
                }
                "view" => {
                    actor.draws = true;
                    self.skip_function();
                }
                _ => {
                    self.skip_function();
                }
            }
        }
        self.hir.actors.push(actor);
    }

    fn app(&mut self) {
        self.next();
        self.eat("{");
        let mut app = AppDef { instances: Vec::new(), wires: Vec::new() };
        while !self.eat("}") {
            let name = self.next();
            if self.eat("=") {
                let actor = self.next();
                let actor = self.hir.actors.iter().position(|known| known.name == actor).unwrap();
                app.instances.push(Instance { name, actor });
            } else {
                self.eat(".");
                let from_port = self.next();
                self.eat("->");
                let to = self.next();
                self.eat(".");
                let to_port = self.next();
                let index = |name: &str| {
                    app.instances.iter().position(|instance| instance.name == name).unwrap()
                };
                let (from, to) = (index(&name), index(&to));
                let outbox = &self.hir.actors[app.instances[from].actor].outbox;
                let inbox = &self.hir.actors[app.instances[to].actor].inbox;
                app.wires.push(Wire {
                    from,
                    from_port: outbox.iter().position(|port| port.name == from_port).unwrap(),
                    to,
                    to_port: inbox.iter().position(|port| port.name == to_port).unwrap(),
                });
            }
        }
        self.hir.app = Some(app);
    }
}

/// The platform's own event type, which every program can name.
const PRELUDE: &str = "type Input = | Click(id: int) | Typed(ch: int) | Backspace | Enter \
    | Escape | Focus(id: int) | Scrolled(id: int, offset: float)\n";

fn compile(source: &str) -> Hir {
    let all = format!("{PRELUDE}{source}");
    let tokens = tokens(&all);
    let mut names = Vec::new();
    for window in tokens.windows(4) {
        if window[0] == "type" && window[2] == "=" {
            let kind = if window[3] == "{" { "r" } else { "s" };
            names.push(format!("{kind} {}", window[1]));
        }
    }
    let hir = Hir {
        records: Vec::new(),
        sums: Vec::new(),
        funcs: Vec::new(),
        actors: Vec::new(),
        app: None,
    };
    let mut reader = Reader { tokens, at: 0, names, hir };
    while !reader.peek().is_empty() {
        match reader.next().as_str() {
            "type" => {
                let name = reader.next();
                reader.eat("=");
                if reader.eat("{") {
                    let fields = reader.fields("}");
                    reader.hir.records.push(RecordDef { name, fields });
                } else {
                    let mut variants = Vec::new();
                    while reader.eat("|") {
                        let name = reader.next();
                        let fields =
                            if reader.eat("(") { reader.fields(")") } else { Vec::new() };
                        variants.push(VariantDef { name, fields });
                    }
                    reader.hir.sums.push(SumDef { name, variants });
                }
            }
            "actor" => reader.actor(),
            "app" => reader.app(),
            "view" => {
                reader.eat("fn");
                let name = reader.peek().to_string();
                let param_count = reader.skip_function();
                reader.hir.funcs.push(FuncDef { name, param_count, ret: Ty::Node, is_view: true });
            }
            "fn" => {
                let name = reader.peek().to_string();
                let param_count = reader.skip_function();
                reader.hir.funcs.push(FuncDef { name, param_count, ret: Ty::Int, is_view: false });
            }
            _ => {}
        }
    }
    reader.hir
}

/// A module per actor that runs: here, the actor's own name.
fn modules(hir: &Hir) -> Vec<Result<Vec<u8>, String>> {
    match instances(hir) {
        Ok(list) => list
            .iter()
            .map(|(_, actor)| Ok(hir.actors[*actor].name.as_bytes().to_vec()))
            .collect(),
        Err(_) => Vec::new(),
    }
}

fn planned(hir: &Hir) -> Result<Plan, PlanError> {
    plan(hir, modules(hir))
}

// ---- shapes ---------------------------------------------------------------

fn shapes(source: &str) -> Shape {
    let hir = compile(source);
    let actor = hir.lone_actor().expect("one actor");
    shape(&hir, &actor.state)
}

const BEFORE: &str = "\
type Model = { count: int, note: string }
actor A {
  state: Model
  in input: Input
  fn init(): Model { Model { count: 0, note: \"\" } }
  on input(state: Model, msg: Input): Model { state }
}
";

fn changed(source: &str) -> String {
    difference(&shapes(BEFORE), &shapes(source)).expect("these differ")
}

#[test]
fn the_same_source_has_the_same_shape() {
    assert_eq!(difference(&shapes(BEFORE), &shapes(BEFORE)), None);
}

#[test]
fn a_body_can_change_without_the_shape_changing() {
    // New behaviour, same record, so the state moves across.
    let after = BEFORE.replace("Model { count: 0", "Model { count: 41 + 1");
    assert_eq!(difference(&shapes(BEFORE), &shapes(&after)), None);
}

#[test]
fn a_new_field_is_named() {
    let after = BEFORE
        .replace("{ count: int, note: string }", "{ count: int, note: string, done: bool }")
        .replace("note: \"\" }", "note: \"\", done: false }");
    assert_eq!(changed(&after), "`Model` gained the field `done: bool`");
}

#[test]
fn a_lost_field_is_named() {
    let after = BEFORE.replace("{ count: int, note: string }", "{ count: int }");
    assert_eq!(changed(&after), "`Model` lost the field `note: string`");
}

#[test]
fn a_changed_field_type_says_both_types() {
    let after =
        BEFORE.replace("note: string }", "note: int }").replace("note: \"\" }", "note: 0 }");
    assert_eq!(changed(&after), "`Model.note` was `string` and is now `int`");
}

#[test]
fn a_field_that_became_optional_is_a_change() {
    // The bytes would even line up in one direction, which is exactly why this
    // has to be caught by the type rather than by the size.
    let after = BEFORE
        .replace("note: string }", "note: Option<string> }")
        .replace("note: \"\" }", "note: Some(\"\") }");
    assert_eq!(changed(&after), "`Model.note` was `string` and is now `Option<string>`");
}

#[test]
fn reordered_fields_are_a_change() {
    // Same names, same types, different offsets. Nothing but order tells these
    // apart, and order is what the layout is made of.
    let after = BEFORE
        .replace("{ count: int, note: string }", "{ note: string, count: int }")
        .replace("Model { count: 0, note: \"\" }", "Model { note: \"\", count: 0 }");
    assert_eq!(changed(&after), "`Model`'s field 1 is `note` where it was `count`");
}

#[test]
fn a_renamed_record_is_a_change() {
    let after = BEFORE.replace("Model", "State");
    assert_eq!(changed(&after), "`Model` was `Model` and is now `State`");
}

#[test]
fn a_change_inside_a_list_element_is_found() {
    let before = "\
type Item = { id: int }
type Model = { items: List<Item> }
actor A {
  state: Model
  in input: Input
  fn init(): Model { Model { items: [] } }
  on input(state: Model, msg: Input): Model { state }
}
";
    let after = before.replace("{ id: int }", "{ id: int, title: string }");
    let found = difference(&shapes(before), &shapes(&after)).expect("these differ");
    assert_eq!(found, "`Model.items's elements` gained the field `title: string`");
}

#[test]
fn a_fingerprint_reads_like_the_source_it_came_from() {
    assert_eq!(shapes(BEFORE).to_string(), "Model { count: int, note: string }");
}

#[test]
fn a_sum_that_changed_says_where() {
    let before = "type Level = | Low | High(n: int)\ntype Model = { level: Level }\n\
        actor A { state: Model fn init(): Model { 0 } }";
    let found = |after: &str| difference(&shapes(before), &shapes(after));
    assert_eq!(
        found(&before.replace("| Low | High(n: int)", "| Low")).unwrap(),
        "`Model.level` had 2 variants and now has 1"
    );
    assert_eq!(
        found(&before.replace("Low", "Bottom")).unwrap(),
        "`Model.level`'s variant `Low` is now `Bottom`"
    );
    assert_eq!(
        found(&before.replace("n: int", "n: float")).unwrap(),
        "`Model.level.High.n` was `int` and is now `float`"
    );
    assert_eq!(found(before), None);
    assert_eq!(
        shapes(before).to_string(),
        "Model { level: Level = | Low | High(n: int) }"
    );
}

#[test]
fn a_record_that_reaches_itself_is_named_once() {
    let source = "type Tree = { value: int, next: Option<Tree> }\n\
        actor A { state: Tree fn init(): Tree { 0 } }";
    assert_eq!(shapes(source).to_string(), "Tree { value: int, next: Option<Tree\u{2026}> }");
    assert_eq!(shapes(source).name(), "Tree");
    let other = source.replace("Option<Tree>", "Result<int, Tree>");
    assert_eq!(
        difference(&shapes(source), &shapes(&other)).unwrap(),
        "`Tree.next` was `Option<Tree\u{2026}>` and is now `Result<int, Tree\u{2026}>`"
    );
}

#[test]
fn a_scalar_shape_is_called_by_its_fingerprint() {
    let hir = compile("");
    let list = shape(&hir, &Ty::List(Box::new(Ty::Int)));
    assert_eq!(list.name(), "List<int>");
    assert_eq!(
        difference(&list, &shape(&hir, &Ty::Bool)).unwrap(),
        "`List<int>` was `List<int>` and is now `bool`"
    );
}

// ---- plans ----------------------------------------------------------------

const PAIR: &str = "\
type Count = { total: int }
type Bump = | Tick

actor Source {
  state: Count
  in  input: Input
  out bumps: Bump
  fn init(): Count { Count { total: 0 } }
  on input(state: Count, msg: Input): Count {
    send(bumps, Tick)
    state
  }
  view fn draw(state: Count): Node { text(\"hi\") }
}

actor Sink {
  state: Count
  in bumps: Bump
  fn init(): Count { Count { total: 0 } }
  on bumps(state: Count, msg: Bump): Count { Count { total: state.total + 1 } }
}

app Pair {
  source = Source
  sink = Sink
  source.bumps -> sink.bumps
}
";

#[test]
fn a_wire_becomes_a_destination_and_a_port() {
    let plan = planned(&compile(PAIR)).expect("a plan");
    assert_eq!(plan.spawns.len(), 2);
    // The source's only out port leads to the sink's only in port.
    assert_eq!(plan.spawns[0].out, vec![Some(Wiring { to: 1, port: 0 })]);
    // The sink sends nowhere, so it has no table at all.
    assert!(plan.spawns[1].out.is_empty());
}

#[test]
fn the_actor_that_draws_is_the_one_the_window_follows() {
    let plan = planned(&compile(PAIR)).expect("a plan");
    assert_eq!(plan.ui, Some(0));
    assert_eq!(plan.input_port, Some(0), "its Input port, by type not by name");
}

#[test]
fn each_actor_gets_its_own_module() {
    let plan = planned(&compile(PAIR)).expect("a plan");
    // Same source, different entry points: the two modules cannot be the same
    // bytes, or one of them would be running the other's handlers.
    assert_ne!(plan.spawns[0].wasm, plan.spawns[1].wasm);
    assert_eq!(plan.spawns[1].wasm, b"Sink");
    assert_eq!(plan.spawns[1].name, "sink");
    assert_eq!((plan.spawns[1].id, plan.spawns[1].actor), (1, 1));
}

#[test]
fn a_lone_actor_needs_no_app_block() {
    let hir = compile(
        "type Count = { total: int }
         actor Solo {
           state: Count
           in input: Input
           fn init(): Count { Count { total: 0 } }
           on input(state: Count, msg: Input): Count { state }
           view fn draw(state: Count): Node { text(\"hi\") }
         }",
    );
    let plan = planned(&hir).expect("a plan");
    assert_eq!(plan.spawns.len(), 1);
    assert_eq!(plan.ui, Some(0));
}

#[test]
fn several_actors_without_an_app_block_is_refused_by_name() {
    let hir = compile(
        "type Count = { total: int }
         actor A {
           state: Count
           fn init(): Count { Count { total: 0 } }
         }
         actor B {
           state: Count
           fn init(): Count { Count { total: 0 } }
         }",
    );
    let message = planned(&hir).err().expect("refused").message();
    assert!(message.contains("`app Name"), "{message}");
}

#[test]
fn a_file_without_actors_has_no_plan() {
    let message = planned(&compile("")).err().expect("refused").message();
    assert_eq!(message, "this file declares no actors");
}

#[test]
fn two_actors_that_draw_are_refused_by_name() {
    let both = PAIR.replace("actor Sink {", "actor Sink { view fn draw(state: Count): Node { 0 }");
    let message = planned(&compile(&both)).err().expect("refused").message();
    assert!(message.starts_with("source and sink both draw"), "{message}");
}

#[test]
fn a_module_that_does_not_compile_is_the_reason() {
    let hir = compile(PAIR);
    let modules = vec![Ok(vec![1]), Err("no such function".to_string())];
    let message = plan(&hir, modules).err().expect("refused").message();
    assert_eq!(message, "no such function");
}

#[test]
fn a_later_wire_from_one_port_wins() {
    let two = PAIR.replace(
        "  source.bumps -> sink.bumps\n",
        "  spare = Sink\n  source.bumps -> sink.bumps\n  source.bumps -> spare.bumps\n",
    );
    let plan = planned(&compile(&two)).expect("a plan");
    assert_eq!(plan.spawns[0].out, vec![Some(Wiring { to: 2, port: 0 })]);
}

// ---- reloading ------------------------------------------------------------

const APP: &str = PAIR;

fn compiled(source: &str) -> (Hir, Plan) {
    let hir = compile(source);
    let plan = planned(&hir).expect("a plan");
    (hir, plan)
}

fn baseline(source: &str) -> Baseline {
    let (hir, plan) = compiled(source);
    Baseline { wiring: wiring(&hir, &plan), hir, plan }
}

fn refusal(edited: &str) -> Option<String> {
    let running = baseline(APP);
    let (hir, plan) = compiled(edited);
    changed_shape(&running, &hir, &plan)
}

#[test]
fn a_body_change_is_not_a_shape_change() {
    // The case that has to work, or hot reload does nothing.
    let edited = APP.replace("state.total + 1", "state.total + 2");
    assert_eq!(refusal(&edited), None);
}

#[test]
fn a_state_record_change_is_still_a_reload() {
    // A different state shape is not a different *app*: the actors and wires
    // are the same, so the swap happens and the state does not travel.
    let edited = APP
        .replace("type Count = { total: int }", "type Count = { total: int, peak: int }")
        .replace("Count { total: 0 }", "Count { total: 0, peak: 0 }")
        .replace("Count { total: state.total + 1 }", "Count { total: state.total + 1, peak: 0 }");
    assert_eq!(refusal(&edited), None);
}

#[test]
fn an_actor_appearing_is_refused() {
    let edited = APP.replace(
        "app Pair {\n  source = Source\n  sink = Sink",
        "app Pair {\n  source = Source\n  sink = Sink\n  spare = Sink",
    );
    assert_eq!(refusal(&edited).as_deref(), Some("this file now runs 3 actors where it ran 2"));
}

#[test]
fn a_rewire_is_refused() {
    // The wires were turned into a routing table before anything ran, and
    // swapping a module does not touch it. Two instances of `Sink` so that
    // only the destination changes: same actors, same ports, other end.
    let three = APP.replace("  sink = Sink", "  sink = Sink\n  spare = Sink");
    let edited = three.replace("source.bumps -> sink.bumps", "source.bumps -> spare.bumps");

    let running = baseline(&three);
    let (hir, plan) = compiled(&edited);
    assert_eq!(
        changed_shape(&running, &hir, &plan).as_deref(),
        Some("the actors are wired differently now")
    );
}

#[test]
fn a_new_port_is_refused() {
    let edited = APP
        .replace("  in bumps: Bump\n", "  in bumps: Bump\n  in extra: int\n")
        .replace(
            "  on bumps(state: Count, msg: Bump): Count { Count { total: state.total + 1 } }",
            "  on bumps(state: Count, msg: Bump): Count { Count { total: state.total + 1 } }\n  on extra(state: Count, msg: int): Count { state }",
        );
    assert_eq!(refusal(&edited).as_deref(), Some("the actors are wired differently now"));
}

#[test]
fn another_actor_drawing_is_refused() {
    let edited = APP
        .replace("  view fn draw(state: Count): Node { text(\"hi\") }\n", "")
        .replace("actor Sink {", "actor Sink {\n  view fn draw(state: Count): Node { 0 }");
    assert_eq!(refusal(&edited).as_deref(), Some("a different actor draws the window now"));
}

#[test]
fn the_wiring_names_everything_but_the_code() {
    let running = baseline(APP);
    assert_eq!(
        running.wiring,
        "source=Source in input:Input = | Click(id: int) | Typed(ch: int) | Backspace | Enter \
         | Escape | Focus(id: int) | Scrolled(id: int, offset: float) out bumps:Bump = | Tick \
         -> 1.0 \nsink=Sink in bumps:Bump = | Tick \n"
    );
}

#[test]
fn a_reload_says_what_becomes_of_each_state() {
    let running = baseline(APP);
    let (hir, plan) = compiled(APP);
    assert_eq!(
        reload(&running, &hir, &plan).unwrap(),
        vec![
            "reload  source \u{2014} state carried (Count)",
            "reload  sink \u{2014} state carried (Count)",
        ]
    );
    let edited = APP.replace("type Count = { total: int }", "type Count = { total: float }");
    let (hir, plan) = compiled(&edited);
    assert_eq!(
        reload(&running, &hir, &plan).unwrap()[0],
        "reload  source \u{2014} starting fresh: `Count.total` was `int` and is now `float`"
    );
    let (hir, plan) = compiled(&APP.replace("source.bumps -> sink.bumps", ""));
    assert_eq!(
        reload(&running, &hir, &plan).unwrap_err(),
        "!! the actors are wired differently now \u{2014} that is the supervision tree itself, \
         not the code in it, so it needs a fresh `strand view`"
    );
}

// ---- hearing input --------------------------------------------------------

#[test]
fn an_actor_that_cannot_hear_input_is_refused_before_a_window_opens() {
    let src = "\
type Count = { total: int }
actor Counter {
  state: Count
  fn init(): Count { Count { total: 0 } }
  fn receive(state: Count, msg: string): Count { state }
  view fn draw(state: Count): Node { text(\"hi\") }
}
";
    let hir = compile(src);
    let message = check_receives_input(&hir).unwrap_err().message("string");
    assert!(message.contains("message: Input"), "{message}");
    assert!(message.starts_with("`Counter` receives string,"), "{message}");
}

#[test]
fn an_actor_that_asked_for_input_is_accepted() {
    let src = "\
type Count = { total: int }
actor Counter {
  state: Count
  message: Input
  fn init(): Count { Count { total: 0 } }
  fn receive(state: Count, msg: Input): Count { state }
  view fn draw(state: Count): Node { text(\"hi\") }
}
";
    let hir = compile(src);
    check_receives_input(&hir).expect("this one can hear");
    assert!(is_input(&hir, &hir.actors[0].message));
    assert!(!is_input(&hir, &Ty::Int));
}

#[test]
fn an_actor_with_a_sum_of_its_own_is_refused() {
    let src = "type Msg = | Inc\nactor Counter { state: int message: Msg fn init(): int { 0 } }";
    let message = check_receives_input(&compile(src)).unwrap_err().message("Msg");
    assert!(message.starts_with("`Counter` receives `Msg`, which is not"), "{message}");
    let message = check_receives_input(&compile("")).unwrap_err().message("");
    assert_eq!(message, "this module declares no actor");
}

// ---- which view is drawn --------------------------------------------------

#[test]
fn an_actor_that_draws_itself_wins() {
    let hir = compile(
        "view fn main(): Node { 0 }
         actor A { state: int fn init(): int { 0 } view fn draw(state: int): Node { 0 } }",
    );
    assert!(matches!(entry(&hir), Some(Entry::Actor)));
    let hir = compile("view fn row(n: int): Node { 0 } view fn main(): Node { 0 }");
    assert!(matches!(entry(&hir), Some(Entry::Function(name)) if name == "main"));
}

#[test]
fn a_program_without_a_view_is_told_what_is_missing() {
    let hir = compile("view fn row(n: int): Node { 0 }");
    assert!(entry(&hir).is_none());
    assert!(no_view(&hir, "").starts_with("every view here takes arguments (row), so none"));
    let hir = compile("actor A { state: int fn init(): int { 0 } }");
    assert!(no_view(&hir, "int").contains("`view fn draw(state: int) -> Node { ... }`"));
    let hir = compile(
        "fn a(): int { 0 } fn b(): int { 0 } fn c(): int { 0 } fn d(): int { 0 } fn e(): int { 0 }",
    );
    assert!(no_view(&hir, "").contains(" This module defines a, b, c, d. A view"));
    assert!(no_view(&compile(""), "").starts_with("this file has no view to draw. A view"));
}

// ---- running --------------------------------------------------------------

fn shown(glyphs: &[Glyph]) -> String {
    let mut out = String::new();
    for glyph in glyphs {
        match glyph {
            Glyph::Char(c) => out.push(*c),
            Glyph::Float(bits) => out.push_str(&format!("{:?}", f64::from_bits(*bits))),
        }
    }
    out
}

#[test]
fn main_must_exist_and_take_nothing() {
    assert_eq!(find_main(&compile("fn other(): int { 0 }")).unwrap_err(), MainError::NoMain);
    assert_eq!(
        find_main(&compile("fn main(n: int): int { 0 }")).unwrap_err().message(),
        "`main` must take no parameters"
    );
    assert_eq!(find_main(&compile("fn main(): int { 0 }")).unwrap().name, "main");
}

#[test]
fn scalars_render_as_they_are_written() {
    let hir = compile("");
    let one = |ty: &Ty, value: Val| shown(&render(&hir, ty, &vec![value], &[]));
    assert_eq!(one(&Ty::Int, Val::I64(-42)), "-42");
    assert_eq!(one(&Ty::Int, Val::I64(i64::MIN)), "-9223372036854775808");
    assert_eq!(one(&Ty::Bool, Val::I32(1)), "true");
    assert_eq!(one(&Ty::Float, Val::F64(2.5f64.to_bits())), "2.5");
    assert_eq!(shown(&render(&hir, &Ty::Unit, &Vec::new(), &[])), "()");
    assert_eq!(wasm_arity(&Ty::Unit), 0);
    let maybe = Ty::Option(Box::new(Ty::Int));
    let pair = |tag: i32, payload: i64| vec![Val::I32(tag), Val::I64(payload)];
    assert_eq!(shown(&render(&hir, &maybe, &pair(0, 7), &[])), "Some(7)");
    assert_eq!(shown(&render(&hir, &maybe, &pair(1, 7), &[])), "None");
    let outcome = Ty::Result(Box::new(Ty::Float), Box::new(Ty::Bool));
    let half = 0.5f64.to_bits() as i64;
    assert_eq!(shown(&render(&hir, &outcome, &pair(0, half), &[])), "Ok(0.5)");
    assert_eq!(shown(&render(&hir, &outcome, &pair(1, 0), &[])), "Err(false)");
    assert_eq!(one(&Ty::Str, Val::I32(-1)), "<bad string pointer>");
    assert_eq!(one(&Ty::List(Box::new(Ty::Int)), Val::I32(-1)), "<0xffffffffffffffff>");
}

#[test]
fn a_record_renders_its_fields() {
    let hir = compile(SHAPES);
    let mut arena = Arena::new(64);
    let model = arena.write(&hir, &hir.actors[0].state, &full("hi\u{e9}"));
    let value = vec![Val::I32(model as i32)];
    assert_eq!(
        shown(&render(&hir, &hir.actors[0].state, &value, &arena.memory)),
        "Model { label: \"hi\u{e9}\", count: 2, ratio: 0.25, on: true, tint: Green, \
         slot: Filled(note: Note { text: \"x\", weight: 3 }, at: 1.5), maybe: Some(\"m\"), \
         outcome: Err(Note { text: \"refused\", weight: 7 }), notes: <0x100>, marks: <0x148> }"
    );
    // A field past the end of memory says so; a string that is not UTF-8 is
    // shown with what is wrong replaced.
    let short = vec![Val::I32(60)];
    assert_eq!(
        shown(&render(&compile(LEVELS), &Ty::Record(RecordId(0)), &short, &arena.memory[..60])),
        "Model { level: <oob> }"
    );
    let text = [2, 0, 0, 0, 0xff, b'"'];
    assert_eq!(shown(&render(&hir, &Ty::Str, &vec![Val::I32(0)], &text)), "\"\u{fffd}\\\"\"");
}

// ---- snapshots ------------------------------------------------------------

/// A value, as the tests write it into an arena and read it back.
#[derive(Debug, Clone, PartialEq)]
enum Value {
    Int(i64),
    Float(f64),
    Bool(bool),
    Str(String),
    Record(Vec<Value>),
    Variant(u32, Vec<Value>),
    List(Vec<Value>),
    Absent,
    Present(Box<Value>),
    Good(Box<Value>),
    Bad(Box<Value>),
}

fn text(s: &str) -> Value {
    Value::Str(s.to_string())
}

/// A guest's memory, and how much of it is taken.
struct Arena {
    memory: Vec<u8>,
    top: usize,
}

impl Arena {
    fn new(start: usize) -> Self {
        Self { memory: vec![0; 4096], top: start }
    }

    fn reserve(&mut self, size: usize) -> u32 {
        let at = self.top;
        self.top += size.div_ceil(8) * 8;
        at as u32
    }

    fn put32(&mut self, at: usize, value: u32) {
        self.memory[at..at + 4].copy_from_slice(&value.to_le_bytes());
    }

    fn put64(&mut self, at: usize, value: u64) {
        self.memory[at..at + 8].copy_from_slice(&value.to_le_bytes());
    }

    fn get32(&self, at: usize) -> u32 {
        u32::from_le_bytes(self.memory[at..at + 4].try_into().unwrap())
    }

    fn get64(&self, at: usize) -> u64 {
        u64::from_le_bytes(self.memory[at..at + 8].try_into().unwrap())
    }

    /// Writes what a one-word slot holds: the scalar, the tag or the pointer.
    fn word(&mut self, hir: &Hir, ty: &Ty, value: &Value) -> u64 {
        match (ty, value) {
            (Ty::Int, Value::Int(value)) => *value as u64,
            (Ty::Float, Value::Float(value)) => value.to_bits(),
            (Ty::Bool, Value::Bool(value)) => *value as u64,
            (Ty::Sum(id), Value::Variant(tag, _))
                if hir.sums[id.0 as usize].variants.iter().all(|v| v.fields.is_empty()) =>
            {
                u64::from(*tag)
            }
            _ => u64::from(self.write(hir, ty, value)),
        }
    }

    fn slot(&mut self, hir: &Hir, ty: &Ty, value: &Value, at: usize) {
        let (tag, inner) = match (ty, value) {
            (Ty::Option(inner), Value::Present(value)) => (0, Some((inner, value))),
            (Ty::Option(_), Value::Absent) => (1, None),
            (Ty::Result(ok, _), Value::Good(value)) => (0, Some((ok, value))),
            (Ty::Result(_, err), Value::Bad(value)) => (1, Some((err, value))),
            _ => {
                let word = self.word(hir, ty, value);
                self.put64(at, word);
                return;
            }
        };
        self.put32(at, tag);
        if let Some((ty, value)) = inner {
            let word = self.word(hir, ty, value);
            self.put64(at + 8, word);
        }
    }

    fn write(&mut self, hir: &Hir, ty: &Ty, value: &Value) -> u32 {
        match (ty, value) {
            (Ty::Str, Value::Str(text)) => {
                let at = self.reserve(4 + text.len());
                self.put32(at as usize, text.len() as u32);
                let start = at as usize + 4;
                self.memory[start..start + text.len()].copy_from_slice(text.as_bytes());
                at
            }
            (Ty::List(elem), Value::List(values)) => {
                let step = stride(elem) as usize;
                let at = self.reserve(8 + step * values.len());
                self.put32(at as usize, values.len() as u32);
                for (i, value) in values.iter().enumerate() {
                    self.slot(hir, elem, value, at as usize + 8 + step * i);
                }
                at
            }
            (Ty::Record(id), Value::Record(values)) => {
                let def = &hir.records[id.0 as usize];
                let at = self.reserve(record_size(def) as usize);
                for (i, value) in values.iter().enumerate() {
                    let offset = field_offset(&def.fields, i) as usize;
                    self.slot(hir, &def.fields[i].1, value, at as usize + offset);
                }
                at
            }
            (Ty::Sum(id), Value::Variant(tag, values)) => {
                let def = &hir.sums[id.0 as usize];
                let at = self.reserve(boxed_sum_size(def) as usize);
                self.put32(at as usize, *tag);
                let fields = &def.variants[*tag as usize].fields;
                for (i, value) in values.iter().enumerate() {
                    let offset = 8 + field_offset(fields, i) as usize;
                    self.slot(hir, &fields[i].1, value, at as usize + offset);
                }
                at
            }
            other => panic!("not a boxed value: {other:?}"),
        }
    }

    fn unword(&self, hir: &Hir, ty: &Ty, word: u64) -> Value {
        match ty {
            Ty::Int => Value::Int(word as i64),
            Ty::Float => Value::Float(f64::from_bits(word)),
            Ty::Bool => Value::Bool(word != 0),
            Ty::Sum(id) if hir.sums[id.0 as usize].variants.iter().all(|v| v.fields.is_empty()) => {
                Value::Variant(word as u32, Vec::new())
            }
            _ => self.read(hir, ty, word as u32),
        }
    }

    fn unslot(&self, hir: &Hir, ty: &Ty, at: usize) -> Value {
        let payload = |ty: &Ty| Box::new(self.unword(hir, ty, self.get64(at + 8)));
        match ty {
            Ty::Option(_) if self.get32(at) != 0 => Value::Absent,
            Ty::Option(inner) => Value::Present(payload(inner)),
            Ty::Result(ok, _) if self.get32(at) == 0 => Value::Good(payload(ok)),
            Ty::Result(_, err) => Value::Bad(payload(err)),
            _ => self.unword(hir, ty, self.get64(at)),
        }
    }

    fn read(&self, hir: &Hir, ty: &Ty, at: u32) -> Value {
        let at = at as usize;
        match ty {
            Ty::Str => {
                let bytes = &self.memory[at + 4..at + 4 + self.get32(at) as usize];
                Value::Str(String::from_utf8(bytes.to_vec()).unwrap())
            }
            Ty::List(elem) => Value::List(
                (0..self.get32(at) as usize)
                    .map(|i| self.unslot(hir, elem, at + 8 + stride(elem) as usize * i))
                    .collect(),
            ),
            Ty::Record(id) => {
                let fields = &hir.records[id.0 as usize].fields;
                Value::Record(
                    (0..fields.len())
                        .map(|i| {
                            self.unslot(hir, &fields[i].1, at + field_offset(fields, i) as usize)
                        })
                        .collect(),
                )
            }
            Ty::Sum(id) => {
                let tag = self.get32(at);
                let fields = &hir.sums[id.0 as usize].variants[tag as usize].fields;
                Value::Variant(
                    tag,
                    (0..fields.len())
                        .map(|i| {
                            let offset = 8 + field_offset(fields, i) as usize;
                            self.unslot(hir, &fields[i].1, at + offset)
                        })
                        .collect(),
                )
            }
            other => panic!("not a boxed type: {other:?}"),
        }
    }

    /// Puts a snapshot in place, as a restore does, and returns the root.
    fn restore(&mut self, snapshot: &Snapshot) -> Val {
        let base = self.reserve(snapshot.bytes.len());
        let at = base as usize;
        self.memory[at..at + snapshot.bytes.len()].copy_from_slice(&snapshot.relocated(base));
        snapshot.root_value(base)
    }
}

fn taken(hir: &Hir, arena: &Arena, root: u32) -> Snapshot {
    let state = &hir.actors[0].state;
    Codec::new(hir, state).capture(&arena.memory, Val::I32(root as i32)).expect("a snapshot")
}

/// Every representation there is, in one state record.
const SHAPES: &str = "
type Tint = | Red | Green
type Note = { text: string, weight: int }
type Slot =
  | Filled(note: Note, at: float)
  | Blank
type Model = {
  label: string,
  count: int,
  ratio: float,
  on: bool,
  tint: Tint,
  slot: Slot,
  maybe: Option<string>,
  outcome: Result<int, Note>,
  notes: List<Note>,
  marks: List<Option<int>>,
}
actor Shapes {
  state: Model
  in input: Input
  fn init(): Model { 0 }
}
";

fn note(t: &str, weight: i64) -> Value {
    Value::Record(vec![text(t), Value::Int(weight)])
}

fn full(label: &str) -> Value {
    Value::Record(vec![
        text(label),
        Value::Int(2),
        Value::Float(0.25),
        Value::Bool(true),
        Value::Variant(1, Vec::new()),
        Value::Variant(0, vec![note("x", 3), Value::Float(1.5)]),
        Value::Present(Box::new(text("m"))),
        Value::Bad(Box::new(note("refused", 7))),
        Value::List(vec![note("h", 0), note("hi", 1)]),
        Value::List(vec![
            Value::Present(Box::new(Value::Int(0))),
            Value::Absent,
            Value::Present(Box::new(Value::Int(1))),
        ]),
    ])
}

/// One sum, one narrow variant and one wide one.
const LEVELS: &str = "type Level = | Low | High(n: int, ratio: float)
type Model = { level: Level }
actor Levels { state: Model in input: Input fn init(): Model { 0 } }
";

fn low() -> Value {
    Value::Record(vec![Value::Variant(0, Vec::new())])
}

fn high() -> Value {
    Value::Record(vec![Value::Variant(1, vec![Value::Int(1), Value::Float(0.5)])])
}

#[test]
fn a_narrow_variant_takes_the_same_room_as_a_wide_one() {
    let hir = compile(LEVELS);
    let mut arena = Arena::new(64);
    let state = &hir.actors[0].state;
    let first = arena.write(&hir, state, &low());
    let second = arena.write(&hir, state, &high());
    let narrow = taken(&hir, &arena, first);
    let wide = taken(&hir, &arena, second);

    assert_eq!(
        narrow.bytes.len(),
        wide.bytes.len(),
        "`Low` and `High` are the same size, because both are a `Level`"
    );
    assert_ne!(narrow, wide, "the same size, not the same value");
    assert_eq!(words(&Ty::Option(Box::new(Ty::Int))), 2);
}

#[test]
fn a_narrow_variant_restores_as_itself() {
    let hir = compile(LEVELS);
    let state = &hir.actors[0].state;
    for value in [low(), high()] {
        let mut first = Arena::new(64);
        let root = first.write(&hir, state, &value);
        let snapshot = taken(&hir, &first, root);
        let mut second = Arena::new(1024);
        let root = second.restore(&snapshot).unwrap_i32() as u32;
        assert_eq!(second.read(&hir, state, root), value);
    }
}

#[test]
fn every_representation_survives_the_round_trip() {
    let hir = compile(SHAPES);
    let state = &hir.actors[0].state;
    let mut first = Arena::new(64);
    let root = first.write(&hir, state, &full("hi"));
    let snapshot = taken(&hir, &first, root);

    // Different traffic, so the image cannot land where it started.
    let mut second = Arena::new(64);
    second.write(&hir, state, &full("something else"));
    let root = second.restore(&snapshot);
    let at = root.unwrap_i32() as u32;
    assert_eq!(second.read(&hir, state, at), full("hi"), "the restored state is the same state");

    // Stronger than the value: a snapshot is canonical, so two equal states
    // have equal images.
    let again = taken(&hir, &second, at);
    assert_eq!(again, snapshot, "capture, restore and capture again is the identity");
}

#[test]
fn a_none_and_an_ok_carry_no_pointer() {
    // The payload slot of an `Option`/`Result` is a pointer only for some
    // tags. Reading `None`'s zero as an address is the bug this shape exists
    // to catch.
    let hir = compile(SHAPES);
    let state = &hir.actors[0].state;
    let mut value = full("h");
    let Value::Record(fields) = &mut value else { panic!("a record") };
    fields[6] = Value::Absent;
    fields[7] = Value::Good(Box::new(Value::Int(9)));
    fields[5] = Value::Variant(1, Vec::new());
    let mut first = Arena::new(64);
    let root = first.write(&hir, state, &value);
    let snapshot = taken(&hir, &first, root);

    let mut second = Arena::new(2048);
    let root = second.restore(&snapshot).unwrap_i32() as u32;
    assert_eq!(second.read(&hir, state, root), value);
}

#[test]
fn sharing_survives_the_move() {
    let hir = compile(
        "type Pair = { a: string, b: string }\nactor P { state: Pair fn init(): Pair { 0 } }",
    );
    let mut arena = Arena::new(64);
    let shared = arena.write(&hir, &Ty::Str, &text("one string"));
    let pair = arena.reserve(16);
    arena.put32(pair as usize, shared);
    arena.put32(pair as usize + 8, shared);
    let snapshot = taken(&hir, &arena, pair);
    assert_eq!(snapshot.bytes.len(), 16 + 16, "a pair and one string");
    assert_eq!(snapshot.bytes[0..4], snapshot.bytes[8..12], "both lead to it");
    assert_eq!(snapshot.relocations, vec![0, 8]);
}

#[test]
fn a_snapshot_is_the_state_and_not_the_arena() {
    let hir = compile(SHAPES);
    let mut arena = Arena::new(64);
    arena.write(&hir, &hir.actors[0].state, &full("not this one"));
    let root = arena.write(&hir, &hir.actors[0].state, &full("one todo"));
    let snapshot = taken(&hir, &arena, root);
    assert!(
        snapshot.bytes.len() < 1024,
        "the image is {} bytes, which is an arena and not a state",
        snapshot.bytes.len()
    );
    assert!(!snapshot.relocations.is_empty(), "a Model is nothing but pointers");
}

#[test]
fn an_edited_state_record_refuses_the_snapshot_and_says_what_changed() {
    // The old bytes would still *fit*, the new field is at the end, and
    // reading them as the new type would leave `pinned` holding whatever the
    // arena had there.
    let hir = compile(LEVELS);
    let edited = compile(&LEVELS.replace("{ level: Level }", "{ level: Level, pinned: int }"));
    let mut arena = Arena::new(64);
    let root = arena.write(&hir, &hir.actors[0].state, &low());
    let snapshot = taken(&hir, &arena, root);

    let old_shape = shape(&hir, &hir.actors[0].state);
    let new_shape = shape(&edited, &edited.actors[0].state);
    assert!(snapshot.fits(&old_shape.to_string()));
    assert!(!snapshot.fits(&new_shape.to_string()), "a new field is a new shape");
    let changed = difference(&old_shape, &new_shape).expect("they differ");
    assert_eq!(changed, "`Model` gained the field `pinned: int`");
}

/// A list of todos, and what the user is typing.
const TODOS: &str = "
type Todo = { id: int, title: string, done: bool }
type Model = { todos: List<Todo>, draft: string, offset: float, nextId: int }
actor App { state: Model in input: Input fn init(): Model { 0 } }
";

fn todos(titles: &[&str], done: bool) -> Value {
    let rows = titles
        .iter()
        .enumerate()
        .map(|(i, title)| {
            let toggled = done && i == 0;
            Value::Record(vec![Value::Int(i as i64), text(title), Value::Bool(toggled)])
        })
        .collect();
    let next = Value::Int(titles.len() as i64);
    Value::Record(vec![Value::List(rows), text("typing"), Value::Float(12.5), next])
}

/// What a program has to draw: everything the state at `root` holds.
fn drawn(hir: &Hir, arena: &Arena, root: u32) -> String {
    format!("{:?}", arena.read(hir, &hir.actors[0].state, root))
}

#[test]
fn a_snapshot_restored_into_another_instance_draws_the_same_tree() {
    let hir = compile(TODOS);
    let state = &hir.actors[0].state;
    let mut first = Arena::new(64);
    let root = first.write(&hir, state, &todos(&["wash up", "carry me across"], true));
    let before = drawn(&hir, &first, root);
    let snapshot = taken(&hir, &first, root);

    let mut second = Arena::new(64);
    let fresh = second.write(&hir, state, &todos(&["wash up"], false));
    assert_ne!(drawn(&hir, &second, fresh), before, "a fresh actor starts from `init`");

    let root = second.restore(&snapshot).unwrap_i32() as u32;
    assert_eq!(
        drawn(&hir, &second, root),
        before,
        "every string, flag, float and list element survived the move"
    );
}

#[test]
fn the_new_arena_is_at_a_different_address() {
    // The second arena already holds a state of its own, so the image lands
    // past it and every pointer in it has to move.
    let hir = compile(TODOS);
    let state = &hir.actors[0].state;
    let mut first = Arena::new(64);
    let old_root = first.write(&hir, state, &todos(&["moved"], false));
    let snapshot = taken(&hir, &first, old_root);
    let before = drawn(&hir, &first, old_root);

    let mut second = Arena::new(64);
    // A different amount of traffic, so the addresses cannot happen to line up.
    second.write(&hir, state, &todos(&["something else entirely", "and another"], false));
    let root = second.restore(&snapshot).unwrap_i32() as u32;

    assert_ne!(root, old_root);
    assert_eq!(drawn(&hir, &second, root), before);
}

#[test]
fn newer_code_draws_the_older_state() {
    // The program changed, and so did the numbers of its declarations; the
    // record did not, and what the user had typed is still there afterwards.
    let hir = compile(TODOS);
    let edited = compile(&format!("type Crash = {{ at: int }}\n{TODOS}"));
    let old_shape = shape(&hir, &hir.actors[0].state);
    let new_shape = shape(&edited, &edited.actors[0].state);
    assert_eq!(old_shape, new_shape, "the state record was not touched");

    let mut running = Arena::new(64);
    let value = todos(&["survive the reload"], false);
    let root = running.write(&hir, &hir.actors[0].state, &value);
    let snapshot = taken(&hir, &running, root);
    assert!(snapshot.fits(&new_shape.to_string()), "the shapes agree");

    let mut replacement = Arena::new(1024);
    let root = replacement.restore(&snapshot).unwrap_i32() as u32;
    let after = drawn(&edited, &replacement, root);
    assert!(after.contains("survive the reload"), "the state came across:\n{after}");
    assert_eq!(replacement.read(&edited, &edited.actors[0].state, root), value);

    // And what the newer program lifts out is the same image.
    let again = taken(&edited, &replacement, root);
    assert_eq!(again, snapshot);
}

#[test]
fn shapes_that_differ_are_never_written_alike() {
    let of = |ty: &str| {
        let hir = compile(&format!(
            "type Model = {{ x: {ty} }}\nactor A {{ state: Model fn init(): Model {{ 0 }} }}"
        ));
        shape(&hir, &hir.actors[0].state)
    };
    let all: Vec<Shape> =
        ["int", "string", "List<int>", "Option<int>", "Result<int, string>", "List<Option<int>>"]
            .iter()
            .map(|ty| of(ty))
            .collect();
    for (i, a) in all.iter().enumerate() {
        for (j, b) in all.iter().enumerate() {
            assert_eq!(a.to_string() == b.to_string(), i == j, "{a:?} and {b:?}");
            assert_eq!(difference(a, b).is_none(), i == j);
        }
        assert_eq!(a.clone(), *a);
    }
}

#[test]
fn a_record_is_read_field_by_field() {
    // Nothing of a record is read but its fields, so one with nothing stored
    // in it is captured wherever it is said to be.
    let def = |fields| Hir {
        records: vec![RecordDef { name: "R".to_string(), fields }],
        sums: Vec::new(),
        funcs: Vec::new(),
        actors: Vec::new(),
        app: None,
    };
    let record = Ty::Record(RecordId(0));
    let unit = def(vec![("u".to_string(), Ty::Unit)]);
    let snapshot = capture(&unit, &record, "s", &[0], Val::I32(100)).expect("nothing is read");
    assert_eq!((snapshot.root, snapshot.bytes), (Root::Pointer(0), vec![0; 8]));
    let empty = def(Vec::new());
    let snapshot = capture(&empty, &record, "s", &[], Val::I32(100)).expect("nothing is read");
    assert_eq!((snapshot.root, snapshot.bytes.len()), (Root::Pointer(0), 0));
    let number = def(vec![("n".to_string(), Ty::Int)]);
    let error = capture(&number, &record, "s", &[0], Val::I32(100)).expect_err("past the arena");
    assert!(matches!(error, CaptureError::Past { at: 100, len: 8 }), "{error:?}");
}

#[test]
fn a_state_that_only_changed_inside_a_list_element_is_still_refused() {
    let source = "
type Todo = { id: int, title: string, done: bool }
type Model = { todos: List<Todo>, nextId: int }
actor App { state: Model in input: Input fn init(): Model { 0 } }
";
    let hir = compile(source);
    let edited = compile(&source.replace(
        "type Todo = { id: int, title: string, done: bool }",
        "type Todo = { id: int, title: string, done: bool, at: float }",
    ));
    let todo = |id, title: &str, done| {
        Value::Record(vec![Value::Int(id), Value::Str(title.to_string()), Value::Bool(done)])
    };
    let model = Value::Record(vec![
        Value::List(vec![todo(0, "one", true), todo(1, "two", false)]),
        Value::Int(2),
    ]);
    let mut arena = Arena::new(64);
    let root = arena.write(&hir, &hir.actors[0].state, &model);
    let snapshot = taken(&hir, &arena, root);

    let old_shape = shape(&hir, &hir.actors[0].state);
    let new_shape = shape(&edited, &edited.actors[0].state);
    assert!(snapshot.fits(&old_shape.to_string()));
    assert!(!snapshot.fits(&new_shape.to_string()));
    let changed = difference(&old_shape, &new_shape).expect("they differ");
    assert_eq!(changed, "`Model.todos's elements` gained the field `at: float`");
}

#[test]
fn records_without_fields_make_the_trip_together() {
    let record = |name: &str, fields| RecordDef { name: name.to_string(), fields };
    let at = |id| Ty::Record(RecordId(id));
    let hir = Hir {
        records: vec![
            record("Empty", Vec::new()),
            record("Pair", vec![("a".to_string(), at(0)), ("b".to_string(), at(0))]),
        ],
        sums: Vec::new(),
        funcs: Vec::new(),
        actors: Vec::new(),
        app: None,
    };
    let mut first = Arena::new(64);
    let alone = capture(&hir, &at(0), "s", &first.memory, Val::I32(64)).unwrap();
    assert_eq!((alone.root, alone.bytes.len()), (Root::Pointer(0), 0));

    // Two of them, at two addresses: neither takes any room, so they share an
    // offset, and nothing is lost by it.
    let pair = first.reserve(16);
    first.put32(pair as usize, 200);
    first.put32(pair as usize + 8, 208);
    let both = capture(&hir, &at(1), "s", &first.memory, Val::I32(pair as i32)).unwrap();
    assert_eq!((both.bytes.len(), both.relocations.len()), (16, 2));

    for (ty, snapshot) in [(at(0), alone), (at(1), both)] {
        let mut second = Arena::new(1024);
        let root = second.restore(&snapshot);
        let again = capture(&hir, &ty, "s", &second.memory, root).unwrap();
        assert_eq!(again, snapshot);
    }
}

#[test]
fn moving_an_image_twice_is_moving_it_once() {
    let hir = compile(SHAPES);
    let mut arena = Arena::new(64);
    let root = arena.write(&hir, &hir.actors[0].state, &full("twice"));
    let snapshot = taken(&hir, &arena, root);
    let (shape, relocations) = (snapshot.shape.clone(), snapshot.relocations.clone());
    let first = Snapshot { shape, bytes: snapshot.relocated(1000), relocations, root: snapshot.root };
    assert_eq!(first.relocated(234), snapshot.relocated(1234));
    assert_ne!(first.bytes, snapshot.bytes);
}

#[test]
fn a_scalar_state_needs_no_image() {
    let hir = compile("type Tint = | Red | Green");
    let take = |ty: &Ty, root: Val| capture(&hir, ty, "s", &[], root);
    assert_eq!(take(&Ty::Int, Val::I64(-3)).unwrap().root, Root::I64(-3));
    assert_eq!(take(&Ty::Bool, Val::I32(1)).unwrap().root, Root::I32(1));
    assert_eq!(take(&Ty::Float, Val::F64(7)).unwrap().root, Root::F64Bits(7));
    let tint = Ty::Sum(SumId(1));
    let snapshot = take(&tint, Val::I32(1)).unwrap();
    assert_eq!((snapshot.root, snapshot.bytes.len()), (Root::I32(1), 0));
    assert_eq!(snapshot.root_value(99), Val::I32(1));
}

#[test]
fn a_state_that_cannot_be_read_says_why() {
    let hir = compile(LEVELS);
    let state = &hir.actors[0].state;
    let take = |ty: &Ty, memory: &[u8], root: Val| capture(&hir, ty, "s", memory, root);
    let wrong = take(&Ty::Int, &[], Val::I32(3)).unwrap_err();
    assert!(matches!(
        wrong,
        CaptureError::Global { found: Val::I32(3), expected: GlobalKind::I64 }
    ));
    assert_eq!(wrong.message(&hir, "I32(3)"), "the state global is I32(3), expected an i64");
    let early = take(state, &[], Val::I32(0)).unwrap_err();
    assert_eq!(early.message(&hir, ""), "this actor has not built its state yet");
    let wide = take(&Ty::Option(Box::new(Ty::Int)), &[], Val::I32(0)).unwrap_err();
    assert_eq!(
        wide.message(&hir, "Option<int>"),
        "a state of type Option<int> cannot be snapshotted"
    );
    let past = take(state, &[0; 64], Val::I32(64)).unwrap_err();
    assert_eq!(past.message(&hir, ""), "the state reaches 4 bytes at 0x40, past this arena");
    let mut arena = Arena::new(64);
    let root = arena.write(&hir, state, &low());
    let level = arena.get32(root as usize);
    arena.put32(level as usize, 2);
    let tag = take(state, &arena.memory, Val::I32(root as i32)).unwrap_err();
    assert_eq!(
        tag.message(&hir, ""),
        "`Level` has no variant 2 \u{2014} the arena is not what its type says"
    );
    let mut huge = vec![0xff; 8];
    huge[3] = 0x7f;
    let large = take(&Ty::List(Box::new(Ty::Int)), &huge, Val::I32(1)).unwrap_err();
    assert!(matches!(large, CaptureError::TooLarge));
}

#[test]
fn a_codec_takes_snapshots_that_fit_it() {
    let hir = compile(LEVELS);
    let codec = Codec::new(&hir, &hir.actors[0].state);
    assert_eq!(codec.shape(), "Model { level: Level = | Low | High(n: int, ratio: float) }");
    assert_eq!(codec.describe(), format!("state of {}", codec.shape()));
    let mut arena = Arena::new(64);
    let root = arena.write(&hir, &hir.actors[0].state, &high());
    let snapshot = codec.capture(&arena.memory, Val::I32(root as i32)).unwrap();
    assert!(snapshot.fits(codec.shape()));
}

#[test]
fn what_was_never_built_stays_null() {
    let hir = compile("type Box1 = { a: string }\nactor P { state: Box1 fn init(): Box1 { 0 } }");
    let mut arena = Arena::new(64);
    let root = arena.reserve(8);
    let snapshot = taken(&hir, &arena, root);
    assert_eq!(snapshot.bytes, vec![0; 8]);
    assert!(snapshot.relocations.is_empty());
}

// ---- relocation -----------------------------------------------------------

fn image() -> Snapshot {
    // A record at offset 0 whose one field points at something at 16.
    let mut bytes = vec![0u8; 24];
    bytes[0..4].copy_from_slice(&16u32.to_le_bytes());
    Snapshot {
        shape: "Model{n:int}".to_string(),
        bytes,
        relocations: vec![0],
        root: Root::Pointer(0),
    }
}

#[test]
fn relocation_moves_the_pointers_and_nothing_else() {
    let snapshot = image();
    let moved = snapshot.relocated(4096);
    assert_eq!(u32::from_le_bytes(moved[0..4].try_into().unwrap()), 4096 + 16);
    assert_eq!(&moved[4..], &snapshot.bytes[4..], "nothing outside a site changes");
    assert_eq!(snapshot.relocated(0), snapshot.bytes, "and nothing at all at its own address");
}

#[test]
fn the_root_lands_where_the_image_did() {
    assert_eq!(image().root_value(4096).unwrap_i32(), 4096);
}

#[test]
fn a_snapshot_only_fits_the_shape_it_came_from() {
    let snapshot = image();
    assert!(snapshot.fits("Model{n:int}"));
    assert!(!snapshot.fits("Model{n:int,done:bool}"));
}

#[test]
fn a_file_is_read_again_when_it_is_there_and_another() {
    let at = |modified, len| Some(Stamp { modified, len });
    assert!(!worth_reloading(at(5, 10), at(5, 10)));
    assert!(worth_reloading(at(5, 10), at(6, 10)));
    assert!(worth_reloading(at(5, 10), at(5, 11)), "two writes within a clock tick");
    assert!(worth_reloading(None, at(5, 10)));
    assert!(!worth_reloading(at(5, 10), None), "half way through a save there is no file");
    assert!(!worth_reloading(None, None));
}

#[test]
fn a_program_that_names_what_is_not_there_is_not_valid() {
    let build = |ty, wires| Hir {
        records: vec![RecordDef { name: "A".to_string(), fields: vec![("x".to_string(), ty)] }],
        sums: Vec::new(),
        funcs: Vec::new(),
        actors: vec![ActorDef {
            name: "One".to_string(),
            state: Ty::Record(RecordId(0)),
            message: Ty::Str,
            draws: false,
            inbox: vec![PortDef { name: "in".to_string(), ty: Ty::Int }],
            outbox: vec![PortDef { name: "out".to_string(), ty: Ty::Int }],
        }],
        app: Some(AppDef {
            instances: vec![Instance { name: "one".to_string(), actor: 0 }],
            wires,
        }),
    };
    let wire = |from_port| Wire { from: 0, from_port, to: 0, to_port: 0 };
    assert!(build(Ty::Int, vec![wire(0)]).is_valid());
    assert!(build(Ty::List(Box::new(Ty::Record(RecordId(0)))), Vec::new()).is_valid());
    assert!(!build(Ty::Option(Box::new(Ty::Record(RecordId(1)))), Vec::new()).is_valid());
    assert!(!build(Ty::Sum(SumId(0)), Vec::new()).is_valid());
    assert!(!build(Ty::Int, vec![wire(1)]).is_valid());
}
