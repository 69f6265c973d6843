//! Turning a checked file into a supervision tree the runtime can spawn.
//!
//! The `app` block says which actors run and which port meets which; this
//! turns that into ids, modules and a routing table. A file with one actor and
//! no `app` block is an app of one actor with no wires: it is what the general
//! shape degenerates to.

use vstd::prelude::*;
use vstd::string::StringExecFns;

use crate::hir::{AppDef, Hir, Ty};
use crate::input::{input_type, is_input};
use crate::text::{decimal, join, joined, number, texts};

verus! {

/// Where an out-port leads: an actor, and a port of it.
#[derive(Clone, Copy, Debug, PartialEq, Eq, Structural)]
pub struct Wiring {
    pub to: u32,
    pub port: u32,
}

/// One actor about to run.
#[derive(Debug)]
pub struct Spawn {
    pub id: u32,
    /// What the `app` block calls it: the name a crash report should use, so
    /// that two instances of one actor are still tellable apart.
    pub name: String,
    /// Index into `Hir::actors`.
    pub actor: usize,
    pub wasm: Vec<u8>,
    /// Indexed by the actor's out-port number.
    pub out: Vec<Option<Wiring>>,
}

#[derive(Debug)]
pub struct Plan {
    pub spawns: Vec<Spawn>,
    /// Which spawn draws the window, if any.
    pub ui: Option<usize>,
    /// The UI actor's port carrying the platform's `Input` type.
    pub input_port: Option<u32>,
}

/// Why there is no plan.
#[derive(Debug)]
pub enum PlanError {
    /// The file declares no actors.
    NoActors,
    /// The file declares several actors and nothing saying which run.
    NoApp { count: usize },
    /// An actor could not be compiled.
    Emit { message: String },
    /// Several actors draw, and the window shows one tree.
    SeveralDraw { names: Vec<String> },
}

/// What a [`PlanError`] is.
pub enum Unplannable {
    NoActors,
    NoApp { count: nat },
    Emit { message: Seq<char> },
    SeveralDraw { names: Seq<Seq<char>> },
}

impl View for PlanError {
    type V = Unplannable;

    open spec fn view(&self) -> Unplannable {
        match *self {
            PlanError::NoActors => Unplannable::NoActors,
            PlanError::NoApp { count } => Unplannable::NoApp { count: count as nat },
            PlanError::Emit { message } => Unplannable::Emit { message: message@ },
            PlanError::SeveralDraw { names } => Unplannable::SeveralDraw { names: texts(names@) },
        }
    }
}

impl Unplannable {
    /// The error in words.
    pub open spec fn words(self) -> Seq<char> {
        match self {
            Unplannable::NoActors => "this file declares no actors"@,
            Unplannable::NoApp { count } => "this file declares "@ + decimal(count as int)
                + " actors but no `app` block, so nothing says which of them run or how they are wired \u{2014} add `app Name { ... }`"@,
            Unplannable::Emit { message } => message,
            Unplannable::SeveralDraw { names } => joined(names, " and "@)
                + " both draw, and the window shows one tree \u{2014} give the others their panels as `view fn` items the drawing actor calls"@,
        }
    }
}

impl PlanError {
    /// The error in words.
    pub fn message(&self) -> (r: String)
        ensures
            r@ == self@.words(),
    {
        match self {
            PlanError::NoActors => "this file declares no actors".to_owned(),
            PlanError::NoApp { count } => {
                let mut out = "this file declares ".to_owned();
                out.append(number(*count as u64).as_str());
                out.append(
                    " actors but no `app` block, so nothing says which of them run or how they are wired \u{2014} add `app Name { ... }`",
                );
                out
            },
            PlanError::Emit { message } => message.clone(),
            PlanError::SeveralDraw { names } => {
                let mut out = join(names, " and ");
                out.append(
                    " both draw, and the window shows one tree \u{2014} give the others their panels as `view fn` items the drawing actor calls",
                );
                out
            },
        }
    }
}

/// The actors that run, by name and by index: those of the `app` block, or the
/// only one there is.
pub open spec fn running(hir: Hir) -> Result<Seq<(Seq<char>, usize)>, Unplannable> {
    match hir.app {
        Some(app) => Ok(
            Seq::new(
                app.instances@.len(),
                |i: int| (app.instances@[i].name@, app.instances@[i].actor),
            ),
        ),
        None => if hir.actors@.len() == 0 {
            Err(Unplannable::NoActors)
        } else if hir.actors@.len() == 1 {
            Ok(seq![(hir.actors@[0].name@, 0usize)])
        } else {
            Err(Unplannable::NoApp { count: hir.actors@.len() })
        },
    }
}

/// What a list of named actors is.
pub open spec fn named(list: Seq<(String, usize)>) -> Seq<(Seq<char>, usize)> {
    Seq::new(list.len(), |i: int| (list[i].0@, list[i].1))
}

/// The actors that run, in the order they are started: each has a module of
/// its own to be compiled.
pub fn instances(hir: &Hir) -> (r: Result<Vec<(String, usize)>, PlanError>)
    requires
        hir.valid(),
    ensures
        match (r, running(*hir)) {
            (Ok(list), Ok(expected)) => {
                &&& named(list@) == expected
                &&& list@.len() <= u32::MAX
                &&& forall|i: int| 0 <= i < list@.len() ==> (#[trigger] list@[i]).1 < hir.actors@.len()
            },
            (Err(e), Err(f)) => e@ == f,
            _ => false,
        },
{
    let mut list: Vec<(String, usize)> = Vec::new();
    match &hir.app {
        Some(app) => {
            for i in 0..app.instances.len()
                invariant
                    app.known(*hir),
                    list@.len() == i,
                    forall|j: int|
                        0 <= j < i ==> (#[trigger] list@[j]).0@ == app.instances@[j].name@
                            && list@[j].1 == app.instances@[j].actor,
            {
                let instance = &app.instances[i];
                list.push((instance.name.clone(), instance.actor));
            }
            assert(named(list@) =~= running(*hir)->Ok_0);
            assert forall|i: int| 0 <= i < list@.len() implies (#[trigger] list@[i]).1
                < hir.actors@.len() by {
                assert(app.instances@[i].actor < hir.actors@.len());
            }
            Ok(list)
        },
        None => {
            let count: usize = hir.actors.len();
            if count == 0 {
                Err(PlanError::NoActors)
            } else if count == 1 {
                list.push((hir.actors[0].name.clone(), 0));
                assert(named(list@) =~= running(*hir)->Ok_0);
                Ok(list)
            } else {
                // The file is halfway to an app, so say what is missing.
                Err(PlanError::NoApp { count })
            }
        },
    }
}

/// Where an instance's out-port leads, after the first `count` wires: to the
/// other end of the last of them that starts there.
pub open spec fn wired(app: Option<AppDef>, index: int, port: int, count: nat) -> Option<Wiring>
    decreases count,
{
    match app {
        None => None,
        Some(app) => if count == 0 || count > app.wires@.len() {
            None
        } else {
            let wire = app.wires@[count - 1];
            if wire.from == index && wire.from_port == port {
                Some(Wiring { to: wire.to as u32, port: wire.to_port as u32 })
            } else {
                wired(Some(app), index, port, (count - 1) as nat)
            }
        },
    }
}

/// How many wires there are.
pub open spec fn wire_count(app: Option<AppDef>) -> nat {
    match app {
        Some(app) => app.wires@.len(),
        None => 0,
    }
}

/// Those of the first `count` running actors that draw.
pub open spec fn drawing(hir: Hir, run: Seq<(Seq<char>, usize)>, count: nat) -> Seq<usize>
    decreases count,
{
    if count == 0 {
        Seq::empty()
    } else {
        let before = drawing(hir, run, (count - 1) as nat);
        if hir.actors@[run[count - 1].1 as int].draws {
            before.push((count - 1) as usize)
        } else {
            before
        }
    }
}

/// The first of the ports from `index` on that carries input.
pub open spec fn input_port_from(hir: Hir, actor: int, index: nat) -> Option<u32>
    decreases hir.actors@[actor].inbox@.len() - index,
{
    let inbox = hir.actors@[actor].inbox@;
    if index >= inbox.len() {
        None
    } else if input_type(hir, inbox[index as int].ty) {
        Some(index as u32)
    } else {
        input_port_from(hir, actor, index + 1)
    }
}

/// The first module from `index` on that could not be compiled.
pub open spec fn first_failure(modules: Seq<Result<Vec<u8>, String>>, index: nat) -> Option<
    Seq<char>,
>
    decreases modules.len() - index,
{
    if index >= modules.len() {
        None
    } else {
        match modules[index as int] {
            Err(message) => Some(message@),
            Ok(_) => first_failure(modules, index + 1),
        }
    }
}

/// Why there is no plan, if there is none.
pub open spec fn obstacle(hir: Hir, modules: Seq<Result<Vec<u8>, String>>) -> Option<Unplannable> {
    match running(hir) {
        Err(e) => Some(e),
        Ok(run) => match first_failure(modules, 0) {
            Some(message) => Some(Unplannable::Emit { message }),
            None => {
                let drawers = drawing(hir, run, run.len());
                if drawers.len() > 1 {
                    Some(
                        Unplannable::SeveralDraw {
                            names: Seq::new(drawers.len(), |i: int| run[drawers[i] as int].0),
                        },
                    )
                } else {
                    None
                }
            },
        },
    }
}

/// Whether `spawn` is the actor at `index` of those that run.
pub open spec fn spawned(
    hir: Hir,
    run: Seq<(Seq<char>, usize)>,
    modules: Seq<Result<Vec<u8>, String>>,
    index: int,
    spawn: Spawn,
) -> bool {
    &&& spawn.id == index
    &&& spawn.name@ == run[index].0
    &&& spawn.actor == run[index].1
    &&& modules[index] matches Ok(wasm) && spawn.wasm@ == wasm@
    &&& spawn.out@.len() == hir.actors@[run[index].1 as int].outbox@.len()
    &&& forall|port: int|
        0 <= port < spawn.out@.len() ==> #[trigger] spawn.out@[port] == wired(
            hir.app,
            index,
            port,
            wire_count(hir.app),
        )
}

/// Whether `plan` is the plan of a program.
pub open spec fn planned(hir: Hir, modules: Seq<Result<Vec<u8>, String>>, plan: Plan) -> bool {
    running(hir) matches Ok(run) && {
        let drawers = drawing(hir, run, run.len());
        &&& plan.spawns@.len() == run.len()
        &&& forall|i: int|
            0 <= i < run.len() ==> spawned(hir, run, modules, i, #[trigger] plan.spawns@[i])
        &&& plan.ui == if drawers.len() > 0 {
            Some(drawers[0])
        } else {
            None
        }
        &&& plan.input_port == match plan.ui {
            Some(index) => input_port_from(hir, run[index as int].1 as int, 0),
            None => None,
        }
    }
}

fn first_input_port(hir: &Hir, actor: usize) -> (r: Option<u32>)
    requires
        hir.valid(),
        actor < hir.actors@.len(),
    ensures
        r == input_port_from(*hir, actor as int, 0),
{
    let inbox = &hir.actors[actor].inbox;
    assert(hir.actors@[actor as int].known(*hir));
    for i in 0..inbox.len()
        invariant
            hir.valid(),
            actor < hir.actors@.len(),
            *inbox == hir.actors@[actor as int].inbox,
            hir.actors@[actor as int].known(*hir),
            input_port_from(*hir, actor as int, 0) == input_port_from(
                *hir,
                actor as int,
                i as nat,
            ),
    {
        assert(inbox@[i as int].ty.known(*hir));
        if is_input(hir, &inbox[i].ty) {
            return Some(i as u32);
        }
    }
    None
}

fn route(hir: &Hir, index: usize, ports: usize) -> (r: Vec<Option<Wiring>>)
    requires
        hir.valid(),
        hir.app matches Some(app) ==> index < app.instances@.len() && ports
            == hir.actors@[app.instances@[index as int].actor as int].outbox@.len(),
    ensures
        r@.len() == ports,
        forall|port: int|
            0 <= port < ports ==> #[trigger] r@[port] == wired(
                hir.app,
                index as int,
                port,
                wire_count(hir.app),
            ),
{
    let mut out: Vec<Option<Wiring>> = Vec::new();
    for i in 0..ports
        invariant
            out@.len() == i,
            forall|port: int| 0 <= port < i ==> #[trigger] out@[port] is None,
    {
        out.push(None);
    }
    if let Some(app) = &hir.app {
        for w in 0..app.wires.len()
            invariant
                hir.app == Some(*app),
                app.known(*hir),
                index < app.instances@.len(),
                ports == hir.actors@[app.instances@[index as int].actor as int].outbox@.len(),
                out@.len() == ports,
                forall|port: int|
                    0 <= port < ports ==> #[trigger] out@[port] == wired(
                        hir.app,
                        index as int,
                        port,
                        w as nat,
                    ),
        {
            let wire = app.wires[w];
            assert(app.wires@[w as int].to < app.instances@.len());
            if wire.from == index {
                out[wire.from_port] = Some(
                    Wiring { to: wire.to as u32, port: wire.to_port as u32 },
                );
            }
        }
    }
    out
}

/// Builds the tree, from the modules its actors were compiled to: one per
/// instance, in order.
pub fn plan(hir: &Hir, modules: Vec<Result<Vec<u8>, String>>) -> (r: Result<Plan, PlanError>)
    requires
        hir.valid(),
        running(*hir) matches Ok(run) ==> modules@.len() == run.len(),
    ensures
        match r {
            Ok(plan) => obstacle(*hir, modules@) is None && planned(*hir, modules@, plan),
            Err(e) => obstacle(*hir, modules@) == Some(e@),
        },
{
    let list = match instances(hir) {
        Ok(list) => list,
        Err(e) => {
            return Err(e);
        },
    };
    let ghost run = named(list@);
    let ghost failure = first_failure(modules@, 0);
    let mut spawns: Vec<Spawn> = Vec::new();
    let mut drawers: Vec<usize> = Vec::new();
    let mut names: Vec<String> = Vec::new();
    assert(drawers@ =~= drawing(*hir, run, 0));
    assert(texts(names@) =~= Seq::new(drawers@.len(), |i: int| run[drawers@[i] as int].0));
    for index in 0..list.len()
        invariant
            hir.valid(),
            list@.len() <= u32::MAX,
            modules@.len() == list@.len(),
            run == named(list@),
            running(*hir) == Ok::<Seq<(Seq<char>, usize)>, Unplannable>(run),
            forall|i: int| 0 <= i < list@.len() ==> (#[trigger] list@[i]).1 < hir.actors@.len(),
            failure == first_failure(modules@, 0),
            failure == first_failure(modules@, index as nat),
            spawns@.len() == index,
            forall|i: int|
                0 <= i < index ==> spawned(*hir, run, modules@, i, #[trigger] spawns@[i]),
            drawers@ == drawing(*hir, run, index as nat),
            forall|i: int| 0 <= i < drawers@.len() ==> (#[trigger] drawers@[i]) < index,
            texts(names@) == Seq::new(drawers@.len(), |i: int| run[drawers@[i] as int].0),
    {
        let (name, actor) = &list[index];
        assert(run[index as int] == (name@, *actor));
        let wasm = match &modules[index] {
            Ok(wasm) => copied(wasm),
            Err(message) => {
                return Err(PlanError::Emit { message: message.clone() });
            },
        };
        let ports: usize = hir.actors[*actor].outbox.len();
        proof {
            if let Some(app) = &hir.app {
                assert(run[index as int].1 == app.instances@[index as int].actor);
            }
        }
        let out = route(hir, index, ports);
        if hir.actors[*actor].draws {
            let ghost before = texts(names@);
            let ghost held = drawers@;
            drawers.push(index);
            names.push(name.clone());
            assert(texts(names@) =~= before.push(name@));
            assert(texts(names@) =~= Seq::new(
                drawers@.len(),
                |i: int| run[drawers@[i] as int].0,
            ));
        }
        spawns.push(Spawn { id: index as u32, name: name.clone(), actor: *actor, wasm, out });
    }
    // Exactly one actor may draw: the compositor paints one tree, so a second
    // would silently win or silently lose depending on arrival order. Better
    // to refuse than to pick.
    if drawers.len() > 1 {
        return Err(PlanError::SeveralDraw { names });
    }
    let mut ui: Option<usize> = None;
    let mut input_port: Option<u32> = None;
    if drawers.len() > 0 {
        let index: usize = drawers[0];
        ui = Some(index);
        assert(run[index as int] == (list@[index as int].0@, list@[index as int].1));
        input_port = first_input_port(hir, list[index].1);
    }
    Ok(Plan { spawns, ui, input_port })
}

fn copied(bytes: &Vec<u8>) -> (r: Vec<u8>)
    ensures
        r@ == bytes@,
{
    let mut out: Vec<u8> = Vec::new();
    for i in 0..bytes.len()
        invariant
            out@ == bytes@.take(i as int),
    {
        out.push(bytes[i]);
        assert(out@ =~= bytes@.take(i + 1));
    }
    assert(out@ =~= bytes@);
    out
}

proof fn lemma_drawing(hir: Hir, run: Seq<(Seq<char>, usize)>, count: nat, index: int)
    requires
        count <= run.len() <= u32::MAX,
        0 <= index < count,
    ensures
        hir.actors@[run[index].1 as int].draws <==> drawing(hir, run, count).contains(
            index as usize,
        ),
        forall|k: int|
            0 <= k < drawing(hir, run, count).len() ==> (#[trigger] drawing(hir, run, count)[k])
                < count,
    decreases count,
{
    let before = drawing(hir, run, (count - 1) as nat);
    let now = drawing(hir, run, count);
    if count == 1 {
        assert(before =~= Seq::empty());
    } else {
        lemma_drawing(hir, run, (count - 1) as nat, if index < count - 1 {
            index
        } else {
            0
        });
    }
    if hir.actors@[run[count - 1].1 as int].draws {
        assert(now.last() == (count - 1) as usize);
        assert(forall|k: int| 0 <= k < before.len() ==> now[k] == before[k]);
        if index < count - 1 && before.contains(index as usize) {
            let k = choose|k: int| 0 <= k < before.len() && before[k] == index as usize;
            assert(now[k] == index as usize);
        }
        if index < count - 1 && now.contains(index as usize) {
            let k = choose|k: int| 0 <= k < now.len() && now[k] == index as usize;
            assert(before[k] == index as usize);
        }
        if index == count - 1 {
            assert(now[now.len() - 1] == index as usize);
        }
    }
}

/// At most one actor draws the window, and it is the one the plan says.
pub proof fn at_most_one_actor_draws(
    hir: Hir,
    modules: Seq<Result<Vec<u8>, String>>,
    plan: Plan,
    index: int,
)
    requires
        planned(hir, modules, plan),
        obstacle(hir, modules) is None,
        0 <= index < plan.spawns@.len() <= u32::MAX,
    ensures
        hir.actors@[plan.spawns@[index].actor as int].draws <==> plan.ui == Some(index as usize),
{
    let run = running(hir)->Ok_0;
    let drawers = drawing(hir, run, run.len());
    assert(spawned(hir, run, modules, index, plan.spawns@[index]));
    lemma_drawing(hir, run, run.len(), index);
    if hir.actors@[run[index].1 as int].draws {
        let k = choose|k: int| 0 <= k < drawers.len() && drawers[k] == index as usize;
        assert(k == 0);
    } else if drawers.len() > 0 {
        assert(drawers.contains(drawers[0]));
    }
}

proof fn lemma_wired(app: AppDef, w: int, count: nat)
    requires
        0 <= w < count <= app.wires@.len(),
        forall|v: int|
            w < v < count ==> (#[trigger] app.wires@[v]).from != app.wires@[w].from
                || app.wires@[v].from_port != app.wires@[w].from_port,
    ensures
        ({
            let wire = app.wires@[w];
            wired(Some(app), wire.from as int, wire.from_port as int, count) == Some(
                Wiring { to: wire.to as u32, port: wire.to_port as u32 },
            )
        }),
    decreases count,
{
    if w < count - 1 {
        lemma_wired(app, w, (count - 1) as nat);
    }
}

/// Every wire of the app is in the routing table of the actor it starts at,
/// unless a later wire starts at the same port.
pub proof fn every_wire_is_routed(
    hir: Hir,
    modules: Seq<Result<Vec<u8>, String>>,
    plan: Plan,
    app: AppDef,
    w: int,
)
    requires
        hir.valid(),
        hir.app == Some(app),
        planned(hir, modules, plan),
        0 <= w < app.wires@.len(),
        forall|v: int|
            w < v < app.wires@.len() ==> (#[trigger] app.wires@[v]).from != app.wires@[w].from
                || app.wires@[v].from_port != app.wires@[w].from_port,
    ensures
        ({
            let wire = app.wires@[w];
            plan.spawns@[wire.from as int].out@[wire.from_port as int] == Some(
                Wiring { to: wire.to as u32, port: wire.to_port as u32 },
            )
        }),
{
    let wire = app.wires@[w];
    let run = running(hir)->Ok_0;
    assert(wire.from < app.instances@.len());
    assert(spawned(hir, run, modules, wire.from as int, plan.spawns@[wire.from as int]));
    lemma_wired(app, w, app.wires@.len());
}

proof fn lemma_unwired(app: AppDef, index: int, port: int, count: nat)
    requires
        count <= app.wires@.len(),
        forall|w: int|
            0 <= w < count ==> (#[trigger] app.wires@[w]).from != index || app.wires@[w].from_port
                != port,
    ensures
        wired(Some(app), index, port, count) is None,
    decreases count,
{
    if count > 0 {
        lemma_unwired(app, index, port, (count - 1) as nat);
    }
}

/// A port that no wire starts at leads nowhere.
pub proof fn a_port_without_a_wire_leads_nowhere(
    hir: Hir,
    modules: Seq<Result<Vec<u8>, String>>,
    plan: Plan,
    index: int,
    port: int,
)
    requires
        planned(hir, modules, plan),
        0 <= index < plan.spawns@.len(),
        0 <= port < plan.spawns@[index].out@.len(),
        hir.app matches Some(app) ==> forall|w: int|
            0 <= w < app.wires@.len() ==> (#[trigger] app.wires@[w]).from != index
                || app.wires@[w].from_port != port,
    ensures
        plan.spawns@[index].out@[port] is None,
{
    let run = running(hir)->Ok_0;
    assert(spawned(hir, run, modules, index, plan.spawns@[index]));
    if let Some(app) = hir.app {
        lemma_unwired(app, index, port, app.wires@.len());
    }
}

proof fn lemma_input_port(hir: Hir, actor: int, index: nat)
    requires
        hir.actors@[actor].inbox@.len() <= u32::MAX,
    ensures
        ({
            let inbox = hir.actors@[actor].inbox@;
            match input_port_from(hir, actor, index) {
                Some(port) => {
                    &&& index <= port < inbox.len()
                    &&& input_type(hir, inbox[port as int].ty)
                    &&& forall|i: int|
                        index <= i < port ==> !input_type(hir, (#[trigger] inbox[i]).ty)
                },
                None => forall|i: int|
                    index <= i < inbox.len() ==> !input_type(hir, (#[trigger] inbox[i]).ty),
            }
        }),
    decreases hir.actors@[actor].inbox@.len() - index,
{
    let inbox = hir.actors@[actor].inbox@;
    if index < inbox.len() && !input_type(hir, inbox[index as int].ty) {
        lemma_input_port(hir, actor, index + 1);
    }
}

/// Whether a type is the sum the program calls `Input`.
pub open spec fn named_input(hir: Hir, ty: Ty) -> bool {
    match ty {
        Ty::Sum(id) => hir.sums@[id.0 as int].name@ == "Input"@,
        _ => false,
    }
}

/// Input goes to the actor that draws, at the first of its ports that carries
/// the platform's own events, and nowhere if it has none.
pub proof fn input_arrives_at_the_first_port_that_takes_it(
    hir: Hir,
    modules: Seq<Result<Vec<u8>, String>>,
    plan: Plan,
    index: int,
    port: int,
)
    requires
        planned(hir, modules, plan),
        hir.valid(),
        plan.ui == Some(index as usize),
        0 <= index < plan.spawns@.len() <= u32::MAX,
        plan.spawns@[index].actor < hir.actors@.len(),
        0 <= port < hir.actors@[plan.spawns@[index].actor as int].inbox@.len(),
    ensures
        ({
            let inbox = hir.actors@[plan.spawns@[index].actor as int].inbox@;
            plan.input_port == Some(port as u32) <==> named_input(hir, inbox[port].ty) && forall|
                i: int,
            |
                0 <= i < port ==> !named_input(hir, (#[trigger] inbox[i]).ty)
        }),
{
    let run = running(hir)->Ok_0;
    let actor = plan.spawns@[index].actor as int;
    assert(spawned(hir, run, modules, index, plan.spawns@[index]));
    assert(hir.actors@[actor].known(hir));
    lemma_input_port(hir, actor, 0);
    let inbox = hir.actors@[actor].inbox@;
    if let Some(found) = plan.input_port {
        if port < found {
            assert(!input_type(hir, inbox[port].ty));
        } else if found < port {
            assert(input_type(hir, inbox[found as int].ty));
        } else {
            assert forall|i: int| 0 <= i < port implies !named_input(
                hir,
                (#[trigger] inbox[i]).ty,
            ) by {
                assert(!input_type(hir, inbox[i].ty));
            }
        }
    } else {
        assert(!input_type(hir, inbox[port].ty));
    }
}

/// Two actors that draw are refused, by name: the window shows one tree.
pub proof fn two_that_draw_are_refused(
    hir: Hir,
    modules: Seq<Result<Vec<u8>, String>>,
    a: int,
    b: int,
)
    requires
        running(hir) matches Ok(run) && 0 <= a < b < run.len() <= u32::MAX
            && hir.actors@[run[a].1 as int].draws && hir.actors@[run[b].1 as int].draws,
        forall|i: int| 0 <= i < modules.len() ==> (#[trigger] modules[i]) is Ok,
    ensures
        ({
            let run = running(hir)->Ok_0;
            obstacle(hir, modules) matches Some(Unplannable::SeveralDraw { names })
                && names.contains(run[a].0) && names.contains(run[b].0)
        }),
{
    let run = running(hir)->Ok_0;
    let drawers = drawing(hir, run, run.len());
    lemma_drawing(hir, run, run.len(), a);
    lemma_drawing(hir, run, run.len(), b);
    lemma_no_failure(modules, 0);
    let i = choose|i: int| 0 <= i < drawers.len() && drawers[i] == a as usize;
    let j = choose|j: int| 0 <= j < drawers.len() && drawers[j] == b as usize;
    assert(i != j);
    let names = Seq::new(drawers.len(), |k: int| run[drawers[k] as int].0);
    assert(names[i] == run[a].0);
    assert(names[j] == run[b].0);
}

proof fn lemma_no_failure(modules: Seq<Result<Vec<u8>, String>>, index: nat)
    requires
        forall|i: int| 0 <= i < modules.len() ==> (#[trigger] modules[i]) is Ok,
    ensures
        first_failure(modules, index) is None,
    decreases modules.len() - index,
{
    if index < modules.len() {
        lemma_no_failure(modules, index + 1);
    }
}

/// Every actor of the app is started once, in order, as what it is: by its own
/// name, from its own module, with the number of its place. Without an app a
/// lone actor is the app.
pub proof fn every_actor_is_started_as_itself(
    hir: Hir,
    modules: Seq<Result<Vec<u8>, String>>,
    plan: Plan,
    index: int,
)
    requires
        planned(hir, modules, plan),
        0 <= index < plan.spawns@.len(),
    ensures
        match hir.app {
            Some(app) => {
                &&& plan.spawns@.len() == app.instances@.len()
                &&& plan.spawns@[index].name@ == app.instances@[index].name@
                &&& plan.spawns@[index].actor == app.instances@[index].actor
            },
            None => {
                &&& plan.spawns@.len() == 1
                &&& hir.actors@.len() == 1
                &&& plan.spawns@[index].name@ == hir.actors@[0].name@
                &&& plan.spawns@[index].actor == 0
            },
        },
        plan.spawns@[index].id == index,
        modules[index] matches Ok(wasm) && plan.spawns@[index].wasm@ == wasm@,
        plan.spawns@[index].out@.len()
            == hir.actors@[plan.spawns@[index].actor as int].outbox@.len(),
{
    let run = running(hir)->Ok_0;
    assert(spawned(hir, run, modules, index, plan.spawns@[index]));
}

/// Whether a module did not compile, and why.
pub open spec fn failed_with(module: Result<Vec<u8>, String>, message: Seq<char>) -> bool {
    module matches Err(text) && text@ == message
}

/// A program without a plan has none for the reason that is given: no actors, or
/// several and nothing that says which run, or a module that did not compile.
pub proof fn a_refused_program_has_no_plan(hir: Hir, modules: Seq<Result<Vec<u8>, String>>)
    ensures
        match obstacle(hir, modules) {
            Some(Unplannable::NoActors) => hir.app is None && hir.actors@.len() == 0,
            Some(Unplannable::NoApp { count }) => hir.app is None && count == hir.actors@.len()
                && count > 1,
            Some(Unplannable::Emit { message }) => exists|i: int|
                0 <= i < modules.len() && failed_with(#[trigger] modules[i], message),
            Some(Unplannable::SeveralDraw { names }) => names.len() > 1,
            None => (hir.app is Some || hir.actors@.len() == 1) && forall|i: int|
                0 <= i < modules.len() ==> (#[trigger] modules[i]) is Ok,
        },
{
    lemma_first_failure(modules, 0);
}

proof fn lemma_first_failure(modules: Seq<Result<Vec<u8>, String>>, index: nat)
    ensures
        match first_failure(modules, index) {
            Some(message) => exists|i: int|
                index <= i < modules.len() && failed_with(#[trigger] modules[i], message),
            None => forall|i: int| index <= i < modules.len() ==> (#[trigger] modules[i]) is Ok,
        },
    decreases modules.len() - index,
{
    if index < modules.len() {
        if let Err(message) = modules[index as int] {
            assert(failed_with(modules[index as int], message@));
        } else {
            lemma_first_failure(modules, index + 1);
        }
    }
}

} // verus!
