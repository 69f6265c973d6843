//! Hot reload: what to do with a file that compiled again.
//!
//! Code may change freely; the tree may not. Every actor's mailbox, wiring and
//! frame route was installed once, before anything ran, and swapping a module
//! cannot re-run that, so an app whose wiring changed is a different app
//! wearing the same name. This says what changed, because it is the side that
//! still has both types; the runtime compares the two shapes and acts.

use vstd::prelude::*;
use vstd::string::StringExecFns;

use crate::hir::{ports_known, Hir, PortDef, Ty};
use crate::plan::{Plan, Spawn, Wiring};
use crate::shape::{
    called, difference, form, no_difference_means_the_same_shape, parted, shape, text_of, written,
};
use crate::text::{decimal, number, push_number, same_text};
use crate::words::{a_number_survives_being_written, lemma_numeral, numeric};

verus! {

/// What a file looked like: when it was last written, and how long it was. Its
/// length as well as its time, because an editor that writes twice within a
/// clock tick still changes the length.
#[derive(Clone, Copy, Debug, PartialEq, Eq, Structural)]
pub struct Stamp {
    pub modified: u128,
    pub len: u64,
}

/// Whether a file that looked like `seen` and now looks like `now` is worth
/// compiling again. A file that cannot be looked at is being written.
pub fn worth_reloading(seen: Option<Stamp>, now: Option<Stamp>) -> (r: bool)
    ensures
        r == (now is Some && now != seen),
{
    match (seen, now) {
        (_, None) => false,
        (None, Some(_)) => true,
        (Some(seen), Some(now)) => seen != now,
    }
}

/// The app as it is actually running.
#[derive(Debug)]
pub struct Baseline {
    pub hir: Hir,
    pub plan: Plan,
    pub wiring: String,
}

/// Whether every actor of a plan is one of the program's.
pub open spec fn plan_known(plan: Plan, hir: Hir) -> bool {
    forall|i: int|
        0 <= i < plan.spawns@.len() ==> (#[trigger] plan.spawns@[i]).actor < hir.actors@.len()
}

impl Baseline {
    pub open spec fn valid(self) -> bool {
        &&& self.hir.valid()
        &&& plan_known(self.plan, self.hir)
    }
}

/// The fingerprint of a type.
pub open spec fn fingerprint(hir: Hir, ty: Ty) -> Seq<char> {
    written(form(hir, ty, Seq::empty()))
}

/// The first `count` ports of one kind: what each is called and carries.
pub open spec fn ports_text(hir: Hir, kind: Seq<char>, ports: Seq<PortDef>, count: nat) -> Seq<char>
    decreases count,
{
    if count == 0 {
        Seq::empty()
    } else {
        let port = ports[count - 1];
        ports_text(hir, kind, ports, (count - 1) as nat) + (kind + " "@ + port.name@ + ":"@
            + fingerprint(hir, port.ty) + " "@)
    }
}

/// Where the first `count` out-ports lead.
pub open spec fn routes_text(out: Seq<Option<Wiring>>, count: nat) -> Seq<char>
    decreases count,
{
    if count == 0 {
        Seq::empty()
    } else {
        routes_text(out, (count - 1) as nat) + match out[count - 1] {
            Some(wiring) => "-> "@ + decimal(wiring.to as int) + "."@ + decimal(wiring.port as int)
                + " "@,
            None => "-> nowhere "@,
        }
    }
}

/// One actor of an app, except its code: what it is, what it can be told and
/// can say, and where its ports lead.
pub open spec fn spawn_text(hir: Hir, spawn: Spawn) -> Seq<char> {
    let actor = hir.actors@[spawn.actor as int];
    spawn.name@ + "="@ + actor.name@ + " "@ + ports_text(
        hir,
        "in"@,
        actor.inbox@,
        actor.inbox@.len(),
    ) + ports_text(hir, "out"@, actor.outbox@, actor.outbox@.len()) + routes_text(
        spawn.out@,
        spawn.out@.len(),
    ) + "\n"@
}

/// The first `count` actors of an app, except their code.
pub open spec fn wiring_text(hir: Hir, spawns: Seq<Spawn>, count: nat) -> Seq<char>
    decreases count,
{
    if count == 0 {
        Seq::empty()
    } else {
        wiring_text(hir, spawns, (count - 1) as nat) + spawn_text(hir, spawns[count - 1])
    }
}

fn push_ports(out: &mut String, hir: &Hir, kind: &str, ports: &Vec<PortDef>)
    requires
        hir.valid(),
        ports_known(ports@, *hir),
    ensures
        final(out)@ == old(out)@ + ports_text(*hir, kind@, ports@, ports@.len()),
{
    let ghost before = out@;
    assert(out@ =~= before + ports_text(*hir, kind@, ports@, 0));
    for i in 0..ports.len()
        invariant
            hir.valid(),
            ports_known(ports@, *hir),
            out@ == before + ports_text(*hir, kind@, ports@, i as nat),
    {
        let port = &ports[i];
        assert(ports@[i as int].ty.known(*hir));
        out.append(kind);
        out.append(" ");
        out.append(port.name.as_str());
        out.append(":");
        out.append(shape(hir, &port.ty).to_string().as_str());
        out.append(" ");
        assert(out@ =~= before + ports_text(*hir, kind@, ports@, (i + 1) as nat));
    }
}

fn push_routes(out: &mut String, routes: &Vec<Option<Wiring>>)
    ensures
        final(out)@ == old(out)@ + routes_text(routes@, routes@.len()),
{
    let ghost before = out@;
    assert(out@ =~= before + routes_text(routes@, 0));
    for i in 0..routes.len()
        invariant
            out@ == before + routes_text(routes@, i as nat),
    {
        match routes[i] {
            Some(wiring) => {
                out.append("-> ");
                push_number(out, wiring.to as u64);
                out.append(".");
                push_number(out, wiring.port as u64);
                out.append(" ");
            },
            None => {
                out.append("-> nowhere ");
            },
        }
        assert(out@ =~= before + routes_text(routes@, (i + 1) as nat));
    }
}

/// Everything about an app except the code: who runs, what each of them can be
/// told and can say, and which port meets which.
pub fn wiring(hir: &Hir, plan: &Plan) -> (r: String)
    requires
        hir.valid(),
        plan_known(*plan, *hir),
    ensures
        r@ == wiring_text(*hir, plan.spawns@, plan.spawns@.len()),
{
    let mut out = String::new();
    for i in 0..plan.spawns.len()
        invariant
            hir.valid(),
            plan_known(*plan, *hir),
            out@ == wiring_text(*hir, plan.spawns@, i as nat),
    {
        let spawn = &plan.spawns[i];
        let ghost before = out@;
        assert(plan.spawns@[i as int].actor < hir.actors@.len());
        let actor = &hir.actors[spawn.actor];
        assert(hir.actors@[spawn.actor as int].known(*hir));
        out.append(spawn.name.as_str());
        out.append("=");
        out.append(actor.name.as_str());
        out.append(" ");
        push_ports(&mut out, hir, "in", &actor.inbox);
        push_ports(&mut out, hir, "out", &actor.outbox);
        push_routes(&mut out, &spawn.out);
        out.append("\n");
        assert(out@ =~= before + spawn_text(*hir, *spawn));
    }
    out
}

/// What about an app moved, if anything did.
pub open spec fn moved(running: Baseline, hir: Hir, plan: Plan) -> Option<Seq<char>> {
    if plan.spawns@.len() != running.plan.spawns@.len() {
        Some(
            "this file now runs "@ + decimal(plan.spawns@.len() as int) + " actors where it ran "@
                + decimal(running.plan.spawns@.len() as int),
        )
    } else if plan.ui != running.plan.ui || plan.input_port != running.plan.input_port {
        Some("a different actor draws the window now"@)
    } else if wiring_text(hir, plan.spawns@, plan.spawns@.len()) != running.wiring@ {
        Some("the actors are wired differently now"@)
    } else {
        None
    }
}

/// Whether the file still describes the app that is running, and if not, what
/// about it moved.
pub fn changed_shape(running: &Baseline, hir: &Hir, plan: &Plan) -> (r: Option<String>)
    requires
        hir.valid(),
        plan_known(*plan, *hir),
    ensures
        text_of(r) == moved(*running, *hir, *plan),
{
    if plan.spawns.len() != running.plan.spawns.len() {
        let mut out = "this file now runs ".to_owned();
        out.append(number(plan.spawns.len() as u64).as_str());
        out.append(" actors where it ran ");
        out.append(number(running.plan.spawns.len() as u64).as_str());
        return Some(out);
    }
    if plan.ui != running.plan.ui || plan.input_port != running.plan.input_port {
        return Some("a different actor draws the window now".to_owned());
    }
    let next = wiring(hir, plan);
    if !same_text(next.as_str(), running.wiring.as_str()) {
        return Some("the actors are wired differently now".to_owned());
    }
    None
}

/// What becomes of the state of the actor at `index`: it is carried over where
/// the two shapes are the same, and the actor starts fresh where they are not.
pub open spec fn reload_text(running: Baseline, hir: Hir, plan: Plan, index: int) -> Seq<char> {
    let spawn = plan.spawns@[index];
    let was = running.hir.actors@[running.plan.spawns@[index].actor as int].state;
    let now = hir.actors@[spawn.actor as int].state;
    let before = form(running.hir, was, Seq::empty());
    let after = form(hir, now, Seq::empty());
    match parted(called(before), before, after) {
        None => "reload  "@ + spawn.name@ + " \u{2014} state carried ("@ + called(after) + ")"@,
        Some(change) => "reload  "@ + spawn.name@ + " \u{2014} starting fresh: "@ + change,
    }
}

fn reload_line(running: &Baseline, hir: &Hir, plan: &Plan, index: usize) -> (r: String)
    requires
        running.valid(),
        hir.valid(),
        plan_known(*plan, *hir),
        index < plan.spawns@.len() == running.plan.spawns@.len(),
    ensures
        r@ == reload_text(*running, *hir, *plan, index as int),
{
    let spawn = &plan.spawns[index];
    assert(plan.spawns@[index as int].actor < hir.actors@.len());
    assert(running.plan.spawns@[index as int].actor < running.hir.actors@.len());
    let was = &running.hir.actors[running.plan.spawns[index].actor];
    let now = &hir.actors[spawn.actor];
    assert(running.hir.actors@[running.plan.spawns@[index as int].actor as int].known(running.hir));
    assert(hir.actors@[spawn.actor as int].known(*hir));
    let before = shape(&running.hir, &was.state);
    let after = shape(hir, &now.state);
    let mut out = "reload  ".to_owned();
    out.append(spawn.name.as_str());
    match difference(&before, &after) {
        None => {
            out.append(" \u{2014} state carried (");
            out.append(after.name().as_str());
            out.append(")");
        },
        Some(change) => {
            out.append(" \u{2014} starting fresh: ");
            out.append(change.as_str());
        },
    }
    out
}

/// What a reload says: a line per actor that is swapped, or why nothing was
/// swapped and the actors keep running the code they have.
pub fn reload(running: &Baseline, hir: &Hir, plan: &Plan) -> (r: Result<Vec<String>, String>)
    requires
        running.valid(),
        hir.valid(),
        plan_known(*plan, *hir),
    ensures
        match r {
            Ok(lines) => {
                &&& moved(*running, *hir, *plan) is None
                &&& lines@.len() == plan.spawns@.len()
                &&& forall|i: int|
                    0 <= i < lines@.len() ==> (#[trigger] lines@[i])@ == reload_text(
                        *running,
                        *hir,
                        *plan,
                        i,
                    )
            },
            Err(text) => moved(*running, *hir, *plan) matches Some(reason) && text@ == "!! "@
                + reason
                + " \u{2014} that is the supervision tree itself, not the code in it, so it needs a fresh `strand view`"@,
        },
{
    if let Some(reason) = changed_shape(running, hir, plan) {
        let mut out = "!! ".to_owned();
        out.append(reason.as_str());
        out.append(
            " \u{2014} that is the supervision tree itself, not the code in it, so it needs a fresh `strand view`",
        );
        return Err(out);
    }
    let mut lines: Vec<String> = Vec::new();
    for i in 0..plan.spawns.len()
        invariant
            running.valid(),
            hir.valid(),
            plan_known(*plan, *hir),
            plan.spawns@.len() == running.plan.spawns@.len(),
            lines@.len() == i,
            forall|j: int|
                0 <= j < i ==> (#[trigger] lines@[j])@ == reload_text(*running, *hir, *plan, j),
    {
        lines.push(reload_line(running, hir, plan, i));
    }
    Ok(lines)
}

/// Saving the file again as it is is never refused: an app is the app it is.
pub proof fn an_unchanged_app_is_reloaded(running: Baseline)
    requires
        running.wiring@ == wiring_text(
            running.hir,
            running.plan.spawns@,
            running.plan.spawns@.len(),
        ),
    ensures
        moved(running, running.hir, running.plan) is None,
{
}

/// The state of an actor is carried over exactly where its shape is the same,
/// and where it is not, the actor starts fresh and the reason is given.
pub proof fn the_state_is_carried_where_the_shape_is_the_same(
    running: Baseline,
    hir: Hir,
    plan: Plan,
    index: int,
)
    ensures
        ({
            let was = running.hir.actors@[running.plan.spawns@[index].actor as int].state;
            let now = hir.actors@[plan.spawns@[index].actor as int].state;
            let before = form(running.hir, was, Seq::empty());
            let after = form(hir, now, Seq::empty());
            let name = plan.spawns@[index].name@;
            let line = reload_text(running, hir, plan, index);
            let carried = "reload  "@ + name + " \u{2014} state carried ("@ + called(after) + ")"@;
            let fresh = "reload  "@ + name + " \u{2014} starting fresh: "@;
            &&& before == after <==> line == carried
            &&& before != after ==> (parted(called(before), before, after) matches Some(change)
                && line == fresh + change)
        }),
{
    let was = running.hir.actors@[running.plan.spawns@[index].actor as int].state;
    let now = hir.actors@[plan.spawns@[index].actor as int].state;
    let before = form(running.hir, was, Seq::empty());
    let after = form(hir, now, Seq::empty());
    no_difference_means_the_same_shape(called(before), before, after);
    if let Some(change) = parted(called(before), before, after) {
        let name = plan.spawns@[index].name@;
        let carried = "reload  "@ + name + " \u{2014} state carried ("@ + called(after) + ")"@;
        let fresh = "reload  "@ + name + " \u{2014} starting fresh: "@ + change;
        reveal_strlit(" \u{2014} state carried (");
        reveal_strlit(" \u{2014} starting fresh: ");
        let at = ("reload  "@.len() + name.len() + 6) as int;
        assert(carried[at] == " \u{2014} state carried ("@[6]);
        assert(fresh[at] == " \u{2014} starting fresh: "@[6]);
        assert(" \u{2014} state carried ("@[6] == 't');
        assert(" \u{2014} starting fresh: "@[6] == 'r');
    }
}

/// An app is reloaded exactly where it is the same app: as many actors, the same
/// one drawing, the same port taking input, and everything wired as it was.
pub proof fn an_app_is_reloaded_where_it_is_the_same(running: Baseline, hir: Hir, plan: Plan)
    ensures
        moved(running, hir, plan) is None <==> {
            &&& plan.spawns@.len() == running.plan.spawns@.len()
            &&& plan.ui == running.plan.ui
            &&& plan.input_port == running.plan.input_port
            &&& wiring_text(hir, plan.spawns@, plan.spawns@.len()) == running.wiring@
        },
{
}

/// The wiring names every actor: what is said of one starts with its own name
/// and the actor it is, and comes after all that is said of those before it.
pub proof fn the_wiring_names_every_actor(hir: Hir, spawns: Seq<Spawn>, index: int)
    requires
        0 <= index < spawns.len(),
    ensures
        ({
            let all = wiring_text(hir, spawns, spawns.len());
            let before = wiring_text(hir, spawns, index as nat);
            let spawn = spawns[index];
            let actor = hir.actors@[spawn.actor as int];
            let here = before + spawn.name@ + "="@ + actor.name@ + " "@;
            here.len() <= all.len() && all.take(here.len() as int) == here
        }),
{
    lemma_wiring_start(hir, spawns, (index + 1) as nat, spawns.len());
    let all = wiring_text(hir, spawns, spawns.len());
    let with = wiring_text(hir, spawns, (index + 1) as nat);
    let before = wiring_text(hir, spawns, index as nat);
    let spawn = spawns[index];
    let actor = hir.actors@[spawn.actor as int];
    let here = before + spawn.name@ + "="@ + actor.name@ + " "@;
    assert(with.take(here.len() as int) =~= here);
    assert(all.take(here.len() as int) =~= with.take(here.len() as int));
}

proof fn lemma_wiring_start(hir: Hir, spawns: Seq<Spawn>, less: nat, more: nat)
    requires
        less <= more,
    ensures
        ({
            let (a, b) = (wiring_text(hir, spawns, less), wiring_text(hir, spawns, more));
            a.len() <= b.len() && b.take(a.len() as int) == a
        }),
    decreases more,
{
    let (a, b) = (wiring_text(hir, spawns, less), wiring_text(hir, spawns, more));
    if less < more {
        lemma_wiring_start(hir, spawns, less, (more - 1) as nat);
        let c = wiring_text(hir, spawns, (more - 1) as nat);
        assert(b.take(a.len() as int) =~= c.take(a.len() as int));
    } else {
        assert(b.take(b.len() as int) =~= b);
    }
}

/// A port that leads elsewhere is wired differently: where two routing tables
/// are written alike, port by port, they lead to the same places.
pub proof fn a_route_is_told_by_where_it_leads(a: Seq<Option<Wiring>>, b: Seq<Option<Wiring>>)
    requires
        a.len() == b.len(),
        forall|count: nat|
            count <= a.len() ==> #[trigger] routes_text(a, count) == routes_text(b, count),
    ensures
        a == b,
{
    assert forall|i: int| 0 <= i < a.len() implies a[i] == b[i] by {
        let before = routes_text(a, i as nat);
        let next = (i + 1) as nat;
        assert(routes_text(a, next) == routes_text(b, next));
        assert(before == routes_text(b, i as nat));
        let x = match a[i] {
            Some(wiring) => "-> "@ + decimal(wiring.to as int) + "."@ + decimal(wiring.port as int)
                + " "@,
            None => "-> nowhere "@,
        };
        let y = match b[i] {
            Some(wiring) => "-> "@ + decimal(wiring.to as int) + "."@ + decimal(wiring.port as int)
                + " "@,
            None => "-> nowhere "@,
        };
        assert(routes_text(a, next) == before + x);
        assert(routes_text(b, next) == before + y);
        assert((before + x).skip(before.len() as int) =~= x);
        assert((before + y).skip(before.len() as int) =~= y);
        lemma_route(a[i], b[i]);
    }
    assert(a =~= b);
}

/// One route is written as one text.
proof fn lemma_route(a: Option<Wiring>, b: Option<Wiring>)
    requires
        (match a {
            Some(wiring) => "-> "@ + decimal(wiring.to as int) + "."@ + decimal(wiring.port as int)
                + " "@,
            None => "-> nowhere "@,
        }) == (match b {
            Some(wiring) => "-> "@ + decimal(wiring.to as int) + "."@ + decimal(wiring.port as int)
                + " "@,
            None => "-> nowhere "@,
        }),
    ensures
        a == b,
{
    reveal_strlit("-> ");
    reveal_strlit(".");
    reveal_strlit(" ");
    reveal_strlit("-> nowhere ");
    assert("-> nowhere "@[3] == 'n');
    match (a, b) {
        (Some(v), Some(w)) => {
            lemma_numeral(v.to as nat);
            lemma_numeral(v.port as nat);
            lemma_numeral(w.to as nat);
            lemma_numeral(w.port as nat);
            let (p, q) = (decimal(v.to as int), decimal(v.port as int));
            let (r, s) = (decimal(w.to as int), decimal(w.port as int));
            let x = "-> "@ + p + "."@ + q + " "@;
            let y = "-> "@ + r + "."@ + s + " "@;
            assert(x == y);
            assert(x[3 + p.len() as int] == '.');
            assert(y[3 + r.len() as int] == '.');
            if p.len() < r.len() {
                assert(y[3 + p.len() as int] == r[p.len() as int]);
                assert(numeric(r[p.len() as int]));
                assert(false);
            }
            if r.len() < p.len() {
                assert(x[3 + r.len() as int] == p[r.len() as int]);
                assert(numeric(p[r.len() as int]));
                assert(false);
            }
            assert forall|i: int| 0 <= i < p.len() implies p[i] == r[i] by {
                assert(x[3 + i] == p[i] && y[3 + i] == r[i]);
            }
            assert(p =~= r);
            assert(q.len() == s.len());
            assert forall|i: int| 0 <= i < q.len() implies q[i] == s[i] by {
                assert(x[4 + p.len() + i] == q[i] && y[4 + p.len() + i] == s[i]);
            }
            assert(q =~= s);
            a_number_survives_being_written(v.to as i64);
            a_number_survives_being_written(w.to as i64);
            a_number_survives_being_written(v.port as i64);
            a_number_survives_being_written(w.port as i64);
        },
        (Some(v), None) => {
            lemma_numeral(v.to as nat);
            let p = decimal(v.to as int);
            let x = "-> "@ + p + "."@ + decimal(v.port as int) + " "@;
            assert(x[3] == p[0]);
            assert(numeric(p[0]));
        },
        (None, Some(w)) => {
            lemma_numeral(w.to as nat);
            let r = decimal(w.to as int);
            let y = "-> "@ + r + "."@ + decimal(w.port as int) + " "@;
            assert(y[3] == r[0]);
            assert(numeric(r[0]));
        },
        (None, None) => {},
    }
}

} // verus!
