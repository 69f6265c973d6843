//! The checked program, as far as the host reads it.
//!
//! The compiler hands over types, declarations and the actors that run. What
//! is kept here is what a host decision depends on: which fields a record has
//! and in which order, which variants a sum has, which ports an actor listens
//! on. Everything else the compiler knows stays with the compiler.

use vstd::prelude::*;

verus! {

/// Index of a record declaration in [`Hir::records`].
#[derive(Clone, Copy, Debug, PartialEq, Eq, Structural)]
pub struct RecordId(pub u32);

/// Index of a sum declaration in [`Hir::sums`].
#[derive(Clone, Copy, Debug, PartialEq, Eq, Structural)]
pub struct SumId(pub u32);

/// The type of a Strand value.
#[derive(Debug)]
pub enum Ty {
    Unit,
    Int,
    Float,
    Bool,
    Str,
    /// A drawn node. It lives in the frame array, never in a value.
    Node,
    List(Box<Ty>),
    Option(Box<Ty>),
    Result(Box<Ty>, Box<Ty>),
    Record(RecordId),
    Sum(SumId),
    /// The type of an expression that does not return.
    Never,
    /// The type of an expression the type checker rejected.
    Error,
}

/// A record: a name and its fields, in source order.
#[derive(Debug)]
pub struct RecordDef {
    pub name: String,
    pub fields: Vec<(String, Ty)>,
}

/// One case of a sum.
#[derive(Debug)]
pub struct VariantDef {
    pub name: String,
    pub fields: Vec<(String, Ty)>,
}

/// A sum: a name and its cases. A case's position is its tag.
#[derive(Debug)]
pub struct SumDef {
    pub name: String,
    pub variants: Vec<VariantDef>,
}

/// A function the program defines.
#[derive(Debug)]
pub struct FuncDef {
    pub name: String,
    pub param_count: usize,
    pub ret: Ty,
    /// Whether it is a `view fn`.
    pub is_view: bool,
}

/// One end of a channel.
#[derive(Debug)]
pub struct PortDef {
    pub name: String,
    pub ty: Ty,
}

/// An actor: its state, whether it draws, and the ports it has.
#[derive(Debug)]
pub struct ActorDef {
    pub name: String,
    pub state: Ty,
    /// What the actor receives, where it declares no ports.
    pub message: Ty,
    /// Whether the actor has a `view` block.
    pub draws: bool,
    pub inbox: Vec<PortDef>,
    pub outbox: Vec<PortDef>,
}

/// One actor the `app` block starts.
#[derive(Debug)]
pub struct Instance {
    pub name: String,
    /// Index into [`Hir::actors`].
    pub actor: usize,
}

/// A connection from one instance's out-port to another's in-port.
#[derive(Clone, Copy, Debug, PartialEq, Eq, Structural)]
pub struct Wire {
    pub from: usize,
    pub from_port: usize,
    pub to: usize,
    pub to_port: usize,
}

/// The `app` block.
#[derive(Debug)]
pub struct AppDef {
    pub instances: Vec<Instance>,
    pub wires: Vec<Wire>,
}

/// A checked program.
#[derive(Debug)]
pub struct Hir {
    pub records: Vec<RecordDef>,
    pub sums: Vec<SumDef>,
    pub funcs: Vec<FuncDef>,
    pub actors: Vec<ActorDef>,
    pub app: Option<AppDef>,
}

impl Ty {
    /// The same type again.
    pub fn copied(&self) -> (r: Ty)
        ensures
            r == *self,
        decreases self,
    {
        match self {
            Ty::Unit => Ty::Unit,
            Ty::Int => Ty::Int,
            Ty::Float => Ty::Float,
            Ty::Bool => Ty::Bool,
            Ty::Str => Ty::Str,
            Ty::Node => Ty::Node,
            Ty::List(inner) => Ty::List(Box::new(inner.copied())),
            Ty::Option(inner) => Ty::Option(Box::new(inner.copied())),
            Ty::Result(ok, err) => Ty::Result(Box::new(ok.copied()), Box::new(err.copied())),
            Ty::Record(id) => Ty::Record(*id),
            Ty::Sum(id) => Ty::Sum(*id),
            Ty::Never => Ty::Never,
            Ty::Error => Ty::Error,
        }
    }

    /// Whether every declaration the type names exists in `hir`.
    pub open spec fn known(self, hir: Hir) -> bool
        decreases self,
    {
        match self {
            Ty::List(inner) => inner.known(hir),
            Ty::Option(inner) => inner.known(hir),
            Ty::Result(ok, err) => ok.known(hir) && err.known(hir),
            Ty::Record(id) => id.0 < hir.records@.len(),
            Ty::Sum(id) => id.0 < hir.sums@.len(),
            _ => true,
        }
    }

    /// Whether every declaration the type names exists in `hir`.
    pub fn is_known(&self, hir: &Hir) -> (r: bool)
        ensures
            r == self.known(*hir),
        decreases self,
    {
        match self {
            Ty::List(inner) => inner.is_known(hir),
            Ty::Option(inner) => inner.is_known(hir),
            Ty::Result(ok, err) => ok.is_known(hir) && err.is_known(hir),
            Ty::Record(id) => (id.0 as usize) < hir.records.len(),
            Ty::Sum(id) => (id.0 as usize) < hir.sums.len(),
            _ => true,
        }
    }
}

/// Whether every field's type is known, and the fields can be numbered in
/// 32 bits.
pub open spec fn fields_known(fields: Seq<(String, Ty)>, hir: Hir) -> bool {
    &&& fields.len() < 0x1_0000_0000
    &&& forall|i: int| 0 <= i < fields.len() ==> (#[trigger] fields[i]).1.known(hir)
}

fn are_fields_known(fields: &Vec<(String, Ty)>, hir: &Hir) -> (r: bool)
    ensures
        r == fields_known(fields@, *hir),
{
    if fields.len() as u64 >= 0x1_0000_0000 {
        return false;
    }
    for i in 0..fields.len()
        invariant
            fields@.len() < 0x1_0000_0000,
            forall|k: int| 0 <= k < i ==> (#[trigger] fields@[k]).1.known(*hir),
    {
        if !fields[i].1.is_known(hir) {
            return false;
        }
    }
    true
}

impl SumDef {
    /// Whether every variant's fields are known, and the variants can be
    /// numbered in 31 bits: a tag travels as a non-negative `i32`.
    pub open spec fn known(self, hir: Hir) -> bool {
        &&& self.variants@.len() < 0x8000_0000
        &&& forall|i: int|
            0 <= i < self.variants@.len() ==> fields_known(
                (#[trigger] self.variants@[i]).fields@,
                hir,
            )
    }
}

fn is_sum_known(def: &SumDef, hir: &Hir) -> (r: bool)
    ensures
        r == def.known(*hir),
{
    if def.variants.len() >= 0x8000_0000 {
        return false;
    }
    for i in 0..def.variants.len()
        invariant
            def.variants@.len() < 0x8000_0000,
            forall|k: int|
                0 <= k < i ==> fields_known((#[trigger] def.variants@[k]).fields@, *hir),
    {
        if !are_fields_known(&def.variants[i].fields, hir) {
            return false;
        }
    }
    true
}

/// Whether every port's type is known.
pub open spec fn ports_known(ports: Seq<PortDef>, hir: Hir) -> bool {
    forall|i: int| 0 <= i < ports.len() ==> (#[trigger] ports[i]).ty.known(hir)
}

fn are_ports_known(ports: &Vec<PortDef>, hir: &Hir) -> (r: bool)
    ensures
        r == ports_known(ports@, *hir),
{
    for i in 0..ports.len()
        invariant
            forall|k: int| 0 <= k < i ==> (#[trigger] ports@[k]).ty.known(*hir),
    {
        if !ports[i].ty.is_known(hir) {
            return false;
        }
    }
    true
}

impl ActorDef {
    /// Whether everything the actor holds or receives is of a known type.
    pub open spec fn known(self, hir: Hir) -> bool {
        &&& self.state.known(hir)
        &&& self.message.known(hir)
        &&& self.inbox@.len() <= u32::MAX
        &&& ports_known(self.inbox@, hir)
        &&& ports_known(self.outbox@, hir)
    }
}

fn is_actor_known(actor: &ActorDef, hir: &Hir) -> (r: bool)
    ensures
        r == actor.known(*hir),
{
    actor.state.is_known(hir) && actor.message.is_known(hir) && actor.inbox.len() as u64
        <= 0xffff_ffff && are_ports_known(&actor.inbox, hir) && are_ports_known(&actor.outbox, hir)
}

impl AppDef {
    /// Whether every instance is of an actor that exists, and every wire joins
    /// ports that do.
    pub open spec fn known(self, hir: Hir) -> bool {
        &&& self.instances@.len() <= u32::MAX
        &&& forall|i: int|
            0 <= i < self.instances@.len() ==> (#[trigger] self.instances@[i]).actor
                < hir.actors@.len()
        &&& forall|i: int|
            0 <= i < self.wires@.len() ==> {
                let wire = #[trigger] self.wires@[i];
                &&& wire.from < self.instances@.len()
                &&& wire.from_port < hir.actors@[self.instances@[wire.from as int].actor as int].outbox@.len()
                &&& wire.to < self.instances@.len()
                &&& wire.to_port <= u32::MAX
            }
    }
}

fn is_app_known(app: &AppDef, hir: &Hir) -> (r: bool)
    ensures
        r == app.known(*hir),
{
    if app.instances.len() as u64 > 0xffff_ffff {
        return false;
    }
    for i in 0..app.instances.len()
        invariant
            app.instances@.len() <= u32::MAX,
            forall|k: int|
                0 <= k < i ==> (#[trigger] app.instances@[k]).actor < hir.actors@.len(),
    {
        if app.instances[i].actor >= hir.actors.len() {
            return false;
        }
    }
    for i in 0..app.wires.len()
        invariant
            app.instances@.len() <= u32::MAX,
            forall|k: int|
                0 <= k < app.instances@.len() ==> (#[trigger] app.instances@[k]).actor
                    < hir.actors@.len(),
            forall|k: int|
                0 <= k < i ==> {
                    let wire = #[trigger] app.wires@[k];
                    &&& wire.from < app.instances@.len()
                    &&& wire.from_port
                        < hir.actors@[app.instances@[wire.from as int].actor as int].outbox@.len()
                    &&& wire.to < app.instances@.len()
                    &&& wire.to_port <= u32::MAX
                },
    {
        let wire = app.wires[i];
        if wire.from >= app.instances.len() || wire.to >= app.instances.len()
            || wire.to_port as u64 > 0xffff_ffff {
            return false;
        }
        if wire.from_port >= hir.actors[app.instances[wire.from].actor].outbox.len() {
            return false;
        }
    }
    true
}

impl Hir {
    /// The actor of a program that declares exactly one.
    pub fn lone_actor(&self) -> (r: Option<&ActorDef>)
        ensures
            match r {
                Some(actor) => self.actors@.len() == 1 && *actor == self.actors@[0],
                None => self.actors@.len() != 1,
            },
    {
        if self.actors.len() == 1 {
            Some(&self.actors[0])
        } else {
            None
        }
    }

    /// Whether every declaration only names declarations that exist.
    pub open spec fn valid(self) -> bool {
        &&& forall|i: int|
            0 <= i < self.records@.len() ==> fields_known(
                (#[trigger] self.records@[i]).fields@,
                self,
            )
        &&& forall|i: int| 0 <= i < self.sums@.len() ==> (#[trigger] self.sums@[i]).known(self)
        &&& forall|i: int| 0 <= i < self.actors@.len() ==> (#[trigger] self.actors@[i]).known(self)
        &&& self.app matches Some(app) ==> app.known(self)
    }

    /// Whether every declaration only names declarations that exist.
    pub fn is_valid(&self) -> (r: bool)
        ensures
            r == self.valid(),
    {
        for i in 0..self.records.len()
            invariant
                forall|k: int|
                    0 <= k < i ==> fields_known((#[trigger] self.records@[k]).fields@, *self),
        {
            if !are_fields_known(&self.records[i].fields, self) {
                return false;
            }
        }
        for i in 0..self.sums.len()
            invariant
                forall|k: int| 0 <= k < i ==> (#[trigger] self.sums@[k]).known(*self),
        {
            if !is_sum_known(&self.sums[i], self) {
                return false;
            }
        }
        for i in 0..self.actors.len()
            invariant
                forall|k: int| 0 <= k < i ==> (#[trigger] self.actors@[k]).known(*self),
        {
            if !is_actor_known(&self.actors[i], self) {
                return false;
            }
        }
        match &self.app {
            Some(app) => is_app_known(app, self),
            None => true,
        }
    }
}

} // verus!
