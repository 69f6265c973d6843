//! The actor runtime's decisions: who a message goes to, what an actor does
//! with one, and which bytes a guest may name.

use std::collections::HashMap;

use vstd::prelude::*;
use vstd::slice::slice_subrange;
use vstd::string::StringExecFns;

use crate::bytes::to_pattern64;
use crate::inspect::ActorStat;
use crate::text::{decimal, push_number, signed_number};

verus! {

broadcast use vstd::std_specs::hash::group_hash_axioms;

/// The typed message set.
#[derive(Debug, Clone)]
pub enum Message {
    /// A payload produced by guest code, tagged with its sender.
    Blob { from: u32, bytes: Vec<u8> },
    /// Asks the actor to shut down cleanly after draining.
    Stop,
}

/// What an actor does with a message.
#[derive(Debug)]
pub enum Handling {
    /// Stop taking messages.
    Stop,
    /// Nothing: the actor has no handler.
    Skip,
    /// Copy the bytes into the guest and call its handler.
    Deliver { from: u32, bytes: Vec<u8> },
}

/// What an actor does with a message. Only a module that exports a handler is
/// called; stopping needs none.
pub fn handle(message: Message, listens: bool) -> (r: Handling)
    ensures
        match message {
            Message::Stop => r is Stop,
            Message::Blob { from, bytes } => if listens {
                r == (Handling::Deliver { from, bytes })
            } else {
                r is Skip
            },
        },
{
    match message {
        Message::Stop => Handling::Stop,
        Message::Blob { from, bytes } => if listens {
            Handling::Deliver { from, bytes }
        } else {
            Handling::Skip
        },
    }
}

/// Why a message did not arrive.
#[derive(Debug, Clone, Copy, PartialEq, Eq, Structural)]
pub enum SendError {
    /// No actor has this id.
    NoActor { to: u32 },
    /// The actor has stopped taking messages.
    Closed { to: u32 },
}

impl SendError {
    /// The error in words.
    pub open spec fn words(self) -> Seq<char> {
        match self {
            SendError::NoActor { to } => "no actor "@ + decimal(to as int),
            SendError::Closed { to } => "actor "@ + decimal(to as int) + " mailbox closed"@,
        }
    }

    /// The error in words.
    pub fn message(&self) -> (r: String)
        ensures
            r@ == self.words(),
    {
        match *self {
            SendError::NoActor { to } => {
                let mut out = "no actor ".to_owned();
                push_number(&mut out, to as u64);
                out
            },
            SendError::Closed { to } => {
                let mut out = "actor ".to_owned();
                push_number(&mut out, to as u64);
                out.append(" mailbox closed");
                out
            },
        }
    }
}

/// The address book: a way to send to each actor, by id. Actors hold senders,
/// never each other's memory.
pub struct Registry<S> {
    senders: HashMap<u32, S>,
}

impl<S> View for Registry<S> {
    type V = Map<u32, S>;

    closed spec fn view(&self) -> Map<u32, S> {
        self.senders@
    }
}

impl<S> Registry<S> {
    /// An address book with nobody in it.
    pub fn new() -> (r: Self)
        ensures
            r@ == Map::<u32, S>::empty(),
    {
        Registry { senders: HashMap::new() }
    }

    /// Enters an actor. One that is entered again is reached by its new sender.
    pub fn register(&mut self, id: u32, sender: S)
        ensures
            final(self)@ == old(self)@.insert(id, sender),
    {
        self.senders.insert(id, sender);
    }

    /// How to send to an actor.
    pub fn find(&self, to: u32) -> (r: Result<&S, SendError>)
        ensures
            match r {
                Ok(sender) => self@.contains_key(to) && *sender == self@[to],
                Err(e) => !self@.contains_key(to) && e == (SendError::NoActor { to }),
            },
    {
        match self.senders.get(&to) {
            Some(sender) => Ok(sender),
            None => Err(SendError::NoActor { to }),
        }
    }
}

/// A pointer and a length a guest gave that are not inside its memory.
#[derive(Debug, Clone, Copy, PartialEq, Eq, Structural)]
pub struct OutOfBounds {
    pub ptr: i32,
    pub len: i32,
}

/// A guest's number, as the machine widens it to a size.
pub open spec fn sized(value: i32) -> nat {
    if value >= 0 {
        value as nat
    } else {
        (value + 0x1_0000_0000_0000_0000) as nat
    }
}

impl OutOfBounds {
    /// The error in words.
    pub open spec fn words(self) -> Seq<char> {
        "guest pointer "@ + decimal(self.ptr as int) + "+"@ + decimal(sized(self.len) as int)
            + " out of bounds"@
    }

    /// The error in words.
    pub fn message(&self) -> (r: String)
        ensures
            r@ == self.words(),
    {
        let mut out = "guest pointer ".to_owned();
        out.append(signed_number(self.ptr as i64).as_str());
        out.append("+");
        let len: u64 = if self.len >= 0 {
            self.len as u64
        } else {
            to_pattern64(self.len as i64)
        };
        push_number(&mut out, len);
        out.append(" out of bounds");
        out
    }
}

/// Reads a pointer and a length out of a guest's linear memory. A negative
/// number is an address, or a length, that no memory has.
pub fn read_guest_bytes(memory: &[u8], ptr: i32, len: i32) -> (r: Result<Vec<u8>, OutOfBounds>)
    ensures
        match r {
            Ok(bytes) => {
                &&& 0 <= ptr
                &&& 0 <= len
                &&& ptr + len <= memory@.len()
                &&& bytes@ == memory@.subrange(ptr as int, ptr + len)
            },
            Err(e) => {
                &&& ptr < 0 || len < 0 || ptr + len > memory@.len()
                &&& e == (OutOfBounds { ptr, len })
            },
        },
{
    if ptr < 0 || len < 0 {
        return Err(OutOfBounds { ptr, len });
    }
    let end: u64 = ptr as u64 + len as u64;
    if end > memory.len() as u64 {
        return Err(OutOfBounds { ptr, len });
    }
    let part = slice_subrange(memory, ptr as usize, end as usize);
    let mut bytes: Vec<u8> = Vec::new();
    for i in 0..part.len()
        invariant
            bytes@ == part@.take(i as int),
    {
        bytes.push(part[i]);
        assert(bytes@ =~= part@.take(i + 1));
    }
    assert(bytes@ =~= part@);
    Ok(bytes)
}

/// How a simulated run should behave.
#[derive(Debug, Clone, Copy, PartialEq, Eq, Structural)]
pub struct SimOptions {
    /// Names the interleaving. The same seed replays the same run.
    pub seed: u64,
    /// Perturbs message handling to explore a different ordering.
    pub chaos: bool,
}

impl SimOptions {
    /// A plain, unperturbed run.
    pub fn new(seed: u64) -> (r: Self)
        ensures
            r == (SimOptions { seed, chaos: false }),
    {
        SimOptions { seed, chaos: false }
    }

    pub fn chaotic(seed: u64) -> (r: Self)
        ensures
            r == (SimOptions { seed, chaos: true }),
    {
        SimOptions { seed, chaos: true }
    }
}

impl Default for SimOptions {
    fn default() -> (r: Self)
        ensures
            r == (SimOptions { seed: 0, chaos: false }),
    {
        SimOptions::new(0)
    }
}

/// What the runtime measures of one actor.
#[derive(Debug)]
pub struct ActorStats {
    pub id: u32,
    pub name: String,
    pub arena_bytes: u64,
    pub mailbox: usize,
    pub fibers: u32,
    pub handled: u64,
    pub generation: u32,
    pub alive: bool,
}

/// A measurement, as a row of the overlay.
pub fn to_row(stats: ActorStats) -> (r: ActorStat)
    ensures
        r == (ActorStat {
            name: stats.name,
            arena_bytes: stats.arena_bytes,
            mailbox: stats.mailbox,
            fibers: stats.fibers,
            handled: stats.handled,
            generation: stats.generation,
            alive: stats.alive,
        }),
{
    ActorStat {
        name: stats.name,
        arena_bytes: stats.arena_bytes,
        mailbox: stats.mailbox,
        fibers: stats.fibers,
        handled: stats.handled,
        generation: stats.generation,
        alive: stats.alive,
    }
}

} // verus!
