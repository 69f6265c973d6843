//! Finding the directory the demos read their fixtures from.

use vstd::prelude::*;
use vstd::string::StringExecFns;

use crate::text::{join, joined, texts};

verus! {

/// A directory that was looked at, and which of the fixture directories it
/// has.
#[derive(Debug)]
pub struct Candidate {
    pub path: String,
    pub wasm: bool,
    pub strand: bool,
}

impl Candidate {
    pub open spec fn qualifies(self) -> bool {
        self.wasm && self.strand
    }

    /// Whether this is *the* examples directory rather than one that happens
    /// to share the name.
    pub fn holds_fixtures(&self) -> (r: bool)
        ensures
            r == self.qualifies(),
    {
        self.wasm && self.strand
    }
}

/// The first of the directories from `index` on that qualifies.
pub open spec fn first_from(candidates: Seq<Candidate>, index: nat) -> Option<nat>
    decreases candidates.len() - index,
{
    if index >= candidates.len() {
        None
    } else if candidates[index as int].qualifies() {
        Some(index)
    } else {
        first_from(candidates, index + 1)
    }
}

/// The first six of the directories that were looked at, a line each.
pub open spec fn looked_in(candidates: Seq<Candidate>) -> Seq<Seq<char>> {
    Seq::new(
        if candidates.len() < 6 {
            candidates.len()
        } else {
            6
        },
        |i: int| "  "@ + candidates[i].path@,
    )
}

/// The `examples` directory among those that were looked at, in the order they
/// were looked at, or where it was looked for.
pub fn dir(candidates: &Vec<Candidate>) -> (r: Result<usize, String>)
    ensures
        match (r, first_from(candidates@, 0)) {
            (Ok(found), Some(index)) => found == index,
            (Err(text), None) => text@
                == "could not find the `examples` directory, which the demos read their fixtures from. Looked in:\n"@
                + joined(looked_in(candidates@), "\n"@),
            _ => false,
        },
{
    for i in 0..candidates.len()
        invariant
            first_from(candidates@, 0) == first_from(candidates@, i as nat),
    {
        if candidates[i].holds_fixtures() {
            return Ok(i);
        }
    }
    let count: usize = if candidates.len() < 6 {
        candidates.len()
    } else {
        6
    };
    let mut lines: Vec<String> = Vec::new();
    for i in 0..count
        invariant
            count == looked_in(candidates@).len(),
            count <= candidates@.len(),
            texts(lines@) == looked_in(candidates@).take(i as int),
    {
        let ghost before = texts(lines@);
        let mut line = "  ".to_owned();
        line.append(candidates[i].path.as_str());
        lines.push(line);
        assert(texts(lines@) =~= before.push(line@));
        assert(texts(lines@) =~= looked_in(candidates@).take(i + 1));
    }
    assert(texts(lines@) =~= looked_in(candidates@));
    let mut out =
        "could not find the `examples` directory, which the demos read their fixtures from. Looked in:\n".to_owned();
    out.append(join(&lines, "\n").as_str());
    Err(out)
}

/// The directory that is found has both kinds of fixtures, and none before it
/// has.
pub proof fn the_first_with_both_is_found(candidates: Seq<Candidate>, index: nat)
    ensures
        match first_from(candidates, index) {
            Some(found) => {
                &&& index <= found < candidates.len()
                &&& candidates[found as int].wasm && candidates[found as int].strand
                &&& forall|i: int|
                    index <= i < found ==> !((#[trigger] candidates[i]).wasm
                        && candidates[i].strand)
            },
            None => forall|i: int|
                index <= i < candidates.len() ==> !((#[trigger] candidates[i]).wasm
                    && candidates[i].strand),
        },
    decreases candidates.len() - index,
{
    if index < candidates.len() && !candidates[index as int].qualifies() {
        the_first_with_both_is_found(candidates, index + 1);
    }
}

} // verus!
