//! The files an editor has open.
//!
//! A program is a single file, so there is nothing to invalidate across
//! documents, and what is kept is each file's whole text.

use vstd::prelude::*;

use crate::text::same_text;

verus! {

/// An open file.
#[derive(Debug)]
struct Open {
    uri: String,
    text: String,
}

/// The files an editor has open, by name. No two have one name.
#[derive(Debug)]
pub struct Documents {
    files: Vec<Open>,
}

/// The text of the first of the files from `index` on with this name.
spec fn found(files: Seq<Open>, uri: Seq<char>, index: nat) -> Option<Seq<char>>
    decreases files.len() - index,
{
    if index >= files.len() {
        None
    } else if files[index as int].uri@ == uri {
        Some(files[index as int].text@)
    } else {
        found(files, uri, index + 1)
    }
}

spec fn distinct(files: Seq<Open>) -> bool {
    forall|i: int, j: int|
        #![trigger files[i], files[j]]
        0 <= i < j < files.len() ==> files[i].uri@ != files[j].uri@
}

proof fn lemma_found(files: Seq<Open>, uri: Seq<char>, index: nat, at: int)
    requires
        distinct(files),
        index <= at < files.len(),
        files[at].uri@ == uri,
    ensures
        found(files, uri, index) == Some(files[at].text@),
    decreases files.len() - index,
{
    if index < at {
        assert(files[index as int].uri@ != files[at].uri@);
        lemma_found(files, uri, index + 1, at);
    }
}

proof fn lemma_missing(files: Seq<Open>, uri: Seq<char>, index: nat)
    requires
        forall|i: int| index <= i < files.len() ==> (#[trigger] files[i]).uri@ != uri,
    ensures
        found(files, uri, index) is None,
    decreases files.len() - index,
{
    if index < files.len() {
        lemma_missing(files, uri, index + 1);
    }
}

impl View for Documents {
    type V = Map<Seq<char>, Seq<char>>;

    closed spec fn view(&self) -> Map<Seq<char>, Seq<char>> {
        Map::new(
            |uri: Seq<char>| found(self.files@, uri, 0) is Some,
            |uri: Seq<char>| found(self.files@, uri, 0)->Some_0,
        )
    }
}

impl Documents {
    /// Whether no two files have one name.
    pub closed spec fn valid(self) -> bool {
        distinct(self.files@)
    }

    /// No file is open.
    pub fn new() -> (r: Self)
        ensures
            r.valid(),
            r@ == Map::<Seq<char>, Seq<char>>::empty(),
    {
        let r = Documents { files: Vec::new() };
        assert(r@ =~= Map::<Seq<char>, Seq<char>>::empty());
        r
    }

    fn index_of(&self, uri: &str) -> (r: Option<usize>)
        ensures
            match r {
                Some(i) => i < self.files@.len() && self.files@[i as int].uri@ == uri@,
                None => forall|i: int|
                    0 <= i < self.files@.len() ==> (#[trigger] self.files@[i]).uri@ != uri@,
            },
    {
        for i in 0..self.files.len()
            invariant
                forall|j: int| 0 <= j < i ==> (#[trigger] self.files@[j]).uri@ != uri@,
        {
            if same_text(self.files[i].uri.as_str(), uri) {
                return Some(i);
            }
        }
        None
    }

    /// The text of a file, if it is open.
    pub fn text(&self, uri: &str) -> (r: Option<String>)
        requires
            self.valid(),
        ensures
            match r {
                Some(text) => self@.contains_key(uri@) && text@ == self@[uri@],
                None => !self@.contains_key(uri@),
            },
    {
        match self.index_of(uri) {
            Some(i) => {
                proof {
                    lemma_found(self.files@, uri@, 0, i as int);
                }
                Some(self.files[i].text.clone())
            },
            None => {
                proof {
                    lemma_missing(self.files@, uri@, 0);
                }
                None
            },
        }
    }

    /// A file was opened, or its text replaced.
    pub fn put(&mut self, uri: &str, text: &str)
        requires
            old(self).valid(),
        ensures
            final(self).valid(),
            final(self)@ == old(self)@.insert(uri@, text@),
    {
        let ghost before = self.files@;
        let slot = self.index_of(uri);
        match slot {
            Some(i) => {
                let made = Open { uri: uri.to_owned(), text: text.to_owned() };
                let ghost now = before.update(i as int, made);
                proof {
                    assert(distinct(now)) by {
                        assert forall|a: int, b: int|
                            #![trigger now[a], now[b]]
                            0 <= a < b < now.len() implies now[a].uri@ != now[b].uri@ by {
                            assert(before[a].uri@ != before[b].uri@);
                        }
                    }
                    lemma_put(before, now, i as int, uri@, text@);
                }
                self.files[i] = made;
            },
            None => {
                let made = Open { uri: uri.to_owned(), text: text.to_owned() };
                let ghost now = before.push(made);
                proof {
                    assert(distinct(now)) by {
                        assert forall|a: int, b: int|
                            #![trigger now[a], now[b]]
                            0 <= a < b < now.len() implies now[a].uri@ != now[b].uri@ by {
                            if b < before.len() {
                                assert(before[a].uri@ != before[b].uri@);
                            } else {
                                assert(before[a].uri@ != uri@);
                            }
                        }
                    }
                    lemma_put(before, now, before.len() as int, uri@, text@);
                }
                self.files.push(made);
            },
        }
        assert(self@ =~= old(self)@.insert(uri@, text@));
    }

    /// An editor changed a file. The last change carries the entire text, and
    /// is what the file is checked as; no change is no change.
    pub fn change(&mut self, uri: &str, changes: &Vec<String>) -> (r: Option<String>)
        requires
            old(self).valid(),
        ensures
            final(self).valid(),
            if changes@.len() == 0 {
                r is None && final(self)@ == old(self)@
            } else {
                &&& r matches Some(text) && text@ == changes@.last()@
                &&& final(self)@ == old(self)@.insert(uri@, changes@.last()@)
            },
    {
        if changes.len() == 0 {
            return None;
        }
        let last = changes[changes.len() - 1].clone();
        self.put(uri, last.as_str());
        Some(last)
    }

    /// A file was closed.
    pub fn close(&mut self, uri: &str)
        requires
            old(self).valid(),
        ensures
            final(self).valid(),
            final(self)@ == old(self)@.remove(uri@),
    {
        let ghost before = self.files@;
        match self.index_of(uri) {
            Some(i) => {
                let ghost now = before.remove(i as int);
                proof {
                    assert(distinct(now)) by {
                        assert forall|a: int, b: int|
                            #![trigger now[a], now[b]]
                            0 <= a < b < now.len() implies now[a].uri@ != now[b].uri@ by {
                            let x = if a < i {
                                a
                            } else {
                                a + 1
                            };
                            let y = if b < i {
                                b
                            } else {
                                b + 1
                            };
                            assert(before[x].uri@ != before[y].uri@);
                        }
                    }
                    lemma_close(before, now, i as int, uri@);
                }
                self.files.remove(i);
            },
            None => {
                proof {
                    lemma_missing(before, uri@, 0);
                }
            },
        }
        assert(self@ =~= old(self)@.remove(uri@));
    }
}

/// What replacing or adding one file does to the texts of all.
proof fn lemma_put(
    before: Seq<Open>,
    now: Seq<Open>,
    at: int,
    uri: Seq<char>,
    text: Seq<char>,
)
    requires
        distinct(before),
        distinct(now),
        0 <= at < now.len(),
        now.len() == before.len() || (now.len() == before.len() + 1 && at == before.len()),
        now[at].uri@ == uri,
        now[at].text@ == text,
        at < before.len() ==> before[at].uri@ == uri,
        forall|i: int| 0 <= i < before.len() && i != at ==> now[i] == before[i],
    ensures
        forall|other: Seq<char>| #[trigger]
            found(now, other, 0) == if other == uri {
                Some(text)
            } else {
                found(before, other, 0)
            },
{
    assert forall|other: Seq<char>| #[trigger]
        found(now, other, 0) == if other == uri {
            Some(text)
        } else {
            found(before, other, 0)
        } by {
        if other == uri {
            lemma_found(now, uri, 0, at);
        } else if exists|i: int| 0 <= i < before.len() && (#[trigger] before[i]).uri@ == other {
            let i = choose|i: int| 0 <= i < before.len() && (#[trigger] before[i]).uri@ == other;
            lemma_found(before, other, 0, i);
            lemma_found(now, other, 0, i);
        } else {
            assert forall|i: int| 0 <= i < now.len() implies (#[trigger] now[i]).uri@ != other by {
                if i != at {
                    assert(now[i] == before[i]);
                }
            }
            lemma_missing(before, other, 0);
            lemma_missing(now, other, 0);
        }
    }
}

/// What closing one file does to the texts of all.
proof fn lemma_close(before: Seq<Open>, now: Seq<Open>, at: int, uri: Seq<char>)
    requires
        distinct(before),
        distinct(now),
        0 <= at < before.len(),
        before[at].uri@ == uri,
        now == before.remove(at),
    ensures
        forall|other: Seq<char>| #[trigger]
            found(now, other, 0) == if other == uri {
                None
            } else {
                found(before, other, 0)
            },
{
    assert forall|other: Seq<char>| #[trigger]
        found(now, other, 0) == if other == uri {
            None
        } else {
            found(before, other, 0)
        } by {
        if other != uri && exists|i: int|
            0 <= i < before.len() && (#[trigger] before[i]).uri@ == other {
            let i = choose|i: int| 0 <= i < before.len() && (#[trigger] before[i]).uri@ == other;
            lemma_found(before, other, 0, i);
            let k = if i < at {
                i
            } else {
                i - 1
            };
            assert(now[k] == before[i]);
            lemma_found(now, other, 0, k);
        } else {
            assert forall|i: int| 0 <= i < now.len() implies (#[trigger] now[i]).uri@ != other by {
                let x = if i < at {
                    i
                } else {
                    i + 1
                };
                assert(now[i] == before[x]);
                if other == uri {
                    assert(x != at);
                    if x < at {
                        assert(before[x].uri@ != before[at].uri@);
                    } else {
                        assert(before[at].uri@ != before[x].uri@);
                    }
                }
            }
            lemma_missing(now, other, 0);
            if other != uri {
                lemma_missing(before, other, 0);
            }
        }
    }
}

} // verus!
