//! What the compositor draws next.
//!
//! An app actor builds a UI tree and *submits* it. Submission is a message, so
//! the compositor never waits on the app: it draws whatever it most recently
//! received. A slow actor therefore delays its own updates and nothing else.
//!
//! - **Latest wins.** Stale frames are dropped rather than queued.
//! - **Never empty after the first submission.** The compositor keeps the last
//!   tree, so there is always something to draw.

use vstd::prelude::*;

use crate::scene::{trees_of, Node, Tree};

verus! {

/// The compositor end of the channel: what to draw, and how many submissions
/// were replaced before they were ever drawn.
#[derive(Debug)]
pub struct SceneReceiver<T> {
    current: Option<Node<T>>,
    superseded: usize,
}

/// What a [`SceneReceiver`] is.
pub struct Scene<T> {
    pub current: Option<Tree<T>>,
    pub superseded: nat,
}

impl<T> View for SceneReceiver<T> {
    type V = Scene<T>;

    closed spec fn view(&self) -> Scene<T> {
        Scene {
            current: match self.current {
                Some(node) => Some(node@),
                None => None,
            },
            superseded: self.superseded as nat,
        }
    }
}

impl<T> Scene<T> {
    /// The scene once these trees have arrived, in order.
    pub open spec fn after(self, arrived: Seq<Tree<T>>) -> Scene<T> {
        if arrived.len() == 0 {
            self
        } else {
            Scene {
                current: Some(arrived.last()),
                superseded: (self.superseded + arrived.len() - 1) as nat,
            }
        }
    }
}

impl<T> SceneReceiver<T> {
    /// Nothing to draw yet.
    pub fn new() -> (r: Self)
        ensures
            r@ == (Scene::<T> { current: None, superseded: 0 }),
    {
        SceneReceiver { current: None, superseded: 0 }
    }

    /// Takes the newest of the trees that arrived, discarding any that were
    /// superseded while the compositor was busy. Returns whether the scene
    /// changed.
    pub fn poll(&mut self, arrived: Vec<Node<T>>) -> (r: bool)
        requires
            old(self)@.superseded + arrived@.len() <= usize::MAX,
        ensures
            final(self)@ == old(self)@.after(trees_of(arrived@)),
            r == (arrived@.len() > 0),
    {
        let mut arrived = arrived;
        let count: usize = arrived.len();
        match arrived.pop() {
            Some(newest) => {
                self.superseded = self.superseded + (count - 1);
                self.current = Some(newest);
                true
            },
            None => false,
        }
    }

    /// The tree to draw: the most recent submission, or nothing before the
    /// first one arrives.
    pub fn current(&self) -> (r: Option<&Node<T>>)
        ensures
            match (r, self@.current) {
                (Some(node), Some(tree)) => node@ == tree,
                (None, None) => true,
                _ => false,
            },
    {
        match &self.current {
            Some(node) => Some(node),
            None => None,
        }
    }

    /// How many submissions were replaced before they were ever drawn. A
    /// healthy sign under load: the app ran ahead and the compositor skipped.
    pub fn superseded(&self) -> (r: usize)
        ensures
            r == self@.superseded,
    {
        self.superseded
    }
}

/// Latest wins: however submissions are split over polls, what is drawn in the
/// end is the last of them, and what was skipped is what no poll ended on.
pub proof fn latest_wins<T>(scene: Scene<T>, first: Seq<Tree<T>>, second: Seq<Tree<T>>)
    requires
        second.len() > 0,
    ensures
        scene.after(first).after(second).current == scene.after(first + second).current,
        scene.after(first + second).current == Some(second.last()),
        scene.after(first).after(second).superseded <= scene.after(first + second).superseded,
{
    assert((first + second).last() == second.last());
}

/// Never empty after the first submission: a scene that has something to draw
/// keeps having something to draw.
pub proof fn never_empty_after_the_first_submission<T>(scene: Scene<T>, arrived: Seq<Tree<T>>)
    requires
        scene.current is Some || arrived.len() > 0,
    ensures
        scene.after(arrived).current is Some,
{
}

/// Every submission that a poll finds is drawn or skipped: one of them is the
/// newest, and the others are counted.
pub proof fn all_but_the_newest_are_counted<T>(scene: Scene<T>, arrived: Seq<Tree<T>>)
    ensures
        arrived.len() > 0 ==> scene.after(arrived).current == Some(arrived.last()),
        arrived.len() > 0 ==> scene.after(arrived).superseded + 1 == scene.superseded
            + arrived.len(),
        arrived.len() == 0 ==> scene.after(arrived) == scene,
{
}

} // verus!
