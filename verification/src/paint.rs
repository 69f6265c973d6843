//! What the painters are told: which rectangles each draw call covers, and
//! what each run of text is confined to.
//!
//! Clips nest, so the active region is a stack and each entry is already
//! intersected with the one below it. A clip boundary is exactly where one
//! draw call has to end and the next begin.

use vstd::prelude::*;

use crate::scalar::{
    exact, from_whole, larger, larger_of, minus, plus, smaller, smaller_of, whole, Scalar,
};
use crate::scene::{draws_of, Bounds, Command, Draw};

verus! {

/// One draw call: the rectangles it covers, and the scissor they are confined
/// to. A frame with no clips is one batch.
#[derive(Debug, Clone, Copy, PartialEq)]
pub struct Batch<T> {
    /// `None` means the whole viewport.
    pub scissor: Option<Bounds<T>>,
    /// The first rectangle.
    pub start: u32,
    /// The one after the last.
    pub end: u32,
}

/// The overlap of two rectangles; empty where they do not meet.
pub open spec fn overlap_of<T: Scalar>(a: Bounds<T>, b: Bounds<T>) -> Bounds<T> {
    let left = larger_of(a.x, b.x);
    let top = larger_of(a.y, b.y);
    let right = smaller_of(plus(a.x, a.width), plus(b.x, b.width));
    let bottom = smaller_of(plus(a.y, a.height), plus(b.y, b.height));
    Bounds {
        x: left,
        y: top,
        width: larger_of(minus(right, left), whole::<T>(0)),
        height: larger_of(minus(bottom, top), whole::<T>(0)),
    }
}

/// The overlap of two rectangles; empty where they do not meet.
pub fn intersect<T: Scalar>(a: Bounds<T>, b: Bounds<T>) -> (r: Bounds<T>)
    requires
        exact::<T>(),
    ensures
        r == overlap_of(a, b),
{
    let left = larger(a.x, b.x);
    let top = larger(a.y, b.y);
    let right = smaller(a.x + a.width, b.x + b.width);
    let bottom = smaller(a.y + a.height, b.y + b.height);
    Bounds {
        x: left,
        y: top,
        width: larger(right - left, from_whole(0)),
        height: larger(bottom - top, from_whole(0)),
    }
}

/// How far batching has come.
pub struct Batching<T> {
    pub batches: Seq<Batch<T>>,
    pub clips: Seq<Bounds<T>>,
    /// The first rectangle no batch covers yet.
    pub start: nat,
    /// How many rectangles there were.
    pub count: nat,
}

impl<T: Scalar> Batching<T> {
    pub open spec fn begin() -> Self {
        Batching { batches: Seq::empty(), clips: Seq::empty(), start: 0, count: 0 }
    }

    /// The region rectangles are confined to now.
    pub open spec fn scissor(self) -> Option<Bounds<T>> {
        if self.clips.len() > 0 {
            Some(self.clips.last())
        } else {
            None
        }
    }

    /// Ends the batch that was accumulating and starts the next. A batch with
    /// nothing in it is not worth a draw call.
    pub open spec fn close(self) -> Self {
        Batching {
            batches: if self.count > self.start {
                self.batches.push(
                    Batch {
                        scissor: self.scissor(),
                        start: self.start as u32,
                        end: self.count as u32,
                    },
                )
            } else {
                self.batches
            },
            start: self.count,
            ..self
        }
    }

    /// One command on.
    pub open spec fn step(self, command: Draw<T>) -> Self {
        match command {
            Draw::Rect { .. } => Batching { count: self.count + 1, ..self },
            Draw::Text { .. } => self,
            Draw::ClipStart { x, y, width, height } => {
                let region = Bounds { x, y, width, height };
                let closed = self.close();
                Batching {
                    clips: closed.clips.push(
                        match self.scissor() {
                            Some(outer) => overlap_of(outer, region),
                            None => region,
                        },
                    ),
                    ..closed
                }
            },
            Draw::ClipEnd => {
                let closed = self.close();
                Batching {
                    clips: if closed.clips.len() > 0 {
                        closed.clips.drop_last()
                    } else {
                        closed.clips
                    },
                    ..closed
                }
            },
        }
    }
}

/// Batching after the first `count` commands.
pub open spec fn batching<T: Scalar>(commands: Seq<Draw<T>>, count: nat) -> Batching<T>
    decreases count,
{
    if count == 0 {
        Batching::<T>::begin()
    } else {
        batching(commands, (count - 1) as nat).step(commands[count - 1])
    }
}

/// The draw calls of a frame.
pub open spec fn batched<T: Scalar>(commands: Seq<Draw<T>>) -> Seq<Batch<T>> {
    batching(commands, commands.len()).close().batches
}

fn close_batch<T: Scalar>(
    batches: &mut Vec<Batch<T>>,
    start: &mut u32,
    end: u32,
    scissor: Option<Bounds<T>>,
)
    ensures
        final(batches)@ == if end > *old(start) {
            old(batches)@.push(Batch { scissor, start: *old(start), end })
        } else {
            old(batches)@
        },
        *final(start) == end,
{
    if end > *start {
        batches.push(Batch { scissor, start: *start, end });
    }
    *start = end;
}

fn innermost<T: Scalar>(clips: &Vec<Bounds<T>>) -> (r: Option<Bounds<T>>)
    ensures
        r == if clips@.len() > 0 {
            Some(clips@.last())
        } else {
            None
        },
{
    if clips.len() > 0 {
        Some(clips[clips.len() - 1])
    } else {
        None
    }
}

/// The draw calls of a frame, in order.
pub fn batches<T: Scalar>(commands: &Vec<Command<T>>) -> (r: Vec<Batch<T>>)
    requires
        exact::<T>(),
        commands@.len() <= u32::MAX,
    ensures
        r@ == batched(draws_of(commands@)),
{
    let ghost draws = draws_of(commands@);
    let mut out: Vec<Batch<T>> = Vec::new();
    let mut clips: Vec<Bounds<T>> = Vec::new();
    let mut start: u32 = 0;
    let mut count: u32 = 0;
    for i in 0..commands.len()
        invariant
            exact::<T>(),
            commands@.len() <= u32::MAX,
            draws == draws_of(commands@),
            count <= i,
            out@ == batching(draws, i as nat).batches,
            clips@ == batching(draws, i as nat).clips,
            start == batching(draws, i as nat).start,
            count == batching(draws, i as nat).count,
    {
        assert(draws[i as int] == commands@[i as int]@);
        match &commands[i] {
            Command::Rect { .. } => {
                count = count + 1;
            },
            // Text goes through the text painter, which clips itself from the
            // same command stream.
            Command::Text { .. } => {},
            Command::ClipStart { x, y, width, height } => {
                let region = Bounds { x: *x, y: *y, width: *width, height: *height };
                let outer = innermost(&clips);
                close_batch(&mut out, &mut start, count, outer);
                match outer {
                    Some(outer) => {
                        clips.push(intersect(outer, region));
                    },
                    None => {
                        clips.push(region);
                    },
                }
            },
            Command::ClipEnd => {
                let inner = innermost(&clips);
                close_batch(&mut out, &mut start, count, inner);
                clips.pop();
                assert(clips@ =~= batching(draws, (i + 1) as nat).clips);
            },
        }
    }
    let last = innermost(&clips);
    close_batch(&mut out, &mut start, count, last);
    out
}

/// How many rectangles there are among the first `count` commands.
pub open spec fn rects<T>(commands: Seq<Draw<T>>, count: nat) -> nat
    decreases count,
{
    if count == 0 {
        0
    } else {
        rects(commands, (count - 1) as nat) + if commands[count - 1] is Rect {
            1nat
        } else {
            0nat
        }
    }
}

/// Whether draw calls follow each other without a gap, each with something in
/// it, up to `end`.
pub open spec fn consecutive<T>(batches: Seq<Batch<T>>, end: nat) -> bool {
    &&& forall|i: int| 0 <= i < batches.len() ==> (#[trigger] batches[i]).start < batches[i].end
    &&& forall|i: int|
        0 < i < batches.len() ==> (#[trigger] batches[i]).start == batches[i - 1].end
    &&& if batches.len() == 0 {
        end == 0
    } else {
        batches[0].start == 0 && batches.last().end == end
    }
}

proof fn lemma_batching<T: Scalar>(commands: Seq<Draw<T>>, count: nat)
    requires
        count <= commands.len() <= u32::MAX,
    ensures
        batching(commands, count).count == rects(commands, count),
        rects(commands, count) <= count,
        batching(commands, count).start <= batching(commands, count).count,
        consecutive(batching(commands, count).batches, batching(commands, count).start),
    decreases count,
{
    if count > 0 {
        lemma_batching(commands, (count - 1) as nat);
        lemma_close(batching(commands, (count - 1) as nat));
    }
}

proof fn lemma_close<T: Scalar>(s: Batching<T>)
    requires
        s.start <= s.count <= u32::MAX,
        consecutive(s.batches, s.start),
    ensures
        consecutive(s.close().batches, s.count),
        s.close().start == s.count,
{
    let t = s.close();
    if s.count > s.start {
        assert forall|i: int| 0 < i < t.batches.len() implies (#[trigger] t.batches[i]).start
            == t.batches[i - 1].end by {
            if i < s.batches.len() {
                assert(t.batches[i] == s.batches[i]);
                assert(t.batches[i - 1] == s.batches[i - 1]);
            } else {
                assert(t.batches[i - 1] == s.batches.last());
            }
        }
    }
}

/// Every rectangle is drawn once: the draw calls of a frame cover its
/// rectangles in order, none twice and none left out, and none is empty.
pub proof fn every_rectangle_is_drawn_once<T: Scalar>(commands: Seq<Draw<T>>)
    requires
        commands.len() <= u32::MAX,
    ensures
        consecutive(batched(commands), rects(commands, commands.len())),
{
    lemma_batching(commands, commands.len());
    lemma_close(batching(commands, commands.len()));
}

/// A frame with no clips is at most one draw call, and it is unconfined.
pub proof fn an_unclipped_frame_is_one_draw_call<T: Scalar>(commands: Seq<Draw<T>>)
    requires
        commands.len() <= u32::MAX,
        forall|i: int|
            0 <= i < commands.len() ==> !(#[trigger] commands[i] is ClipStart
                || commands[i] is ClipEnd),
    ensures
        batched(commands).len() <= 1,
        batched(commands).len() == 1 ==> batched(commands)[0].scissor is None,
{
    lemma_unclipped(commands, commands.len());
}

proof fn lemma_unclipped<T: Scalar>(commands: Seq<Draw<T>>, count: nat)
    requires
        count <= commands.len(),
        forall|i: int|
            0 <= i < commands.len() ==> !(#[trigger] commands[i] is ClipStart
                || commands[i] is ClipEnd),
    ensures
        batching(commands, count).batches.len() == 0,
        batching(commands, count).clips.len() == 0,
    decreases count,
{
    if count > 0 {
        lemma_unclipped(commands, (count - 1) as nat);
        assert(!(commands[count - 1] is ClipStart || commands[count - 1] is ClipEnd));
    }
}

/// What text is confined to, in whole pixels.
#[derive(Debug, Clone, Copy, PartialEq, Eq, Structural)]
pub struct TextBounds {
    pub left: i32,
    pub top: i32,
    pub right: i32,
    pub bottom: i32,
}

/// What a command means to text.
#[derive(Debug, Clone, Copy, PartialEq, Eq, Structural)]
pub enum TextMark {
    /// A run of text.
    Run,
    ClipStart(TextBounds),
    ClipEnd,
    /// Nothing.
    Other,
}

impl TextBounds {
    /// What both regions allow.
    pub open spec fn narrowed(self, outer: TextBounds) -> TextBounds {
        TextBounds {
            left: if self.left > outer.left {
                self.left
            } else {
                outer.left
            },
            top: if self.top > outer.top {
                self.top
            } else {
                outer.top
            },
            right: if self.right < outer.right {
                self.right
            } else {
                outer.right
            },
            bottom: if self.bottom < outer.bottom {
                self.bottom
            } else {
                outer.bottom
            },
        }
    }

    /// Whether a region lies within another.
    pub open spec fn within(self, outer: TextBounds) -> bool {
        &&& self.left >= outer.left
        &&& self.top >= outer.top
        &&& self.right <= outer.right
        &&& self.bottom <= outer.bottom
    }

    /// What both regions allow.
    pub fn narrow(self, outer: TextBounds) -> (r: TextBounds)
        ensures
            r == self.narrowed(outer),
    {
        TextBounds {
            left: if self.left > outer.left {
                self.left
            } else {
                outer.left
            },
            top: if self.top > outer.top {
                self.top
            } else {
                outer.top
            },
            right: if self.right < outer.right {
                self.right
            } else {
                outer.right
            },
            bottom: if self.bottom < outer.bottom {
                self.bottom
            } else {
                outer.bottom
            },
        }
    }
}

/// The clips open after the first `count` marks, each narrowed by those around
/// it.
pub open spec fn text_clips(marks: Seq<TextMark>, count: nat) -> Seq<TextBounds>
    decreases count,
{
    if count == 0 {
        Seq::empty()
    } else {
        let open = text_clips(marks, (count - 1) as nat);
        match marks[count - 1] {
            TextMark::ClipStart(region) => open.push(
                if open.len() > 0 {
                    region.narrowed(open.last())
                } else {
                    region
                },
            ),
            TextMark::ClipEnd => if open.len() > 0 {
                open.drop_last()
            } else {
                open
            },
            _ => open,
        }
    }
}

/// What each run among the first `count` marks is confined to: the innermost
/// clip it fell inside, or the whole viewport.
pub open spec fn text_bounds_of(marks: Seq<TextMark>, viewport: TextBounds, count: nat) -> Seq<
    TextBounds,
>
    decreases count,
{
    if count == 0 {
        Seq::empty()
    } else {
        let before = text_bounds_of(marks, viewport, (count - 1) as nat);
        if marks[count - 1] is Run {
            let open = text_clips(marks, (count - 1) as nat);
            before.push(
                if open.len() > 0 {
                    open.last()
                } else {
                    viewport
                },
            )
        } else {
            before
        }
    }
}

/// What each run of text is confined to, in order. Scrolled text is trimmed by
/// the same command stream that trims the rectangles.
pub fn text_bounds(marks: &Vec<TextMark>, viewport: TextBounds) -> (r: Vec<TextBounds>)
    ensures
        r@ == text_bounds_of(marks@, viewport, marks@.len()),
{
    let mut out: Vec<TextBounds> = Vec::new();
    let mut clips: Vec<TextBounds> = Vec::new();
    for i in 0..marks.len()
        invariant
            out@ == text_bounds_of(marks@, viewport, i as nat),
            clips@ == text_clips(marks@, i as nat),
    {
        match marks[i] {
            TextMark::Run => {
                if clips.len() > 0 {
                    out.push(clips[clips.len() - 1]);
                } else {
                    out.push(viewport);
                }
            },
            TextMark::ClipStart(region) => {
                if clips.len() > 0 {
                    let outer = clips[clips.len() - 1];
                    clips.push(region.narrow(outer));
                } else {
                    clips.push(region);
                }
            },
            TextMark::ClipEnd => {
                clips.pop();
                assert(clips@ =~= text_clips(marks@, (i + 1) as nat));
            },
            TextMark::Other => {},
        }
    }
    out
}

/// Nested clips intersect: every open clip lies within every clip around it.
pub proof fn nested_text_clips_narrow(marks: Seq<TextMark>, count: nat, outer: int, inner: int)
    requires
        count <= marks.len(),
        0 <= outer <= inner < text_clips(marks, count).len(),
    ensures
        text_clips(marks, count)[inner].within(text_clips(marks, count)[outer]),
    decreases count,
{
    if count > 0 {
        let open = text_clips(marks, (count - 1) as nat);
        let now = text_clips(marks, count);
        if inner < open.len() {
            nested_text_clips_narrow(marks, (count - 1) as nat, outer, inner);
            assert(now[inner] == open[inner] && now[outer] == open[outer]);
        } else if outer < open.len() {
            nested_text_clips_narrow(marks, (count - 1) as nat, outer, open.len() - 1);
        }
    }
}

/// Rectangles a fresh painter can hold before its buffer is reallocated.
pub const INITIAL_CAPACITY: usize = 256;

/// Whether a number is a power of two.
pub open spec fn power_of_two(n: nat) -> bool
    decreases n,
{
    n == 1 || (n > 1 && n % 2 == 0 && power_of_two(n / 2))
}

/// How many rectangles a buffer must have room for, to hold `count`: as many as
/// it has, where that is enough, and otherwise the next power of two, so that a
/// growing frame is not a reallocation per frame.
pub fn capacity_for(count: usize, capacity: usize) -> (r: usize)
    requires
        count <= 0x8000_0000,
    ensures
        count <= capacity ==> r == capacity,
        count > capacity ==> r >= count && power_of_two(r as nat) && r < 2 * count,
{
    if count <= capacity {
        return capacity;
    }
    let mut room: usize = 1;
    assert(power_of_two(1));
    while room < count
        invariant
            count <= 0x8000_0000,
            power_of_two(room as nat),
            1 <= room < 2 * count,
        decreases 2 * count - room,
    {
        proof {
            assert((2 * room) as nat / 2 == room as nat);
            assert(power_of_two((2 * room) as nat));
        }
        room = 2 * room;
    }
    room
}

impl TextBounds {
    /// Whether a point is in a region.
    pub open spec fn has(self, x: int, y: int) -> bool {
        self.left <= x < self.right && self.top <= y < self.bottom
    }
}

/// The regions of the clips open after the first `count` marks, as they were
/// asked for.
pub open spec fn asked_clips(marks: Seq<TextMark>, count: nat) -> Seq<TextBounds>
    decreases count,
{
    if count == 0 {
        Seq::empty()
    } else {
        let open = asked_clips(marks, (count - 1) as nat);
        match marks[count - 1] {
            TextMark::ClipStart(region) => open.push(region),
            TextMark::ClipEnd => if open.len() > 0 {
                open.drop_last()
            } else {
                open
            },
            _ => open,
        }
    }
}

/// What text is confined to is what every clip around it allows, no more and no
/// less: a point is in the innermost clip exactly where it is in all that are
/// open.
pub proof fn text_shows_where_every_clip_allows(marks: Seq<TextMark>, count: nat, x: int, y: int)
    requires
        count <= marks.len(),
    ensures
        text_clips(marks, count).len() == asked_clips(marks, count).len(),
        forall|k: int|
            0 <= k < text_clips(marks, count).len() ==> ((#[trigger] text_clips(
                marks,
                count,
            )[k]).has(x, y) <==> forall|j: int|
                0 <= j <= k ==> (#[trigger] asked_clips(marks, count)[j]).has(x, y)),
    decreases count,
{
    if count > 0 {
        let less = (count - 1) as nat;
        text_shows_where_every_clip_allows(marks, less, x, y);
        let (open, asked) = (text_clips(marks, less), asked_clips(marks, less));
        let (now, wanted) = (text_clips(marks, count), asked_clips(marks, count));
        assert forall|k: int| 0 <= k < now.len() implies ((#[trigger] now[k]).has(x, y)
            <==> forall|j: int| 0 <= j <= k ==> (#[trigger] wanted[j]).has(x, y)) by {
            if k < open.len() {
                assert(now[k] == open[k]);
                assert forall|j: int| 0 <= j <= k implies wanted[j] == asked[j] by {}
                if open[k].has(x, y) {
                    assert forall|j: int| 0 <= j <= k implies (#[trigger] wanted[j]).has(x, y) by {
                        assert(asked[j].has(x, y));
                    }
                } else {
                    let j = choose|j: int| 0 <= j <= k && !(#[trigger] asked[j]).has(x, y);
                    assert(!wanted[j].has(x, y));
                }
            } else {
                let region = marks[count - 1]->ClipStart_0;
                assert(wanted[k] == region);
                if open.len() > 0 {
                    let around = open.last();
                    assert(around == open[k - 1]);
                    assert(now[k].has(x, y) <==> region.has(x, y) && around.has(x, y));
                    if now[k].has(x, y) {
                        assert forall|j: int| 0 <= j <= k implies (#[trigger] wanted[j]).has(
                            x,
                            y,
                        ) by {
                            if j < k {
                                assert(asked[j].has(x, y));
                            }
                        }
                    } else if !region.has(x, y) {
                        assert(!wanted[k].has(x, y));
                    } else {
                        let j = choose|j: int|
                            0 <= j <= k - 1 && !(#[trigger] asked[j]).has(x, y);
                        assert(!wanted[j].has(x, y));
                    }
                } else {
                    assert(now[k] == region);
                }
            }
        }
    }
}

/// How many runs of text there are among the first `count` marks.
pub open spec fn run_count(marks: Seq<TextMark>, count: nat) -> nat
    decreases count,
{
    if count == 0 {
        0
    } else {
        run_count(marks, (count - 1) as nat) + if marks[count - 1] is Run {
            1nat
        } else {
            0nat
        }
    }
}

/// Every run of text is confined once, in order: to the innermost clip that is
/// open where it is, or to the viewport.
pub proof fn every_run_is_confined_where_it_is(
    marks: Seq<TextMark>,
    viewport: TextBounds,
    count: nat,
    index: int,
)
    requires
        0 <= index < count <= marks.len(),
        marks[index] is Run,
    ensures
        text_bounds_of(marks, viewport, count).len() == run_count(marks, count),
        ({
            let open = text_clips(marks, index as nat);
            let k = run_count(marks, index as nat) as int;
            &&& k < text_bounds_of(marks, viewport, count).len()
            &&& text_bounds_of(marks, viewport, count)[k] == if open.len() == 0 {
                viewport
            } else {
                open.last()
            }
        }),
    decreases count,
{
    lemma_run_count(marks, viewport, (count - 1) as nat);
    if index < count - 1 {
        every_run_is_confined_where_it_is(marks, viewport, (count - 1) as nat, index);
    }
}

proof fn lemma_run_count(marks: Seq<TextMark>, viewport: TextBounds, count: nat)
    ensures
        text_bounds_of(marks, viewport, count).len() == run_count(marks, count),
    decreases count,
{
    if count > 0 {
        lemma_run_count(marks, viewport, (count - 1) as nat);
    }
}

/// Every rectangle is drawn under the clip that is open where it is: the draw
/// call that covers it is confined to that, and to nothing where none is open.
pub proof fn every_rectangle_is_drawn_under_its_clip<T: Scalar>(
    commands: Seq<Draw<T>>,
    index: int,
)
    requires
        commands.len() <= u32::MAX,
        0 <= index < commands.len(),
        commands[index] is Rect,
    ensures
        exists|b: int|
            0 <= b < batched(commands).len() && (#[trigger] batched(commands)[b]).start <= rects(
                commands,
                index as nat,
            ) < batched(commands)[b].end && batched(commands)[b].scissor == batching(
                commands,
                index as nat,
            ).scissor(),
{
    let n = commands.len();
    let k = rects(commands, index as nat);
    lemma_under_clip(commands, index, n);
    let s = batching(commands, n);
    let done = batched(commands);
    let here = batching(commands, index as nat).scissor();
    lemma_batching(commands, n);
    if s.start <= k {
        let b = s.batches.len() as int;
        assert(s.count > s.start);
        assert(done[b].start <= k < done[b].end && done[b].scissor == here);
    } else {
        let b = choose|b: int|
            0 <= b < s.batches.len() && (#[trigger] s.batches[b]).start <= k < s.batches[b].end
                && s.batches[b].scissor == batching(commands, index as nat).scissor();
        assert(done[b] == s.batches[b]);
        assert(done[b].start <= k < done[b].end && done[b].scissor == here);
    }
}

proof fn lemma_under_clip<T: Scalar>(commands: Seq<Draw<T>>, index: int, count: nat)
    requires
        commands.len() <= u32::MAX,
        0 <= index < count <= commands.len(),
        commands[index] is Rect,
    ensures
        ({
            let k = rects(commands, index as nat);
            let s = batching(commands, count);
            let here = batching(commands, index as nat).scissor();
            &&& k < s.count
            &&& if s.start <= k {
                s.scissor() == here
            } else {
                exists|b: int|
                    0 <= b < s.batches.len() && (#[trigger] s.batches[b]).start <= k
                        < s.batches[b].end && s.batches[b].scissor == here
            }
        }),
    decreases count,
{
    let k = rects(commands, index as nat);
    lemma_batching(commands, index as nat);
    lemma_batching(commands, count);
    if index < count - 1 {
        let less = (count - 1) as nat;
        lemma_under_clip(commands, index, less);
        lemma_batching(commands, less);
        let before = batching(commands, less);
        let s = batching(commands, count);
        let here = batching(commands, index as nat).scissor();
        if s.start > k {
            if before.start <= k {
                let b = before.batches.len() as int;
                assert(s.batches[b].scissor == here);
            } else {
                let b = choose|b: int|
                    0 <= b < before.batches.len() && (#[trigger] before.batches[b]).start <= k
                        < before.batches[b].end && before.batches[b].scissor == here;
                assert(s.batches[b] == before.batches[b]);
            }
        }
    }
}

/// A clip confines what is drawn in it to what it and every clip around it
/// leave, and closing it gives back what was there before.
pub proof fn a_clip_narrows_and_gives_back<T: Scalar>(
    state: Batching<T>,
    region: Bounds<T>,
    command: Draw<T>,
)
    ensures
        ({
            let Bounds { x, y, width, height } = region;
            let inside = state.step(Draw::ClipStart { x, y, width, height });
            &&& inside.scissor() == Some(
                match state.scissor() {
                    Some(outer) => overlap_of(outer, region),
                    None => region,
                },
            )
            &&& inside.step(Draw::ClipEnd).scissor() == state.scissor()
            &&& command is Rect || command is Text ==> state.step(command).scissor()
                == state.scissor()
        }),
{
    let Bounds { x, y, width, height } = region;
    let inside = state.step(Draw::ClipStart { x, y, width, height });
    assert(inside.clips.drop_last() =~= state.clips);
}

} // verus!
