//! The inspector, as far as it decides what is drawn.
//!
//! `Inspector::overlay` appends outline commands to a finished frame: an
//! inspector needs no special rendering path because it is just more render
//! commands. Outlines go through the same pipeline as everything else, and so
//! does the actor panel.

use std::sync::{Arc, Mutex};

use vstd::prelude::*;
use vstd::string::StringExecFns;

use crate::flatten::{clip_to, overlaps_narrow, visible};
use crate::scalar::{
    count_of, exact, from_count, from_whole, larger, larger_of, minus, plus, times, whole, Scalar,
};
use crate::scene::{draws_of, Bounds, Color, Command, Draw, Frame, HitId, HitRegion, Picture};
use crate::text::{decimal, number, push_number};

verus! {

/// One row of the debug overlay: what one actor is doing right now.
///
/// A *display* type, deliberately not the runtime's measurement type. The
/// renderer knows how to draw a row and nothing about the VM; the runtime
/// knows how to measure an actor and nothing about frames.
#[derive(Debug, Clone, PartialEq, Eq, Default)]
pub struct ActorStat {
    pub name: String,
    pub arena_bytes: u64,
    pub mailbox: usize,
    pub fibers: u32,
    pub handled: u64,
    pub generation: u32,
    pub alive: bool,
}

/// `std::sync::Mutex`, as a value that is only handed on.
#[verifier::external_type_specification]
#[verifier::external_body]
#[verifier::reject_recursive_types(T)]
pub struct ExMutex<T: ?Sized>(std::sync::Mutex<T>);

/// `Mutex::new` makes an unlocked mutex around a value. What a mutex holds can
/// be changed by any thread that shares it, so nothing is said of it.
#[verifier::external_body]
fn unlocked(stats: Vec<ActorStat>) -> (r: Mutex<Vec<ActorStat>>) {
    Mutex::new(stats)
}

/// `Mutex::lock` waits for the mutex and gives access to what is inside, which
/// is replaced here; where a holder panicked it gives an error, and nothing is
/// replaced. Other threads may replace it again at once, so nothing is said of
/// it.
#[verifier::external_body]
fn replace(slot: &Mutex<Vec<ActorStat>>, stats: Vec<ActorStat>) {
    if let Ok(mut held) = slot.lock() {
        *held = stats;
    }
}

/// `Mutex::try_lock` gives access to what is inside if nobody has it, and an
/// error otherwise, without waiting. What is inside is whatever some thread
/// put there last, so nothing is said of it.
#[verifier::external_body]
fn peek(slot: &Mutex<Vec<ActorStat>>) -> (r: Option<Vec<ActorStat>>) {
    match slot.try_lock() {
        Ok(held) => Some(held.clone()),
        Err(_) => None,
    }
}

/// Takes over what was read, if anything was.
pub fn refresh(out: &mut Vec<ActorStat>, read: Option<Vec<ActorStat>>) -> (r: bool)
    ensures
        r == (read is Some),
        *final(out) == match read {
            Some(stats) => stats,
            None => *old(out),
        },
{
    match read {
        Some(stats) => {
            *out = stats;
            true
        },
        None => false,
    }
}

/// The slot the runtime publishes actor stats into and the compositor reads.
///
/// Reading never waits, which is the whole design: the compositor waits for
/// nobody, and that has to include the thing telling it how the app is doing.
/// A contended frame simply redraws the numbers it already had.
#[derive(Clone)]
pub struct StatsHandle {
    pub inner: Arc<Mutex<Vec<ActorStat>>>,
}

impl StatsHandle {
    /// A slot with no stats in it.
    pub fn new() -> (r: Self) {
        StatsHandle { inner: Arc::new(unlocked(Vec::new())) }
    }

    /// Called from the actor side, as often as it likes.
    pub fn publish(&self, stats: Vec<ActorStat>) {
        replace(&self.inner, stats);
    }

    /// Refreshes `out` if the slot is free. Returns whether it did; `false`
    /// means "keep drawing what you have", not "there is nothing".
    pub fn read_into(&self, out: &mut Vec<ActorStat>) -> (r: bool)
        ensures
            !r ==> *final(out) == *old(out),
    {
        refresh(out, peek(&self.inner))
    }
}

impl Default for StatsHandle {
    fn default() -> (r: Self) {
        StatsHandle::new()
    }
}

/// `n / d` to the nearest whole number, and to the even one of two that are as
/// near.
pub open spec fn half_even(n: nat, d: nat) -> nat {
    let (q, r) = (n / d, n % d);
    if 2 * r < d || (2 * r == d && q % 2 == 0) {
        q
    } else {
        q + 1
    }
}

/// The distance between neighbouring numbers of 24 significant bits around
/// `n`.
pub open spec fn spacing(n: nat) -> nat
    decreases n,
{
    if n < 0x100_0000 {
        1
    } else {
        2 * spacing(n / 2)
    }
}

/// `n` to 24 significant bits.
pub open spec fn single(n: nat) -> nat {
    half_even(n, spacing(n)) * spacing(n)
}

/// Two digits.
pub open spec fn two_digits(n: nat) -> Seq<char> {
    if n < 10 {
        "0"@ + decimal(n as int)
    } else {
        decimal(n as int)
    }
}

/// Bytes at a glance: megabytes to two places, kilobytes and bytes to none.
pub open spec fn glance(count: nat) -> Seq<char> {
    let n = single(count);
    if n >= 0x10_0000 {
        let hundredths = half_even(n * 100, 0x10_0000);
        decimal((hundredths / 100) as int) + "."@ + two_digits(hundredths % 100) + "MB"@
    } else if n >= 0x400 {
        decimal(half_even(n, 0x400) as int) + "KB"@
    } else {
        decimal(n as int) + "B"@
    }
}

fn round_half_even(n: u128, d: u128) -> (r: u128)
    requires
        0 < d <= 0x1_0000_0000_0000_0000,
        n <= 0xffff_ffff_ffff_ffff_ffff_ffff,
    ensures
        r == half_even(n as nat, d as nat),
        r <= n / d + 1,
{
    let q: u128 = n / d;
    let rest: u128 = n % d;
    assert(n / d <= n) by (nonlinear_arith)
        requires
            d > 0,
            n >= 0,
    ;
    assert(n % d < d) by (nonlinear_arith)
        requires
            d > 0,
    ;
    if 2 * rest < d || (2 * rest == d && q % 2 == 0) {
        q
    } else {
        q + 1
    }
}

fn spacing_of(n: u64) -> (r: u64)
    ensures
        r == spacing(n as nat),
        1 <= r,
        r <= 1 || r * 0x80_0000 <= n,
    decreases n,
{
    if n < 0x100_0000 {
        1
    } else {
        2 * spacing_of(n / 2)
    }
}

/// Bytes at a glance. Two significant-ish figures, because the question the
/// overlay answers is "is this growing", not "by how many bytes".
pub fn bytes(count: u64) -> (r: String)
    ensures
        r@ == glance(count as nat),
{
    let unit: u128 = spacing_of(count) as u128;
    let units: u128 = round_half_even(count as u128, unit);
    assert(units * unit <= count + unit) by (nonlinear_arith)
        requires
            units <= count as u128 / unit + 1,
            unit >= 1,
    ;
    let n: u128 = units * unit;
    let mut out = String::new();
    if n >= 0x10_0000 {
        let hundredths: u128 = round_half_even(n * 100, 0x10_0000);
        push_number(&mut out, (hundredths / 100) as u64);
        out.append(".");
        let rest: u64 = (hundredths % 100) as u64;
        if rest < 10 {
            out.append("0");
        }
        push_number(&mut out, rest);
        out.append("MB");
    } else if n >= 0x400 {
        push_number(&mut out, round_half_even(n, 0x400) as u64);
        out.append("KB");
    } else {
        push_number(&mut out, n as u64);
        out.append("B");
    }
    assert(out@ =~= glance(count as nat));
    out
}

/// Outline colour for ordinary boxes.
pub open spec fn outline_color<T: Scalar>() -> Color<T> {
    Color::<T>::hundredths(20, 85, 80, 55)
}

/// Outline colour for the node under the pointer.
pub open spec fn highlight_color<T: Scalar>() -> Color<T> {
    Color { r: whole::<T>(1), ..Color::<T>::hundredths(100, 45, 20, 95) }
}

/// Panel background. Dark and translucent, so it reads as an instrument laid
/// over the app rather than part of it.
pub open spec fn panel_back<T: Scalar>() -> Color<T> {
    Color::<T>::hundredths(2, 2, 3, 86)
}

pub open spec fn panel_text<T: Scalar>() -> Color<T> {
    Color::<T>::solid(86, 88, 92)
}

pub open spec fn panel_head<T: Scalar>() -> Color<T> {
    Color::<T>::solid(45, 62, 85)
}

/// A dead actor's row, coloured like a fact rather than like an alarm.
pub open spec fn panel_dead<T: Scalar>() -> Color<T> {
    Color::<T>::solid(95, 45, 35)
}

pub const PANEL_WIDTH: u16 = 330;

pub const PANEL_MARGIN: u16 = 8;

pub const PANEL_PAD: u16 = 8;

pub const ROW_HEIGHT: u16 = 15;

pub const PANEL_FONT: u16 = 11;

/// Column offsets within the panel. Placed rather than laid out: a row must
/// read as a table, and one string per row would not align under a
/// proportional font.
pub open spec fn columns() -> Seq<u16> {
    seq![0u16, 124, 190, 236, 274]
}

pub open spec fn headings() -> Seq<Seq<char>> {
    seq!["actor"@, "arena"@, "mbox"@, "fib"@, "msgs"@]
}

/// What an actor's row calls it. A restarted actor wears its generation,
/// because "same name, third life" is the interesting fact about it.
pub open spec fn row_name(stat: ActorStat) -> Seq<char> {
    if !stat.alive {
        stat.name@ + " (dead)"@
    } else if stat.generation == 0 {
        stat.name@
    } else {
        stat.name@ + " \u{d7}"@ + decimal(stat.generation as int)
    }
}

/// The texts of an actor's row.
pub open spec fn row_texts(stat: ActorStat) -> Seq<Seq<char>> {
    seq![
        row_name(stat),
        glance(stat.arena_bytes as nat),
        decimal(stat.mailbox as int),
        decimal(stat.fibers as int),
        decimal(stat.handled as int),
    ]
}

/// One text in the panel.
pub open spec fn cell<T: Scalar>(x: T, y: T, color: Color<T>, text: Seq<char>) -> Draw<T> {
    Draw::Text { x, y, size: whole::<T>(PANEL_FONT), color, text }
}

/// A row of texts, one per column.
pub open spec fn row_cells<T: Scalar>(
    origin: T,
    y: T,
    color: Color<T>,
    texts: Seq<Seq<char>>,
) -> Seq<Draw<T>> {
    Seq::new(
        5,
        |i: int| cell(plus(origin, whole::<T>(columns()[i])), y, color, texts[i]),
    )
}

/// Where the row at `index` is; the header is the first.
pub open spec fn row_y<T: Scalar>(index: nat) -> T
    decreases index,
{
    if index == 0 {
        plus(whole::<T>(PANEL_MARGIN), whole::<T>(PANEL_PAD))
    } else {
        plus(row_y::<T>((index - 1) as nat), whole::<T>(ROW_HEIGHT))
    }
}

/// The rows of the first `count` actors.
pub open spec fn stat_rows<T: Scalar>(origin: T, stats: Seq<ActorStat>, count: nat) -> Seq<Draw<T>>
    decreases count,
{
    if count == 0 {
        Seq::empty()
    } else {
        let stat = stats[count - 1];
        let color = if stat.alive {
            panel_text::<T>()
        } else {
            panel_dead::<T>()
        };
        stat_rows(origin, stats, (count - 1) as nat) + row_cells(
            origin,
            row_y::<T>(count),
            color,
            row_texts(stat),
        )
    }
}

/// How many of the first `count` actors are alive.
pub open spec fn live_count(stats: Seq<ActorStat>, count: nat) -> nat
    decreases count,
{
    if count == 0 {
        0
    } else {
        live_count(stats, (count - 1) as nat) + if stats[count - 1].alive {
            1nat
        } else {
            0nat
        }
    }
}

/// The arenas of those of the first `count` actors that are alive, together.
pub open spec fn live_bytes(stats: Seq<ActorStat>, count: nat) -> nat
    decreases count,
{
    if count == 0 {
        0
    } else {
        live_bytes(stats, (count - 1) as nat) + if stats[count - 1].alive {
            stats[count - 1].arena_bytes as nat
        } else {
            0nat
        }
    }
}

/// The panel's last line.
pub open spec fn footer(stats: Seq<ActorStat>) -> Seq<char> {
    decimal(live_count(stats, stats.len()) as int) + "/"@ + decimal(stats.len() as int)
        + " live \u{b7} "@ + glance(live_bytes(stats, stats.len())) + " in arenas"@
}

/// The actor panel, in the top-right corner of a viewport this wide: a header,
/// a row per actor and a footer. No actors, no panel.
pub open spec fn panel_drawn<T: Scalar>(width: T, stats: Seq<ActorStat>) -> Seq<Draw<T>> {
    if stats.len() == 0 {
        Seq::empty()
    } else {
        let margin = whole::<T>(PANEL_MARGIN);
        let rows = plus(count_of::<T>(stats.len()), whole::<T>(2));
        let height = plus(
            times(rows, whole::<T>(ROW_HEIGHT)),
            times(whole::<T>(PANEL_PAD), whole::<T>(2)),
        );
        let left = larger_of(
            minus(minus(width, whole::<T>(PANEL_WIDTH)), margin),
            margin,
        );
        let origin = plus(left, whole::<T>(PANEL_PAD));
        seq![
            Draw::Rect {
                x: left,
                y: margin,
                width: whole::<T>(PANEL_WIDTH),
                height,
                color: panel_back::<T>(),
            },
        ] + row_cells(origin, row_y::<T>(0), panel_head::<T>(), headings()) + stat_rows(
            origin,
            stats,
            stats.len(),
        ) + seq![cell(origin, row_y::<T>(stats.len() + 1), panel_head::<T>(), footer(stats))]
    }
}

fn push_cell<T: Scalar>(
    commands: &mut Vec<Command<T>>,
    x: T,
    y: T,
    color: Color<T>,
    text: String,
)
    requires
        exact::<T>(),
    ensures
        draws_of(final(commands)@) == draws_of(old(commands)@).push(cell(x, y, color, text@)),
{
    commands.push(Command::Text { x, y, size: from_whole(PANEL_FONT), color, text });
    assert(draws_of(commands@) =~= draws_of(old(commands)@).push(cell(x, y, color, text@)));
}

fn push_row<T: Scalar>(
    commands: &mut Vec<Command<T>>,
    origin: T,
    y: T,
    color: Color<T>,
    first: String,
    second: String,
    third: String,
    fourth: String,
    fifth: String,
)
    requires
        exact::<T>(),
    ensures
        draws_of(final(commands)@) == draws_of(old(commands)@) + row_cells(
            origin,
            y,
            color,
            seq![first@, second@, third@, fourth@, fifth@],
        ),
{
    push_cell(commands, origin + from_whole(0), y, color, first);
    push_cell(commands, origin + from_whole(124), y, color, second);
    push_cell(commands, origin + from_whole(190), y, color, third);
    push_cell(commands, origin + from_whole(236), y, color, fourth);
    push_cell(commands, origin + from_whole(274), y, color, fifth);
    assert(draws_of(commands@) =~= draws_of(old(commands)@) + row_cells(
        origin,
        y,
        color,
        seq![first@, second@, third@, fourth@, fifth@],
    ));
}

fn name_of(stat: &ActorStat) -> (r: String)
    ensures
        r@ == row_name(*stat),
{
    let mut name = stat.name.clone();
    if !stat.alive {
        name.append(" (dead)");
    } else if stat.generation != 0 {
        name.append(" \u{d7}");
        push_number(&mut name, stat.generation as u64);
    }
    name
}

/// Per-actor arena sizes, mailbox depths and fiber counts, making isolation
/// something you can watch rather than something you are told.
fn actor_panel<T: Scalar>(commands: &mut Vec<Command<T>>, width: T, stats: &Vec<ActorStat>)
    requires
        exact::<T>(),
        live_bytes(stats@, stats@.len()) <= u64::MAX,
    ensures
        draws_of(final(commands)@) == draws_of(old(commands)@) + panel_drawn(width, stats@),
{
    let ghost before = draws_of(commands@);
    if stats.len() == 0 {
        assert(before =~= before + Seq::empty());
        return ;
    }
    // Header, one row per actor, footer.

    let rows = from_count::<T>(stats.len()) + from_whole(2);
    let pad: T = from_whole(PANEL_PAD);
    let margin: T = from_whole(PANEL_MARGIN);
    let step: T = from_whole(ROW_HEIGHT);
    let height = rows * step + pad * from_whole(2);
    let left = larger(width - from_whole(PANEL_WIDTH) - margin, margin);
    commands.push(
        Command::Rect {
            x: left,
            y: margin,
            width: from_whole(PANEL_WIDTH),
            height,
            color: Color::of_hundredths(2, 2, 3, 86),
        },
    );
    let ghost back = seq![
        Draw::Rect {
            x: left,
            y: margin,
            width: whole::<T>(PANEL_WIDTH),
            height,
            color: panel_back::<T>(),
        },
    ];
    assert(draws_of(commands@) =~= before + back);
    let origin = left + pad;
    let mut y = margin + pad;
    let head = Color::<T>::of_solid(45, 62, 85);
    let live = Color::<T>::of_solid(86, 88, 92);
    let dead = Color::<T>::of_solid(95, 45, 35);
    push_row(
        commands,
        origin,
        y,
        head,
        "actor".to_owned(),
        "arena".to_owned(),
        "mbox".to_owned(),
        "fib".to_owned(),
        "msgs".to_owned(),
    );
    let ghost top = before + back + row_cells(
        origin,
        row_y::<T>(0),
        panel_head::<T>(),
        headings(),
    );
    assert(draws_of(commands@) =~= top + stat_rows(origin, stats@, 0));
    let mut bytes_live: u64 = 0;
    let mut alive: usize = 0;
    for i in 0..stats.len()
        invariant
            exact::<T>(),
            live_bytes(stats@, stats@.len()) <= u64::MAX,
            step == whole::<T>(ROW_HEIGHT),
            live == panel_text::<T>(),
            dead == panel_dead::<T>(),
            y == row_y::<T>(i as nat),
            bytes_live == live_bytes(stats@, i as nat),
            alive == live_count(stats@, i as nat),
            alive <= i,
            draws_of(commands@) == top + stat_rows(origin, stats@, i as nat),
    {
        let stat = &stats[i];
        y = y + step;
        let color = if stat.alive {
            live
        } else {
            dead
        };
        proof {
            lemma_live_bytes(stats@, (i + 1) as nat);
        }
        if stat.alive {
            bytes_live = bytes_live + stat.arena_bytes;
            alive = alive + 1;
        }
        let ghost here = draws_of(commands@);
        push_row(
            commands,
            origin,
            y,
            color,
            name_of(stat),
            bytes(stat.arena_bytes),
            number(stat.mailbox as u64),
            number(stat.fibers as u64),
            number(stat.handled),
        );
        assert(draws_of(commands@) =~= top + stat_rows(origin, stats@, (i + 1) as nat));
    }
    y = y + step;
    let mut last = number(alive as u64);
    last.append("/");
    push_number(&mut last, stats.len() as u64);
    last.append(" live \u{b7} ");
    last.append(bytes(bytes_live).as_str());
    last.append(" in arenas");
    push_cell(commands, origin, y, head, last);
    assert(draws_of(commands@) =~= before + panel_drawn(width, stats@));
}

proof fn lemma_live_bytes(stats: Seq<ActorStat>, count: nat)
    requires
        count <= stats.len(),
    ensures
        live_bytes(stats, count) <= live_bytes(stats, stats.len()),
    decreases stats.len() - count,
{
    if count < stats.len() {
        lemma_live_bytes(stats, count + 1);
    }
}

/// What is left of one edge of an outline inside a clip.
pub open spec fn edge<T: Scalar>(
    clip: Option<Bounds<T>>,
    x: T,
    y: T,
    width: T,
    height: T,
    color: Color<T>,
) -> Seq<Draw<T>> {
    match visible(clip, Bounds { x, y, width, height }) {
        Some(seen) => seq![
            Draw::Rect {
                x: seen.x,
                y: seen.y,
                width: seen.width,
                height: seen.height,
                color,
            },
        ],
        None => Seq::empty(),
    }
}

/// Four thin rectangles around a box, each trimmed to the region the box was
/// drawn under.
pub open spec fn outlined<T: Scalar>(
    rect: Bounds<T>,
    clip: Option<Bounds<T>>,
    weight: T,
    color: Color<T>,
) -> Seq<Draw<T>> {
    let Bounds { x, y, width, height } = rect;
    edge(clip, x, y, width, weight, color) + edge(
        clip,
        x,
        minus(plus(y, height), weight),
        width,
        weight,
        color,
    ) + edge(clip, x, y, weight, height, color) + edge(
        clip,
        minus(plus(x, width), weight),
        y,
        weight,
        height,
        color,
    )
}

fn push_edge<T: Scalar>(
    commands: &mut Vec<Command<T>>,
    clip: Option<Bounds<T>>,
    x: T,
    y: T,
    width: T,
    height: T,
    color: Color<T>,
)
    requires
        exact::<T>(),
    ensures
        draws_of(final(commands)@) == draws_of(old(commands)@) + edge(
            clip,
            x,
            y,
            width,
            height,
            color,
        ),
{
    if let Some(seen) = clip_to(clip, Bounds { x, y, width, height }) {
        commands.push(
            Command::Rect {
                x: seen.x,
                y: seen.y,
                width: seen.width,
                height: seen.height,
                color,
            },
        );
    }
    assert(draws_of(commands@) =~= draws_of(old(commands)@) + edge(
        clip,
        x,
        y,
        width,
        height,
        color,
    ));
}

/// Four thin rects. A stroked rectangle primitive would be fewer commands, but
/// would also be a second thing the renderer has to understand.
///
/// Each edge is clipped on its own, so an outline that is half inside a scroll
/// is drawn half, which is what the content under it looks like.
fn outline_within<T: Scalar>(
    commands: &mut Vec<Command<T>>,
    rect: Bounds<T>,
    clip: Option<Bounds<T>>,
    weight: T,
    color: Color<T>,
)
    requires
        exact::<T>(),
    ensures
        draws_of(final(commands)@) == draws_of(old(commands)@) + outlined(
            rect,
            clip,
            weight,
            color,
        ),
{
    let Bounds { x, y, width, height } = rect;
    push_edge(commands, clip, x, y, width, weight, color);
    push_edge(commands, clip, x, y + height - weight, width, weight, color);
    push_edge(commands, clip, x, y, weight, height, color);
    push_edge(commands, clip, x + width - weight, y, weight, height, color);
    assert(draws_of(commands@) =~= draws_of(old(commands)@) + outlined(
        rect,
        clip,
        weight,
        color,
    ));
}

/// A region with no area: what is left where nested clips do not meet.
pub open spec fn nowhere<T: Scalar>() -> Bounds<T> {
    let zero = whole::<T>(0);
    Bounds { x: zero, y: zero, width: zero, height: zero }
}

/// The clips that are open after the first `count` commands, outermost first,
/// each narrowed by those around it.
pub open spec fn clips_after<T: Scalar>(commands: Seq<Draw<T>>, count: nat) -> Seq<Bounds<T>>
    decreases count,
{
    if count == 0 {
        Seq::empty()
    } else {
        let open = clips_after(commands, (count - 1) as nat);
        match commands[count - 1] {
            Draw::ClipStart { x, y, width, height } => {
                let region = Bounds { x, y, width, height };
                open.push(
                    if open.len() > 0 {
                        match open.last().meet(region) {
                            Some(nested) => nested,
                            None => nowhere::<T>(),
                        }
                    } else {
                        region
                    },
                )
            },
            Draw::ClipEnd => if open.len() > 0 {
                open.drop_last()
            } else {
                open
            },
            _ => open,
        }
    }
}

/// The innermost clip that is open after the first `count` commands.
pub open spec fn clip_after<T: Scalar>(commands: Seq<Draw<T>>, count: nat) -> Option<Bounds<T>> {
    let open = clips_after(commands, count);
    if open.len() > 0 {
        Some(open.last())
    } else {
        None
    }
}

/// The outlines of the boxes among the first `count` commands, each under the
/// clip it was drawn under.
pub open spec fn outlines<T: Scalar>(commands: Seq<Draw<T>>, count: nat) -> Seq<Draw<T>>
    decreases count,
{
    if count == 0 {
        Seq::empty()
    } else {
        let before = outlines(commands, (count - 1) as nat);
        match commands[count - 1] {
            Draw::Rect { x, y, width, height, .. } => before + outlined(
                Bounds { x, y, width, height },
                clip_after(commands, (count - 1) as nat),
                whole::<T>(1),
                outline_color::<T>(),
            ),
            _ => before,
        }
    }
}

/// The first of the hit regions from `index` on with this id.
pub open spec fn first_hit<T>(hits: Seq<HitRegion<T>>, id: HitId, index: nat) -> Option<
    HitRegion<T>,
>
    decreases hits.len() - index,
{
    if index >= hits.len() {
        None
    } else if hits[index as int].id == id {
        Some(hits[index as int])
    } else {
        first_hit(hits, id, index + 1)
    }
}

/// The outline of the node under the pointer.
pub open spec fn highlighted<T: Scalar>(hits: Seq<HitRegion<T>>, id: Option<HitId>) -> Seq<
    Draw<T>,
> {
    match id {
        None => Seq::empty(),
        Some(id) => match first_hit(hits, id, 0) {
            None => Seq::empty(),
            Some(region) => outlined(
                Bounds {
                    x: region.x,
                    y: region.y,
                    width: region.width,
                    height: region.height,
                },
                None,
                whole::<T>(2),
                highlight_color::<T>(),
            ),
        },
    }
}

#[derive(Debug, Clone, Copy, PartialEq, Eq, Structural)]
pub struct Inspector {
    pub enabled: bool,
    /// The node under the pointer, drawn differently: the devtools habit of
    /// showing you what you are about to click.
    pub highlight: Option<HitId>,
}

impl Inspector {
    /// What the inspector draws over a frame.
    pub open spec fn drawn<T: Scalar>(
        self,
        frame: Picture<T>,
        width: T,
        stats: Seq<ActorStat>,
    ) -> Seq<Draw<T>> {
        if self.enabled {
            outlines(frame.commands, frame.commands.len()) + highlighted(
                frame.hits,
                self.highlight,
            ) + panel_drawn(width, stats)
        } else {
            Seq::empty()
        }
    }

    /// An inspector that is off.
    pub fn new() -> (r: Self)
        ensures
            r == (Inspector { enabled: false, highlight: None }),
    {
        Inspector { enabled: false, highlight: None }
    }

    pub fn toggle(&mut self)
        ensures
            *final(self) == (Inspector { enabled: !old(self).enabled, ..*old(self) }),
    {
        self.enabled = !self.enabled;
    }

    /// Appends overlay commands. Call after layout, before painting.
    ///
    /// `stats` is drawn as a panel in the top-right corner; pass an empty list
    /// where there are no actors to report, and no panel appears.
    ///
    /// The outlines go on the end of the array, past every `ClipEnd`, so
    /// nothing would trim them: each box is outlined under the clip it was
    /// drawn under, or a row scrolled out of a list would be outlined across
    /// whatever sits above and below it.
    pub fn overlay<T: Scalar>(
        &self,
        frame: &mut Frame<T>,
        viewport: (T, T),
        stats: &Vec<ActorStat>,
    )
        requires
            exact::<T>(),
            self.enabled ==> live_bytes(stats@, stats@.len()) <= u64::MAX,
        ensures
            final(frame)@ == (Picture {
                commands: old(frame)@.commands + self.drawn(old(frame)@, viewport.0, stats@),
                hits: old(frame)@.hits,
                scrolls: old(frame)@.scrolls,
            }),
    {
        let ghost under = frame@;
        if !self.enabled {
            assert(frame@.commands =~= under.commands + Seq::empty());
            return ;
        }
        let one: T = from_whole(1);
        let hue = Color::<T>::of_hundredths(20, 85, 80, 55);
        let count: usize = frame.commands.len();
        let mut clips: Vec<Bounds<T>> = Vec::new();
        assert(clips@ =~= clips_after(under.commands, 0));
        assert(frame@.commands =~= under.commands + outlines(under.commands, 0));
        for i in 0..count
            invariant
                exact::<T>(),
                one == whole::<T>(1),
                hue == outline_color::<T>(),
                count == under.commands.len(),
                frame@.hits == under.hits,
                frame@.scrolls == under.scrolls,
                frame@.commands == under.commands + outlines(under.commands, i as nat),
                clips@ == clips_after(under.commands, i as nat),
        {
            assert(frame.commands@.len() == frame@.commands.len());
            assert(frame@.commands[i as int] == under.commands[i as int]);
            assert(frame.commands@[i as int]@ == under.commands[i as int]);
            match &frame.commands[i] {
                Command::Rect { x, y, width, height, .. } => {
                    let rect = Bounds { x: *x, y: *y, width: *width, height: *height };
                    let clip = if clips.len() > 0 {
                        Some(clips[clips.len() - 1])
                    } else {
                        None
                    };
                    outline_within(&mut frame.commands, rect, clip, one, hue);
                    assert(frame@.commands =~= under.commands + outlines(
                        under.commands,
                        (i + 1) as nat,
                    ));
                },
                Command::ClipStart { x, y, width, height } => {
                    let region = Bounds { x: *x, y: *y, width: *width, height: *height };
                    let nested = if clips.len() > 0 {
                        // Nothing survives an empty intersection, and a
                        // zero-area region is what says so.
                        match clips[clips.len() - 1].intersect(region) {
                            Some(nested) => nested,
                            None => {
                                let zero: T = from_whole(0);
                                Bounds { x: zero, y: zero, width: zero, height: zero }
                            },
                        }
                    } else {
                        region
                    };
                    clips.push(nested);
                },
                Command::ClipEnd => {
                    clips.pop();
                    assert(clips@ =~= clips_after(under.commands, (i + 1) as nat));
                },
                // Text has no box of its own; outlining one would be inventing
                // geometry.
                Command::Text { .. } => {},
            }
        }
        let ghost boxed = under.commands + outlines(under.commands, under.commands.len());
        if let Some(id) = self.highlight {
            let mut found: Option<HitRegion<T>> = None;
            let mut i: usize = 0;
            while i < frame.hits.len() && found.is_none()
                invariant
                    i <= frame.hits@.len(),
                    frame@.hits == under.hits,
                    found is None ==> first_hit(under.hits, id, 0) == first_hit(
                        under.hits,
                        id,
                        i as nat,
                    ),
                    found is Some ==> first_hit(under.hits, id, 0) == found,
                decreases frame.hits@.len() - i,
            {
                if frame.hits[i].id == id {
                    found = Some(frame.hits[i]);
                }
                i = i + 1;
            }
            if let Some(region) = found {
                let rect = Bounds {
                    x: region.x,
                    y: region.y,
                    width: region.width,
                    height: region.height,
                };
                let bright = Color::<T>::of_hundredths(100, 45, 20, 95);
                let color = Color { r: one, ..bright };
                outline_within(&mut frame.commands, rect, None, from_whole(2), color);
            }
        }
        assert(frame@.commands =~= boxed + highlighted(under.hits, self.highlight));
        actor_panel(&mut frame.commands, viewport.0, stats);
        assert(frame@.commands =~= under.commands + self.drawn(under, viewport.0, stats@));
    }
}

impl Default for Inspector {
    fn default() -> (r: Self)
        ensures
            r == (Inspector { enabled: false, highlight: None }),
    {
        Inspector::new()
    }
}

/// The overlay only adds: every command of the frame is still there, in its
/// place, under it.
pub proof fn the_overlay_only_adds<T: Scalar>(
    inspector: Inspector,
    frame: Picture<T>,
    width: T,
    stats: Seq<ActorStat>,
)
    ensures
        (frame.commands + inspector.drawn(frame, width, stats)).take(frame.commands.len() as int)
            == frame.commands,
{
    assert((frame.commands + inspector.drawn(frame, width, stats)).take(
        frame.commands.len() as int,
    ) =~= frame.commands);
}

/// An inspector that is off draws nothing.
pub proof fn a_disabled_inspector_draws_nothing<T: Scalar>(
    inspector: Inspector,
    frame: Picture<T>,
    width: T,
    stats: Seq<ActorStat>,
)
    requires
        !inspector.enabled,
    ensures
        inspector.drawn(frame, width, stats).len() == 0,
{
}

/// The panel is a background, a header of five, five texts per actor and a
/// footer.
pub proof fn the_panel_has_a_row_per_actor<T: Scalar>(width: T, stats: Seq<ActorStat>)
    requires
        stats.len() > 0,
    ensures
        panel_drawn(width, stats).len() == 7 + 5 * stats.len(),
{
    let margin = whole::<T>(PANEL_MARGIN);
    let left = larger_of(minus(minus(width, whole::<T>(PANEL_WIDTH)), margin), margin);
    lemma_stat_rows(plus(left, whole::<T>(PANEL_PAD)), stats, stats.len());
}

proof fn lemma_stat_rows<T: Scalar>(origin: T, stats: Seq<ActorStat>, count: nat)
    ensures
        stat_rows(origin, stats, count).len() == 5 * count,
    decreases count,
{
    if count > 0 {
        lemma_stat_rows(origin, stats, (count - 1) as nat);
    }
}

/// Whether a command paints a rectangle that a point is in.
pub open spec fn paints<T: Scalar>(draw: Draw<T>, at_x: T, at_y: T) -> bool {
    draw matches Draw::Rect { x, y, width, height, .. } && (Bounds { x, y, width, height }).covers(
        at_x,
        at_y,
    )
}

/// An outline stays inside the scroll its box belongs to: it paints no point
/// outside the clip, wherever a point in the overlap of two rectangles is in
/// both of them.
pub proof fn an_outline_stays_in_its_clip<T: Scalar>(
    rect: Bounds<T>,
    clip: Bounds<T>,
    weight: T,
    color: Color<T>,
    at_x: T,
    at_y: T,
)
    requires
        overlaps_narrow::<T>(),
    ensures
        forall|i: int|
            0 <= i < outlined(rect, Some(clip), weight, color).len() && paints(
                #[trigger] outlined(rect, Some(clip), weight, color)[i],
                at_x,
                at_y,
            ) ==> clip.covers(at_x, at_y),
{
    let Bounds { x, y, width, height } = rect;
    let low = minus(plus(y, height), weight);
    let far = minus(plus(x, width), weight);
    let top = edge(Some(clip), x, y, width, weight, color);
    let bottom = edge(Some(clip), x, low, width, weight, color);
    let left = edge(Some(clip), x, y, weight, height, color);
    let right = edge(Some(clip), far, y, weight, height, color);
    let all = outlined(rect, Some(clip), weight, color);
    assert(all == top + bottom + left + right);
    assert forall|i: int| 0 <= i < all.len() && paints(#[trigger] all[i], at_x, at_y) implies clip.covers(
        at_x,
        at_y,
    ) by {
        let a = top.len() as int;
        let b = a + bottom.len();
        let c = b + left.len();
        if i < a {
            assert(all[i] == top[i]);
        } else if i < b {
            assert(all[i] == bottom[i - a]);
        } else if i < c {
            assert(all[i] == left[i - b]);
        } else {
            assert(all[i] == right[i - c]);
        }
    }
}

/// An outline that nothing trims is the four edges of its box, each as thick as
/// it is heavy: the top and bottom as long as the box is wide, the sides as long
/// as it is high, and all of them inside it.
pub proof fn an_outline_is_its_four_edges<T: Scalar>(
    rect: Bounds<T>,
    weight: T,
    color: Color<T>,
    index: int,
)
    requires
        0 <= index < 4,
    ensures
        ({
            let edges = outlined(rect, None, weight, color);
            let flat = index < 2;
            &&& edges.len() == 4
            &&& edges[index] matches Draw::Rect { x, y, width, height, color: hue } && {
                &&& hue == color
                &&& width == if flat {
                    rect.width
                } else {
                    weight
                }
                &&& height == if flat {
                    weight
                } else {
                    rect.height
                }
                &&& x == if index == 3 {
                    minus(plus(rect.x, rect.width), weight)
                } else {
                    rect.x
                }
                &&& y == if index == 1 {
                    minus(plus(rect.y, rect.height), weight)
                } else {
                    rect.y
                }
            }
        }),
{
}

/// The panel says what each actor does: its row is its name, the size of its
/// arena, and how many messages wait, fibers run and messages were handled, one
/// under each heading, a line below the row before.
pub proof fn the_panel_says_what_each_actor_does<T: Scalar>(
    width: T,
    stats: Seq<ActorStat>,
    index: int,
    column: int,
)
    requires
        0 <= index < stats.len(),
        0 <= column < 5,
    ensures
        ({
            let panel = panel_drawn(width, stats);
            let stat = stats[index];
            let heading = panel[1 + column];
            let said = panel[6 + 5 * index + column];
            &&& panel.len() == 7 + 5 * stats.len()
            &&& panel[0] is Rect
            &&& heading matches Draw::Text { x, text, .. } && said matches Draw::Text {
                x: there,
                y,
                color: hue,
                text: value,
                ..
            } && {
                &&& x == there
                &&& hue == if stat.alive {
                    panel_text::<T>()
                } else {
                    panel_dead::<T>()
                }
                &&& y == row_y::<T>((index + 1) as nat)
                &&& column == 0 ==> text == "actor"@ && value.take(stat.name@.len() as int)
                    == stat.name@
                &&& column == 1 ==> text == "arena"@ && value == glance(stat.arena_bytes as nat)
                &&& column == 2 ==> text == "mbox"@ && value == decimal(stat.mailbox as int)
                &&& column == 3 ==> text == "fib"@ && value == decimal(stat.fibers as int)
                &&& column == 4 ==> text == "msgs"@ && value == decimal(stat.handled as int)
                &&& column == 0 && !stat.alive ==> value == stat.name@ + " (dead)"@
                &&& column == 0 && stat.alive && stat.generation == 0 ==> value == stat.name@
            }
        }),
{
    let margin = whole::<T>(PANEL_MARGIN);
    let left = larger_of(minus(minus(width, whole::<T>(PANEL_WIDTH)), margin), margin);
    let origin = plus(left, whole::<T>(PANEL_PAD));
    the_panel_has_a_row_per_actor(width, stats);
    lemma_stat_rows(origin, stats, stats.len());
    lemma_stat_row(origin, stats, stats.len(), index, column);
    let panel = panel_drawn(width, stats);
    let rows = stat_rows(origin, stats, stats.len());
    let head = row_cells(origin, row_y::<T>(0), panel_head::<T>(), headings());
    assert(panel[1 + column] == head[column]);
    assert(panel[6 + 5 * index + column] == rows[5 * index + column]);
    let stat = stats[index];
    assert(row_name(stat).take(stat.name@.len() as int) =~= stat.name@);
}

proof fn lemma_stat_row<T: Scalar>(
    origin: T,
    stats: Seq<ActorStat>,
    count: nat,
    index: int,
    column: int,
)
    requires
        0 <= index < count <= stats.len(),
        0 <= column < 5,
    ensures
        5 * index + column < stat_rows(origin, stats, count).len(),
        stat_rows(origin, stats, count)[5 * index + column] == cell(
            plus(origin, whole::<T>(columns()[column])),
            row_y::<T>((index + 1) as nat),
            if stats[index].alive {
                panel_text::<T>()
            } else {
                panel_dead::<T>()
            },
            row_texts(stats[index])[column],
        ),
    decreases count,
{
    lemma_stat_rows(origin, stats, (count - 1) as nat);
    lemma_stat_rows(origin, stats, count);
    if index < count - 1 {
        lemma_stat_row(origin, stats, (count - 1) as nat, index, column);
    }
}

/// Sizes are told to the nearest unit: bytes exactly, and kilobytes to within
/// half of one.
pub proof fn sizes_are_told_to_the_nearest_unit(count: nat)
    ensures
        count < 0x400 ==> glance(count) == decimal(count as int) + "B"@,
        0x400 <= count < 0x10_0000 ==> exists|k: nat|
            glance(count) == #[trigger] decimal(k as int) + "KB"@ && 2 * (k * 0x400) <= 2 * count
                + 0x400 && 2 * count <= 2 * (k * 0x400) + 0x400,
{
    if count < 0x10_0000 {
        assert(spacing(count) == 1);
        assert(single(count) == count);
        if count >= 0x400 {
            let k = half_even(count, 0x400);
            assert(glance(count) == decimal(k as int) + "KB"@);
        }
    }
}

/// The node under the pointer is outlined twice as heavily, in its own colour,
/// where it can be hit, and nothing is where no node has that id.
pub proof fn the_node_under_the_pointer_stands_out<T: Scalar>(
    hits: Seq<HitRegion<T>>,
    id: HitId,
    index: int,
)
    requires
        0 <= index < hits.len(),
        hits[index].id == id,
        forall|j: int| 0 <= j < index ==> (#[trigger] hits[j]).id != id,
    ensures
        ({
            let region = hits[index];
            let rect = Bounds {
                x: region.x,
                y: region.y,
                width: region.width,
                height: region.height,
            };
            highlighted(hits, Some(id)) == outlined(
                rect,
                None,
                whole::<T>(2),
                highlight_color::<T>(),
            )
        }),
{
    lemma_first_hit(hits, id, index, 0);
}

proof fn lemma_first_hit<T>(hits: Seq<HitRegion<T>>, id: HitId, index: int, from: nat)
    requires
        from <= index < hits.len(),
        hits[index].id == id,
        forall|j: int| 0 <= j < index ==> (#[trigger] hits[j]).id != id,
    ensures
        first_hit(hits, id, from) == Some(hits[index]),
    decreases index - from,
{
    if from < index {
        lemma_first_hit(hits, id, index, from + 1);
    }
}

proof fn lemma_live(stats: Seq<ActorStat>, count: nat)
    requires
        count <= stats.len(),
    ensures
        live_count(stats, count) == stats.take(count as int).filter(
            |stat: ActorStat| stat.alive,
        ).len(),
    decreases count,
{
    reveal(Seq::filter);
    let all = stats.take(count as int);
    if count > 0 {
        lemma_live(stats, (count - 1) as nat);
        assert(all.drop_last() =~= stats.take(count - 1));
        assert(all.last() == stats[count - 1]);
    }
}

/// The footer counts those that are alive, out of all there are, and what their
/// arenas take together: a dead actor adds nothing, a living one its arena.
pub proof fn the_footer_counts_the_living(stats: Seq<ActorStat>, next: ActorStat)
    ensures
        ({
            let live = stats.filter(|stat: ActorStat| stat.alive).len();
            let more = stats.push(next);
            &&& footer(stats) == decimal(live as int) + "/"@ + decimal(stats.len() as int)
                + " live \u{b7} "@ + glance(live_bytes(stats, stats.len())) + " in arenas"@
            &&& live_bytes(Seq::<ActorStat>::empty(), 0) == 0
            &&& live_bytes(more, more.len()) == live_bytes(stats, stats.len()) + if next.alive {
                next.arena_bytes as int
            } else {
                0int
            }
        }),
{
    lemma_live(stats, stats.len());
    assert(stats.take(stats.len() as int) =~= stats);
    lemma_live_push(stats, next, stats.len());
}

proof fn lemma_live_push(stats: Seq<ActorStat>, next: ActorStat, count: nat)
    requires
        count <= stats.len(),
    ensures
        live_bytes(stats.push(next), count) == live_bytes(stats, count),
    decreases count,
{
    if count > 0 {
        lemma_live_push(stats, next, (count - 1) as nat);
    }
}

/// A box is outlined under the clips that are open where it is: a clip narrows
/// what is open, and when it closes what was open before is open again.
pub proof fn a_clip_narrows_outlines_and_gives_back<T: Scalar>(
    commands: Seq<Draw<T>>,
    region: Bounds<T>,
)
    ensures
        ({
            let Bounds { x, y, width, height } = region;
            let opened = commands.push(Draw::ClipStart { x, y, width, height });
            let closed = opened.push(Draw::ClipEnd);
            let before = clip_after(commands, commands.len());
            &&& clip_after(opened, opened.len()) == match before {
                None => Some(region),
                Some(outer) => match outer.meet(region) {
                    Some(both) => Some(both),
                    None => Some(nowhere::<T>()),
                },
            }
            &&& clip_after(closed, closed.len()) == before
        }),
{
    let Bounds { x, y, width, height } = region;
    let opened = commands.push(Draw::ClipStart { x, y, width, height });
    let closed = opened.push(Draw::ClipEnd);
    lemma_clips_push(commands, Draw::ClipStart { x, y, width, height }, commands.len());
    lemma_clips_push(opened, Draw::ClipEnd, opened.len());
    let open = clips_after(commands, commands.len());
    assert(clips_after(opened, opened.len()).drop_last() =~= open);
}

proof fn lemma_clips_push<T: Scalar>(commands: Seq<Draw<T>>, next: Draw<T>, count: nat)
    requires
        count <= commands.len(),
    ensures
        clips_after(commands.push(next), count) == clips_after(commands, count),
    decreases count,
{
    if count > 0 {
        lemma_clips_push(commands, next, (count - 1) as nat);
    }
}

/// Every box is outlined, once and in order, under the clip it was drawn under.
pub proof fn every_box_is_outlined<T: Scalar>(commands: Seq<Draw<T>>, index: int)
    requires
        0 <= index < commands.len(),
    ensures
        ({
            let all = outlines(commands, commands.len());
            let before = outlines(commands, index as nat);
            let here = match commands[index] {
                Draw::Rect { x, y, width, height, .. } => before + outlined(
                    Bounds { x, y, width, height },
                    clip_after(commands, index as nat),
                    whole::<T>(1),
                    outline_color::<T>(),
                ),
                _ => before,
            };
            &&& here.len() <= all.len()
            &&& all.take(here.len() as int) == here
            &&& !(commands[index] is Rect) ==> outlines(commands, (index + 1) as nat) == before
        }),
{
    lemma_outlines(commands, (index + 1) as nat, commands.len());
}

proof fn lemma_outlines<T: Scalar>(commands: Seq<Draw<T>>, less: nat, more: nat)
    requires
        less <= more <= commands.len(),
    ensures
        ({
            let (a, b) = (outlines(commands, less), outlines(commands, more));
            a.len() <= b.len() && b.take(a.len() as int) == a
        }),
    decreases more,
{
    let (a, b) = (outlines(commands, less), outlines(commands, more));
    if less < more {
        lemma_outlines(commands, less, (more - 1) as nat);
        let c = outlines(commands, (more - 1) as nat);
        assert(b.take(a.len() as int) =~= c.take(a.len() as int));
    } else {
        assert(b.take(b.len() as int) =~= b);
    }
}

/// The panel is a table in the top-right corner: each of its lines is a row
/// height under the one before, it is as high as all of them and the room around
/// them, and it stays a margin from the edges of the viewport.
pub proof fn the_panel_is_a_table_in_the_corner<T: Scalar>(
    width: T,
    stats: Seq<ActorStat>,
    index: nat,
)
    requires
        stats.len() > 0,
    ensures
        row_y::<T>(0) == plus(whole::<T>(8), whole::<T>(8)),
        row_y::<T>(index + 1) == plus(row_y::<T>(index), whole::<T>(15)),
        panel_drawn(width, stats)[0] matches Draw::Rect { x, y, width: wide, height, .. } && {
            &&& x == larger_of(
                minus(minus(width, whole::<T>(330)), whole::<T>(8)),
                whole::<T>(8),
            )
            &&& y == whole::<T>(8)
            &&& wide == whole::<T>(330)
            &&& height == plus(
                times(plus(count_of::<T>(stats.len()), whole::<T>(2)), whole::<T>(15)),
                times(whole::<T>(8), whole::<T>(2)),
            )
        },
{
}

/// The footer is the last line of the panel, a line under the last actor.
pub proof fn the_footer_is_the_last_line<T: Scalar>(width: T, stats: Seq<ActorStat>)
    requires
        stats.len() > 0,
    ensures
        panel_drawn(width, stats).last() matches Draw::Text { y, text, .. } && text == footer(stats)
            && y == plus(row_y::<T>(stats.len()), whole::<T>(15)),
{
}

} // verus!
