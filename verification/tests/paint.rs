//! Draw calls and what they are confined to.

use strand::paint::{
    batches, capacity_for, intersect, text_bounds, TextBounds, TextMark, INITIAL_CAPACITY,
};
use strand::pixels::Pixels;
use strand::scene::{Bounds, Color, Command};

fn rect() -> Command<f32> {
    let color = Color { r: 1.0, g: 1.0, b: 1.0, a: 1.0 };
    Command::Rect { x: 0.0, y: 0.0, width: 1.0, height: 1.0, color }
}

fn clip(x: f32, y: f32, width: f32, height: f32) -> Command<f32> {
    Command::ClipStart { x, y, width, height }
}

#[test]
fn a_frame_with_no_clips_is_one_draw_call() {
    let calls = batches(&vec![rect(), rect(), rect()]);
    assert_eq!(calls.len(), 1);
    assert_eq!((calls[0].start, calls[0].end, calls[0].scissor), (0, 3, None));
    assert!(batches(&Vec::<Command<f32>>::new()).is_empty());
}

#[test]
fn every_rectangle_is_in_one_draw_call() {
    let calls = batches(&vec![
        rect(),
        clip(0.0, 0.0, 100.0, 50.0),
        rect(),
        clip(50.0, 40.0, 100.0, 100.0),
        rect(),
        rect(),
        Command::ClipEnd,
        Command::ClipEnd,
        rect(),
    ]);
    let ranges: Vec<(u32, u32)> = calls.iter().map(|call| (call.start, call.end)).collect();
    assert_eq!(ranges, vec![(0, 1), (1, 2), (2, 4), (4, 5)]);
    assert_eq!(calls[1].scissor, Some(Bounds { x: 0.0, y: 0.0, width: 100.0, height: 50.0 }));
    assert_eq!(calls[2].scissor, Some(Bounds { x: 50.0, y: 40.0, width: 50.0, height: 10.0 }));
    assert_eq!(calls[3].scissor, None, "drawing resumes unconfined once the clip closes");
}

#[test]
fn regions_that_do_not_meet_overlap_nowhere() {
    let a = Bounds { x: 0.0, y: 0.0, width: 10.0, height: 10.0 };
    let b = Bounds { x: 20.0, y: 0.0, width: 10.0, height: 10.0 };
    assert_eq!(intersect(a, b), Bounds { x: 20.0, y: 0.0, width: 0.0, height: 10.0 });
    assert_eq!(a.intersect(b), None);
    let nan = Bounds { x: f32::NAN, ..a };
    assert_eq!(intersect(nan, a).x, 0.0, "what is not a number gives way");
}

#[test]
fn text_is_confined_to_every_clip_around_it() {
    let bounds = |left, top, right, bottom| TextBounds { left, top, right, bottom };
    let viewport = bounds(0, 0, 800, 600);
    let found = text_bounds(
        &vec![
            TextMark::Run,
            TextMark::ClipStart(bounds(10, 10, 100, 100)),
            TextMark::Other,
            TextMark::ClipStart(bounds(0, 50, 200, 80)),
            TextMark::Run,
            TextMark::ClipEnd,
            TextMark::Run,
            TextMark::ClipEnd,
            TextMark::ClipEnd,
            TextMark::Run,
        ],
        viewport,
    );
    assert_eq!(
        found,
        vec![viewport, bounds(10, 50, 100, 80), bounds(10, 10, 100, 100), viewport]
    );
}

#[test]
fn a_buffer_grows_to_the_next_power_of_two() {
    assert_eq!(capacity_for(0, INITIAL_CAPACITY), 256);
    assert_eq!(capacity_for(256, INITIAL_CAPACITY), 256);
    assert_eq!(capacity_for(257, INITIAL_CAPACITY), 512);
    assert_eq!(capacity_for(512, 300), 512);
    assert_eq!(capacity_for(1, 0), 1);
    assert_eq!(capacity_for(0x8000_0000, 0), 0x8000_0000);
}

#[test]
fn whole_pixels_agree_with_floats_on_whole_numbers() {
    let px = |x, y, width, height| Bounds {
        x: Pixels(x),
        y: Pixels(y),
        width: Pixels(width),
        height: Pixels(height),
    };
    assert_eq!(
        intersect(px(0, 0, 100, 50), px(50, 40, 100, 100)),
        px(50, 40, 50, 10),
        "the region that confines the inner rectangles"
    );
    assert_eq!(px(0, 0, 10, 10).intersect(px(20, 0, 10, 10)), None);
}

#[test]
fn whole_pixels_stop_at_the_ends_of_their_range() {
    let most = Pixels(i32::MAX);
    let least = Pixels(i32::MIN);
    assert_eq!(most + Pixels(1), most);
    assert_eq!(least - Pixels(1), least);
    assert_eq!(most * Pixels(-2), least);
    assert_eq!(least / Pixels(-1), most);
    assert_eq!(Pixels(7) / Pixels(2), Pixels(3));
    assert_eq!(Pixels(7) / Pixels(0), Pixels(0), "nothing to divide by leaves nothing");
    assert_eq!(Pixels(-7) % Pixels(2), Pixels(-1));
    assert_eq!(Pixels(7) % Pixels(-2), Pixels(1));
    assert_eq!(Pixels(7) % Pixels(0), Pixels(0));
    assert_eq!(Pixels::from(65535u16), Pixels(65535));
    assert!(Pixels(-1) < Pixels(0) && Pixels(0) >= Pixels(0));
}
