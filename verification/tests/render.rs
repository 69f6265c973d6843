//! Layout, painting order, widgets and the inspector, on the machine's floats
//! and with a real flex solver.

use strand::describe::Note;
use strand::flatten::{emit, Placed};
use strand::flex::{flex_tree, walk_laid_out, Approximate, Cross, Direction, Extent, FlexBox};
use strand::frame::{decode, read_records, FrameError, NodeKind, RecordTable};
use strand::inspect::{bytes, ActorStat, Inspector, StatsHandle};
use strand::scalar::from_count;
use strand::scene::{Align, HitId};
use strand::todo::{State, ADD_BUTTON, CHECKBOX_BASE, CLEAR_BUTTON};
use strand::widgets::{
    button, checkbox, muted_label, panel, screen, scroll, text_input, CARET_WIDTH,
};
use taffy::prelude::{length, percent, AvailableSpace, Dimension, Display, FlexDirection, NodeId};
use taffy::prelude::{AlignItems, JustifyContent, Rect, Size, TaffyTree};

type Color = strand::scene::Color<f32>;
type Command = strand::scene::Command<f32>;
type Frame = strand::scene::Frame<f32>;
type Node = strand::scene::Node<f32>;
type Sizing = strand::scene::Sizing<f32>;
type Style = strand::scene::Style<f32>;
type TextStyle = strand::scene::TextStyle<f32>;
type Theme = strand::widgets::Theme<f32>;

/// Lays trees out with the solver and keeps the frame between them.
struct Layouter {
    frame: Frame,
}

fn dimension(extent: Extent<f32>) -> Dimension {
    match extent {
        Extent::Auto => Dimension::auto(),
        Extent::Length(px) => length(px),
        Extent::Percent(fraction) => percent(fraction),
    }
}

fn solve(tree: &mut TaffyTree<()>, flex: &FlexBox<f32>, node: &Node) -> NodeId {
    match (flex, node) {
        (FlexBox::Container { style, children }, node) => {
            let nodes: &[Node] = match node {
                Node::Row { children, .. }
                | Node::Column { children, .. }
                | Node::Scroll { children, .. } => children,
                _ => &[],
            };
            let ids: Vec<NodeId> =
                children.iter().zip(nodes).map(|(flex, node)| solve(tree, flex, node)).collect();
            let overflow = if style.clips {
                taffy::Overflow::Hidden
            } else {
                taffy::Overflow::Visible
            };
            let style = taffy::Style {
                display: Display::Flex,
                flex_direction: match style.direction {
                    Direction::Row => FlexDirection::Row,
                    Direction::Column => FlexDirection::Column,
                },
                size: Size { width: dimension(style.width), height: dimension(style.height) },
                flex_grow: if style.grows { 1.0 } else { 0.0 },
                flex_shrink: if style.shrinks { 1.0 } else { 0.0 },
                overflow: taffy::Point { x: overflow, y: overflow },
                align_self: if style.stretches { Some(AlignItems::STRETCH) } else { None },
                padding: Rect::length(style.padding),
                gap: Size { width: length(style.gap), height: length(style.gap) },
                justify_content: match style.main_axis {
                    Align::Start => JustifyContent::FLEX_START,
                    Align::Center => JustifyContent::CENTER,
                    Align::End => JustifyContent::FLEX_END,
                    Align::SpaceBetween => JustifyContent::SPACE_BETWEEN,
                },
                align_items: match style.cross_axis {
                    Cross::Start => AlignItems::FLEX_START,
                    Cross::Center => AlignItems::CENTER,
                    Cross::End => AlignItems::FLEX_END,
                    Cross::Stretch => AlignItems::STRETCH,
                },
                ..Default::default()
            };
            tree.new_with_children(style, &ids).unwrap()
        }
        (FlexBox::Text { shrinks }, Node::Text { text, style }) => {
            let (width, height) = Approximate.measure(text, style.size);
            tree.new_leaf(taffy::Style {
                size: Size { width: length(width), height: length(height) },
                flex_shrink: if *shrinks { 1.0 } else { 0.0 },
                ..Default::default()
            })
            .unwrap()
        }
        _ => unreachable!("a text is a leaf"),
    }
}

fn placed(tree: &TaffyTree<()>, id: NodeId) -> Placed<f32> {
    let layout = tree.layout(id).unwrap();
    Placed {
        x: layout.location.x,
        y: layout.location.y,
        width: layout.size.width,
        height: layout.size.height,
        padding_bottom: layout.padding.bottom,
        children: tree.children(id).unwrap().into_iter().map(|id| placed(tree, id)).collect(),
    }
}

fn lay_out(root: &Node, viewport: (f32, f32)) -> Placed<f32> {
    let flex = flex_tree(root, viewport.0, viewport.1);
    let mut tree: TaffyTree<()> = TaffyTree::new();
    let id = solve(&mut tree, &flex, root);
    let space = Size {
        width: AvailableSpace::Definite(viewport.0),
        height: AvailableSpace::Definite(viewport.1),
    };
    tree.compute_layout(id, space).unwrap();
    placed(&tree, id)
}

impl Layouter {
    fn new() -> Self {
        Self { frame: Frame::default() }
    }

    fn layout(&mut self, root: &Node, viewport: (f32, f32)) -> &Frame {
        self.frame.clear();
        emit(root, &lay_out(root, viewport), 0.0, 0.0, None, &mut self.frame);
        &self.frame
    }
}

fn hex(color: Color) -> String {
    let channel = |value: f32| (value.clamp(0.0, 1.0) * 255.0).round() as u8;
    format!("#{:02x}{:02x}{:02x}", channel(color.r), channel(color.g), channel(color.b))
}

fn describe(root: &Node, viewport: (f32, f32)) -> String {
    let places = lay_out(root, viewport);
    let visits = walk_laid_out(root, &places);
    let mut out = String::new();
    for note in strand::describe::describe(viewport.0, viewport.1, &visits) {
        match note {
            Note::Char(c) => out.push(c),
            Note::Rounded(value) => out.push_str(&format!("{value:.0}")),
            Note::Hue(color) => out.push_str(&hex(color)),
        }
    }
    out
}

const RED: Color = Color { r: 1.0, g: 0.0, b: 0.0, a: 1.0 };
const BLUE: Color = Color { r: 0.0, g: 0.0, b: 1.0, a: 1.0 };



fn boxed(width: f32, height: f32, color: Color) -> Node {
    Node::Box {
        style: Style {
            width: Sizing::Fixed(width),
            height: Sizing::Fixed(height),
            background: Some(color),
            ..Default::default()
        },
    }
}

fn rects(frame: &Frame) -> Vec<(f32, f32, f32, f32)> {
    frame
        .commands
        .iter()
        .filter_map(|c| match c {
            Command::Rect { x, y, width, height, .. } => Some((*x, *y, *width, *height)),
            _ => None,
        })
        .collect()
}

#[test]
fn a_column_stacks_children_with_the_gap_between_them() {
    let tree = Node::column(
        Style { gap: 10.0, ..Default::default() },
        vec![boxed(50.0, 20.0, RED), boxed(50.0, 30.0, BLUE)],
    );
    let mut layouter = Layouter::new();
    let frame = layouter.layout(&tree, (200.0, 200.0));

    assert_eq!(
        rects(frame),
        vec![(0.0, 0.0, 50.0, 20.0), (0.0, 30.0, 50.0, 30.0)],
        "the second box starts after the first plus the gap"
    );
}

#[test]
fn a_row_lays_children_out_along_x() {
    let tree = Node::row(
        Style { gap: 8.0, ..Default::default() },
        vec![boxed(40.0, 10.0, RED), boxed(20.0, 10.0, BLUE)],
    );
    let mut layouter = Layouter::new();
    assert_eq!(
        rects(layouter.layout(&tree, (200.0, 200.0))),
        vec![(0.0, 0.0, 40.0, 10.0), (48.0, 0.0, 20.0, 10.0)]
    );
}

#[test]
fn padding_insets_children() {
    let tree = Node::column(
        Style { padding: 12.0, ..Default::default() },
        vec![boxed(10.0, 10.0, RED)],
    );
    let mut layouter = Layouter::new();
    assert_eq!(rects(layouter.layout(&tree, (200.0, 200.0)))[0], (12.0, 12.0, 10.0, 10.0));
}

#[test]
fn a_growing_root_fills_the_viewport() {
    // Found by a screenshot: the root has no parent to flex inside, so
    // without special handling it sized to its content and left the rest
    // of the window unpainted.
    let tree = Node::column(
        Style {
            width: Sizing::Grow,
            height: Sizing::Grow,
            background: Some(RED),
            ..Default::default()
        },
        vec![boxed(10.0, 10.0, BLUE)],
    );
    let mut layouter = Layouter::new();
    let frame = layouter.layout(&tree, (640.0, 480.0));
    assert_eq!(rects(frame)[0], (0.0, 0.0, 640.0, 480.0));
}

#[test]
fn growing_across_the_parent_axis_stretches_rather_than_flexes() {
    // `width: Grow` inside a column is a cross-axis request: span the
    // parent's width. It must not make the node taller.
    let tree = Node::column(
        Style { width: Sizing::Fixed(200.0), height: Sizing::Fixed(100.0), ..Default::default() },
        vec![
            Node::Box {
                style: Style {
                    width: Sizing::Grow,
                    height: Sizing::Fixed(20.0),
                    background: Some(RED),
                    ..Default::default()
                },
            },
            boxed(10.0, 10.0, BLUE),
        ],
    );
    let mut layouter = Layouter::new();
    let laid = rects(layouter.layout(&tree, (400.0, 400.0)));
    assert_eq!(laid[0], (0.0, 0.0, 200.0, 20.0), "full width, unchanged height");
    assert_eq!(laid[1].1, 20.0, "and the sibling still follows it");
}

#[test]
fn grow_takes_the_remaining_space() {
    let tree = Node::row(
        Style { width: Sizing::Fixed(100.0), height: Sizing::Fixed(10.0), ..Default::default() },
        vec![
            boxed(30.0, 10.0, RED),
            Node::Box {
                style: Style {
                    width: Sizing::Grow,
                    height: Sizing::Fixed(10.0),
                    background: Some(BLUE),
                    ..Default::default()
                },
            },
        ],
    );
    let mut layouter = Layouter::new();
    let laid = rects(layouter.layout(&tree, (200.0, 200.0)));
    assert_eq!(laid[1], (30.0, 0.0, 70.0, 10.0), "the grower fills what is left");
}

#[test]
fn percent_is_a_fraction_of_the_parent() {
    let tree = Node::row(
        Style { width: Sizing::Fixed(200.0), height: Sizing::Fixed(50.0), ..Default::default() },
        vec![Node::Box {
            style: Style {
                width: Sizing::Percent(0.25),
                height: Sizing::Fixed(50.0),
                background: Some(RED),
                ..Default::default()
            },
        }],
    );
    let mut layouter = Layouter::new();
    assert_eq!(rects(layouter.layout(&tree, (400.0, 400.0)))[0].2, 50.0);
}

#[test]
fn centring_is_one_property_not_five() {
    let tree = Node::row(
        Style {
            width: Sizing::Fixed(100.0),
            height: Sizing::Fixed(100.0),
            main_axis: Align::Center,
            cross_axis: Align::Center,
            ..Default::default()
        },
        vec![boxed(20.0, 20.0, RED)],
    );
    let mut layouter = Layouter::new();
    assert_eq!(rects(layouter.layout(&tree, (200.0, 200.0)))[0], (40.0, 40.0, 20.0, 20.0));
}

#[test]
fn a_node_without_a_background_paints_nothing() {
    let tree = Node::column(Style::default(), vec![boxed(10.0, 10.0, RED)]);
    let mut layouter = Layouter::new();
    assert_eq!(layouter.layout(&tree, (100.0, 100.0)).len(), 1, "only the child paints");
}

#[test]
fn text_becomes_a_text_command_at_its_laid_out_position() {
    let tree = Node::column(
        Style { padding: 5.0, ..Default::default() },
        vec![Node::text("hi".to_string(), TextStyle::standard())],
    );
    let mut layouter = Layouter::new();
    let frame = layouter.layout(&tree, (100.0, 100.0));
    let Command::Text { x, y, text, .. } = &frame.commands[0] else {
        panic!("expected a text command, got {:?}", frame.commands);
    };
    assert_eq!((*x, *y), (5.0, 5.0));
    assert_eq!(text, "hi");
}

#[test]
fn the_command_array_is_flat_regardless_of_nesting() {
    // Nesting is a layout concern; the output never reflects it.
    let deep = Node::column(
        Style::default(),
        vec![Node::row(
            Style::default(),
            vec![Node::column(Style::default(), vec![boxed(5.0, 5.0, RED)])],
        )],
    );
    let mut layouter = Layouter::new();
    assert_eq!(layouter.layout(&deep, (50.0, 50.0)).len(), 1);
}

fn hittable(width: f32, height: f32, id: u32) -> Node {
    Node::Box {
        style: Style {
            id: Some(HitId(id)),
            width: Sizing::Fixed(width),
            height: Sizing::Fixed(height),
            background: Some(RED),
            ..Default::default()
        },
    }
}

#[test]
fn only_identified_nodes_are_hit_targets() {
    let tree = Node::column(
        Style::default(),
        vec![boxed(50.0, 20.0, RED), hittable(50.0, 20.0, 7)],
    );
    let mut layouter = Layouter::new();
    let frame = layouter.layout(&tree, (100.0, 100.0));

    assert_eq!(frame.hits.len(), 1, "the anonymous box is not a target");
    assert_eq!(frame.hit_test(10.0, 30.0), Some(HitId(7)));
    assert_eq!(frame.hit_test(10.0, 5.0), None, "the anonymous box swallows nothing");
}

#[test]
fn a_point_outside_everything_hits_nothing() {
    let tree = Node::column(Style::default(), vec![hittable(10.0, 10.0, 1)]);
    let mut layouter = Layouter::new();
    let frame = layouter.layout(&tree, (100.0, 100.0));
    assert_eq!(frame.hit_test(50.0, 50.0), None);
}

#[test]
fn the_topmost_node_wins() {
    let tree = Node::row(
        Style {
            id: Some(HitId(1)),
            width: Sizing::Fixed(100.0),
            height: Sizing::Fixed(100.0),
            background: Some(BLUE),
            ..Default::default()
        },
        vec![hittable(40.0, 40.0, 2)],
    );
    let mut layouter = Layouter::new();
    let frame = layouter.layout(&tree, (200.0, 200.0));

    assert_eq!(frame.hit_test(10.0, 10.0), Some(HitId(2)), "the child is on top");
    assert_eq!(frame.hit_test(80.0, 80.0), Some(HitId(1)), "outside it, the parent");
}

#[test]
fn hit_regions_follow_layout() {
    let tree = Node::column(
        Style { padding: 20.0, ..Default::default() },
        vec![hittable(30.0, 30.0, 3)],
    );
    let mut layouter = Layouter::new();
    let frame = layouter.layout(&tree, (100.0, 100.0));
    assert_eq!(frame.hit_test(25.0, 25.0), Some(HitId(3)));
    assert_eq!(frame.hit_test(15.0, 15.0), None, "the padding is not the child");
}

/// A scroll of `height` px holding `count` rows of 30px each.
fn scrolling(count: usize, height: f32, offset: f32) -> Node {
    Node::Scroll {
        style: Style {
            id: Some(HitId(9)),
            width: Sizing::Fixed(100.0),
            height: Sizing::Fixed(height),
            ..Default::default()
        },
        offset,
        bar: None,
        children: (0..count).map(|i| hittable(100.0, 30.0, 100 + i as u32)).collect(),
    }
}

fn clips(frame: &Frame) -> Vec<(f32, f32, f32, f32)> {
    frame
        .commands
        .iter()
        .filter_map(|c| match c {
            Command::ClipStart { x, y, width, height } => Some((*x, *y, *width, *height)),
            _ => None,
        })
        .collect()
}

#[test]
fn a_scroll_brackets_its_content_in_a_clip() {
    let mut layouter = Layouter::new();
    let frame = layouter.layout(&scrolling(5, 60.0, 0.0), (200.0, 200.0));

    assert_eq!(clips(frame), vec![(0.0, 0.0, 100.0, 60.0)], "clipped to its own box");
    assert!(
        matches!(frame.commands.last(), Some(Command::ClipEnd)),
        "and the clip closes: {:?}",
        frame.commands.last()
    );
}

#[test]
fn content_taller_than_the_scroll_reports_room_to_move() {
    // Five 30px rows in 60px of space: 90px of overflow, and flexbox must
    // not have quietly squeezed them to fit.
    let mut layouter = Layouter::new();
    let frame = layouter.layout(&scrolling(5, 60.0, 0.0), (200.0, 200.0));

    let extent = frame.scrolls[0];
    assert_eq!(extent.id, HitId(9));
    assert_eq!(extent.max_offset, 90.0);
    assert_eq!(extent.offset, 0.0);
}

#[test]
fn content_that_fits_has_nowhere_to_scroll() {
    let mut layouter = Layouter::new();
    let frame = layouter.layout(&scrolling(2, 200.0, 0.0), (200.0, 300.0));
    assert_eq!(frame.scrolls[0].max_offset, 0.0);
}

#[test]
fn scrolling_moves_the_content_up_by_the_offset() {
    let mut layouter = Layouter::new();
    let at_rest = layouter.layout(&scrolling(5, 60.0, 0.0), (200.0, 200.0)).clone();
    let scrolled = layouter.layout(&scrolling(5, 60.0, 45.0), (200.0, 200.0)).clone();

    let first_row = |frame: &Frame| frame.hits.iter().find(|r| r.id == HitId(100)).copied();
    // The first row starts at the top and ends up 45px higher — which, for
    // a 30px row, means clipped out of existence.
    assert_eq!(at_rest.hits[0].y, 0.0);
    assert!(first_row(&scrolled).is_none(), "scrolled past, so no longer clickable");

    // The row that *is* visible has moved up by the offset.
    let third = scrolled.hits.iter().find(|r| r.id == HitId(102)).expect("row 2 is in view");
    assert_eq!(third.y, 60.0 - 45.0, "60px down the content, 45px scrolled");
}

#[test]
fn a_row_scrolled_out_of_sight_stops_being_clickable() {
    // The bug this prevents: content clipped visually but still hit-tested,
    // so clicking empty space below a list toggles something invisible.
    let mut layouter = Layouter::new();
    let frame = layouter.layout(&scrolling(5, 60.0, 0.0), (200.0, 200.0));

    assert_eq!(frame.hit_test(50.0, 10.0), Some(HitId(100)), "row 0 is in view");
    assert_eq!(frame.hit_test(50.0, 50.0), Some(HitId(101)), "row 1 is half in view");
    assert_eq!(frame.hit_test(50.0, 70.0), None, "row 2 is past the clip");
}

#[test]
fn a_half_visible_row_is_clickable_only_where_it_shows() {
    let mut layouter = Layouter::new();
    let frame = layouter.layout(&scrolling(5, 50.0, 0.0), (200.0, 200.0));

    // Row 1 spans 30..60, the scroll ends at 50.
    let row = frame.hits.iter().find(|r| r.id == HitId(101)).expect("row 1 shows");
    assert_eq!((row.y, row.height), (30.0, 20.0), "trimmed to the visible part");
    assert_eq!(frame.hit_test(50.0, 45.0), Some(HitId(101)));
    assert_eq!(frame.hit_test(50.0, 55.0), None);
}

#[test]
fn an_offset_past_the_end_is_clamped_rather_than_obeyed() {
    let mut layouter = Layouter::new();
    let frame = layouter.layout(&scrolling(5, 60.0, 10_000.0), (200.0, 200.0));

    assert_eq!(frame.scrolls[0].offset, 90.0, "clamped to the last full screen");
    let last = frame.hits.iter().find(|r| r.id == HitId(104)).expect("the last row shows");
    assert_eq!(last.y + last.height, 60.0, "and it sits against the bottom");
}

#[test]
fn nested_clips_intersect() {
    let inner = Node::Scroll {
        style: Style {
            id: Some(HitId(8)),
            width: Sizing::Fixed(100.0),
            height: Sizing::Fixed(200.0),
            ..Default::default()
        },
        offset: 0.0,
        bar: None,
        children: vec![hittable(100.0, 300.0, 7)],
    };
    let outer = Node::Scroll {
        style: Style {
            id: Some(HitId(9)),
            width: Sizing::Fixed(100.0),
            height: Sizing::Fixed(50.0),
            ..Default::default()
        },
        offset: 0.0,
        bar: None,
        children: vec![inner],
    };

    let mut layouter = Layouter::new();
    let frame = layouter.layout(&outer, (200.0, 200.0));
    assert_eq!(
        clips(frame),
        vec![(0.0, 0.0, 100.0, 50.0), (0.0, 0.0, 100.0, 50.0)],
        "the inner 200px-tall clip is cut down by the outer 50px one"
    );
}

#[test]
fn an_indicator_appears_only_when_there_is_more_to_see() {
    let mut layouter = Layouter::new();
    let with_bar = |count, height, offset| Node::Scroll {
        style: Style {
            id: Some(HitId(9)),
            width: Sizing::Fixed(100.0),
            height: Sizing::Fixed(height),
            ..Default::default()
        },
        offset,
        bar: Some(RED),
        children: (0..count).map(|i| hittable(100.0, 30.0, 100 + i as u32)).collect(),
    };

    let bar_of = |frame: &Frame| {
        frame
            .commands
            .iter()
            .filter_map(|c| match c {
                Command::Rect { x, y, width, color, .. } if *color == RED && *width == 4.0 => {
                    Some((*x, *y))
                }
                _ => None,
            })
            .next()
    };

    let fits = layouter.layout(&with_bar(1, 100.0, 0.0), (200.0, 200.0)).clone();
    assert!(bar_of(&fits).is_none(), "nothing to indicate when it all fits");

    let top = layouter.layout(&with_bar(10, 60.0, 0.0), (200.0, 200.0)).clone();
    let (x, y) = bar_of(&top).expect("an overflowing scroll shows its position");
    assert_eq!(x, 96.0, "against the right edge of the 100px box");
    assert_eq!(y, 0.0, "at the top when the offset is zero");

    let bottom = layouter.layout(&with_bar(10, 60.0, 240.0), (200.0, 200.0)).clone();
    let (_, y) = bar_of(&bottom).expect("still shown when scrolled");
    assert!(y > 0.0, "and it has travelled down");
}

#[test]
fn a_scroll_hidden_by_an_ancestor_emits_nothing_at_all() {
    // Not merely invisible: skipping the subtree is what keeps a clipped
    // frame cheap rather than merely correct.
    let hidden = Node::Scroll {
        style: Style {
            id: Some(HitId(9)),
            width: Sizing::Fixed(100.0),
            height: Sizing::Fixed(40.0),
            ..Default::default()
        },
        offset: 0.0,
        bar: None,
        children: vec![hittable(100.0, 30.0, 5)],
    };
    let outer = Node::Scroll {
        style: Style {
            id: Some(HitId(1)),
            width: Sizing::Fixed(100.0),
            height: Sizing::Fixed(40.0),
            ..Default::default()
        },
        // Scrolled far enough that the inner scroll — which sits 40px into
        // the content and is 40px tall — has passed entirely above the top.
        offset: 80.0,
        bar: None,
        children: vec![
            hittable(100.0, 40.0, 4),
            hidden,
            hittable(100.0, 200.0, 6),
        ],
    };

    let mut layouter = Layouter::new();
    let frame = layouter.layout(&outer, (200.0, 200.0));
    assert!(frame.hits.iter().all(|r| r.id != HitId(5)), "its content is gone");
    assert_eq!(clips(frame).len(), 1, "and it opened no clip of its own");
}

#[test]
fn scroll_regions_are_found_by_geometry_not_by_what_is_on_top() {
    // The wheel belongs to the container, even though the node under the
    // pointer is one of its rows.
    let mut layouter = Layouter::new();
    let frame = layouter.layout(&scrolling(5, 60.0, 0.0), (200.0, 200.0));

    assert_eq!(frame.hit_test(50.0, 10.0), Some(HitId(100)), "a row is on top");
    assert_eq!(frame.scroll_at(50.0, 10.0).map(|e| e.id), Some(HitId(9)), "the scroll gets it");
    assert!(frame.scroll_at(150.0, 10.0).is_none(), "and nothing outside it does");
}

#[test]
fn frames_reuse_their_allocation() {
    // The per-frame arena, in practice: capacity survives, contents do not.
    let tree = Node::column(Style::default(), vec![boxed(1.0, 1.0, RED)]);
    let mut layouter = Layouter::new();
    layouter.layout(&tree, (10.0, 10.0));
    let capacity = layouter.frame.commands.capacity();
    layouter.layout(&tree, (10.0, 10.0));
    assert_eq!(layouter.frame.commands.capacity(), capacity, "no reallocation per frame");
    assert_eq!(layouter.frame.len(), 1, "and no leftovers from last frame");
}


fn theme() -> Theme {
    Theme::standard()
}

#[test]
fn a_button_is_one_hit_target_covering_its_label() {
    let tree = screen(&theme(), vec![button(&theme(), HitId(1), "Add".to_string())]);
    let mut layouter = Layouter::new();
    let frame = layouter.layout(&tree, (400.0, 200.0));

    assert_eq!(frame.hits.len(), 1, "the label is not separately clickable");
    let region = frame.hits[0];
    assert_eq!(region.id, HitId(1));
    assert!(region.width > 0.0 && region.height > 0.0, "it has an area to click");
    // A click in the middle of the button lands on it.
    assert_eq!(
        frame.hit_test(region.x + region.width / 2.0, region.y + region.height / 2.0),
        Some(HitId(1))
    );
}

#[test]
fn a_checkbox_label_is_part_of_the_hit_target() {
    let tree = screen(&theme(), vec![checkbox(&theme(), HitId(2), false, "done".to_string())]);
    let mut layouter = Layouter::new();
    let frame = layouter.layout(&tree, (400.0, 200.0));

    let region = frame.hits[0];
    // The far end of the row is the text, and it must still toggle.
    let near_text_end = region.x + region.width - 1.0;
    assert_eq!(frame.hit_test(near_text_end, region.y + 2.0), Some(HitId(2)));
}

#[test]
fn checking_a_box_changes_only_its_colour() {
    let mut layouter = Layouter::new();
    let off = layouter.layout(&checkbox(&theme(), HitId(3), false, "x".to_string()), (200.0, 50.0)).clone();
    let on = layouter.layout(&checkbox(&theme(), HitId(3), true, "x".to_string()), (200.0, 50.0)).clone();

    assert_eq!(off.commands.len(), on.commands.len(), "the same shapes either way");
    let colour = |frame: &Frame| match frame.commands[0] {
        Command::Rect { color, .. } => color,
        _ => panic!("expected the mark first"),
    };
    assert_ne!(colour(&off), colour(&on));
    assert_eq!(colour(&on), theme().accent);
}

#[test]
fn widgets_compose_without_a_framework() {
    // A small screen: two buttons and two checkboxes, four hit targets,
    // all of it plain function calls.
    let tree = screen(
        &theme(),
        vec![
            panel(
                &theme(),
                vec![
                    checkbox(&theme(), HitId(10), true, "write the compiler".to_string()),
                    checkbox(&theme(), HitId(11), false, "write the renderer".to_string()),
                ],
            ),
            Node::row(
                Style { gap: theme().gap, ..Default::default() },
                vec![button(&theme(), HitId(20), "Add".to_string()), button(&theme(), HitId(21), "Clear".to_string())],
            ),
        ],
    );

    let mut layouter = Layouter::new();
    let frame = layouter.layout(&tree, (500.0, 300.0));
    let ids: Vec<u32> = frame.hits.iter().map(|region| region.id.0).collect();
    assert_eq!(ids, vec![10, 11, 20, 21], "hit regions follow paint order");
}

/// Where the field puts its text and its caret, for a given state.
fn field(value: &str, focused: bool) -> (Option<f32>, Option<f32>, (f32, f32)) {
    let mut layouter = Layouter::new();
    let tree = text_input(&theme(), HitId(1), value, "what needs doing?", focused);
    let frame = layouter.layout(&tree, (400.0, 80.0)).clone();

    let text = frame.commands.iter().find_map(|c| match c {
        Command::Text { x, .. } => Some(*x),
        _ => None,
    });
    let caret = frame.commands.iter().rev().find_map(|c| match c {
        Command::Rect { x, width, .. } if *width == f32::from(CARET_WIDTH) => Some(*x),
        _ => None,
    });
    let region = frame.hits[0];
    (text, caret, (region.width, region.height))
}

#[test]
fn the_value_does_not_move_when_the_field_takes_focus() {
    // The bug this exists for, reported from the running app: with the
    // prompt and the caret both on screen, the prompt jumped 4px right on
    // focus and 4px back on the first keystroke. The caret has to occupy
    // layout space, so the fix was to stop the two from coexisting.
    let (empty_blur, _, _) = field("", false);
    let (empty_focus, caret_focus, _) = field("", true);
    let (typed_focus, _, _) = field("milk", true);
    let (typed_blur, _, _) = field("milk", false);

    let left = empty_blur.expect("the prompt is drawn when unfocused");
    assert_eq!(empty_focus, None, "focus replaces the prompt rather than sharing with it");
    assert_eq!(caret_focus, Some(left), "and the caret starts exactly where text would");
    assert_eq!(typed_focus, Some(left), "typing does not move it either");
    assert_eq!(typed_blur, Some(left), "nor does losing focus");
}

#[test]
fn a_field_is_the_same_size_in_every_state() {
    // A field holding only a caret must be as tall as one holding text, or
    // the row jitters vertically on focus instead of horizontally.
    let sizes: Vec<(f32, f32)> = [("", false), ("", true), ("milk", true), ("milk", false)]
        .into_iter()
        .map(|(value, focused)| field(value, focused).2)
        .collect();
    assert!(
        sizes.windows(2).all(|pair| pair[0] == pair[1]),
        "the field changes size between states: {sizes:?}"
    );
}

#[test]
fn a_focused_field_shows_a_caret_after_what_was_typed() {
    let (text_x, caret_x, _) = field("milk", true);
    let text_x = text_x.expect("the value should be drawn");
    let caret_x = caret_x.expect("a focused field should show a caret");
    assert!(caret_x > text_x, "the caret sits after the text, at {caret_x}");
}

#[test]
fn an_unfocused_field_shows_no_caret() {
    assert_eq!(field("milk", false).1, None, "the caret is what focus looks like");
    assert_eq!(field("", false).1, None);
}

#[test]
fn an_empty_unfocused_field_prompts_in_muted_text() {
    let mut layouter = Layouter::new();
    let tree = text_input(&theme(), HitId(1), "", "what needs doing?", false);
    let frame = layouter.layout(&tree, (400.0, 80.0));
    let (text, color) = frame
        .commands
        .iter()
        .find_map(|c| match c {
            Command::Text { text, color, .. } => Some((text.clone(), *color)),
            _ => None,
        })
        .expect("the placeholder should be drawn");
    assert_eq!(text, "what needs doing?");
    assert_eq!(color, theme().muted, "a prompt is not the value");
}

#[test]
fn a_text_field_takes_focus_and_a_button_does_not() {
    // The rule the platform routes keys by: clicking a field starts typing,
    // clicking anything else stops it.
    let mut layouter = Layouter::new();
    let tree = screen(
        &theme(),
        vec![
            text_input(&theme(), HitId(1), "", "type here", false),
            button(&theme(), HitId(2), "Add".to_string()),
        ],
    );
    let frame = layouter.layout(&tree, (400.0, 200.0));
    let focusable: Vec<(u32, bool)> =
        frame.hits.iter().map(|r| (r.id.0, r.focusable)).collect();
    assert_eq!(focusable, vec![(1, true), (2, false)]);
}

#[test]
fn a_scroll_reports_how_far_it_could_go() {
    let mut layouter = Layouter::new();
    let rows: Vec<Node> = (0..20)
        .map(|i| checkbox(&theme(), HitId(100 + i), false, format!("row {i}")))
        .collect();
    let tree = screen(
        &theme(),
        vec![scroll(&theme(), HitId(9), 0.0, Sizing::Fixed(100.0), rows)],
    );
    let frame = layouter.layout(&tree, (400.0, 300.0));

    let extent = frame.scrolls.first().expect("the scroll should report itself");
    assert_eq!(extent.id, HitId(9));
    assert!(extent.max_offset > 0.0, "twenty rows do not fit in 100px");
    assert_eq!(extent.offset, 0.0);
}

#[test]
fn labels_carry_theme_colours_rather_than_inheriting_them() {
    let mut layouter = Layouter::new();
    let frame = layouter.layout(&muted_label(&theme(), "note".to_string()), (200.0, 50.0));
    let Command::Text { color, .. } = frame.commands[0] else {
        panic!("expected text");
    };
    assert_eq!(color, theme().muted);
}


const VIEWPORT: (f32, f32) = (400.0, 300.0);

fn stat(name: &str) -> ActorStat {
    ActorStat {
        name: name.to_string(),
        arena_bytes: 1_114_112,
        mailbox: 2,
        fibers: 1,
        handled: 34,
        generation: 0,
        alive: true,
    }
}

fn texts(frame: &Frame) -> Vec<String> {
    frame
        .commands
        .iter()
        .filter_map(|command| match command {
            Command::Text { text, .. } => Some(text.clone()),
            _ => None,
        })
        .collect()
}

fn sample() -> Node {
    Node::column(
        Style {
            width: Sizing::Fixed(200.0),
            height: Sizing::Fixed(100.0),
            padding: 10.0,
            background: Some(Color::rgb(0.1, 0.1, 0.12)),
            ..Default::default()
        },
        vec![
            Node::Box {
                style: Style {
                    id: Some(HitId(42)),
                    width: Sizing::Fixed(30.0),
                    height: Sizing::Fixed(20.0),
                    background: Some(Color::rgb(1.0, 0.0, 0.0)),
                    ..Default::default()
                },
            },
            Node::text("hi".to_string(), TextStyle::standard()),
        ],
    )
}

#[test]
fn describe_reports_where_things_actually_are() {
    let text = describe(&sample(), (400.0, 300.0));
    assert!(text.contains("viewport 400x300"), "{text}");
    assert!(text.contains("column  (0,0 200x100)"), "the root's real size:\n{text}");
    // Padding pushed the child in, and describe reports that rather than
    // the 0,0 the tree asked for.
    assert!(text.contains("box #42  (10,10 30x20)"), "the child's real position:\n{text}");
}

#[test]
fn describe_shows_colours_and_text() {
    let text = describe(&sample(), (400.0, 300.0));
    assert!(text.contains("bg #ff0000"), "box colour:\n{text}");
    assert!(text.contains("\"hi\""), "text content:\n{text}");
}

#[test]
fn describe_indents_by_depth() {
    let text = describe(&sample(), (400.0, 300.0));
    let lines: Vec<&str> = text.lines().collect();
    // viewport, root, then two children one level deeper.
    assert!(lines[1].starts_with("  column"), "{:?}", lines[1]);
    assert!(lines[2].starts_with("    box"), "{:?}", lines[2]);
}

#[test]
fn the_overlay_is_off_by_default_and_adds_nothing() {
    let mut layouter = Layouter::new();
    let mut frame = layouter.layout(&sample(), (400.0, 300.0)).clone();
    let before = frame.commands.len();
    Inspector::default().overlay(&mut frame, VIEWPORT, &Vec::new());
    assert_eq!(frame.commands.len(), before);
}

#[test]
fn an_inspector_that_is_off_reads_no_stats() {
    let mut layouter = Layouter::new();
    let mut frame = layouter.layout(&sample(), (400.0, 300.0)).clone();
    let before = frame.clone();
    let full = || ActorStat { arena_bytes: u64::MAX, alive: true, ..stat("full") };
    Inspector::new().overlay(&mut frame, VIEWPORT, &vec![full(), full()]);
    assert_eq!(frame, before);
}

#[test]
fn a_tree_and_a_handle_can_be_made_again() {
    let tree = sample();
    assert_eq!(tree.clone(), tree);
    let mut rows = vec![stat("stale")];
    assert!(StatsHandle::default().read_into(&mut rows));
    assert!(rows.is_empty(), "nothing was published");
}

#[test]
fn the_overlay_goes_on_and_off() {
    let mut inspector = Inspector::new();
    assert!(!inspector.enabled);
    inspector.toggle();
    assert!(inspector.enabled);
    inspector.toggle();
    assert!(!inspector.enabled);
}

#[test]
fn the_overlay_outlines_every_box_with_four_edges() {
    let mut layouter = Layouter::new();
    let mut frame = layouter.layout(&sample(), (400.0, 300.0)).clone();
    let rects = frame
        .commands
        .iter()
        .filter(|c| matches!(c, Command::Rect { .. }))
        .count();

    Inspector { enabled: true, highlight: None }.overlay(&mut frame, VIEWPORT, &Vec::new());
    let after = frame.commands.iter().filter(|c| matches!(c, Command::Rect { .. })).count();
    assert_eq!(after, rects + rects * 4, "four edges per box, and no outlines of outlines");
}

#[test]
fn highlighting_adds_one_more_outline_for_the_named_node() {
    let mut layouter = Layouter::new();
    let mut frame = layouter.layout(&sample(), (400.0, 300.0)).clone();
    let plain = {
        let mut copy = frame.clone();
        Inspector { enabled: true, highlight: None }.overlay(&mut copy, VIEWPORT, &Vec::new());
        copy.commands.len()
    };
    Inspector { enabled: true, highlight: Some(HitId(42)) }.overlay(&mut frame, VIEWPORT, &Vec::new());
    assert_eq!(frame.commands.len(), plain + 4, "the highlight is four more edges");
}

#[test]
fn outlines_stay_inside_the_scroll_they_belong_to() {
    // Reported from the running app: with F12 on, rows scrolled out of the
    // todo list were outlined across the field above and the buttons
    // below. The outlines go on the end of the array, past every `ClipEnd`,
    // so nothing was trimming them.
    //
    // Five 30px rows in a 60px window, scrolled 30: one row is entirely
    // above the top and two are entirely below the bottom.
    let tree = Node::Scroll {
        style: Style {
            id: Some(HitId(9)),
            width: Sizing::Fixed(100.0),
            height: Sizing::Fixed(60.0),
            ..Default::default()
        },
        offset: 30.0,
        bar: None,
        children: (0..5)
            .map(|index| Node::Box {
                style: Style {
                    id: Some(HitId(100 + index)),
                    width: Sizing::Fixed(100.0),
                    height: Sizing::Fixed(30.0),
                    background: Some(Color::rgb(1.0, 0.0, 0.0)),
                    ..Default::default()
                },
            })
            .collect(),
    };

    let mut layouter = Layouter::new();
    let viewport = (200.0, 200.0);
    let mut frame = layouter.layout(&tree, viewport).clone();
    let before = frame.commands.len();
    Inspector { enabled: true, highlight: None }.overlay(&mut frame, viewport, &Vec::new());

    let outlines = &frame.commands[before..];
    assert!(!outlines.is_empty(), "the visible rows are still outlined");
    for command in outlines {
        let Command::Rect { y, height, .. } = command else { continue };
        assert!(
            *y >= 0.0 && *y + *height <= 60.0,
            "an outline at y={y} height={height} escaped the 0..60 scroll"
        );
    }
}

#[test]
fn an_outline_half_inside_a_scroll_is_drawn_half() {
    // Trimmed rather than dropped: the inspector's job is to show what is
    // actually there, and half a row is what is there.
    let tree = Node::Scroll {
        style: Style {
            id: Some(HitId(9)),
            width: Sizing::Fixed(100.0),
            height: Sizing::Fixed(50.0),
            ..Default::default()
        },
        offset: 0.0,
        bar: None,
        children: vec![Node::Box {
            style: Style {
                width: Sizing::Fixed(100.0),
                height: Sizing::Fixed(80.0),
                background: Some(Color::rgb(1.0, 0.0, 0.0)),
                ..Default::default()
            },
        }],
    };

    let mut layouter = Layouter::new();
    let viewport = (200.0, 200.0);
    let mut frame = layouter.layout(&tree, viewport).clone();
    let before = frame.commands.len();
    Inspector { enabled: true, highlight: None }.overlay(&mut frame, viewport, &Vec::new());

    let outlines = &frame.commands[before..];
    assert!(!outlines.is_empty(), "the visible part is still outlined");
    for command in outlines {
        let Command::Rect { y, height, .. } = command else { continue };
        assert!(*y + *height <= 50.0, "an edge at y={y} height={height} ran past the clip");
    }
    // The 80px box's top edge survives; its bottom edge, at y = 78, does not.
    assert!(
        outlines.iter().any(|c| matches!(c, Command::Rect { y, .. } if *y == 0.0)),
        "the top edge should still be drawn"
    );
}

#[test]
fn the_actor_panel_reports_every_gauge_section_8_4_asks_for() {
    let mut frame = Frame::default();
    Inspector { enabled: true, highlight: None }.overlay(
        &mut frame,
        VIEWPORT,
        &vec![stat("counter")],
    );

    let drawn = texts(&frame);
    assert!(drawn.contains(&"counter".to_string()), "{drawn:?}");
    assert!(drawn.contains(&"1.06MB".to_string()), "arena size: {drawn:?}");
    assert!(drawn.contains(&"2".to_string()), "mailbox depth: {drawn:?}");
    assert!(drawn.contains(&"34".to_string()), "messages handled: {drawn:?}");
    assert!(drawn.iter().any(|t| t.contains("1/1 live")), "footer: {drawn:?}");
}

#[test]
fn no_actors_means_no_panel() {
    // An empty panel would be a claim that there is nothing to see, which
    // is different from having nothing to say.
    let mut frame = Frame::default();
    Inspector { enabled: true, highlight: None }.overlay(&mut frame, VIEWPORT, &Vec::new());
    assert!(frame.commands.is_empty());
}

#[test]
fn the_panel_only_appears_with_the_inspector() {
    let mut frame = Frame::default();
    Inspector::default().overlay(&mut frame, VIEWPORT, &vec![stat("counter")]);
    assert!(frame.commands.is_empty(), "F12 governs the whole overlay, panel included");
}

#[test]
fn a_restarted_actor_wears_its_generation_and_a_dead_one_says_so() {
    let mut frame = Frame::default();
    let restarted = ActorStat { generation: 2, ..stat("stats") };
    let dead = ActorStat { alive: false, generation: 1, ..stat("gone") };
    Inspector { enabled: true, highlight: None }.overlay(
        &mut frame,
        VIEWPORT,
        &vec![restarted, dead],
    );

    let drawn = texts(&frame);
    assert!(drawn.contains(&"stats ×2".to_string()), "{drawn:?}");
    assert!(drawn.contains(&"gone (dead)".to_string()), "{drawn:?}");
    // The footer counts arenas that still exist. A dead actor's is gone.
    assert!(drawn.iter().any(|t| t.contains("1/2 live · 1.06MB")), "{drawn:?}");
}

#[test]
fn the_panel_stays_inside_the_viewport_it_is_drawn_over() {
    // Found by thinking about the burn demo at a small window size: a panel
    // anchored right must not walk off the left edge of a narrow one.
    for width in [200.0_f32, 400.0, 1600.0] {
        let mut frame = Frame::default();
        Inspector { enabled: true, highlight: None }.overlay(
            &mut frame,
            (width, 300.0),
            &vec![stat("counter")],
        );
        let Command::Rect { x, .. } = frame.commands[0] else { panic!("panel first") };
        assert!(x >= 0.0, "panel left edge at {x} for a {width}px viewport");
        assert!(x <= width, "panel starts off-screen at {x} for {width}px");
    }
}

#[test]
fn a_busy_publisher_never_stalls_the_reader() {
    // The property the handle exists for: reading is `try_lock`, so a
    // compositor frame can never be held up by whoever is publishing.
    let handle = StatsHandle::new();
    handle.publish(vec![stat("counter")]);

    let mut out = Vec::new();
    assert!(handle.read_into(&mut out));
    assert_eq!(out.len(), 1);

    // With the slot held, the reader declines rather than waiting, and the
    // caller keeps the rows it already had.
    let held = handle.inner.lock().unwrap();
    assert!(!handle.read_into(&mut out), "reading must not block");
    assert_eq!(out.len(), 1, "and must leave the last snapshot standing");
    drop(held);
}

#[test]
fn a_count_becomes_the_nearest_float() {
    let tie = (1usize << 40) + (1 << 16);
    for n in [
        0,
        1,
        0x7fff,
        0x8000,
        16_777_215,
        16_777_217,
        16_777_219,
        0x7fff_ffff,
        0x8000_0000,
        0x8000_0001,
        0x8000_0080,
        0x8000_0081,
        0xffff_ffff,
        tie - 1,
        tie,
        tie + 1,
        usize::MAX,
    ] {
        assert_eq!(from_count::<f32>(n), n as f32, "{n}");
    }
}

#[test]
fn byte_sizes_read_at_a_glance() {
    assert_eq!(bytes(0), "0B");
    assert_eq!(bytes(512), "512B");
    assert_eq!(bytes(64 * 1024), "64KB");
    assert_eq!(bytes(1024 * 1024), "1.00MB");
}

/// Where a record's parts are, as the tests write them.
fn table() -> RecordTable {
    RecordTable {
        size: 32,
        kind: 0,
        children: 4,
        id: 8,
        flag: 12,
        text: 16,
        text2: 20,
        number: 24,
        number2: 28,
        kinds: KINDS.to_vec(),
    }
}

const KINDS: [NodeKind; 11] = [
    NodeKind::Screen,
    NodeKind::Column,
    NodeKind::Row,
    NodeKind::Panel,
    NodeKind::Scroll,
    NodeKind::Text,
    NodeKind::Muted,
    NodeKind::Button,
    NodeKind::Checkbox,
    NodeKind::TextInput,
    NodeKind::Spacer,
];

/// Writes a node record the way a view does, so the decoder is tested against
/// the layout rather than against itself.
struct Writer {
    memory: Vec<u8>,
    count: u32,
}

const BASE: u32 = 4096;

enum Slot {
    Id,
    Text,
    Number2,
}

impl Slot {
    fn offset(&self) -> u32 {
        match self {
            Slot::Id => table().id,
            Slot::Text => table().text,
            Slot::Number2 => table().number2,
        }
    }
}

fn read(memory: &[u8], count: u32) -> Result<Node, FrameError> {
    let records = read_records(&table(), memory, BASE, count);
    let numbers = records
        .read
        .iter()
        .map(|record| (f32::from_bits(record.number), f32::from_bits(record.number2)))
        .collect();
    decode(&Theme::standard(), &records, &numbers)
}

impl Writer {
    fn new() -> Self {
        Self { memory: vec![0; 65_536], count: 0 }
    }

    fn put_u32(&mut self, at: usize, value: u32) {
        self.memory[at..at + 4].copy_from_slice(&value.to_le_bytes());
    }

    fn string(&mut self, at: u32, text: &str) -> u32 {
        self.put_u32(at as usize, text.len() as u32);
        self.memory[at as usize + 4..at as usize + 4 + text.len()]
            .copy_from_slice(text.as_bytes());
        at
    }

    fn node(&mut self, kind: NodeKind, children: usize) -> usize {
        let at = BASE as usize + self.count as usize * table().size as usize;
        let tag = KINDS.iter().position(|known| *known == kind).unwrap();
        self.put_u32(at + table().kind as usize, tag as u32);
        self.put_u32(at + table().children as usize, children as u32);
        self.count += 1;
        at
    }

    fn slot(&mut self, at: usize, slot: Slot, value: u32) {
        self.put_u32(at + slot.offset() as usize, value);
    }

    fn decode(&self) -> Result<Node, FrameError> {
        read(&self.memory, self.count)
    }
}

#[test]
fn props_reach_the_widget_they_were_written_on() {
    let mut writer = Writer::new();
    let label = writer.string(1024, "Add");
    let at = writer.node(NodeKind::Button, 0);
    writer.slot(at, Slot::Id, 7);
    writer.slot(at, Slot::Text, label);

    let tree = writer.decode().expect("a button");
    let mut layouter = Layouter::new();
    let frame = layouter.layout(&tree, (200.0, 60.0));
    assert_eq!(frame.hits.len(), 1);
    assert_eq!(frame.hits[0].id.0, 7, "the id the view wrote is the id input routes to");
}

#[test]
fn spacing_props_reach_layout() {
    let mut writer = Writer::new();
    let a = writer.string(1024, "a");
    let leaf = writer.node(NodeKind::Text, 0);
    writer.slot(leaf, Slot::Text, a);
    let at = writer.node(NodeKind::Column, 1);
    writer.put_u32(at + Slot::Number2.offset() as usize, 20.0f32.to_bits());

    let tree = writer.decode().expect("a padded column");
    let mut layouter = Layouter::new();
    let frame = layouter.layout(&tree, (200.0, 60.0));
    let Command::Text { x, y, .. } = frame.commands[0] else {
        panic!("expected the label")
    };
    assert_eq!((x, y), (20.0, 20.0), "padding: 20 inset the child");
}

#[test]
fn every_todo_gets_its_own_hit_target() {
    let state = State::new();
    let tree = strand::todo::view(&Theme::standard(), &state);
    let mut layouter = Layouter::new();
    let frame = layouter.layout(&tree, (600.0, 400.0));

    let ids: Vec<u32> = frame.hits.iter().map(|region| region.id.0).collect();
    assert_eq!(
        ids,
        vec![CHECKBOX_BASE, CHECKBOX_BASE + 1, CHECKBOX_BASE + 2, ADD_BUTTON, CLEAR_BUTTON],
        "three checkboxes and two buttons, in paint order"
    );
}
