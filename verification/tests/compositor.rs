//! What the compositor draws next.

use std::sync::mpsc::{channel, Receiver, Sender};

use strand::compositor::SceneReceiver;

type Node = strand::scene::Node<f32>;
type Sizing = strand::scene::Sizing<f32>;
type Style = strand::scene::Style<f32>;

struct Submit(Sender<Node>);

impl Submit {
    fn submit(&self, tree: Node) -> bool {
        self.0.send(tree).is_ok()
    }
}

/// The compositor end: whatever has arrived is drained, and handed over.
struct Poll {
    rx: Receiver<Node>,
    scenes: SceneReceiver<f32>,
}

impl Poll {
    fn poll(&mut self) -> bool {
        self.scenes.poll(self.rx.try_iter().collect())
    }

    fn current(&self) -> Option<&Node> {
        self.scenes.current()
    }

    fn superseded(&self) -> usize {
        self.scenes.superseded()
    }
}

fn scene_channel() -> (Submit, Poll) {
    let (tx, rx) = channel();
    (Submit(tx), Poll { rx, scenes: SceneReceiver::new() })
}

fn tree(width: f32) -> Node {
    Node::Box { style: Style { width: Sizing::Fixed(width), ..Default::default() } }
}

fn width_of(node: &Node) -> f32 {
    match node {
        Node::Box { style } => match style.width {
            Sizing::Fixed(width) => width,
            _ => -1.0,
        },
        _ => -1.0,
    }
}

#[test]
fn the_compositor_has_nothing_to_draw_before_the_first_submission() {
    let (_sender, mut receiver) = scene_channel();
    assert!(!receiver.poll());
    assert!(receiver.current().is_none());
}

#[test]
fn polling_takes_the_newest_tree_and_drops_the_stale_ones() {
    let (sender, mut receiver) = scene_channel();
    sender.submit(tree(1.0));
    sender.submit(tree(2.0));
    sender.submit(tree(3.0));

    assert!(receiver.poll(), "a submission should register as a change");
    assert_eq!(width_of(receiver.current().unwrap()), 3.0, "latest wins, no backlog");
}

#[test]
fn a_frame_with_no_submission_redraws_the_last_tree() {
    let (sender, mut receiver) = scene_channel();
    sender.submit(tree(7.0));
    receiver.poll();

    for _ in 0..10 {
        assert!(!receiver.poll(), "nothing new arrived");
        assert_eq!(
            width_of(receiver.current().unwrap()),
            7.0,
            "but there is still a frame to draw"
        );
    }
}


#[test]
fn an_app_running_ahead_has_its_extra_frames_skipped() {
    let (sender, mut receiver) = scene_channel();
    sender.submit(tree(1.0));
    receiver.poll();

    // Three more arrive before the next poll; two are never drawn.
    sender.submit(tree(2.0));
    sender.submit(tree(3.0));
    sender.submit(tree(4.0));
    receiver.poll();

    assert_eq!(width_of(receiver.current().unwrap()), 4.0);
    assert_eq!(receiver.superseded(), 2, "skipped rather than queued");
}

#[test]
fn a_dead_app_leaves_the_last_frame_standing() {
    let (sender, mut receiver) = scene_channel();
    sender.submit(tree(5.0));
    receiver.poll();
    drop(sender);

    // A crashed UI actor must not take the window down with it.
    assert!(!receiver.poll());
    assert_eq!(width_of(receiver.current().unwrap()), 5.0);
}
