//! Reading a frame out of a guest's memory.

use strand::frame::{decode, read_records, FrameError, NodeKind, RecordTable};

type Node = strand::scene::Node<f32>;
type Theme = strand::widgets::Theme<f32>;

/// Where a record's parts are, as the tests write them.
fn table() -> RecordTable {
    RecordTable {
        size: 32,
        kind: 0,
        children: 4,
        id: 8,
        flag: 12,
        text: 16,
        text2: 20,
        number: 24,
        number2: 28,
        kinds: KINDS.to_vec(),
    }
}

const KINDS: [NodeKind; 11] = [
    NodeKind::Screen,
    NodeKind::Column,
    NodeKind::Row,
    NodeKind::Panel,
    NodeKind::Scroll,
    NodeKind::Text,
    NodeKind::Muted,
    NodeKind::Button,
    NodeKind::Checkbox,
    NodeKind::TextInput,
    NodeKind::Spacer,
];

/// Writes a node record the way a view does, so the decoder is tested against
/// the layout rather than against itself.
struct Writer {
    memory: Vec<u8>,
    count: u32,
}

const BASE: u32 = 4096;

enum Slot {
    Text,
}

impl Slot {
    fn offset(&self) -> u32 {
        match self {
            Slot::Text => table().text,
        }
    }
}

fn read(memory: &[u8], count: u32) -> Result<Node, FrameError> {
    let records = read_records(&table(), memory, BASE, count);
    let numbers = records
        .read
        .iter()
        .map(|record| (f32::from_bits(record.number), f32::from_bits(record.number2)))
        .collect();
    decode(&Theme::standard(), &records, &numbers)
}

impl Writer {
    fn new() -> Self {
        Self { memory: vec![0; 65_536], count: 0 }
    }

    fn put_u32(&mut self, at: usize, value: u32) {
        self.memory[at..at + 4].copy_from_slice(&value.to_le_bytes());
    }

    fn string(&mut self, at: u32, text: &str) -> u32 {
        self.put_u32(at as usize, text.len() as u32);
        self.memory[at as usize + 4..at as usize + 4 + text.len()]
            .copy_from_slice(text.as_bytes());
        at
    }

    fn node(&mut self, kind: NodeKind, children: usize) -> usize {
        let at = BASE as usize + self.count as usize * table().size as usize;
        let tag = KINDS.iter().position(|known| *known == kind).unwrap();
        self.put_u32(at + table().kind as usize, tag as u32);
        self.put_u32(at + table().children as usize, children as u32);
        self.count += 1;
        at
    }

    fn slot(&mut self, at: usize, slot: Slot, value: u32) {
        self.put_u32(at + slot.offset() as usize, value);
    }

    fn decode(&self) -> Result<Node, FrameError> {
        read(&self.memory, self.count)
    }
}

#[test]
fn a_leaf_decodes_to_one_node() {
    let mut writer = Writer::new();
    let text = writer.string(1024, "hello");
    let at = writer.node(NodeKind::Text, 0);
    writer.slot(at, Slot::Text, text);

    let tree = writer.decode().expect("one leaf is a tree");
    assert!(matches!(&tree, Node::Text { text, .. } if text == "hello"));
}

#[test]
fn post_order_rebuilds_the_tree_in_source_order() {
    // column { text("a") text("b") } — children first, parent last, and the
    // children must come back the way they were written.
    let mut writer = Writer::new();
    let a = writer.string(1024, "a");
    let b = writer.string(1088, "b");
    let first = writer.node(NodeKind::Text, 0);
    writer.slot(first, Slot::Text, a);
    let second = writer.node(NodeKind::Text, 0);
    writer.slot(second, Slot::Text, b);
    writer.node(NodeKind::Column, 2);

    let tree = writer.decode().expect("a column of two");
    let Node::Column { children, .. } = &tree else { panic!("expected a column: {tree:?}") };
    assert_eq!(children.len(), 2);
    assert!(matches!(&children[0], Node::Text { text, .. } if text == "a"));
    assert!(matches!(&children[1], Node::Text { text, .. } if text == "b"));
}

#[test]
fn nesting_survives_the_flattening() {
    // row { text("a") column { text("b") } }
    let mut writer = Writer::new();
    let a = writer.string(1024, "a");
    let b = writer.string(1088, "b");
    let outer_first = writer.node(NodeKind::Text, 0);
    writer.slot(outer_first, Slot::Text, a);
    let inner = writer.node(NodeKind::Text, 0);
    writer.slot(inner, Slot::Text, b);
    writer.node(NodeKind::Column, 1);
    writer.node(NodeKind::Row, 2);

    let tree = writer.decode().expect("a row of two");
    let Node::Row { children, .. } = &tree else { panic!("expected a row") };
    assert_eq!(children.len(), 2);
    assert!(matches!(&children[0], Node::Text { .. }));
    let Node::Column { children: inner, .. } = &children[1] else {
        panic!("expected a nested column")
    };
    assert_eq!(inner.len(), 1);
}



#[test]
fn an_empty_frame_is_an_error_rather_than_a_blank_window() {
    let writer = Writer::new();
    let message = writer.decode().unwrap_err().message();
    assert!(message.contains("drew nothing"), "{message}");
}

#[test]
fn a_frame_that_is_not_post_order_is_refused() {
    // A container claiming more children than exist means the array was
    // built by something that is not this compiler. Better to say so than
    // to render whatever happens to be lying around.
    let mut writer = Writer::new();
    writer.node(NodeKind::Column, 3);
    let message = writer.decode().unwrap_err().message();
    assert!(message.contains("post-order"), "{message}");
}

#[test]
fn several_roots_are_refused() {
    let mut writer = Writer::new();
    writer.node(NodeKind::Spacer, 0);
    writer.node(NodeKind::Spacer, 0);
    let message = writer.decode().unwrap_err().message();
    assert!(message.contains("one Node"), "{message}");
}

#[test]
fn a_frame_running_past_memory_is_refused() {
    let writer = Writer { memory: vec![0; 32], count: 1 };
    assert!(read(&writer.memory, 1).is_err());
}

#[test]
fn a_full_frame_still_decodes() {
    // The most nodes a frame array of 64 KB holds.
    let capacity: u32 = 2048;
    let mut writer = Writer::new();
    writer.memory = vec![0; (BASE + capacity * table().size + 64) as usize];
    for _ in 0..capacity - 1 {
        writer.node(NodeKind::Spacer, 0);
    }
    writer.node(NodeKind::Column, capacity as usize - 1);
    let tree = writer.decode().expect("a full arena still decodes");
    let Node::Column { children, .. } = &tree else { panic!("expected a column") };
    assert_eq!(children.len(), capacity as usize - 1);
}

#[test]
fn every_refusal_says_why() {
    let mut writer = Writer::new();
    let at = writer.node(NodeKind::Text, 0);
    writer.put_u32(at, 11);
    assert_eq!(
        writer.decode().unwrap_err().message(),
        "frame holds an unknown node kind 11"
    );
    writer.put_u32(at, u32::MAX);
    assert_eq!(
        writer.decode().unwrap_err().message(),
        "frame holds an unknown node kind -1"
    );
    writer.put_u32(at, 5);
    writer.put_u32(1024, 70_000);
    writer.slot(at, Slot::Text, 1024);
    assert_eq!(
        writer.decode().unwrap_err().message(),
        "string at 0x400 claims 70000 bytes it does not have"
    );
    assert_eq!(
        read(&[0; 32], 1).unwrap_err().message(),
        "frame runs past the guest's memory at 0x1000"
    );
    let mut order = Writer::new();
    order.node(NodeKind::Spacer, 0);
    order.node(NodeKind::Row, 2);
    assert_eq!(
        order.decode().unwrap_err().message(),
        "node 1 claims 2 children but only 1 are unclaimed \u{2014} the frame is not in post-order"
    );
}

#[test]
fn a_record_that_cannot_be_read_comes_after_those_before_it() {
    // The first record is out of order and the second unreadable: the first is
    // what is wrong.
    let mut writer = Writer::new();
    writer.node(NodeKind::Row, 1);
    let second = writer.node(NodeKind::Text, 0);
    writer.put_u32(second, 99);
    assert!(writer.decode().unwrap_err().message().contains("post-order"));
}

#[test]
fn text_that_is_not_utf8_is_shown_with_what_is_wrong_replaced() {
    let mut writer = Writer::new();
    writer.put_u32(1024, 3);
    writer.memory[1028..1031].copy_from_slice(&[b'a', 0xff, b'b']);
    let at = writer.node(NodeKind::Muted, 0);
    writer.slot(at, Slot::Text, 1024);
    let tree = writer.decode().expect("one leaf is a tree");
    let Node::Text { text, style } = &tree else { panic!("expected a text: {tree:?}") };
    assert_eq!(text, "a\u{fffd}b");
    assert_eq!(style.color, Theme::standard().muted);
}
