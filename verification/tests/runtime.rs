//! The runtime's decisions, and finding the demos' fixtures.

use strand::examples::{dir, Candidate};
use strand::inspect::{bytes, refresh, ActorStat};
use strand::runtime::{
    handle, read_guest_bytes, to_row, ActorStats, Handling, Message, Registry, SendError,
    SimOptions,
};
use strand::text::{address, number, signed_number};

#[test]
fn every_gauge_survives_the_crossing() {
    let row = to_row(ActorStats {
        id: 3,
        name: "ticker".into(),
        arena_bytes: 1_114_112,
        mailbox: 4,
        fibers: 1,
        handled: 91,
        generation: 2,
        alive: true,
    });

    assert_eq!(row.name, "ticker");
    assert_eq!(row.arena_bytes, 1_114_112);
    assert_eq!(row.mailbox, 4);
    assert_eq!(row.fibers, 1);
    assert_eq!(row.handled, 91);
    assert_eq!(row.generation, 2);
    assert!(row.alive);
}

fn candidate(path: &str, fixtures: bool) -> Candidate {
    Candidate { path: path.to_string(), wasm: fixtures, strand: fixtures }
}

#[test]
fn the_examples_directory_is_found_from_the_test_binary() {
    // The binary is deep under `target/`, and every ancestor is looked at.
    let looked = vec![
        candidate("/repo/target/debug/deps/examples", false),
        candidate("/repo/target/debug/examples", false),
        candidate("/repo/target/examples", false),
        candidate("/repo/examples", true),
        candidate("/examples", false),
    ];
    let found = dir(&looked).expect("examples should be findable");
    assert_eq!(looked[found].path, "/repo/examples");
}

#[test]
fn cargos_own_examples_directory_is_not_mistaken_for_this_one() {
    // `target/debug/examples` exists whenever anything has been built.
    let decoy = Candidate { path: "target/debug/examples".to_string(), wasm: false, strand: false };
    let half = Candidate { path: "other/examples".to_string(), wasm: true, strand: false };
    let root = candidate("examples", true);
    assert!(!decoy.holds_fixtures(), "{} should not qualify", decoy.path);
    assert!(!half.holds_fixtures());
    assert!(root.holds_fixtures(), "{} should qualify", root.path);
    assert_eq!(dir(&vec![decoy, half, root]), Ok(2));
}

#[test]
fn a_search_that_fails_says_where_it_looked() {
    let looked: Vec<Candidate> =
        (0..8).map(|i| candidate(&format!("/{i}/examples"), false)).collect();
    let message = dir(&looked).unwrap_err();
    assert!(message.ends_with("Looked in:\n  /0/examples\n  /1/examples\n  /2/examples\n  /3/examples\n  /4/examples\n  /5/examples"), "{message}");
    assert!(dir(&Vec::new()).unwrap_err().ends_with("Looked in:\n"));
}

#[test]
fn an_actor_stops_skips_or_delivers() {
    let blob = || Message::Blob { from: 7, bytes: vec![1, 2] };
    assert!(matches!(handle(Message::Stop, false), Handling::Stop));
    assert!(matches!(handle(blob(), false), Handling::Skip));
    assert!(matches!(
        handle(blob(), true),
        Handling::Deliver { from: 7, bytes } if bytes == vec![1, 2]
    ));
}

#[test]
fn a_message_to_nobody_is_refused_by_id() {
    let mut registry: Registry<&str> = Registry::new();
    assert_eq!(registry.find(3).unwrap_err().message(), "no actor 3");
    registry.register(3, "first");
    registry.register(3, "second");
    assert_eq!(registry.find(3), Ok(&"second"));
    assert_eq!(SendError::Closed { to: 4 }.message(), "actor 4 mailbox closed");
}

#[test]
fn a_guest_may_only_name_its_own_bytes() {
    let memory = [1, 2, 3, 4];
    assert_eq!(read_guest_bytes(&memory, 1, 2).unwrap(), vec![2, 3]);
    assert_eq!(read_guest_bytes(&memory, 4, 0).unwrap(), Vec::<u8>::new());
    assert_eq!(
        read_guest_bytes(&memory, 2, 3).unwrap_err().message(),
        "guest pointer 2+3 out of bounds"
    );
    assert!(read_guest_bytes(&memory, -1, 1).is_err());
    assert_eq!(
        read_guest_bytes(&memory, 0, -1).unwrap_err().message(),
        format!("guest pointer 0+{} out of bounds", -1i32 as usize)
    );
}

#[test]
fn a_simulation_is_named_by_its_seed() {
    assert_eq!(SimOptions::new(7), SimOptions { seed: 7, chaos: false });
    assert_eq!(SimOptions::chaotic(7), SimOptions { seed: 7, chaos: true });
    assert_eq!(SimOptions::default(), SimOptions::new(0));
}

#[test]
fn what_was_not_read_leaves_what_was() {
    let mut rows = vec![ActorStat::default()];
    assert!(!refresh(&mut rows, None));
    assert_eq!(rows.len(), 1);
    assert!(refresh(&mut rows, Some(Vec::new())));
    assert!(rows.is_empty());
}

/// What the machine's floats make of a size.
fn floated(count: u64) -> String {
    const KB: f32 = 1024.0;
    const MB: f32 = KB * 1024.0;
    match count as f32 {
        n if n >= MB => format!("{:.2}MB", n / MB),
        n if n >= KB => format!("{:.0}KB", n / KB),
        n => format!("{n:.0}B"),
    }
}

#[test]
fn sizes_are_rounded_as_the_machine_rounds_them() {
    let mut sizes = vec![0, 1, 1023, 1024, 1535, 1536, 1537, 2559, 2560, 2561, u64::MAX];
    for shift in 0..64 {
        for nudge in 0..40u64 {
            sizes.push((1u64 << shift).wrapping_add(nudge * 5243));
            sizes.push((1u64 << shift).wrapping_sub(nudge));
        }
    }
    let mut n: u64 = 1;
    for _ in 0..20_000 {
        n = n.wrapping_mul(6364136223846793005).wrapping_add(1442695040888963407);
        sizes.push(n >> (n % 61));
    }
    for size in sizes {
        assert_eq!(bytes(size), floated(size), "{size}");
    }
}

#[test]
fn numbers_are_written_in_full() {
    assert_eq!(number(0), "0");
    assert_eq!(number(u64::MAX), u64::MAX.to_string());
    assert_eq!(signed_number(i64::MIN), i64::MIN.to_string());
    assert_eq!(signed_number(-10), "-10");
    assert_eq!(address(0), "0x0");
    assert_eq!(address(0xdead_beef), "0xdeadbeef");
}
