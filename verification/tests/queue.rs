use drift::queue::{decide, Desired, QueueItem};

fn item(ih: &str, desired: Desired, forced: bool, pos: u32, finished: bool, running: bool) -> QueueItem {
    QueueItem { infohash: ih.into(), desired, forced, position: pos, finished, running_now: running }
}

#[test]
fn cap_respected_starts_lowest_positions() {
    let items = vec![
        item("a", Desired::Run, false, 0, false, false),
        item("b", Desired::Run, false, 1, false, false),
        item("c", Desired::Run, false, 2, false, false),
    ];
    let plan = decide(&items, 2);
    assert_eq!(plan.to_start, vec!["a", "b"]);
    assert!(plan.to_pause.is_empty());
}

#[test]
fn over_cap_running_gets_paused() {
    let items = vec![
        item("a", Desired::Run, false, 0, false, true),
        item("b", Desired::Run, false, 1, false, true),
        item("c", Desired::Run, false, 2, false, true),
    ];
    let plan = decide(&items, 2);
    assert!(plan.to_start.is_empty());
    assert_eq!(plan.to_pause, vec!["c"]);
}

#[test]
fn forced_bypasses_cap() {
    let items = vec![
        item("a", Desired::Run, true, 5, false, false),
        item("b", Desired::Run, false, 0, false, false),
        item("c", Desired::Run, false, 1, false, false),
    ];
    let plan = decide(&items, 1);
    assert_eq!(plan.to_start, vec!["a"]);
    assert!(plan.to_pause.is_empty());
}

#[test]
fn unlimited_starts_all_eligible() {
    let items = vec![
        item("a", Desired::Run, false, 0, false, false),
        item("b", Desired::Run, false, 1, false, false),
    ];
    let plan = decide(&items, 0);
    assert_eq!(plan.to_start, vec!["a", "b"]);
}

#[test]
fn finished_and_paused_are_ignored() {
    let items = vec![
        item("seed", Desired::Run, false, 0, true, true),
        item("paus", Desired::Pause, false, 1, false, false),
        item("dl", Desired::Run, false, 2, false, false),
    ];
    let plan = decide(&items, 1);
    assert_eq!(plan.to_start, vec!["dl"]);
    assert!(plan.to_pause.is_empty());
}

#[test]
fn idempotent_when_already_correct() {
    let items = vec![
        item("a", Desired::Run, false, 0, false, true),
        item("b", Desired::Run, false, 1, false, false),
    ];
    let plan = decide(&items, 1);
    assert!(plan.to_start.is_empty());
    assert!(plan.to_pause.is_empty());
}
