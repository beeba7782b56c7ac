use cw4_stake::snapshot::{SnapshotMap, Strategy};

#[test]
fn every_write_records_history() {
    let mut m = SnapshotMap::new(Strategy::EveryBlock);
    m.set_weight("alice", 5, 10);
    m.set_weight("alice", 8, 20);
    m.remove("alice", 30);

    assert_eq!(m.weight_at("alice", 9), None);
    assert_eq!(m.weight_at("alice", 10), Some(5));
    assert_eq!(m.weight_at("alice", 19), Some(5));
    assert_eq!(m.weight_at("alice", 20), Some(8));
    assert_eq!(m.weight_at("alice", 29), Some(8));
    assert_eq!(m.weight_at("alice", 30), None);
    assert_eq!(m.weight_at("alice", 31), None);

    assert_eq!(m.total_at(9), 0);
    assert_eq!(m.total_at(10), 5);
    assert_eq!(m.total_at(20), 8);
    assert_eq!(m.total_at(30), 0);
}

#[test]
fn writes_at_one_height_collapse() {
    let mut m = SnapshotMap::new(Strategy::EveryBlock);
    m.set_weight("bob", 1, 10);
    m.set_weight("bob", 2, 10);
    m.set_weight("bob", 3, 10);
    m.set_weight("bob", 9, 20);

    // one height keeps one entry, holding the latest value
    assert_eq!(m.weight_at("bob", 10), Some(3));
    assert_eq!(m.weight_at("bob", 15), Some(3));
    assert_eq!(m.weight_at("bob", 20), Some(9));
}

#[test]
fn never_strategy_approximates_with_the_current_value() {
    let mut m = SnapshotMap::new(Strategy::Never);
    m.set_weight("carol", 5, 10);
    m.set_weight("carol", 8, 20);

    // no history is kept: every height answers with the current value
    assert_eq!(m.weight_at("carol", 1), Some(8));
    assert_eq!(m.weight_at("carol", 10), Some(8));
    assert_eq!(m.weight_at("carol", 99), Some(8));
    assert_eq!(m.total_at(1), 8);
}

#[test]
fn selected_strategy_records_only_at_checkpoints() {
    let mut m = SnapshotMap::new(Strategy::Selected);
    m.checkpoint(10);
    m.set_weight("dave", 5, 10);
    // no checkpoint at 20: this write leaves no record
    m.set_weight("dave", 8, 20);
    m.checkpoint(30);
    m.set_weight("dave", 9, 30);

    assert_eq!(m.weight_at("dave", 10), Some(5));
    // between checkpoints the last checkpointed value answers
    assert_eq!(m.weight_at("dave", 20), Some(5));
    assert_eq!(m.weight_at("dave", 29), Some(5));
    // at and past the watermark the current value answers
    assert_eq!(m.weight_at("dave", 30), Some(9));
    assert_eq!(m.weight_at("dave", 5), None);
}

#[test]
fn totals_follow_several_members() {
    let mut m = SnapshotMap::new(Strategy::EveryBlock);
    m.set_weight("erin", 5, 10);
    m.set_weight("frank", 7, 20);
    assert_eq!(m.total_weight(), 12);
    m.remove("erin", 30);
    assert_eq!(m.total_weight(), 7);
    assert_eq!(m.total_at(25), 12);
    assert_eq!(m.total_at(10), 5);
}
