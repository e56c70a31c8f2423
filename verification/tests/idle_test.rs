use moss::storage::IdleCheckpoint;

#[test]
fn nothing_is_due_without_changes() {
    let idle = IdleCheckpoint::start(10);
    assert!(!idle.poll(1_000_000, 5));
}

#[test]
fn a_pause_makes_the_index_due() {
    let mut idle = IdleCheckpoint::start(0);
    idle.mark_mutated(100);
    assert!(!idle.poll(104, 5));
    assert!(idle.poll(105, 5));
    idle.mark_mutated(106);
    assert!(!idle.poll(110, 5));
    assert!(!idle.poll(50, 5));
    idle.checkpointed(false);
    assert!(idle.poll(200, 5));
    idle.checkpointed(true);
    assert!(!idle.poll(300, 5));
}

#[test]
fn forcing_hands_the_outcome_back() {
    let mut idle = IdleCheckpoint::start(0);
    idle.mark_mutated(1);
    assert_eq!(idle.force::<u8>(Err(3)), Err(3));
    assert!(idle.poll(100, 5));
    assert_eq!(idle.force::<u8>(Ok(())), Ok(()));
    assert!(!idle.poll(100, 5));
}
