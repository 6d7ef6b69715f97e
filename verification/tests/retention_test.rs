use pruner::{Command, Error, Pruner, RootHash, StateStore, Worker};

fn commit(store: &mut StateStore, address: u64, value: Vec<u8>, version: u64) -> RootHash {
    store.put_account_state_set(vec![(address, value)], version)
}

fn read(store: &StateStore, address: u64, root: RootHash) -> Result<Option<Vec<u8>>, Error> {
    store.get_account_state_by_root(address, root)
}

#[test]
fn wake_requests_coalesce_to_greatest_target() {
    let mut store = StateStore::new();
    let mut roots = Vec::new();
    for v in 0..5u64 {
        roots.push(commit(&mut store, 1, vec![v as u8 + 1], v));
    }
    let mut pruner = Pruner::new(&store, 1);

    // fire-and-forget triggers only enqueue
    pruner.wake(&store, 2).unwrap();
    pruner.wake(&store, 3).unwrap();
    assert_eq!(pruner.progress(), 0);

    // one drain folds the whole backlog into a single pass at the greatest target
    pruner.wake_and_wait(&mut store, 4).unwrap();
    assert_eq!(pruner.progress(), 3);
    assert_eq!(store.progress, 3);

    assert!(read(&store, 1, roots[0]).is_err());
    assert!(read(&store, 1, roots[1]).is_err());
    assert!(read(&store, 1, roots[2]).is_err());
    assert_eq!(read(&store, 1, roots[3]).unwrap(), Some(vec![4u8]));
    assert_eq!(read(&store, 1, roots[4]).unwrap(), Some(vec![5u8]));
}

#[test]
fn no_over_pruning_with_retention_window() {
    let mut store = StateStore::new();
    let mut roots = Vec::new();
    for v in 0..5u64 {
        roots.push(commit(&mut store, 1, vec![v as u8 + 1], v));
    }
    let mut pruner = Pruner::new(&store, 2);
    pruner.wake_and_wait(&mut store, 4).unwrap();
    // the floor is exactly max(0, 4 - 2)
    assert_eq!(pruner.progress(), 2);
    assert_eq!(read(&store, 1, roots[2]).unwrap(), Some(vec![3u8]));
    assert_eq!(read(&store, 1, roots[3]).unwrap(), Some(vec![4u8]));
    assert_eq!(read(&store, 1, roots[4]).unwrap(), Some(vec![5u8]));

    // a window wider than the history asks for nothing
    let mut store2 = StateStore::new();
    let root0 = commit(&mut store2, 1, vec![1u8], 0);
    let mut pruner2 = Pruner::new(&store2, 5);
    pruner2.wake_and_wait(&mut store2, 0).unwrap();
    assert_eq!(pruner2.progress(), 0);
    assert_eq!(read(&store2, 1, root0).unwrap(), Some(vec![1u8]));
}

#[test]
fn wake_and_wait_is_idempotent() {
    let mut store = StateStore::new();
    for v in 0..3u64 {
        commit(&mut store, 1, vec![v as u8 + 1], v);
    }
    let mut pruner = Pruner::new(&store, 0);
    pruner.wake_and_wait(&mut store, 2).unwrap();
    assert_eq!(pruner.progress(), 2);
    let before = store.stale_node_entries_up_to(u64::MAX).len();
    // the second identical call is a successful no-op
    pruner.wake_and_wait(&mut store, 2).unwrap();
    assert_eq!(pruner.progress(), 2);
    assert_eq!(store.stale_node_entries_up_to(u64::MAX).len(), before);
}

#[test]
fn quit_discards_queued_work_and_closes_the_channel() {
    let mut store = StateStore::new();
    let mut roots = Vec::new();
    for v in 0..3u64 {
        roots.push(commit(&mut store, 1, vec![v as u8 + 1], v));
    }
    let mut pruner = Pruner::new(&store, 0);
    pruner.wake(&store, 1).unwrap();
    pruner.wake(&store, 2).unwrap();
    pruner.quit(&mut store);
    // nothing was pruned: shutdown wins over every queued request
    assert_eq!(pruner.progress(), 0);
    for (v, root) in roots.iter().enumerate() {
        assert_eq!(read(&store, 1, *root).unwrap(), Some(vec![v as u8 + 1]));
    }
    // quitting again is a no-op
    pruner.quit(&mut store);
    // the channel is closed for every later trigger
    assert_eq!(pruner.wake(&store, 2).unwrap_err(), Error::ChannelClosed);
    assert_eq!(
        pruner.wake_and_wait(&mut store, 2).unwrap_err(),
        Error::ChannelClosed
    );
    // ... except ones the watermark already covers, which stay successful no-ops
    assert!(pruner.wake_and_wait(&mut store, 0).is_ok());
}

#[test]
fn read_distinguishes_pruned_from_never_written() {
    let mut store = StateStore::new();
    let root0 = commit(&mut store, 1, vec![1u8], 0);
    // a root that was never committed
    assert_eq!(
        read(&store, 1, RootHash { version: 9 }).unwrap_err(),
        Error::RootNotFound
    );
    // an address that was never written under a live root
    assert_eq!(read(&store, 2, root0).unwrap(), None);
}

#[test]
fn copy_on_write_keeps_untouched_addresses_readable() {
    let mut store = StateStore::new();
    let root0 = store.put_account_state_set(vec![(1, vec![0x01]), (2, vec![0x09])], 0);
    let root1 = store.put_account_state_set(vec![(1, vec![0x02])], 1);
    let mut pruner = Pruner::new(&store, 0);
    pruner.wake_and_wait(&mut store, 1).unwrap();
    assert!(read(&store, 1, root0).is_err());
    // address 2 was not rewritten: its version-0 leaf is still needed and kept
    assert_eq!(read(&store, 1, root1).unwrap(), Some(vec![0x02]));
    assert_eq!(read(&store, 2, root1).unwrap(), Some(vec![0x09]));
}

#[test]
fn stale_index_lists_supersessions_up_to_target() {
    let mut store = StateStore::new();
    for v in 0..3u64 {
        commit(&mut store, 1, vec![v as u8 + 1], v);
    }
    let upto1 = store.stale_node_entries_up_to(1);
    assert_eq!(upto1.len(), 1);
    assert_eq!(upto1[0].stale_since_version, 1);
    assert_eq!(upto1[0].node_address, 1);
    assert_eq!(upto1[0].node_version, 0);
    let upto2 = store.stale_node_entries_up_to(2);
    assert_eq!(upto2.len(), 2);
    assert!(upto2
        .iter()
        .any(|e| e.stale_since_version == 2 && e.node_address == 1 && e.node_version == 1));
}

#[test]
fn interrupted_pruning_resumes_to_the_same_state() {
    let mut direct = StateStore::new();
    let mut resumed = StateStore::new();
    let mut roots = Vec::new();
    for v in 0..4u64 {
        roots.push(commit(&mut direct, 1, vec![v as u8 + 1], v));
        commit(&mut resumed, 1, vec![v as u8 + 1], v);
    }

    // one uninterrupted pass to the full target
    let mut pruner_direct = Pruner::new(&direct, 0);
    pruner_direct.wake_and_wait(&mut direct, 3).unwrap();

    // a pass cut short after an intermediate floor was persisted, then resumed
    // from the persisted watermark by a fresh controller (a restart)
    let mut first = Pruner::new(&resumed, 0);
    first.wake_and_wait(&mut resumed, 1).unwrap();
    first.quit(&mut resumed);
    assert_eq!(resumed.progress, 1);
    let mut second = Pruner::new(&resumed, 0);
    assert_eq!(second.progress(), 1);
    second.wake_and_wait(&mut resumed, 3).unwrap();

    assert_eq!(direct.progress, resumed.progress);
    for root in &roots {
        assert_eq!(read(&direct, 1, *root), read(&resumed, 1, *root));
    }
    assert_eq!(read(&direct, 1, roots[3]).unwrap(), Some(vec![4u8]));
    // between the passes nothing dangled: every listed entry still had its node
    assert_eq!(
        direct.stale_node_entries_up_to(u64::MAX).len(),
        resumed.stale_node_entries_up_to(u64::MAX).len()
    );
}

#[test]
fn worker_ignores_an_empty_drain() {
    let mut store = StateStore::new();
    let root0 = commit(&mut store, 1, vec![1u8], 0);
    let mut worker = Worker::new(0);
    let commands: Vec<Command> = Vec::new();
    worker.work_loop(&mut store, &commands);
    assert_eq!(store.progress, 0);
    assert_eq!(read(&store, 1, root0).unwrap(), Some(vec![1u8]));
}

#[test]
fn worker_executes_only_the_greatest_target() {
    let mut store = StateStore::new();
    let mut roots = Vec::new();
    for v in 0..3u64 {
        roots.push(commit(&mut store, 1, vec![v as u8 + 1], v));
    }
    let mut worker = Worker::new(0);
    let commands = vec![
        Command::Prune {
            least_readable_version: 2,
        },
        Command::Prune {
            least_readable_version: 1,
        },
    ];
    worker.work_loop(&mut store, &commands);
    assert_eq!(store.progress, 2);
    assert!(read(&store, 1, roots[0]).is_err());
    assert!(read(&store, 1, roots[1]).is_err());
    assert_eq!(read(&store, 1, roots[2]).unwrap(), Some(vec![3u8]));
}
