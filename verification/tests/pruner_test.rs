use pruner::{Command, Pruner, RootHash, StateStore, Worker};

fn put_account_state_set(
    store: &mut StateStore,
    account_state_set: Vec<(u64, Vec<u8>)>,
    version: u64,
) -> RootHash {
    store.put_account_state_set(account_state_set, version)
}

fn verify_state_in_store(
    store: &StateStore,
    address: u64,
    expected_value: Option<&Vec<u8>>,
    root: RootHash,
) {
    let value = store.get_account_state_by_root(address, root).unwrap();
    assert_eq!(value.as_ref(), expected_value);
}

#[test]
fn test_pruner() {
    let address: u64 = 1;
    let value0 = vec![0x01u8];
    let value1 = vec![0x02u8];
    let value2 = vec![0x03u8];

    let mut store = StateStore::new();
    let mut pruner = Pruner::new(
        &store, 0, /* num_historical_versions_to_keep */
    );

    let root0 = put_account_state_set(
        &mut store,
        vec![(address, value0.clone())],
        0, /* version */
    );
    let root1 = put_account_state_set(
        &mut store,
        vec![(address, value1.clone())],
        1, /* version */
    );
    let root2 = put_account_state_set(
        &mut store,
        vec![(address, value2.clone())],
        2, /* version */
    );

    // Prune till version=0.
    {
        pruner.wake_and_wait(&mut store, 0 /* latest_version */).unwrap();
        verify_state_in_store(&store, address, Some(&value0), root0);
        verify_state_in_store(&store, address, Some(&value1), root1);
        verify_state_in_store(&store, address, Some(&value2), root2);
    }
    // Prune till version=1.
    {
        pruner.wake_and_wait(&mut store, 1 /* latest_version */).unwrap();
        // root0 is gone.
        assert!(store.get_account_state_by_root(address, root0).is_err());
        // root1 is still there.
        verify_state_in_store(&store, address, Some(&value1), root1);
        verify_state_in_store(&store, address, Some(&value2), root2);
    }
    // Prune till version=2.
    {
        pruner.wake_and_wait(&mut store, 2 /* latest_version */).unwrap();
        // root1 is gone.
        assert!(store.get_account_state_by_root(address, root1).is_err());
        // root2 is still there.
        verify_state_in_store(&store, address, Some(&value2), root2);
    }
}

#[test]
fn test_worker_quit_eagerly() {
    let address: u64 = 1;
    let value0 = vec![0x01u8];
    let value1 = vec![0x02u8];
    let value2 = vec![0x03u8];

    let mut store = StateStore::new();

    let root0 = put_account_state_set(
        &mut store,
        vec![(address, value0.clone())],
        0, /* version */
    );
    let root1 = put_account_state_set(
        &mut store,
        vec![(address, value1.clone())],
        1, /* version */
    );
    let root2 = put_account_state_set(
        &mut store,
        vec![(address, value2.clone())],
        2, /* version */
    );

    {
        let mut worker = Worker::new(0 /* progress */);
        let commands = vec![
            Command::Prune {
                least_readable_version: 1,
            },
            Command::Prune {
                least_readable_version: 2,
            },
            Command::Quit,
        ];
        // Worker quits immediately although `Command::Quit` is not the first command sent.
        worker.work_loop(&mut store, &commands);
        verify_state_in_store(&store, address, Some(&value0), root0);
        verify_state_in_store(&store, address, Some(&value1), root1);
        verify_state_in_store(&store, address, Some(&value2), root2);
    }
}
