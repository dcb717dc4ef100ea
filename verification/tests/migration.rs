use state_trie_migration::balances::Balances;
use state_trie_migration::pallet::{Event, MigrationError, Origin, Pallet, Pays};
use state_trie_migration::store::Store;
use state_trie_migration::task::{MigrationCompute, MigrationLimits, MigrationTask};

/// The hashing threshold of the target node format; values above it are
/// stored out of line, which is what makes the rewrite necessary.
const TRIE_VALUE_NODE_THRESHOLD: usize = 33;

fn childify(s: &str) -> Vec<u8> {
    let mut key = b":child_storage:default:".to_vec();
    key.extend_from_slice(s.as_bytes());
    key
}

/// The seeded store: top keys `key1..key9` and `CODE` above the
/// threshold, two child-root keys carrying 32-byte values, and two child
/// namespaces of two entries each.
fn new_test_store() -> Store {
    let minimum_size = TRIE_VALUE_NODE_THRESHOLD + 1;
    let mut store = Store::new();
    store.top_set(&b"key1".to_vec(), vec![1u8; minimum_size + 1]);
    store.top_set(&b"key2".to_vec(), vec![1u8; minimum_size + 2]);
    store.top_set(&b"key3".to_vec(), vec![1u8; minimum_size + 3]);
    store.top_set(&b"key4".to_vec(), vec![1u8; minimum_size + 4]);
    store.top_set(&b"key5".to_vec(), vec![1u8; minimum_size + 5]);
    store.top_set(&b"key6".to_vec(), vec![1u8; minimum_size + 6]);
    store.top_set(&b"key7".to_vec(), vec![1u8; minimum_size + 7]);
    store.top_set(&b"key8".to_vec(), vec![1u8; minimum_size + 8]);
    store.top_set(&b"key9".to_vec(), vec![1u8; minimum_size + 9]);
    store.top_set(&b"CODE".to_vec(), vec![1u8; minimum_size + 100]);
    store.top_set(&childify("chk1"), vec![0u8; 32]);
    store.top_set(&childify("chk2"), vec![0u8; 32]);
    store.child_set(&b"chk1".to_vec(), &b"key1".to_vec(), vec![1u8; 55]);
    store.child_set(&b"chk1".to_vec(), &b"key2".to_vec(), vec![2u8; 66]);
    store.child_set(&b"chk2".to_vec(), &b"key1".to_vec(), vec![1u8; 54]);
    store.child_set(&b"chk2".to_vec(), &b"key2".to_vec(), vec![2u8; 64]);
    store
}

/// The byte total of everything `new_test_store` seeds.
const SEEDED_SIZE: u32 = (35 + 36 + 37 + 38 + 39 + 40 + 41 + 42 + 43) + 134 + 64 + (55 + 66 + 54
    + 64);

fn new_test_pallet() -> Pallet<()> {
    Pallet::new(1, 5, MigrationLimits { size: 1024, item: 5 }, 0, 0)
}

fn run_blocks(pallet: &mut Pallet<()>, store: &mut Store, n: u32) {
    let mut b: u32 = 0;
    while b < n {
        pallet.on_initialize(store);
        b += 1;
    }
}

/// The store still holds exactly the seeded values.
fn assert_seed_intact(store: &Store) {
    let minimum_size = TRIE_VALUE_NODE_THRESHOLD + 1;
    assert_eq!(store.top_get(&b"key1".to_vec()), Some(vec![1u8; minimum_size + 1]));
    assert_eq!(store.top_get(&b"key9".to_vec()), Some(vec![1u8; minimum_size + 9]));
    assert_eq!(store.top_get(&b"CODE".to_vec()), Some(vec![1u8; minimum_size + 100]));
    assert_eq!(store.top_get(&childify("chk1")), Some(vec![0u8; 32]));
    assert_eq!(store.child_get(&b"chk1".to_vec(), &b"key2".to_vec()), Some(vec![2u8; 66]));
    assert_eq!(store.child_get(&b"chk2".to_vec(), &b"key1".to_vec()), Some(vec![1u8; 54]));
    assert_eq!(store.top_get(&b"key10".to_vec()), None);
}

fn run_with_limits(limit: MigrationLimits, blocks: u32) {
    let mut store = new_test_store();
    let mut pallet = new_test_pallet();

    assert!(pallet.auto_limits.is_none());
    assert_eq!(pallet.migration_process, MigrationTask::default());

    // Nothing happens while no limits are set.
    run_blocks(&mut pallet, &mut store, 10);
    assert_eq!(pallet.migration_process, MigrationTask::default());

    pallet
        .control_auto_migration(Origin::Root, Some(limit))
        .unwrap();
    run_blocks(&mut pallet, &mut store, blocks);

    // Eventually everything is over, every key was counted, and the
    // store holds exactly what it started with.
    assert!(pallet.migration_process.finished());
    // Eleven seeded keys, the two child roots, and the probe of the
    // empty starting key, which counts an item without touching one.
    assert_eq!(pallet.migration_process.top_items, 13);
    assert_eq!(pallet.migration_process.child_items, 4);
    assert_eq!(pallet.migration_process.size, SEEDED_SIZE);
    assert_seed_intact(&store);
}

#[test]
fn auto_migrate_works() {
    // single item
    run_with_limits(MigrationLimits { item: 1, size: 1000 }, 100);
    // multi-item
    run_with_limits(MigrationLimits { item: 5, size: 1000 }, 100);
    // multi-item, based on size. Note that the largest value is 134 bytes.
    run_with_limits(MigrationLimits { item: 1000, size: 150 }, 100);
    // unbounded
    run_with_limits(MigrationLimits { item: u32::MAX, size: u32::MAX }, 100);
}

#[test]
fn detects_first_child_key() {
    let limit = MigrationLimits { item: 1, size: 1000 };
    let mut store = new_test_store();
    // Data under the empty child key is read by the descent probe but
    // never rewritten.
    store.child_set(&b"chk1".to_vec(), &Vec::new(), vec![66u8; 77]);
    let mut pallet = new_test_pallet();

    pallet
        .control_auto_migration(Origin::Root, Some(limit))
        .unwrap();
    run_blocks(&mut pallet, &mut store, 30);

    assert!(pallet.migration_process.finished());
    // The empty child key was neither counted nor sized.
    assert_eq!(pallet.migration_process.child_items, 4);
    assert_eq!(pallet.migration_process.size, SEEDED_SIZE);
    assert_eq!(store.child_get(&b"chk1".to_vec(), &Vec::new()), Some(vec![66u8; 77]));
    assert_seed_intact(&store);
}

#[test]
fn signed_migrate_works() {
    let mut store = new_test_store();
    let mut pallet = new_test_pallet();
    let mut balances = Balances::new();
    balances.make_free_balance_be(1, 1000);

    assert_eq!(pallet.migration_process, MigrationTask::default());

    // can't submit if limit is too high.
    let r = pallet.continue_migrate(
        Origin::Signed(1),
        MigrationLimits { item: 5, size: u32::MAX },
        u32::MAX,
        pallet.migration_process.duplicate(),
        &mut store,
        &mut balances,
    );
    assert_eq!(r.unwrap_err().error, MigrationError::LimitsTooLarge);

    // can't submit if poor.
    let r = pallet.continue_migrate(
        Origin::Signed(2),
        MigrationLimits { item: 5, size: 100 },
        100,
        pallet.migration_process.duplicate(),
        &mut store,
        &mut balances,
    );
    assert_eq!(r.unwrap_err().error, MigrationError::InsufficientFunds);

    // can't submit with bad witness.
    let bad_witness = MigrationTask {
        current_top: Some(vec![1u8]),
        ..MigrationTask::default()
    };
    let r = pallet.continue_migrate(
        Origin::Signed(1),
        MigrationLimits { item: 5, size: 100 },
        100,
        bad_witness,
        &mut store,
        &mut balances,
    );
    assert_eq!(r.unwrap_err().error, MigrationError::WrongWitness);
    assert_eq!(pallet.migration_process, MigrationTask::default());

    // migrate all keys in a series of submissions
    let max_limits = MigrationLimits { size: 1024, item: 5 };
    let mut rounds: u32 = 0;
    while !pallet.migration_process.finished() {
        // first compute the task to get the accurate consumption.
        let mut task = pallet.migration_process.duplicate();
        task.migrate_until_exhaustion(max_limits, &mut store);

        pallet
            .continue_migrate(
                Origin::Signed(1),
                max_limits,
                task.dyn_size,
                pallet.migration_process.duplicate(),
                &mut store,
                &mut balances,
            )
            .unwrap();

        // no funds should remain reserved.
        assert_eq!(balances.reserved_balance(1), 0);
        // an honest witness is never slashed.
        assert_eq!(balances.free_balance(1), 1000);

        // and the task should be updated.
        assert!(pallet.migration_process.size > 0);

        rounds += 1;
        assert!(rounds < 100, "the walk must terminate");
    }
    assert_eq!(pallet.migration_process.size, SEEDED_SIZE);
    assert_seed_intact(&store);
}

#[test]
fn custom_migrate_top_works() {
    {
        let mut store = new_test_store();
        let mut pallet = new_test_pallet();
        let mut balances = Balances::new();
        balances.make_free_balance_be(1, 1000);

        pallet
            .migrate_custom_top(
                Origin::Signed(1),
                vec![b"key1".to_vec(), b"key2".to_vec(), b"key3".to_vec()],
                (3 + TRIE_VALUE_NODE_THRESHOLD * 3 + 1 + 2 + 3) as u32,
                &mut store,
                &mut balances,
            )
            .unwrap();

        // no funds should remain reserved.
        assert_eq!(balances.reserved_balance(1), 0);
        assert_eq!(balances.free_balance(1), 1000);
        assert_eq!(
            pallet.events.last(),
            Some(&Event::Migrated { top: 3, child: 0, compute: MigrationCompute::Signed })
        );
        assert_seed_intact(&store);
    }

    {
        let mut store = new_test_store();
        let mut pallet = new_test_pallet();
        let mut balances = Balances::new();
        balances.make_free_balance_be(1, 1000);
        assert_eq!(balances.free_balance(1), 1000);

        // note that this is not a noop -- the wrong witness is slashed.
        let r = pallet.migrate_custom_top(
            Origin::Signed(1),
            vec![b"key1".to_vec(), b"key2".to_vec(), b"key3".to_vec()],
            69, // wrong witness
            &mut store,
            &mut balances,
        );
        assert_eq!(r.unwrap_err().error, MigrationError::WrongWitnessData);

        // no funds should remain reserved.
        assert_eq!(balances.reserved_balance(1), 0);
        assert_eq!(balances.free_balance(1), 1000 - (3 * 1 + 5));
        // Unlike the custom child operation, this confiscation stays
        // silent: no event announces it.
        assert!(pallet.events.is_empty());
        assert_seed_intact(&store);
    }
}

#[test]
fn custom_migrate_child_works() {
    {
        let mut store = new_test_store();
        let mut pallet = new_test_pallet();
        let mut balances = Balances::new();
        balances.make_free_balance_be(1, 1000);

        pallet
            .migrate_custom_child(
                Origin::Signed(1),
                childify("chk1"),
                vec![b"key1".to_vec(), b"key2".to_vec()],
                55 + 66,
                &mut store,
                &mut balances,
            )
            .unwrap();

        // no funds should remain reserved.
        assert_eq!(balances.reserved_balance(1), 0);
        assert_eq!(balances.free_balance(1), 1000);
        assert_eq!(
            pallet.events.last(),
            Some(&Event::Migrated { top: 0, child: 2, compute: MigrationCompute::Signed })
        );
    }

    {
        let mut store = new_test_store();
        let mut pallet = new_test_pallet();
        let mut balances = Balances::new();
        balances.make_free_balance_be(1, 1000);
        assert_eq!(balances.free_balance(1), 1000);

        // note that this is not a noop -- the wrong witness is slashed.
        let r = pallet.migrate_custom_child(
            Origin::Signed(1),
            childify("chk1"),
            vec![b"key1".to_vec(), b"key2".to_vec()],
            999999, // wrong witness
            &mut store,
            &mut balances,
        );
        assert!(r.is_err());

        // no funds should remain reserved.
        assert_eq!(balances.reserved_balance(1), 0);
        assert_eq!(balances.free_balance(1), 1000 - (2 * 1 + 5));
        // only the custom child operation announces its confiscations.
        assert_eq!(pallet.events.last(), Some(&Event::Slashed { who: 1, amount: 7 }));
    }
}

#[test]
fn custom_migrate_child_rejects_bad_root() {
    let mut store = new_test_store();
    let mut pallet = new_test_pallet();
    let mut balances = Balances::new();
    balances.make_free_balance_be(1, 1000);

    let r = pallet.migrate_custom_child(
        Origin::Signed(1),
        b"not_a_child_root".to_vec(),
        vec![b"key1".to_vec()],
        55,
        &mut store,
        &mut balances,
    );
    assert_eq!(r.unwrap_err().error, MigrationError::BadChildKey);
    assert_eq!(balances.free_balance(1), 1000 - (1 + 5));
    assert_eq!(pallet.events.last(), Some(&Event::Slashed { who: 1, amount: 6 }));
}

#[test]
fn zero_limits_are_a_noop() {
    let mut store = new_test_store();
    let mut pallet = new_test_pallet();

    pallet
        .control_auto_migration(Origin::Root, Some(MigrationLimits { item: 0, size: 1000 }))
        .unwrap();
    run_blocks(&mut pallet, &mut store, 5);
    assert_eq!(pallet.migration_process, MigrationTask::default());

    pallet
        .control_auto_migration(Origin::Root, Some(MigrationLimits { item: 1000, size: 0 }))
        .unwrap();
    run_blocks(&mut pallet, &mut store, 5);
    assert_eq!(pallet.migration_process, MigrationTask::default());
    assert_seed_intact(&store);
}

#[test]
fn control_needs_root() {
    let mut pallet = new_test_pallet();
    let r = pallet.control_auto_migration(
        Origin::Signed(1),
        Some(MigrationLimits { item: 1, size: 1 }),
    );
    assert_eq!(r.unwrap_err().error, MigrationError::BadOrigin);
    assert!(pallet.auto_limits.is_none());

    pallet
        .control_auto_migration(Origin::Root, Some(MigrationLimits { item: 1, size: 1 }))
        .unwrap();
    assert_eq!(pallet.auto_limits, Some(MigrationLimits { item: 1, size: 1 }));
    pallet.control_auto_migration(Origin::Root, None).unwrap();
    assert!(pallet.auto_limits.is_none());
}

#[test]
fn empty_values_are_touched_like_any_other() {
    let mut store = Store::new();
    store.top_set(&b"empty".to_vec(), Vec::new());
    store.top_set(&b"full".to_vec(), vec![9u8; 10]);
    store.child_set(&b"chk1".to_vec(), &b"bare".to_vec(), Vec::new());
    store.top_set(&childify("chk1"), vec![0u8; 4]);
    let mut pallet = new_test_pallet();

    pallet
        .control_auto_migration(Origin::Root, Some(MigrationLimits { item: 1, size: 1000 }))
        .unwrap();
    run_blocks(&mut pallet, &mut store, 20);

    assert!(pallet.migration_process.finished());
    // All four keys were counted; only the nonempty values added bytes.
    assert_eq!(pallet.migration_process.top_items, 4);
    assert_eq!(pallet.migration_process.child_items, 1);
    assert_eq!(pallet.migration_process.size, 14);
    assert_eq!(store.top_get(&b"empty".to_vec()), Some(Vec::new()));
    assert_eq!(store.child_get(&b"chk1".to_vec(), &b"bare".to_vec()), Some(Vec::new()));
}

#[test]
fn empty_child_namespace_costs_a_probe_tick() {
    let mut store = Store::new();
    store.top_set(&childify("void"), vec![0u8; 8]);
    store.top_set(&b"key1".to_vec(), vec![1u8; 5]);
    let mut pallet = new_test_pallet();

    // Each block processes one counted item, but the descent probe into
    // the empty namespace consumes a tick without counting anything.
    pallet
        .control_auto_migration(Origin::Root, Some(MigrationLimits { item: 1, size: 1000 }))
        .unwrap();
    run_blocks(&mut pallet, &mut store, 10);

    assert!(pallet.migration_process.finished());
    assert_eq!(pallet.migration_process.top_items, 3);
    assert_eq!(pallet.migration_process.child_items, 0);
    assert_eq!(pallet.migration_process.size, 13);
}

#[test]
fn tick_moves_the_cursor_strictly_forward() {
    let mut store = Store::new();
    store.top_set(&b"a".to_vec(), vec![1u8; 3]);
    store.top_set(&b"b".to_vec(), vec![2u8; 4]);
    let mut task = MigrationTask::default();

    // From the empty starting key: nothing to touch, cursor moves to `a`.
    let halted = task.migrate_tick(&mut store);
    assert!(!halted);
    assert_eq!(task.current_top, Some(b"a".to_vec()));
    assert_eq!(task.dyn_top_items, 1);
    assert_eq!(task.dyn_size, 0);

    let _ = task.migrate_tick(&mut store);
    assert_eq!(task.current_top, Some(b"b".to_vec()));
    assert_eq!(task.dyn_size, 3);

    let _ = task.migrate_tick(&mut store);
    assert_eq!(task.current_top, None);
    assert_eq!(task.dyn_size, 7);
    assert!(task.finished());

    // A tick on the finished cursor changes nothing.
    let halted = task.migrate_tick(&mut store);
    assert!(!halted);
    assert!(task.finished());
    assert_eq!(task.dyn_top_items, 3);
}

#[test]
fn continue_migrate_rewards_an_exact_upper_bound() {
    let mut store = Store::new();
    store.top_set(&b"one".to_vec(), vec![1u8; 20]);
    let mut pallet = new_test_pallet();
    let mut balances = Balances::new();
    balances.make_free_balance_be(1, 1000);

    let r = pallet
        .continue_migrate(
            Origin::Signed(1),
            MigrationLimits { item: 5, size: 100 },
            20,
            pallet.migration_process.duplicate(),
            &mut store,
            &mut balances,
        )
        .unwrap();
    assert_eq!(r.pays_fee, Pays::No);
    assert!(pallet.migration_process.finished());
    assert_eq!(pallet.migration_process.size, 20);
    assert_eq!(balances.free_balance(1), 1000);
}

#[test]
fn continue_migrate_slashes_an_undersized_declaration() {
    let mut store = Store::new();
    store.top_set(&b"one".to_vec(), vec![1u8; 20]);
    let mut pallet = new_test_pallet();
    let mut balances = Balances::new();
    balances.make_free_balance_be(1, 1000);

    let r = pallet.continue_migrate(
        Origin::Signed(1),
        MigrationLimits { item: 5, size: 100 },
        19, // one byte short of the truth
        pallet.migration_process.duplicate(),
        &mut store,
        &mut balances,
    );
    assert_eq!(r.unwrap_err().error, MigrationError::WrongWitnessData);
    // The deposit for five declared items is gone, the cursor stayed.
    assert_eq!(balances.free_balance(1), 995);
    assert_eq!(pallet.migration_process, MigrationTask::default());
}

#[test]
fn top_cursor_stands_still_during_a_descent() {
    let mut store = Store::new();
    store.top_set(&childify("only"), vec![0u8; 4]);
    store.child_set(&b"only".to_vec(), &b"a".to_vec(), vec![1u8; 2]);
    store.child_set(&b"only".to_vec(), &b"b".to_vec(), vec![2u8; 3]);
    let mut task = MigrationTask::default();

    // Reach the child root.
    let _ = task.migrate_tick(&mut store);
    assert_eq!(task.current_top, Some(childify("only")));

    // The probe and both child keys: the top cursor never moves.
    let _ = task.migrate_tick(&mut store);
    assert_eq!(task.current_top, Some(childify("only")));
    assert_eq!(task.current_child, Some(b"a".to_vec()));
    assert!(task.prev_tick_child);

    let _ = task.migrate_tick(&mut store);
    assert_eq!(task.current_top, Some(childify("only")));
    assert_eq!(task.current_child, Some(b"b".to_vec()));

    let _ = task.migrate_tick(&mut store);
    assert_eq!(task.current_top, Some(childify("only")));
    assert_eq!(task.current_child, None);

    // Ascending rewrites the child-root top key itself and moves on.
    let _ = task.migrate_tick(&mut store);
    assert_eq!(task.current_top, None);
    assert!(!task.prev_tick_child);
    assert!(task.finished());
    assert_eq!(task.dyn_top_items, 2);
    assert_eq!(task.dyn_child_items, 2);
    assert_eq!(task.dyn_size, 9);
}

#[test]
fn size_limit_is_advisory_and_can_be_overshot() {
    // A value's length is unknown before its read, so a run may exceed
    // the size limit by up to one value; the item limit never gives.
    let mut store = Store::new();
    store.top_set(&b"big".to_vec(), vec![1u8; 50]);
    store.top_set(&b"tiny".to_vec(), vec![1u8; 1]);
    let mut task = MigrationTask::default();
    task.migrate_until_exhaustion(MigrationLimits { item: 10, size: 10 }, &mut store);
    // The first counted read was the empty starting key; the second hit
    // `big` and blew straight past the size limit.
    assert_eq!(task.dyn_size, 50);
    assert_eq!(task.dyn_top_items, 2);
    assert_eq!(task.current_top, Some(b"tiny".to_vec()));
}
