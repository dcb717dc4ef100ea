use parity_scale_codec::{Decode, Encode};
use state_trie_migration::codec::{
    decode_auto_limits, decode_task, encode_auto_limits, encode_task,
};
use state_trie_migration::task::{MigrationLimits, MigrationTask};

fn sample_task() -> MigrationTask {
    MigrationTask {
        current_top: Some(b":child_storage:default:chk1".to_vec()),
        current_child: Some(b"key2".to_vec()),
        prev_tick_child: true,
        dyn_top_items: 3,
        dyn_child_items: 4,
        dyn_size: 5,
        size: 788,
        top_items: 13,
        child_items: 4,
    }
}

type TaskTuple = (Option<Vec<u8>>, Option<Vec<u8>>, bool, u32, u32, u32);

fn as_tuple(t: &MigrationTask) -> TaskTuple {
    (
        t.current_top.clone(),
        t.current_child.clone(),
        t.prev_tick_child,
        t.size,
        t.top_items,
        t.child_items,
    )
}

#[test]
fn task_encoding_matches_the_host_codec() {
    let t = sample_task();
    assert_eq!(encode_task(&t), as_tuple(&t).encode());
    let d = MigrationTask::default();
    assert_eq!(encode_task(&d), as_tuple(&d).encode());
}

#[test]
fn task_encoding_round_trips() {
    let t = sample_task();
    let decoded = decode_task(&encode_task(&t)).unwrap();
    // The persisted fields survive; the per-run counters do not.
    assert!(decoded.same_progress(&t));
    assert_eq!(decoded.dyn_top_items, 0);
    assert_eq!(decoded.dyn_child_items, 0);
    assert_eq!(decoded.dyn_size, 0);

    let d = MigrationTask::default();
    assert_eq!(decode_task(&encode_task(&d)).unwrap(), d);

    // The host codec reads the same bytes back to the same tuple.
    let bytes = encode_task(&t);
    let tuple = TaskTuple::decode(&mut bytes.as_slice()).unwrap();
    assert_eq!(tuple, as_tuple(&t));
}

#[test]
fn auto_limits_encoding_matches_the_host_codec() {
    let none: Option<MigrationLimits> = None;
    assert_eq!(encode_auto_limits(&none), Option::<(u32, u32)>::None.encode());
    let some = Some(MigrationLimits { size: 1024, item: 5 });
    assert_eq!(encode_auto_limits(&some), Some((1024u32, 5u32)).encode());
    assert_eq!(decode_auto_limits(&encode_auto_limits(&some)), Some(some));
    assert_eq!(decode_auto_limits(&encode_auto_limits(&none)), Some(none));
}

#[test]
fn compact_length_widths_match_the_host_codec() {
    let lens: [usize; 8] = [0, 1, 63, 64, 300, 16383, 16384, 70000];
    let mut i: usize = 0;
    while i < lens.len() {
        let len: usize = lens[i];
        let t = MigrationTask {
            current_top: Some(vec![7u8; len]),
            ..MigrationTask::default()
        };
        assert_eq!(encode_task(&t), as_tuple(&t).encode());
        assert!(decode_task(&encode_task(&t)).unwrap().same_progress(&t));
        i += 1;
    }
}

#[test]
fn decode_rejects_malformed_input() {
    assert_eq!(decode_task(&Vec::new()), None);
    // An option tag above one.
    assert_eq!(decode_task(&vec![2u8]), None);
    // A trailing byte after a complete image.
    let mut bytes = encode_task(&MigrationTask::default());
    bytes.push(0);
    assert_eq!(decode_task(&bytes), None);
    // A truncated image.
    let mut bytes = encode_task(&MigrationTask::default());
    bytes.pop();
    assert_eq!(decode_task(&bytes), None);
    // A non-canonical boolean.
    let bytes = vec![0u8, 0, 7, 0, 0, 0, 0, 0, 0, 0, 0, 0, 0, 0, 0];
    assert_eq!(decode_task(&bytes), None);
    // The switch image must be consumed whole.
    assert_eq!(decode_auto_limits(&vec![1u8, 0, 0]), None);
    assert_eq!(decode_auto_limits(&vec![9u8]), None);
}
