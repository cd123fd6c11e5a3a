use vfuzztrie::payload::Payload;
use vfuzztrie::prefix::trie::{IdMode, Trie};
use vfuzztrie::{check_layout, check_shifts, check_video_index, BuildError, PrefixSearch};

fn payload(prefix_size: u32, ids: &[u32], counts: &[u32]) -> Payload {
    Payload { prefix_size, video_ids: ids.to_vec(), video_counts: counts.to_vec() }
}

fn labels() -> Vec<String> {
    ["", "c", "d", "a", "o", "r", "t", "g", "t"].iter().map(|s| s.to_string()).collect()
}

fn payloads() -> Vec<Option<Payload>> {
    vec![
        None,
        None,
        None,
        None,
        None,
        Some(payload(2, &[10, 11], &[5, 1])),
        Some(payload(1, &[11], &[7])),
        Some(payload(3, &[12], &[2])),
        Some(payload(1, &[10], &[4])),
    ]
}

fn shifts() -> Vec<u32> {
    vec![0, 2, 3, 4, 6, 7, 8, 8, 8]
}

fn transitions() -> Vec<u32> {
    vec![1, 2, 3, 4, 5, 6, 7, 8]
}

fn videos() -> Vec<Vec<u8>> {
    vec![(0u8..16).collect(), vec![0xab; 16]]
}

#[test]
fn builds_propagated_index() {
    let ps = PrefixSearch::from_internal_data_v2(shifts(), labels(), payloads(), transitions(), videos(), 2)
        .unwrap();
    let t = &ps.trie;
    assert_eq!(t.child_labels, vec!['\0', 'c', 'd', 'a', 'o', 'r', 't', 'g', 't']);
    assert_eq!(t.terminals, vec![false, false, false, false, false, true, true, true, true]);
    assert_eq!(t.video_index.len(), 2);
    assert_eq!(t.video_index[1], [0xab; 16]);
    assert_eq!(t.video_index[0][15], 15);
    assert!(t.channel_index.is_empty());
    assert!(matches!(t.id_mode, IdMode::Uuid16));
    assert!(t.payloads.iter().all(|p| p.is_some()));
    let root = t.payloads[0].as_ref().unwrap();
    assert_eq!(root.prefix_size, 7);
    assert_eq!(root.video_ids, vec![10, 11]);
    assert_eq!(root.video_counts, vec![9, 8]);
    assert!(t.is_wf());
}

#[test]
fn label_uses_first_character_only() {
    let mut ls = labels();
    ls[1] = "cx".to_string();
    let ps = PrefixSearch::from_internal_data_v2(shifts(), ls, payloads(), transitions(), videos(), 2).unwrap();
    assert_eq!(ps.trie.child_labels[1], 'c');
}

#[test]
fn shift_count_mismatch_is_reported() {
    let mut s = shifts();
    s.pop();
    let e = PrefixSearch::from_internal_data_v2(s, labels(), payloads(), transitions(), videos(), 2)
        .err()
        .unwrap();
    assert_eq!(e, BuildError::NodeShiftsLen { got: 8, expected: 9 });
}

#[test]
fn payload_count_mismatch_is_reported() {
    let mut p = payloads();
    p.push(None);
    let e = PrefixSearch::from_internal_data_v2(shifts(), labels(), p, transitions(), videos(), 2)
        .err()
        .unwrap();
    assert_eq!(e, BuildError::PayloadsLen { got: 10, expected: 9 });
}

#[test]
fn first_out_of_range_transition_is_reported() {
    let mut t = transitions();
    t[3] = 9;
    t[6] = 100;
    let e = PrefixSearch::from_internal_data_v2(shifts(), labels(), payloads(), t, videos(), 2)
        .err()
        .unwrap();
    assert_eq!(e, BuildError::TransitionOutOfRange { index: 3, value: 9, bound: 9 });
}

#[test]
fn short_video_entry_is_reported() {
    let mut v = videos();
    v.push(vec![1; 15]);
    let e = PrefixSearch::from_internal_data_v2(shifts(), labels(), payloads(), transitions(), v, 2)
        .err()
        .unwrap();
    assert_eq!(e, BuildError::VideoIndexEntry);
}

#[test]
fn shape_errors_come_before_video_errors() {
    let mut v = videos();
    v.push(vec![1; 3]);
    let mut s = shifts();
    s.push(0);
    let e = PrefixSearch::from_internal_data_v2(s, labels(), payloads(), transitions(), v, 2).err().unwrap();
    assert_eq!(e, BuildError::NodeShiftsLen { got: 10, expected: 9 });
}

#[test]
fn checks_on_their_own() {
    assert_eq!(check_layout(9, 9, 9, &transitions()), Ok(()));
    assert_eq!(check_layout(9, 9, 8, &transitions()), Err(BuildError::PayloadsLen { got: 8, expected: 9 }));
    assert!(check_video_index(&videos()));
    assert!(!check_video_index(&vec![vec![0u8; 17]]));
    assert!(check_shifts(&shifts(), 8));
    assert!(!check_shifts(&vec![0, 2, 9], 8));
    assert!(check_shifts(&vec![2, 1, 1], 1));
    assert!(check_shifts(&vec![], 0));
}

#[test]
fn fuzzy_match_reports_keys_with_payload_flags() {
    let ps = PrefixSearch::from_internal_data_v2(shifts(), labels(), payloads(), transitions(), videos(), 2)
        .unwrap();
    assert_eq!(
        ps.fuzzy_match("car", 1, None),
        vec![("car".to_string(), 1, 0), ("cart".to_string(), 1, 1), ("cat".to_string(), 1, 1)]
    );
    assert_eq!(ps.fuzzy_match("dog", 1, Some(1)), vec![("dog".to_string(), 1, 0)]);
    assert!(ps.fuzzy_match("zzzz", 1, None).is_empty());
}

#[test]
fn fuzzy_match_flags_nodes_without_payload() {
    let mut ps = PrefixSearch::from_internal_data_v2(shifts(), labels(), payloads(), transitions(), videos(), 2)
        .unwrap();
    ps.trie.payloads[6] = None;
    assert_eq!(
        ps.fuzzy_match("cat", 0, None),
        vec![("cat".to_string(), 0, 0)]
    );
}

#[test]
fn payload_list_mismatch_is_reported_after_shape_and_before_video_checks() {
    let mut p = payloads();
    p[6] = Some(payload(1, &[11, 12], &[7]));
    let mut v = videos();
    v.push(vec![1; 3]);
    let e = PrefixSearch::from_internal_data_v2(shifts(), labels(), p.clone(), transitions(), v.clone(), 2)
        .err()
        .unwrap();
    assert_eq!(e, BuildError::PayloadLengthMismatch);
    let mut s = shifts();
    s.pop();
    let e2 = PrefixSearch::from_internal_data_v2(s, labels(), p, transitions(), v, 2).err().unwrap();
    assert_eq!(e2, BuildError::NodeShiftsLen { got: 8, expected: 9 });
}

#[test]
fn fuzzy_match_on_index_with_more_labels_than_payload_slots() {
    let trie = Trie {
        node_shifts: vec![0],
        child_labels: vec!['\0', 'a'],
        child_transitions: vec![],
        payloads: vec![None],
        video_index: Vec::new(),
        channel_index: Vec::new(),
        id_mode: IdMode::Uuid16,
        terminals: vec![false, true],
    };
    let ps = PrefixSearch { trie };
    assert!(ps.fuzzy_match("a", 1, None).is_empty());
}

#[test]
fn every_key_of_a_built_index_has_a_payload() {
    let ps = PrefixSearch::from_internal_data_v2(shifts(), labels(), payloads(), transitions(), videos(), 2)
        .unwrap();
    let r = ps.fuzzy_match("cat", 3, None);
    assert_eq!(r.len(), 4);
    assert!(r.iter().all(|x| x.1 == 1));
}
