use vfuzztrie::payload::Payload;
use vfuzztrie::prefix::trie::{IdMode, Trie};

fn payload(prefix_size: u32, ids: &[u32], counts: &[u32]) -> Payload {
    Payload { prefix_size, video_ids: ids.to_vec(), video_counts: counts.to_vec() }
}

// Words "car", "cat", "cart", "dog":
// 0 root -> 1 'c', 2 'd'; 1 -> 3 'a'; 2 -> 4 'o'; 3 -> 5 'r', 6 't'; 4 -> 7 'g'; 5 -> 8 't'.
fn sample_trie() -> Trie {
    Trie {
        node_shifts: vec![0, 2, 3, 4, 6, 7, 8, 8, 8],
        child_labels: vec!['\0', 'c', 'd', 'a', 'o', 'r', 't', 'g', 't'],
        child_transitions: vec![1, 2, 3, 4, 5, 6, 7, 8],
        payloads: vec![
            None,
            None,
            None,
            None,
            None,
            Some(payload(2, &[10, 11], &[5, 1])),
            Some(payload(1, &[11], &[7])),
            Some(payload(3, &[12], &[2])),
            Some(payload(1, &[10], &[4])),
        ],
        video_index: Vec::new(),
        channel_index: Vec::new(),
        id_mode: IdMode::Uuid16,
        terminals: vec![false, false, false, false, false, true, true, true, true],
    }
}

#[test]
fn children_range_follows_shifts() {
    let t = sample_trie();
    assert_eq!(t.children_range(0), 0..2);
    assert_eq!(t.children_range(3), 4..6);
    // the last node's range runs to the end of the transitions
    assert_eq!(t.children_range(8), 8..8);
    assert_eq!(t.children_range(6), 8..8);
}

#[test]
fn children_lists_transitions() {
    let t = sample_trie();
    assert_eq!(t.children(0), vec![1, 2]);
    assert_eq!(t.children(3), vec![5, 6]);
    assert_eq!(t.children(5), vec![8]);
    assert!(t.children(7).is_empty());
}

#[test]
fn children_of_reversed_shifts_is_empty() {
    let mut t = sample_trie();
    t.node_shifts = vec![3, 1, 3, 4, 6, 7, 8, 8, 8];
    assert!(t.children(0).is_empty());
}

#[test]
fn propagate_merges_children_bottom_up() {
    let mut t = sample_trie();
    t.propagate(2);
    let get = |i: usize| t.payloads[i].clone().unwrap();
    assert_eq!(get(8).video_ids, vec![10]);
    assert_eq!(get(5).prefix_size, 3);
    assert_eq!(get(5).video_ids, vec![10, 11]);
    assert_eq!(get(5).video_counts, vec![9, 1]);
    assert_eq!(get(3).prefix_size, 4);
    assert_eq!(get(3).video_ids, vec![10, 11]);
    assert_eq!(get(3).video_counts, vec![9, 8]);
    assert_eq!(get(4).video_ids, vec![12]);
    assert_eq!(get(2).prefix_size, 3);
    assert_eq!(get(1).video_counts, vec![9, 8]);
    // root: totals 10:9, 11:8, 12:2, cut to two videos
    assert_eq!(get(0).prefix_size, 7);
    assert_eq!(get(0).video_ids, vec![10, 11]);
    assert_eq!(get(0).video_counts, vec![9, 8]);
}

#[test]
fn propagate_fills_missing_payloads_and_respects_top_n() {
    let mut t = sample_trie();
    t.propagate(1);
    for p in t.payloads.iter() {
        let p = p.as_ref().unwrap();
        assert!(p.video_ids.len() <= 1);
    }
    assert_eq!(t.payloads[0].as_ref().unwrap().video_ids, vec![10]);
    assert_eq!(t.payloads[0].as_ref().unwrap().video_counts, vec![9]);
}

#[test]
fn propagate_with_zero_top_n_keeps_prefix_sizes_only() {
    let mut t = sample_trie();
    t.propagate(0);
    let root = t.payloads[0].as_ref().unwrap();
    assert!(root.video_ids.is_empty());
    // the root merges its children's (already cut) payloads: 1 -> 3 -> {5, 6}
    assert_eq!(root.prefix_size, 7);
}

#[test]
fn propagate_leaves_slots_past_the_labels_alone() {
    let mut t = sample_trie();
    t.payloads.push(Some(payload(9, &[1, 2, 3], &[1, 2, 3])));
    t.propagate(1);
    let extra = t.payloads[9].as_ref().unwrap();
    assert_eq!(extra.video_ids, vec![1, 2, 3]);
    assert_eq!(extra.prefix_size, 9);
}

#[test]
fn is_wf_accepts_the_sample_and_rejects_broken_tries() {
    let t = sample_trie();
    assert!(t.is_wf());
    let mut bad = sample_trie();
    bad.child_transitions[7] = 42;
    assert!(!bad.is_wf());
    let mut bad2 = sample_trie();
    bad2.terminals.pop();
    assert!(!bad2.is_wf());
    let mut bad3 = sample_trie();
    bad3.node_shifts = vec![0, 2, 3, 4, 6, 7, 9, 8, 8];
    assert!(!bad3.is_wf());
    let mut empty = sample_trie();
    empty.node_shifts.clear();
    assert!(!empty.is_wf());
}
