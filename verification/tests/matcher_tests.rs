use vfuzztrie::payload::Payload;
use vfuzztrie::prefix::matcher::{fuzzy_match, fuzzy_match_nodes};
use vfuzztrie::prefix::trie::{IdMode, Trie};

// Words "car", "cat", "cart", "dog":
// 0 root -> 1 'c', 2 'd'; 1 -> 3 'a'; 2 -> 4 'o'; 3 -> 5 'r', 6 't'; 4 -> 7 'g'; 5 -> 8 't'.
fn sample_trie() -> Trie {
    let some = || Some(Payload::empty());
    Trie {
        node_shifts: vec![0, 2, 3, 4, 6, 7, 8, 8, 8],
        child_labels: vec!['\0', 'c', 'd', 'a', 'o', 'r', 't', 'g', 't'],
        child_transitions: vec![1, 2, 3, 4, 5, 6, 7, 8],
        payloads: vec![None, None, None, None, None, some(), some(), some(), some()],
        video_index: Vec::new(),
        channel_index: Vec::new(),
        id_mode: IdMode::Uuid16,
        terminals: vec![false, false, false, false, false, true, true, true, true],
    }
}

fn summary(t: &Trie, term: &str, d: u32, limit: Option<usize>) -> Vec<(usize, String, u32)> {
    fuzzy_match(t, term, d, limit).into_iter().map(|m| (m.node_id, m.prefix, m.distance)).collect()
}

#[test]
fn exact_and_near_keys_in_depth_first_order() {
    let t = sample_trie();
    assert_eq!(
        summary(&t, "car", 1, None),
        vec![(5, "car".to_string(), 0), (8, "cart".to_string(), 1), (6, "cat".to_string(), 1)]
    );
}

#[test]
fn distance_zero_finds_only_the_exact_key() {
    let t = sample_trie();
    assert_eq!(summary(&t, "cart", 0, None), vec![(8, "cart".to_string(), 0)]);
    assert!(summary(&t, "ca", 0, None).is_empty());
}

#[test]
fn replacement_counts_as_one_edit() {
    let t = sample_trie();
    assert_eq!(summary(&t, "dg", 1, None), vec![(7, "dog".to_string(), 1)]);
    assert_eq!(summary(&t, "dot", 1, None), vec![(7, "dog".to_string(), 1)]);
}

#[test]
fn larger_distance_reaches_every_key() {
    let t = sample_trie();
    let r = summary(&t, "cat", 3, None);
    assert_eq!(
        r,
        vec![
            (5, "car".to_string(), 1),
            (8, "cart".to_string(), 1),
            (6, "cat".to_string(), 0),
            (7, "dog".to_string(), 3),
        ]
    );
}

#[test]
fn limit_stops_early() {
    let t = sample_trie();
    assert_eq!(summary(&t, "car", 1, Some(2)).len(), 2);
    assert_eq!(
        summary(&t, "car", 1, Some(2)),
        vec![(5, "car".to_string(), 0), (8, "cart".to_string(), 1)]
    );
    assert_eq!(summary(&t, "car", 1, Some(10)).len(), 3);
}

#[test]
fn limit_zero_still_returns_the_first_match() {
    let t = sample_trie();
    assert_eq!(summary(&t, "car", 1, Some(0)), vec![(5, "car".to_string(), 0)]);
}

#[test]
fn empty_term_matches_short_keys() {
    let t = sample_trie();
    assert_eq!(
        summary(&t, "", 3, None),
        vec![(5, "car".to_string(), 3), (6, "cat".to_string(), 3), (7, "dog".to_string(), 3)]
    );
}

#[test]
fn nul_labels_are_skipped() {
    let mut t = sample_trie();
    t.child_labels[5] = '\0';
    // "car" and everything below it ("cart") disappear
    assert_eq!(summary(&t, "car", 1, None), vec![(6, "cat".to_string(), 1)]);
}

#[test]
fn nodes_search_includes_inner_nodes_when_asked() {
    let t = sample_trie();
    let r: Vec<(usize, u16)> = fuzzy_match_nodes(&t, "car", 1, false, None)
        .into_iter()
        .map(|m| (m.node_id, m.distance))
        .collect();
    assert_eq!(r, vec![(3, 1), (5, 0), (8, 1), (6, 1)]);
}

#[test]
fn nodes_search_with_terminals_only_agrees_with_fuzzy_match() {
    let t = sample_trie();
    for limit in [None, Some(0), Some(1), Some(2), Some(5)] {
        let a: Vec<(usize, u32)> =
            fuzzy_match(&t, "cat", 2, limit).into_iter().map(|m| (m.node_id, m.distance)).collect();
        let b: Vec<(usize, u32)> = fuzzy_match_nodes(&t, "cat", 2, true, limit)
            .into_iter()
            .map(|m| (m.node_id, m.distance as u32))
            .collect();
        assert_eq!(a, b);
    }
}

#[test]
fn nodes_search_limit() {
    let t = sample_trie();
    let r = fuzzy_match_nodes(&t, "car", 1, false, Some(2));
    assert_eq!(r.len(), 2);
    assert_eq!(r[0].node_id, 3);
    assert_eq!(r[1].node_id, 5);
    let r0 = fuzzy_match_nodes(&t, "car", 1, false, Some(0));
    assert_eq!(r0.len(), 1);
}
