use std::collections::BTreeMap;

use vfuzztrie::payload::Payload;
use vfuzztrie::prefix::matcher::{fuzzy_match, fuzzy_match_nodes};
use vfuzztrie::prefix::trie::{IdMode, Trie};

/// Builds the flat arrays of a trie holding `words`, numbering nodes breadth first.
fn build(words: &[&str]) -> Trie {
    // children[v] = sorted (label, child) pairs
    let mut children: Vec<BTreeMap<char, usize>> = vec![BTreeMap::new()];
    let mut labels: Vec<char> = vec!['\0'];
    let mut terminal: Vec<bool> = vec![false];
    for w in words {
        let mut v = 0;
        for c in w.chars() {
            let next = match children[v].get(&c) {
                Some(&n) => n,
                None => {
                    children.push(BTreeMap::new());
                    labels.push(c);
                    terminal.push(false);
                    let n = labels.len() - 1;
                    children[v].insert(c, n);
                    n
                }
            };
            v = next;
        }
        terminal[v] = true;
    }
    // renumber breadth first
    let mut order = vec![0usize];
    let mut i = 0;
    while i < order.len() {
        let v = order[i];
        for (_, &c) in children[v].iter() {
            order.push(c);
        }
        i += 1;
    }
    let mut new_id = vec![0usize; order.len()];
    for (k, &v) in order.iter().enumerate() {
        new_id[v] = k;
    }
    let mut node_shifts = Vec::new();
    let mut child_transitions = Vec::new();
    let mut child_labels = Vec::new();
    let mut terminals = Vec::new();
    let mut payloads = Vec::new();
    for &v in order.iter() {
        node_shifts.push(child_transitions.len() as u32);
        for (_, &c) in children[v].iter() {
            child_transitions.push(new_id[c] as u32);
        }
        child_labels.push(labels[v]);
        terminals.push(terminal[v]);
        payloads.push(if terminal[v] { Some(Payload::empty()) } else { None });
    }
    Trie {
        node_shifts,
        child_labels,
        child_transitions,
        payloads,
        video_index: Vec::new(),
        channel_index: Vec::new(),
        id_mode: IdMode::Uuid16,
        terminals,
    }
}

fn levenshtein(a: &[char], b: &[char]) -> u32 {
    let mut prev: Vec<u32> = (0..=b.len() as u32).collect();
    for i in 1..=a.len() {
        let mut cur = vec![i as u32; b.len() + 1];
        for j in 1..=b.len() {
            let cost = if a[i - 1] == b[j - 1] { 0 } else { 1 };
            cur[j] = (cur[j - 1] + 1).min(prev[j] + 1).min(prev[j - 1] + cost);
        }
        prev = cur;
    }
    prev[b.len()]
}

const WORDS: &[&str] = &[
    "car", "cart", "carton", "cat", "category", "dog", "dot", "do", "door", "zebra", "zero", "a", "ab",
    "abc", "banana", "band", "bandana", "кот", "код",
];

#[test]
fn fuzzy_match_finds_exactly_the_keys_within_distance() {
    let trie = build(WORDS);
    assert!(trie.is_wf());
    for term in ["car", "ca", "dor", "", "bananna", "zbra", "abd", "кто", "x"] {
        let t: Vec<char> = term.chars().collect();
        for d in 0..4u32 {
            let mut got: Vec<(String, u32)> =
                fuzzy_match(&trie, term, d, None).into_iter().map(|m| (m.prefix, m.distance)).collect();
            got.sort();
            let mut want: Vec<(String, u32)> = WORDS
                .iter()
                .map(|w| (w.to_string(), levenshtein(&w.chars().collect::<Vec<_>>(), &t)))
                .filter(|(_, dist)| *dist <= d)
                .collect();
            want.sort();
            assert_eq!(got, want, "term {:?} distance {}", term, d);
        }
    }
}

#[test]
fn every_reported_node_is_terminal_and_spells_its_prefix() {
    let trie = build(WORDS);
    for m in fuzzy_match(&trie, "band", 2, None) {
        assert!(trie.terminals[m.node_id]);
        assert_eq!(m.prefix.chars().last(), Some(trie.child_labels[m.node_id]));
    }
}

#[test]
fn limited_results_are_the_start_of_the_unlimited_ones() {
    let trie = build(WORDS);
    let all: Vec<usize> = fuzzy_match(&trie, "do", 2, None).into_iter().map(|m| m.node_id).collect();
    assert!(all.len() >= 3);
    for lim in 0..all.len() + 2 {
        let some: Vec<usize> =
            fuzzy_match(&trie, "do", 2, Some(lim)).into_iter().map(|m| m.node_id).collect();
        let cap = lim.max(1).min(all.len());
        assert_eq!(some, all[..cap].to_vec());
    }
}

#[test]
fn node_search_on_terminals_agrees_with_key_search() {
    let trie = build(WORDS);
    for lim in [None, Some(0), Some(2), Some(100)] {
        let a: Vec<(usize, u32)> =
            fuzzy_match(&trie, "cart", 2, lim).into_iter().map(|m| (m.node_id, m.distance)).collect();
        let b: Vec<(usize, u32)> = fuzzy_match_nodes(&trie, "cart", 2, true, lim)
            .into_iter()
            .map(|m| (m.node_id, m.distance as u32))
            .collect();
        assert_eq!(a, b);
    }
}

#[test]
fn propagated_node_is_its_own_payload_merged_with_its_children() {
    let mut trie = build(&["ab", "ac", "b"]);
    // nodes breadth first: 0 root, 1 'a', 2 'b', 3 'b' (ab), 4 'c' (ac)
    trie.payloads[1] = Some(Payload { prefix_size: 1, video_ids: vec![5], video_counts: vec![1] });
    trie.payloads[3] = Some(Payload { prefix_size: 2, video_ids: vec![6, 5], video_counts: vec![3, 2] });
    trie.payloads[4] = Some(Payload { prefix_size: 4, video_ids: vec![7], video_counts: vec![9] });
    trie.payloads[2] = Some(Payload { prefix_size: 8, video_ids: vec![6], video_counts: vec![1] });
    let mut expected_a = trie.payloads[1].clone().unwrap();
    expected_a.merge_from(trie.payloads[3].as_ref().unwrap());
    expected_a.merge_from(trie.payloads[4].as_ref().unwrap());
    expected_a.prune(Some(10));
    trie.propagate(10);
    let a = trie.payloads[1].as_ref().unwrap();
    assert_eq!(a.prefix_size, expected_a.prefix_size);
    assert_eq!(a.video_ids, expected_a.video_ids);
    assert_eq!(a.video_counts, expected_a.video_counts);
    assert_eq!(a.video_ids, vec![7, 5, 6]);
    assert_eq!(a.video_counts, vec![9, 3, 3]);
    let root = trie.payloads[0].as_ref().unwrap();
    assert_eq!(root.prefix_size, 15);
    assert_eq!(root.video_ids, vec![7, 6, 5]);
    assert_eq!(root.video_counts, vec![9, 4, 3]);
}

#[test]
fn larger_distance_only_adds_node_matches() {
    let trie = build(WORDS);
    for ot in [true, false] {
        for term in ["car", "dor", "band", ""] {
            for d2 in 0..4u32 {
                let r2 = fuzzy_match_nodes(&trie, term, d2, ot, None);
                for d1 in 0..=d2 {
                    let r1: Vec<(usize, u16)> =
                        fuzzy_match_nodes(&trie, term, d1, ot, None).into_iter().map(|m| (m.node_id, m.distance)).collect();
                    let f: Vec<(usize, u16)> = r2
                        .iter()
                        .filter(|m| m.distance as u32 <= d1)
                        .map(|m| (m.node_id, m.distance))
                        .collect();
                    assert_eq!(r1, f, "term {:?} {} {} {}", term, d1, d2, ot);
                }
            }
        }
    }
}

#[test]
fn terminal_node_search_filters_the_full_node_search() {
    let trie = build(WORDS);
    for term in ["car", "do", "zebr", "кот"] {
        let all = fuzzy_match_nodes(&trie, term, 2, false, None);
        let terms: Vec<(usize, u16)> =
            fuzzy_match_nodes(&trie, term, 2, true, None).into_iter().map(|m| (m.node_id, m.distance)).collect();
        let f: Vec<(usize, u16)> =
            all.iter().filter(|m| trie.terminals[m.node_id]).map(|m| (m.node_id, m.distance)).collect();
        assert_eq!(terms, f);
    }
}

#[test]
fn merging_with_empty_only_reorders() {
    let mut p = Payload { prefix_size: 6, video_ids: vec![3, 1, 2], video_counts: vec![1, 7, 4] };
    p.merge_from(&Payload::empty());
    assert_eq!(p.prefix_size, 6);
    assert_eq!(p.video_ids, vec![1, 2, 3]);
    assert_eq!(p.video_counts, vec![7, 4, 1]);
}
