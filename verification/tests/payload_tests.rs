use vfuzztrie::payload::Payload;
use vfuzztrie::payload_from_parts;
use vfuzztrie::BuildError;

fn payload(prefix_size: u32, ids: &[u32], counts: &[u32]) -> Payload {
    Payload { prefix_size, video_ids: ids.to_vec(), video_counts: counts.to_vec() }
}

#[test]
fn empty_payload_has_nothing() {
    let p = Payload::empty();
    assert_eq!(p.prefix_size, 0);
    assert!(p.video_ids.is_empty());
    assert!(p.video_counts.is_empty());
}

#[test]
fn merge_sums_counts_per_id_and_sorts_by_total() {
    let mut a = payload(5, &[1, 2], &[3, 4]);
    let b = payload(7, &[2, 3], &[10, 1]);
    a.merge_from(&b);
    assert_eq!(a.prefix_size, 12);
    assert_eq!(a.video_ids, vec![2, 1, 3]);
    assert_eq!(a.video_counts, vec![14, 3, 1]);
}

#[test]
fn merge_aggregates_repeated_ids_within_one_payload() {
    let mut a = payload(1, &[4, 4, 9, 4], &[1, 2, 10, 3]);
    let b = Payload::empty();
    a.merge_from(&b);
    assert_eq!(a.video_ids, vec![9, 4]);
    assert_eq!(a.video_counts, vec![10, 6]);
    assert_eq!(a.prefix_size, 1);
}

#[test]
fn merge_keeps_first_appearance_order_on_ties() {
    let mut a = payload(0, &[7, 3], &[5, 5]);
    let b = payload(0, &[1], &[5]);
    a.merge_from(&b);
    assert_eq!(a.video_ids, vec![7, 3, 1]);
    assert_eq!(a.video_counts, vec![5, 5, 5]);
}

#[test]
fn merge_saturates_prefix_size() {
    let mut a = payload(u32::MAX - 1, &[], &[]);
    let b = payload(5, &[], &[]);
    a.merge_from(&b);
    assert_eq!(a.prefix_size, u32::MAX);
}

#[test]
fn merge_stores_totals_modulo_two_to_the_32() {
    let mut a = payload(0, &[1, 2], &[u32::MAX, 3]);
    let b = payload(0, &[1], &[u32::MAX]);
    a.merge_from(&b);
    // total of id 1 is 2^33 - 2, above id 2's total, so it comes first
    assert_eq!(a.video_ids, vec![1, 2]);
    assert_eq!(a.video_counts, vec![4294967294, 3]);
}

#[test]
fn merge_ignores_extra_counts() {
    let mut a = payload(0, &[1], &[2, 99]);
    let b = payload(0, &[], &[]);
    a.merge_from(&b);
    assert_eq!(a.video_ids, vec![1]);
    assert_eq!(a.video_counts, vec![2]);
}

#[test]
fn merge_of_two_empty_payloads_is_empty() {
    let mut a = Payload::empty();
    a.merge_from(&Payload::empty());
    assert!(a.video_ids.is_empty());
    assert!(a.video_counts.is_empty());
}

#[test]
fn prune_cuts_to_the_limit() {
    let mut p = payload(3, &[1, 2, 3], &[9, 8, 7]);
    p.prune(Some(2));
    assert_eq!(p.video_ids, vec![1, 2]);
    assert_eq!(p.video_counts, vec![9, 8]);
    assert_eq!(p.prefix_size, 3);
}

#[test]
fn prune_without_limit_or_under_it_keeps_everything() {
    let mut p = payload(3, &[1, 2, 3], &[9, 8, 7]);
    p.prune(None);
    assert_eq!(p.video_ids, vec![1, 2, 3]);
    p.prune(Some(3));
    assert_eq!(p.video_ids, vec![1, 2, 3]);
    p.prune(Some(10));
    assert_eq!(p.video_counts, vec![9, 8, 7]);
}

#[test]
fn prune_to_zero_empties_the_lists() {
    let mut p = payload(3, &[1, 2], &[9, 8]);
    p.prune(Some(0));
    assert!(p.video_ids.is_empty());
    assert!(p.video_counts.is_empty());
}

#[test]
fn payload_from_parts_checks_lengths() {
    let p = payload_from_parts(4, vec![1, 2], vec![3, 4]).unwrap();
    assert_eq!(p.prefix_size, 4);
    assert_eq!(p.video_ids, vec![1, 2]);
    assert_eq!(p.video_counts, vec![3, 4]);
    let e = payload_from_parts(4, vec![1, 2], vec![3]).unwrap_err();
    assert_eq!(e, BuildError::PayloadLengthMismatch);
}
