pub mod payload;
pub mod prefix;
pub mod text;

use vstd::prelude::*;

use crate::payload::{Payload, PayloadModel};
use crate::prefix::matcher::{fuzzy_match, lemma_scan_in_range, limited, match_views};
use crate::prefix::trie::{filled, lemma_settled_shape, within_half, IdMode, Trie};
use crate::text::{first_char, first_char_of};

verus! {

/// Why a search index could not be built from its flat arrays.
#[derive(Debug, Clone, PartialEq, Eq)]
pub enum BuildError {
    /// `node_shifts` does not have one entry per label.
    NodeShiftsLen { got: usize, expected: usize },
    /// `payloads` does not have one entry per label.
    PayloadsLen { got: usize, expected: usize },
    /// A child transition names a node that does not exist.
    TransitionOutOfRange { index: usize, value: u32, bound: usize },
    /// A payload's id and count lists differ in length.
    PayloadLengthMismatch,
    /// A video index entry is not exactly 16 bytes long.
    VideoIndexEntry,
}

/// A prefix search index over a trie whose payloads have been propagated.
#[derive(Clone)]
pub struct PrefixSearch {
    pub trie: Trie,
}

/// The payload with the given prefix size, video ids and counts, when the id
/// and count lists have the same length.
pub fn payload_from_parts(prefix_size: u32, video_ids: Vec<u32>, video_counts: Vec<u32>) -> (r: Result<
    Payload,
    BuildError,
>)
    ensures
        video_ids@.len() != video_counts@.len() ==> r == Err::<Payload, BuildError>(
            BuildError::PayloadLengthMismatch,
        ),
        video_ids@.len() == video_counts@.len() ==> (r matches Ok(p) && p@ == PayloadModel {
            prefix_size,
            ids: video_ids@,
            counts: video_counts@,
        }),
{
    if video_ids.len() != video_counts.len() {
        return Err(BuildError::PayloadLengthMismatch);
    }
    Ok(Payload { prefix_size, video_ids, video_counts })
}

/// The first child transition that names a node at or above `n`.
pub open spec fn is_first_bad(ct: Seq<u32>, n: nat, i: int) -> bool {
    &&& 0 <= i < ct.len()
    &&& ct[i] >= n
    &&& forall|j: int| 0 <= j < i ==> ct[j] < n
}

/// The index of the first child transition that names a node at or above `n`.
pub open spec fn first_bad(ct: Seq<u32>, n: nat) -> int {
    choose|i: int| is_first_bad(ct, n, i)
}

/// The outcome of the shape checks on the flat arrays: one shift and one
/// payload per label, and every child transition naming an existing node.
pub open spec fn layout_check(ns_len: usize, n_labels: usize, n_payloads: usize, ct: Seq<u32>) -> Result<
    (),
    BuildError,
> {
    if ns_len != n_labels {
        Err(BuildError::NodeShiftsLen { got: ns_len, expected: n_labels })
    } else if n_payloads != n_labels {
        Err(BuildError::PayloadsLen { got: n_payloads, expected: n_labels })
    } else if exists|i: int| 0 <= i < ct.len() && ct[i] >= n_labels {
        let i = first_bad(ct, n_labels as nat);
        Err(BuildError::TransitionOutOfRange { index: i as usize, value: ct[i], bound: n_labels })
    } else {
        Ok(())
    }
}

/// Every video index entry is 16 bytes long.
pub open spec fn video_index_ok(vi: Seq<Vec<u8>>) -> bool {
    forall|i: int| 0 <= i < vi.len() ==> (#[trigger] vi[i])@.len() == 16
}

/// Every payload has as many counts as ids.
pub open spec fn payload_lists_ok(ps: Seq<Option<Payload>>) -> bool {
    forall|i: int|
        0 <= i < ps.len() && #[trigger] ps[i] is Some ==> ps[i]->0.video_ids@.len()
            == ps[i]->0.video_counts@.len()
}

/// The payload check accepts a payload list exactly when every present
/// payload has as many counts as ids (empty lists included), and rejects it
/// exactly when some present payload's lists differ in length.
pub proof fn lemma_payload_lists_ok(ps: Seq<Option<Payload>>)
    ensures
        payload_lists_ok(ps) <==> forall|i: int|
            0 <= i < ps.len() && #[trigger] ps[i] is Some ==> ps[i]->0.video_ids@.len()
                == ps[i]->0.video_counts@.len(),
        !payload_lists_ok(ps) <==> exists|i: int|
            0 <= i < ps.len() && #[trigger] ps[i] is Some && ps[i]->0.video_ids@.len()
                != ps[i]->0.video_counts@.len(),
        forall|i: int|
            0 <= i < ps.len() && #[trigger] ps[i] is Some && ps[i]->0.video_ids@.len() == 0
                && ps[i]->0.video_counts@.len() == 0 && payload_lists_ok(ps.update(i, None)) ==> payload_lists_ok(ps),
{
    assert forall|i: int|
        0 <= i < ps.len() && #[trigger] ps[i] is Some && ps[i]->0.video_ids@.len() == 0
            && ps[i]->0.video_counts@.len() == 0 && payload_lists_ok(ps.update(i, None)) implies payload_lists_ok(ps) by {
        assert forall|j: int|
            0 <= j < ps.len() && #[trigger] ps[j] is Some implies ps[j]->0.video_ids@.len()
                == ps[j]->0.video_counts@.len() by {
            if j != i {
                assert(ps.update(i, None)[j] == ps[j]);
            }
        }
    }
}

/// Every non-empty children range ends inside `child_transitions`.
pub open spec fn shifts_fit(ns: Seq<u32>, n_transitions: nat) -> bool {
    forall|v: int| 0 <= v < ns.len() - 1 ==> #[trigger] ns[v] < ns[v + 1] ==> ns[v + 1] <= n_transitions
}

/// Checks the shape of the flat arrays, as `layout_check` states.
pub fn check_layout(ns_len: usize, n_labels: usize, n_payloads: usize, child_transitions: &Vec<u32>) -> (r:
    Result<(), BuildError>)
    ensures
        r == layout_check(ns_len, n_labels, n_payloads, child_transitions@),
{
    if ns_len != n_labels {
        return Err(BuildError::NodeShiftsLen { got: ns_len, expected: n_labels });
    }
    if n_payloads != n_labels {
        return Err(BuildError::PayloadsLen { got: n_payloads, expected: n_labels });
    }
    let ghost ct = child_transitions@;
    let mut i: usize = 0;
    while i < child_transitions.len()
        invariant
            ct == child_transitions@,
            ns_len == n_labels,
            n_payloads == n_labels,
            i <= ct.len(),
            forall|j: int| 0 <= j < i ==> ct[j] < n_labels,
        decreases ct.len() - i,
    {
        let cid = child_transitions[i];
        if cid as usize >= n_labels {
            assert(is_first_bad(ct, n_labels as nat, i as int));
            assert(exists|j: int| 0 <= j < ct.len() && ct[j] >= n_labels);
            let ghost k = first_bad(ct, n_labels as nat);
            assert(k == i) by {
                if k < i {
                    assert(ct[k] < n_labels);
                } else if k > i {
                    assert(ct[i as int] < n_labels);
                }
            }
            let r = Err(BuildError::TransitionOutOfRange { index: i, value: cid, bound: n_labels });
            assert(r == layout_check(ns_len, n_labels, n_payloads, ct));
            return r;
        }
        i += 1;
    }
    Ok(())
}

/// Checks that every payload has as many counts as ids.
pub fn check_payload_lists(payloads: &Vec<Option<Payload>>) -> (ok: bool)
    ensures
        ok == payload_lists_ok(payloads@),
{
    let mut i: usize = 0;
    while i < payloads.len()
        invariant
            i <= payloads@.len(),
            forall|j: int|
                0 <= j < i && #[trigger] payloads@[j] is Some ==> payloads@[j]->0.video_ids@.len()
                    == payloads@[j]->0.video_counts@.len(),
        decreases payloads@.len() - i,
    {
        if let Some(p) = &payloads[i] {
            if p.video_ids.len() != p.video_counts.len() {
                return false;
            }
        }
        i += 1;
    }
    true
}

/// Checks that every video index entry is 16 bytes long.
pub fn check_video_index(video_index: &Vec<Vec<u8>>) -> (ok: bool)
    ensures
        ok == video_index_ok(video_index@),
{
    let mut i: usize = 0;
    while i < video_index.len()
        invariant
            i <= video_index@.len(),
            forall|j: int| 0 <= j < i ==> (#[trigger] video_index@[j])@.len() == 16,
        decreases video_index@.len() - i,
    {
        if video_index[i].len() != 16 {
            return false;
        }
        i += 1;
    }
    true
}

/// Checks that every non-empty children range ends inside `child_transitions`.
pub fn check_shifts(node_shifts: &Vec<u32>, n_transitions: usize) -> (ok: bool)
    ensures
        ok == shifts_fit(node_shifts@, n_transitions as nat),
{
    let ns = node_shifts.len();
    if ns == 0 {
        return true;
    }
    let mut v: usize = 0;
    while v < ns - 1
        invariant
            ns == node_shifts@.len(),
            ns > 0,
            v <= ns - 1,
            forall|u: int|
                0 <= u < v ==> #[trigger] node_shifts@[u] < node_shifts@[u + 1] ==> node_shifts@[u + 1]
                    <= n_transitions,
        decreases ns - 1 - v,
    {
        if node_shifts[v] < node_shifts[v + 1] && node_shifts[v + 1] as usize > n_transitions {
            return false;
        }
        v += 1;
    }
    true
}

/// The 16-byte array holding the bytes of `v`.
fn fixed16(v: &Vec<u8>) -> (a: [u8; 16])
    requires
        v@.len() == 16,
    ensures
        a@ == v@,
{
    let a = [
        v[0],
        v[1],
        v[2],
        v[3],
        v[4],
        v[5],
        v[6],
        v[7],
        v[8],
        v[9],
        v[10],
        v[11],
        v[12],
        v[13],
        v[14],
        v[15],
    ];
    assert(a@ =~= v@);
    a
}

impl PrefixSearch {
    /// Builds the index from the flat arrays of a trie: `node_shifts[v]` is
    /// where node `v`'s children start in `child_transitions`, the first
    /// character of `child_labels[v]` is its label (`'\0'` when empty), a
    /// node with a payload is a complete key, and each video index entry is
    /// a 16-byte UUID. The payloads are then propagated, keeping
    /// `video_top_n` videos per node. The shape is checked first, then the
    /// payloads' id and count lists, then the video index.
    pub fn from_internal_data_v2(
        node_shifts: Vec<u32>,
        child_labels: Vec<String>,
        payloads: Vec<Option<Payload>>,
        child_transitions: Vec<u32>,
        video_index: Vec<Vec<u8>>,
        video_top_n: usize,
    ) -> (r: Result<Self, BuildError>)
        requires
            layout_check(
                node_shifts.len(),
                child_labels.len(),
                payloads.len(),
                child_transitions@,
            ) is Ok && payload_lists_ok(payloads@) && video_index_ok(video_index@) ==> {
                &&& shifts_fit(node_shifts@, child_transitions@.len())
                &&& forall|i: int|
                    0 <= i < payloads@.len() && #[trigger] payloads@[i] is Some ==> within_half(
                        payloads@[i]->0@,
                    )
            },
        ensures
            ({
                let checked = layout_check(
                    node_shifts.len(),
                    child_labels.len(),
                    payloads.len(),
                    child_transitions@,
                );
                &&& checked is Err ==> r == Err::<Self, BuildError>(checked->Err_0)
                &&& checked is Ok && !payload_lists_ok(payloads@) ==> r == Err::<Self, BuildError>(
                    BuildError::PayloadLengthMismatch,
                )
                &&& checked is Ok && payload_lists_ok(payloads@) && !video_index_ok(video_index@) ==> r
                    == Err::<Self, BuildError>(BuildError::VideoIndexEntry)
                &&& checked is Ok && payload_lists_ok(payloads@) && video_index_ok(video_index@) ==> r is Ok
            }),
            r matches Ok(s) ==> s.trie.node_shifts@ == node_shifts@,
            r matches Ok(s) ==> s.trie.child_transitions@ == child_transitions@,
            r matches Ok(s) ==> s.trie.child_labels@ == child_labels@.map_values(|l: String| first_char(l@)),
            r matches Ok(s) ==> s.trie.terminals@ == payloads@.map_values(|o: Option<Payload>| o is Some),
            r matches Ok(s) ==> s.trie.video_index@.len() == video_index@.len(),
            r matches Ok(s) ==> forall|i: int|
                0 <= i < video_index@.len() ==> (#[trigger] s.trie.video_index@[i])@ == video_index@[i]@,
            r matches Ok(s) ==> s.trie.channel_index@.len() == 0,
            r matches Ok(s) ==> s.trie.id_mode == IdMode::Uuid16,
            r matches Ok(s) ==> s.trie.payloads@.len() == payloads@.len(),
            r matches Ok(s) ==> forall|v: int|
                0 <= v < s.trie.payloads@.len() ==> #[trigger] s.trie.payloads@[v] is Some,
            r matches Ok(s) ==> filled(s.trie.payloads@) == s.trie.settled(filled(payloads@), 0, video_top_n),
            r matches Ok(s) ==> (node_shifts@.len() > 0 ==> s.trie.wf()),
            r matches Ok(s) ==> s.trie.child_labels@.len() == s.trie.payloads@.len(),
    {
        let n = child_labels.len();
        let ghost checked = layout_check(
            node_shifts.len(),
            child_labels.len(),
            payloads.len(),
            child_transitions@,
        );
        match check_layout(node_shifts.len(), n, payloads.len(), &child_transitions) {
            Err(e) => {
                return Err(e);
            },
            Ok(()) => {},
        }
        assert(forall|i: int| 0 <= i < child_transitions@.len() ==> child_transitions@[i] < n);
        if !check_payload_lists(&payloads) {
            return Err(BuildError::PayloadLengthMismatch);
        }
        let mut labels: Vec<char> = Vec::new();
        let mut i: usize = 0;
        while i < n
            invariant
                n == child_labels@.len(),
                i <= n,
                labels@ == child_labels@.take(i as int).map_values(|l: String| first_char(l@)),
            decreases n - i,
        {
            labels.push(first_char_of(child_labels[i].as_str()));
            i += 1;
            assert(labels@ =~= child_labels@.take(i as int).map_values(|l: String| first_char(l@)));
        }
        assert(child_labels@.take(n as int) =~= child_labels@);
        let mut terminals: Vec<bool> = Vec::new();
        let mut i: usize = 0;
        while i < payloads.len()
            invariant
                i <= payloads@.len(),
                terminals@ == payloads@.take(i as int).map_values(|o: Option<Payload>| o is Some),
            decreases payloads@.len() - i,
        {
            terminals.push(payloads[i].is_some());
            i += 1;
            assert(terminals@ =~= payloads@.take(i as int).map_values(|o: Option<Payload>| o is Some));
        }
        assert(payloads@.take(payloads@.len() as int) =~= payloads@);
        let mut fixed: Vec<[u8; 16]> = Vec::new();
        let mut i: usize = 0;
        while i < video_index.len()
            invariant
                i <= video_index@.len(),
                checked is Ok,
                payload_lists_ok(payloads@),
                checked == layout_check(
                    node_shifts.len(),
                    child_labels.len(),
                    payloads.len(),
                    child_transitions@,
                ),
                fixed@.len() == i,
                forall|j: int| 0 <= j < i ==> (#[trigger] video_index@[j])@.len() == 16,
                forall|j: int| 0 <= j < i ==> (#[trigger] fixed@[j])@ == video_index@[j]@,
            decreases video_index@.len() - i,
        {
            if video_index[i].len() != 16 {
                assert(!video_index_ok(video_index@));
                return Err(BuildError::VideoIndexEntry);
            }
            fixed.push(fixed16(&video_index[i]));
            i += 1;
        }
        let ghost ps_in = payloads@;
        let mut trie = Trie {
            node_shifts,
            child_labels: labels,
            child_transitions,
            payloads,
            video_index: fixed,
            channel_index: Vec::new(),
            id_mode: IdMode::Uuid16,
            terminals,
        };
        proof {
            assert forall|v: int| 0 <= v < trie.child_labels@.len() implies #[trigger] trie.node_ok(v) by {
                if v < n - 1 {
                    assert(trie.node_shifts@[v] < trie.node_shifts@[v + 1] ==> trie.node_shifts@[v + 1]
                        <= trie.child_transitions@.len());
                }
                assert(trie.range_ok(v));
                assert forall|k: int| 0 <= k < trie.child_list(v).len() implies #[trigger] trie.child_list(
                    v,
                )[k] < n by {
                    assert(trie.child_transitions@[trie.range_start(v) + k] < n);
                }
            }
            assert forall|v: int| 0 <= v < trie.child_labels@.len() implies {
                &&& #[trigger] trie.range_ok(v)
                &&& forall|k: int|
                    0 <= k < trie.child_list(v).len() ==> #[trigger] trie.child_list(v)[k]
                        < trie.payloads@.len()
            } by {
                assert(trie.node_ok(v));
            }
        }
        assert(trie.propagate_ready());
        let ghost pre = trie;
        trie.propagate(video_top_n);
        proof {
            lemma_settled_shape(&pre, &trie, filled(ps_in), 0, video_top_n);
        }
        proof {
            if n > 0 {
                assert forall|v: int| 0 <= v < trie.node_shifts@.len() implies #[trigger] trie.node_ok(v) by {
                    if v < n - 1 {
                        assert(trie.node_shifts@[v] < trie.node_shifts@[v + 1] ==> trie.node_shifts@[v + 1]
                            <= trie.child_transitions@.len());
                    }
                    assert(trie.range_ok(v));
                    assert forall|k: int| 0 <= k < trie.child_list(v).len() implies #[trigger] trie.child_list(
                        v,
                    )[k] < n by {
                        assert(trie.child_transitions@[trie.range_start(v) + k] < n);
                    }
                }
            }
        }
        Ok(PrefixSearch { trie })
    }

    /// Fuzzy search for complete keys: each result holds the key's text,
    /// 1 when its node carries a payload (0 otherwise), and its edit distance
    /// to `term`, in the order and with the limit of [`fuzzy_match`].
    pub fn fuzzy_match(&self, term: &str, max_dist: u32, limit: Option<usize>) -> (r: Vec<(String, i32, u32)>)
        requires
            self.trie.wf(),
            self.trie.child_labels@.len() <= self.trie.payloads@.len() || self.trie.node_shifts@.len()
                <= self.trie.payloads@.len(),
            term@.len() + max_dist <= 65533,
        ensures
            ({
                let hits = limited(
                    self.trie.scan(term@, max_dist as nat, true, Seq::empty(), self.trie.child_list(0)),
                    limit,
                );
                &&& r@.len() == hits.len()
                &&& forall|i: int|
                    0 <= i < hits.len() ==> {
                        &&& (#[trigger] r@[i]).0@ == hits[i].1
                        &&& r@[i].1 == if self.trie.payloads@[hits[i].0 as int] is Some {
                            1i32
                        } else {
                            0i32
                        }
                        &&& r@[i].2 == hits[i].2
                    }
            }),
            (forall|v: int| 0 <= v < self.trie.payloads@.len() ==> #[trigger] self.trie.payloads@[v] is Some)
                ==> forall|i: int| 0 <= i < r@.len() ==> (#[trigger] r@[i]).1 == 1i32,
    {
        let matches = fuzzy_match(&self.trie, term, max_dist, limit);
        let ghost hits = match_views(matches@);
        let ghost all = self.trie.scan(term@, max_dist as nat, true, Seq::empty(), self.trie.child_list(0));
        proof {
            assert(self.trie.node_ok(0));
            assert forall|k: int| 0 <= k < self.trie.child_list(0).len() implies #[trigger] self.trie.child_list(
                0,
            )[k] < self.trie.child_labels@.len() && self.trie.child_list(0)[k] < self.trie.node_shifts@.len() by {
                assert(self.trie.child_list(0)[k] < self.trie.child_labels@.len());
            }
            lemma_scan_in_range(&self.trie, term@, max_dist as nat, true, Seq::empty(), self.trie.child_list(0));
            assert forall|i: int| 0 <= i < hits.len() implies (#[trigger] hits[i]).0 < self.trie.payloads@.len() by {
                assert(hits[i] == all[i]);
            }
        }
        let mut out: Vec<(String, i32, u32)> = Vec::new();
        let mut i: usize = 0;
        while i < matches.len()
            invariant
                hits == match_views(matches@),
                forall|j: int| 0 <= j < hits.len() ==> (#[trigger] hits[j]).0 < self.trie.payloads@.len(),
                i <= matches@.len(),
                out@.len() == i,
                forall|j: int|
                    0 <= j < i ==> {
                        &&& (#[trigger] out@[j]).0@ == hits[j].1
                        &&& out@[j].1 == if self.trie.payloads@[hits[j].0 as int] is Some {
                            1i32
                        } else {
                            0i32
                        }
                        &&& out@[j].2 == hits[j].2
                    },
            decreases matches@.len() - i,
        {
            let m = &matches[i];
            assert(hits[i as int] == m@);
            let has_payload: i32 = if self.trie.payloads[m.node_id].is_some() {
                1
            } else {
                0
            };
            out.push((m.prefix.clone(), has_payload, m.distance));
            i += 1;
        }
        out
    }
}

} // verus!
