use vstd::prelude::*;

use crate::payload::{
    counts_cover, empty_model, entries, lemma_merged_shape, lemma_total_distinct, lemma_total_take,
    merge_fits, merged, pairs, pruned, total, Payload, PayloadModel,
};

verus! {

/// Which kind of video identifiers a trie refers to.
#[derive(Debug, Clone)]
pub enum IdMode {
    Uuid16,
    Int32,
}

/// A character trie stored as flat arrays. The children of node `v` are
/// `child_transitions[node_shifts[v]..node_shifts[v + 1]]` (up to the end of
/// `child_transitions` for the last node); a node's label is
/// `child_labels[node]`.
#[derive(Debug, Clone)]
pub struct Trie {
    pub node_shifts: Vec<u32>,
    pub child_labels: Vec<char>,
    pub child_transitions: Vec<u32>,
    pub payloads: Vec<Option<Payload>>,
    /// Video identifiers, used when `id_mode` is `Uuid16`.
    pub video_index: Vec<[u8; 16]>,
    /// Channel identifiers, used when `id_mode` is `Int32`.
    pub channel_index: Vec<u32>,
    pub id_mode: IdMode,
    pub terminals: Vec<bool>,
}

/// The largest per-id total that a payload may hold before propagation.
pub open spec fn half_total() -> nat {
    0x7fff_ffff_ffff_ffff
}

/// No id of the payload has a total above `half_total()`.
pub open spec fn within_half(m: PayloadModel) -> bool {
    forall|id: u32| #[trigger] total(entries(m), id) <= half_total()
}

/// The payload models of a payload list, an absent payload read as empty.
pub open spec fn filled(ps: Seq<Option<Payload>>) -> Seq<PayloadModel> {
    ps.map_values(
        |o: Option<Payload>|
            match o {
                Some(p) => p@,
                None => empty_model(),
            },
    )
}

/// The payload of node `v` merged with the payloads of `kids` in order,
/// skipping `v` itself.
pub open spec fn gather(ps: Seq<PayloadModel>, v: int, kids: Seq<usize>, agg: PayloadModel) -> PayloadModel
    decreases kids.len(),
{
    if kids.len() == 0 {
        agg
    } else {
        let a = gather(ps, v, kids.drop_last(), agg);
        let c = kids.last() as int;
        if c == v {
            a
        } else {
            merged(a, ps[c])
        }
    }
}

/// A payload holds no more of an id than `u32::MAX` per entry.
pub proof fn lemma_total_le_len(es: Seq<(u32, nat)>, id: u32)
    requires
        forall|i: int| 0 <= i < es.len() ==> #[trigger] es[i].1 <= u32::MAX,
    ensures
        total(es, id) <= es.len() * 0xffff_ffff,
    decreases es.len(),
{
    if es.len() > 0 {
        let pre = es.drop_last();
        assert forall|i: int| 0 <= i < pre.len() implies #[trigger] pre[i].1 <= u32::MAX by {
            assert(pre[i] == es[i]);
        }
        lemma_total_le_len(pre, id);
        assert(es[es.len() - 1].1 <= u32::MAX);
    }
}

/// A payload of at most 2^31 videos has per-id totals within `half_total()`.
pub proof fn lemma_short_within_half(m: PayloadModel)
    requires
        m.ids.len() <= 0x8000_0000,
    ensures
        within_half(m),
{
    assert forall|id: u32| #[trigger] total(entries(m), id) <= half_total() by {
        lemma_total_le_len(entries(m), id);
        assert(entries(m).len() * 0xffff_ffff <= 0x8000_0000 * 0xffff_ffff) by (nonlinear_arith)
            requires
                entries(m).len() <= 0x8000_0000,
        ;
    }
}

/// Merging two payloads that have a count per id and per-id totals of at
/// most `half_total()` cannot overflow, and gives such a payload again.
pub proof fn lemma_merge_keeps(a: PayloadModel, b: PayloadModel)
    requires
        counts_cover(a),
        within_half(a),
        counts_cover(b),
        within_half(b),
    ensures
        merge_fits(a, b),
        counts_cover(merged(a, b)),
        within_half(merged(a, b)),
{
    let m = merged(a, b);
    lemma_merged_shape(a, b);
    assert forall|id: u32| #[trigger] total(entries(m), id) <= half_total() by {
        lemma_total_distinct(m.ids, m.counts, id);
    }
    assert forall|id: u32| total(entries(a), id) + total(entries(b), id) <= u64::MAX by {
        assert(total(entries(a), id) <= half_total());
        assert(total(entries(b), id) <= half_total());
    }
}

/// Cutting a payload keeps a count per id and does not raise any total.
pub proof fn lemma_prune_keeps(m: PayloadModel, top: Option<usize>)
    requires
        counts_cover(m),
        within_half(m),
    ensures
        counts_cover(pruned(m, top)),
        within_half(pruned(m, top)),
        top matches Some(n) ==> pruned(m, top).ids.len() <= n,
{
    let r = pruned(m, top);
    if let Some(n) = top {
        if m.ids.len() > n {
            assert(entries(r) =~= entries(m).take(n as int));
            assert forall|id: u32| #[trigger] total(entries(r), id) <= half_total() by {
                lemma_total_take(entries(m), n as int, id);
            }
        }
    }
}

impl Trie {
    /// First index of the children of `v` in `child_transitions`.
    pub open spec fn range_start(&self, v: int) -> int {
        self.node_shifts@[v] as int
    }

    /// End of the children of `v` in `child_transitions`.
    pub open spec fn range_end(&self, v: int) -> int {
        if v + 1 < self.node_shifts@.len() {
            self.node_shifts@[v + 1] as int
        } else {
            self.child_transitions@.len() as int
        }
    }

    /// The children range of `v` is empty or lies inside `child_transitions`.
    pub open spec fn range_ok(&self, v: int) -> bool {
        self.range_start(v) >= self.range_end(v) || self.range_end(v) <= self.child_transitions@.len()
    }

    /// The children of `v`, in order.
    pub open spec fn child_list(&self, v: int) -> Seq<usize> {
        if self.range_start(v) < self.range_end(v) {
            Seq::new(
                (self.range_end(v) - self.range_start(v)) as nat,
                |k: int| self.child_transitions@[self.range_start(v) + k] as usize,
            )
        } else {
            Seq::empty()
        }
    }

    /// What `propagate` needs: every node below the number of labels has a
    /// shift, a payload slot and a valid children range whose children have
    /// payload slots; each payload has a count per id and totals of at most
    /// `half_total()` per id.
    pub open spec fn propagate_ready(&self) -> bool {
        &&& self.child_labels@.len() <= self.node_shifts@.len()
        &&& self.child_labels@.len() <= self.payloads@.len()
        &&& forall|v: int|
            0 <= v < self.child_labels@.len() ==> {
                &&& #[trigger] self.range_ok(v)
                &&& forall|k: int|
                    0 <= k < self.child_list(v).len() ==> #[trigger] self.child_list(v)[k]
                        < self.payloads@.len()
            }
        &&& forall|i: int|
            0 <= i < self.payloads@.len() && #[trigger] self.payloads@[i] is Some ==> {
                &&& counts_cover(self.payloads@[i]->0@)
                &&& within_half(self.payloads@[i]->0@)
            }
    }

    /// The payloads after node `v` has been settled: its own payload merged
    /// with those of its children, then cut to `top` videos.
    pub open spec fn settle_node(&self, ps: Seq<PayloadModel>, v: int, top: usize) -> Seq<PayloadModel> {
        ps.update(v, pruned(gather(ps, v, self.child_list(v), ps[v]), Some(top)))
    }

    /// The payloads after the nodes from the last label down to `k` have been
    /// settled, in that order.
    pub open spec fn settled(&self, ps: Seq<PayloadModel>, k: nat, top: usize) -> Seq<PayloadModel>
        decreases self.child_labels@.len() - k,
    {
        if k >= self.child_labels@.len() {
            ps
        } else {
            self.settle_node(self.settled(ps, k + 1, top), k as int, top)
        }
    }

    /// Completes the payloads bottom-up: an absent payload becomes empty, then
    /// for each node from the last label down to node 0, its payload is merged
    /// with the current payloads of its children (in order, skipping the node
    /// itself) and cut to `video_top_n` videos.
    pub fn propagate(&mut self, video_top_n: usize)
        requires
            old(self).propagate_ready(),
        ensures
            final(self).node_shifts == old(self).node_shifts,
            final(self).child_labels == old(self).child_labels,
            final(self).child_transitions == old(self).child_transitions,
            final(self).video_index == old(self).video_index,
            final(self).channel_index == old(self).channel_index,
            final(self).id_mode == old(self).id_mode,
            final(self).terminals == old(self).terminals,
            final(self).payloads@.len() == old(self).payloads@.len(),
            forall|v: int| 0 <= v < final(self).payloads@.len() ==> #[trigger] final(self).payloads@[v] is Some,
            filled(final(self).payloads@) == old(self).settled(filled(old(self).payloads@), 0, video_top_n),
            forall|v: int|
                0 <= v < old(self).child_labels@.len() ==> (#[trigger] final(self).payloads@[v])->0@.ids.len()
                    <= video_top_n,
            forall|v: int|
                old(self).child_labels@.len() <= v < old(self).payloads@.len() ==> #[trigger] filled(
                    final(self).payloads@,
                )[v] == filled(old(self).payloads@)[v],
    {
        let ghost ps0 = filled(self.payloads@);
        let len = self.payloads.len();
        for i in 0..len
            invariant
                len == self.payloads@.len(),
                len == old(self).payloads@.len(),
                self.node_shifts == old(self).node_shifts,
                self.child_labels == old(self).child_labels,
                self.child_transitions == old(self).child_transitions,
                self.video_index == old(self).video_index,
                self.channel_index == old(self).channel_index,
                self.id_mode == old(self).id_mode,
                self.terminals == old(self).terminals,
                old(self).propagate_ready(),
                ps0 == filled(old(self).payloads@),
                forall|j: int|
                    0 <= j < i ==> {
                        &&& #[trigger] self.payloads@[j] is Some
                        &&& self.payloads@[j]->0@ == ps0[j]
                        &&& counts_cover(self.payloads@[j]->0@)
                        &&& within_half(self.payloads@[j]->0@)
                    },
                forall|j: int| i <= j < len ==> #[trigger] self.payloads@[j] == old(self).payloads@[j],
        {
            if self.payloads[i].is_none() {
                let e = Payload::empty();
                proof {
                    assert(entries(e@) =~= Seq::<(u32, nat)>::empty());
                }
                self.payloads.set(i, Some(e));
            } else {
                assert(old(self).payloads@[i as int] is Some);
            }
            assert(self.payloads@[i as int]->0@ == ps0[i as int]);
        }
        let n = self.child_labels.len();
        let mut node_id = n;
        assert(filled(self.payloads@) =~= old(self).settled(ps0, n as nat, video_top_n));
        while node_id > 0
            invariant
                node_id <= n == self.child_labels@.len(),
                len == self.payloads@.len(),
                len == old(self).payloads@.len(),
                self.node_shifts == old(self).node_shifts,
                self.child_labels == old(self).child_labels,
                self.child_transitions == old(self).child_transitions,
                self.video_index == old(self).video_index,
                self.channel_index == old(self).channel_index,
                self.id_mode == old(self).id_mode,
                self.terminals == old(self).terminals,
                old(self).propagate_ready(),
                ps0 == filled(old(self).payloads@),
                forall|j: int|
                    0 <= j < len ==> {
                        &&& #[trigger] self.payloads@[j] is Some
                        &&& counts_cover(self.payloads@[j]->0@)
                        &&& within_half(self.payloads@[j]->0@)
                    },
                filled(self.payloads@) == old(self).settled(ps0, node_id as nat, video_top_n),
                forall|j: int|
                    node_id <= j < n ==> (#[trigger] self.payloads@[j])->0@.ids.len() <= video_top_n,
                forall|j: int| n <= j < len ==> #[trigger] filled(self.payloads@)[j] == ps0[j],
            decreases node_id,
        {
            node_id -= 1;
            let ghost v = node_id as int;
            let ghost st = filled(self.payloads@);
            assert(self.child_list(v) == old(self).child_list(v));
            assert(old(self).range_ok(v));
            let mut slot: Option<Payload> = None;
            self.payloads.set_and_swap(node_id, &mut slot);
            let mut agg = slot.unwrap();
            assert(agg@ == st[v]);
            let kids = self.children(node_id);
            assert(kids@.take(0) =~= Seq::<usize>::empty());
            for k in 0..kids.len()
                invariant
                    v == node_id,
                    0 <= v < n,
                    n == old(self).child_labels@.len(),
                    len == self.payloads@.len(),
                    len == old(self).payloads@.len(),
                    old(self).propagate_ready(),
                    kids@ == old(self).child_list(v),
                    self.payloads@[v] is None,
                    forall|j: int|
                        0 <= j < len && j != v ==> {
                            &&& #[trigger] self.payloads@[j] is Some
                            &&& self.payloads@[j]->0@ == st[j]
                            &&& counts_cover(self.payloads@[j]->0@)
                            &&& within_half(self.payloads@[j]->0@)
                        },
                    agg@ == gather(st, v, kids@.take(k as int), st[v]),
                    counts_cover(agg@),
                    within_half(agg@),
            {
                let ch = kids[k];
                assert(old(self).range_ok(v));
                assert(old(self).child_list(v)[k as int] < len);
                assert(kids@.take(k + 1).drop_last() =~= kids@.take(k as int));
                if let Some(child_p) = &self.payloads[ch] {
                    proof {
                        lemma_merge_keeps(agg@, child_p@);
                    }
                    agg.merge_from(child_p);
                }
            }
            assert(kids@.take(kids@.len() as int) =~= kids@);
            proof {
                lemma_prune_keeps(agg@, Some(video_top_n));
            }
            agg.prune(Some(video_top_n));
            self.payloads.set(node_id, Some(agg));
            assert(filled(self.payloads@) =~= old(self).settle_node(st, v, video_top_n));
        }
        assert(filled(self.payloads@) == old(self).settled(ps0, 0, video_top_n));
    }

    /// The range of indices of `child_transitions` that hold the children of `node_id`.
    pub fn children_range(&self, node_id: usize) -> (r: std::ops::Range<usize>)
        requires
            node_id < self.node_shifts@.len(),
        ensures
            r.start == self.range_start(node_id as int),
            r.end == self.range_end(node_id as int),
    {
        let start = self.node_shifts[node_id] as usize;
        let end = if node_id < self.node_shifts.len() - 1 {
            self.node_shifts[node_id + 1] as usize
        } else {
            self.child_transitions.len()
        };
        start..end
    }

    /// The children of `node_id`, in order.
    pub fn children(&self, node_id: usize) -> (kids: Vec<usize>)
        requires
            node_id < self.node_shifts@.len(),
            self.range_ok(node_id as int),
        ensures
            kids@ == self.child_list(node_id as int),
    {
        let r = self.children_range(node_id);
        let mut kids: Vec<usize> = Vec::new();
        let mut i = r.start;
        while i < r.end
            invariant
                r.start == self.range_start(node_id as int),
                r.end == self.range_end(node_id as int),
                self.range_ok(node_id as int),
                r.start <= i <= r.end || (i == r.start && r.start >= r.end),
                kids@.len() == i - r.start,
                forall|k: int|
                    0 <= k < kids@.len() ==> kids@[k] == self.child_transitions@[r.start + k] as usize,
            decreases r.end - i,
        {
            kids.push(self.child_transitions[i] as usize);
            i += 1;
        }
        assert(kids@ =~= self.child_list(node_id as int));
        kids
    }
}

/// `settled` reads only the shape of a trie (shifts, transitions and labels).
pub proof fn lemma_settled_shape(a: &Trie, b: &Trie, ps: Seq<PayloadModel>, k: nat, top: usize)
    requires
        a.node_shifts@ == b.node_shifts@,
        a.child_transitions@ == b.child_transitions@,
        a.child_labels@.len() == b.child_labels@.len(),
    ensures
        a.settled(ps, k, top) == b.settled(ps, k, top),
    decreases a.child_labels@.len() - k,
{
    if k < a.child_labels@.len() {
        lemma_settled_shape(a, b, ps, k + 1, top);
        assert(a.child_list(k as int) == b.child_list(k as int));
    }
}

/// Settling keeps the number of payloads.
pub proof fn lemma_settled_len(tr: &Trie, ps: Seq<PayloadModel>, k: nat, top: usize)
    requires
        ps.len() >= tr.child_labels@.len(),
    ensures
        tr.settled(ps, k, top).len() == ps.len(),
    decreases tr.child_labels@.len() - k,
{
    if k < tr.child_labels@.len() {
        lemma_settled_len(tr, ps, k + 1, top);
    }
}

/// Settling nodes `k` and above leaves the payloads below `k` as they were.
pub proof fn lemma_settled_below(tr: &Trie, ps: Seq<PayloadModel>, k: nat, top: usize, v: int)
    requires
        0 <= v < k,
        ps.len() >= tr.child_labels@.len(),
    ensures
        tr.settled(ps, k, top)[v] == ps[v],
    decreases tr.child_labels@.len() - k,
{
    if k < tr.child_labels@.len() {
        lemma_settled_below(tr, ps, k + 1, top, v);
        lemma_settled_len(tr, ps, k + 1, top);
    }
}

/// Settling nodes below `j` leaves the payloads from `j` on as they were.
pub proof fn lemma_settled_above(tr: &Trie, ps: Seq<PayloadModel>, k: nat, j: nat, top: usize, c: int)
    requires
        k <= j,
        j <= c < ps.len(),
        ps.len() >= tr.child_labels@.len(),
    ensures
        tr.settled(ps, k, top)[c] == tr.settled(ps, j, top)[c],
    decreases j - k,
{
    if k < j {
        lemma_settled_above(tr, ps, k + 1, j, top, c);
        lemma_settled_len(tr, ps, k + 1, top);
        if k < tr.child_labels@.len() {
            assert(tr.settled(ps, k, top) == tr.settle_node(tr.settled(ps, k + 1, top), k as int, top));
        }
    }
}

/// `gather` reads only the payloads of the children other than `v`.
pub proof fn lemma_gather_same(
    s1: Seq<PayloadModel>,
    s2: Seq<PayloadModel>,
    v: int,
    kids: Seq<usize>,
    agg: PayloadModel,
)
    requires
        forall|k: int| 0 <= k < kids.len() && kids[k] != v ==> s1[#[trigger] kids[k] as int] == s2[kids[k] as int],
    ensures
        gather(s1, v, kids, agg) == gather(s2, v, kids, agg),
    decreases kids.len(),
{
    if kids.len() > 0 {
        let pre = kids.drop_last();
        assert forall|k: int| 0 <= k < pre.len() && pre[k] != v implies s1[#[trigger] pre[k] as int]
            == s2[pre[k] as int] by {
            assert(pre[k] == kids[k]);
        }
        lemma_gather_same(s1, s2, v, pre, agg);
        assert(kids[kids.len() - 1] == kids.last());
    }
}

/// When every child of `v` comes after `v`, the settled payload of `v` is its
/// own payload as given merged with the settled payloads of its children, in
/// order, then cut to `top` videos.
pub proof fn lemma_settled_fixpoint(tr: &Trie, ps: Seq<PayloadModel>, top: usize, v: int)
    requires
        0 <= v < tr.child_labels@.len(),
        ps.len() >= tr.child_labels@.len(),
        forall|k: int|
            0 <= k < tr.child_list(v).len() ==> v < #[trigger] tr.child_list(v)[k] < ps.len(),
    ensures
        tr.settled(ps, 0, top)[v] == pruned(
            gather(tr.settled(ps, 0, top), v, tr.child_list(v), ps[v]),
            Some(top),
        ),
{
    let fin = tr.settled(ps, 0, top);
    let before = tr.settled(ps, (v + 1) as nat, top);
    let kids = tr.child_list(v);
    lemma_settled_below(tr, ps, (v + 1) as nat, top, v);
    assert(tr.settled(ps, v as nat, top) == tr.settle_node(before, v, top));
    lemma_settled_above(tr, ps, 0, v as nat, top, v);
    assert forall|k: int| 0 <= k < kids.len() && kids[k] != v implies before[#[trigger] kids[k] as int]
        == fin[kids[k] as int] by {
        lemma_settled_above(tr, ps, 0, (v + 1) as nat, top, kids[k] as int);
    }
    lemma_gather_same(before, fin, v, kids, ps[v]);
    lemma_settled_len(tr, ps, (v + 1) as nat, top);
}

} // verus!
