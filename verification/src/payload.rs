use vstd::prelude::*;

verus! {

/// Per-node video statistics: how many entries the prefix covers, and a
/// list of video ids with one count per id (same position in both lists).
#[derive(Debug, Clone)]
pub struct Payload {
    pub prefix_size: u32,
    pub video_ids: Vec<u32>,
    pub video_counts: Vec<u32>,
}

/// The mathematical content of a [`Payload`].
#[verifier::ext_equal]
pub struct PayloadModel {
    pub prefix_size: u32,
    pub ids: Seq<u32>,
    pub counts: Seq<u32>,
}

impl View for Payload {
    type V = PayloadModel;

    open spec fn view(&self) -> PayloadModel {
        PayloadModel { prefix_size: self.prefix_size, ids: self.video_ids@, counts: self.video_counts@ }
    }
}

/// The empty payload.
pub open spec fn empty_model() -> PayloadModel {
    PayloadModel { prefix_size: 0, ids: Seq::empty(), counts: Seq::empty() }
}

/// Every id has a count at its position (extra counts are ignored).
pub open spec fn counts_cover(m: PayloadModel) -> bool {
    m.ids.len() <= m.counts.len()
}

/// The (id, count) pairs of two parallel lists, one per id position.
pub open spec fn pairs(ids: Seq<u32>, counts: Seq<u32>) -> Seq<(u32, nat)> {
    Seq::new(ids.len(), |i: int| (ids[i], counts[i] as nat))
}

/// The (id, count) entries of a payload, one per id position.
pub open spec fn entries(m: PayloadModel) -> Seq<(u32, nat)> {
    pairs(m.ids, m.counts)
}

/// A list of (id, running total) pairs read as mathematical integers.
pub open spec fn widen(s: Seq<(u32, u64)>) -> Seq<(u32, nat)> {
    s.map_values(|p: (u32, u64)| (p.0, p.1 as nat))
}

/// Sum of the counts that `es` holds for `id`.
pub open spec fn total(es: Seq<(u32, nat)>, id: u32) -> nat
    decreases es.len(),
{
    if es.len() == 0 {
        0
    } else {
        total(es.drop_last(), id) + if es.last().0 == id {
            es.last().1
        } else {
            0
        }
    }
}

/// The distinct ids of `es`, in order of first occurrence.
pub open spec fn first_keys(es: Seq<(u32, nat)>) -> Seq<u32>
    decreases es.len(),
{
    if es.len() == 0 {
        Seq::empty()
    } else {
        let ks = first_keys(es.drop_last());
        if ks.contains(es.last().0) {
            ks
        } else {
            ks.push(es.last().0)
        }
    }
}

/// Each distinct id of `es` once, in order of first occurrence, with its total.
pub open spec fn accumulate(es: Seq<(u32, nat)>) -> Seq<(u32, nat)> {
    first_keys(es).map_values(|k: u32| (k, total(es, k)))
}

/// Inserts `x` into `s` behind every element whose total is at least that of `x`.
pub open spec fn insert_desc(s: Seq<(u32, nat)>, x: (u32, nat)) -> Seq<(u32, nat)>
    decreases s.len(),
{
    if s.len() == 0 {
        seq![x]
    } else if s.last().1 >= x.1 {
        s.push(x)
    } else {
        insert_desc(s.drop_last(), x).push(s.last())
    }
}

/// Stable ordering of `s` by total, largest first.
pub open spec fn sort_desc(s: Seq<(u32, nat)>) -> Seq<(u32, nat)>
    decreases s.len(),
{
    if s.len() == 0 {
        s
    } else {
        insert_desc(sort_desc(s.drop_last()), s.last())
    }
}

/// `a + b`, saturated at `u32::MAX`.
pub open spec fn saturating_sum(a: u32, b: u32) -> u32 {
    if a + b > u32::MAX {
        u32::MAX
    } else {
        (a + b) as u32
    }
}

/// The result of merging `b` into `a`: prefix sizes add up (saturating),
/// the counts of each id are summed over both payloads, and the ids are
/// listed once each, by decreasing total; a total is stored modulo 2^32.
pub open spec fn merged(a: PayloadModel, b: PayloadModel) -> PayloadModel {
    let sorted = sort_desc(accumulate(entries(a) + entries(b)));
    PayloadModel {
        prefix_size: saturating_sum(a.prefix_size, b.prefix_size),
        ids: sorted.map_values(|e: (u32, nat)| e.0),
        counts: sorted.map_values(|e: (u32, nat)| (e.1 % 0x1_0000_0000) as u32),
    }
}

/// The totals of each id over both payloads fit in a `u64`.
pub open spec fn merge_fits(a: PayloadModel, b: PayloadModel) -> bool {
    forall|id: u32| total(entries(a), id) + total(entries(b), id) <= u64::MAX
}

/// The result of cutting the id list (and the count list) to `top` entries
/// when the id list is longer.
pub open spec fn pruned(m: PayloadModel, top: Option<usize>) -> PayloadModel {
    match top {
        Some(n) => if m.ids.len() > n {
            PayloadModel {
                prefix_size: m.prefix_size,
                ids: m.ids.take(n as int),
                counts: if n <= m.counts.len() {
                    m.counts.take(n as int)
                } else {
                    m.counts
                },
            }
        } else {
            m
        },
        None => m,
    }
}

/// The keys of `first_keys` are distinct, and they are exactly the ids that occur in `es`.
pub proof fn lemma_first_keys(es: Seq<(u32, nat)>)
    ensures
        first_keys(es).no_duplicates(),
        forall|k: u32| #[trigger]
            first_keys(es).contains(k) <==> exists|i: int| 0 <= i < es.len() && es[i].0 == k,
    decreases es.len(),
{
    if es.len() > 0 {
        let pre = es.drop_last();
        let ks = first_keys(pre);
        let x = es.last().0;
        lemma_first_keys(pre);
        assert forall|k: u32| #[trigger]
            first_keys(es).contains(k) <==> exists|i: int| 0 <= i < es.len() && es[i].0 == k by {
            if first_keys(es).contains(k) {
                if ks.contains(k) {
                    let i = choose|i: int| 0 <= i < pre.len() && pre[i].0 == k;
                    assert(es[i].0 == k);
                } else {
                    let q = choose|q: int| 0 <= q < first_keys(es).len() && first_keys(es)[q] == k;
                    if q < ks.len() {
                        assert(ks[q] == k);
                    }
                    assert(es[es.len() - 1].0 == k);
                }
            }
            if exists|i: int| 0 <= i < es.len() && es[i].0 == k {
                let i = choose|i: int| 0 <= i < es.len() && es[i].0 == k;
                if i < es.len() - 1 {
                    assert(pre[i].0 == k);
                    assert(ks.contains(k));
                    let q = choose|q: int| 0 <= q < ks.len() && ks[q] == k;
                    if !ks.contains(x) {
                        assert(ks.push(x)[q] == k);
                    }
                } else {
                    assert(x == k);
                    if !ks.contains(x) {
                        assert(ks.push(x)[ks.len() as int] == k);
                    }
                }
            }
        }
        if !ks.contains(x) {
            let r = ks.push(x);
            assert forall|a: int, b: int| 0 <= a < r.len() && 0 <= b < r.len() && a != b implies r[a]
                != r[b] by {
                if a < ks.len() && b < ks.len() {
                } else if a < ks.len() {
                    assert(ks.contains(r[a]));
                } else if b < ks.len() {
                    assert(ks.contains(r[b]));
                }
            }
        }
    }
}

/// An id that occurs nowhere in `es` has total zero.
pub proof fn lemma_total_absent(es: Seq<(u32, nat)>, id: u32)
    requires
        forall|i: int| 0 <= i < es.len() ==> es[i].0 != id,
    ensures
        total(es, id) == 0,
    decreases es.len(),
{
    if es.len() > 0 {
        let pre = es.drop_last();
        assert forall|i: int| 0 <= i < pre.len() implies pre[i].0 != id by {
            assert(pre[i] == es[i]);
        }
        lemma_total_absent(pre, id);
    }
}

/// A prefix of `es` holds no more of an id than `es` itself.
pub proof fn lemma_total_take(es: Seq<(u32, nat)>, m: int, id: u32)
    requires
        0 <= m <= es.len(),
    ensures
        total(es.take(m), id) <= total(es, id),
    decreases es.len(),
{
    if m == es.len() {
        assert(es.take(m) =~= es);
    } else {
        let pre = es.drop_last();
        lemma_total_take(pre, m, id);
        assert(pre.take(m) =~= es.take(m));
    }
}

/// The total of a concatenation is the sum of the totals.
pub proof fn lemma_total_concat(a: Seq<(u32, nat)>, b: Seq<(u32, nat)>, id: u32)
    ensures
        total(a + b, id) == total(a, id) + total(b, id),
    decreases b.len(),
{
    if b.len() == 0 {
        assert(a + b =~= a);
    } else {
        lemma_total_concat(a, b.drop_last(), id);
        assert((a + b).drop_last() =~= a + b.drop_last());
        assert((a + b).last() == b.last());
    }
}

/// With distinct ids, the total of any id is a single count.
pub proof fn lemma_total_distinct(ids: Seq<u32>, counts: Seq<u32>, id: u32)
    requires
        ids.no_duplicates(),
    ensures
        total(pairs(ids, counts), id) <= u32::MAX,
    decreases ids.len(),
{
    if ids.len() > 0 {
        let es = pairs(ids, counts);
        let pre = ids.drop_last();
        assert(es.drop_last() =~= pairs(pre, counts));
        if ids.last() == id {
            assert forall|i: int| 0 <= i < pairs(pre, counts).len() implies pairs(pre, counts)[i].0
                != id by {
                assert(ids[i] != ids[ids.len() - 1]);
            }
            lemma_total_absent(pairs(pre, counts), id);
        } else {
            assert(pre.no_duplicates()) by {
                assert forall|i: int, j: int| 0 <= i < pre.len() && 0 <= j < pre.len() && i != j implies pre[i]
                    != pre[j] by {
                    assert(pre[i] == ids[i] && pre[j] == ids[j]);
                }
            }
            lemma_total_distinct(pre, counts, id);
        }
    }
}

/// `insert_desc` puts `x` at the position behind the last element whose total
/// is at least that of `x`.
pub proof fn lemma_insert_at(s: Seq<(u32, nat)>, x: (u32, nat), j: int)
    requires
        0 <= j <= s.len(),
        j == 0 || s[j - 1].1 >= x.1,
        forall|k: int| j <= k < s.len() ==> #[trigger] s[k].1 < x.1,
    ensures
        insert_desc(s, x) == s.insert(j, x),
    decreases s.len(),
{
    if s.len() == 0 {
        assert(s.insert(j, x) =~= seq![x]);
    } else if s.last().1 >= x.1 {
        assert(j == s.len());
        assert(s.insert(j, x) =~= s.push(x));
    } else {
        let pre = s.drop_last();
        assert(j < s.len());
        assert forall|k: int| j <= k < pre.len() implies #[trigger] pre[k].1 < x.1 by {
            assert(pre[k] == s[k]);
        }
        lemma_insert_at(pre, x, j);
        assert(pre.insert(j, x).push(s.last()) =~= s.insert(j, x));
    }
}

/// Totals that never increase along `s`.
pub open spec fn descending(s: Seq<(u32, nat)>) -> bool {
    forall|i: int, j: int| 0 <= i < j < s.len() ==> s[i].1 >= s[j].1
}

/// `insert_desc` adds exactly `x`, and keeps an ordering by decreasing total
/// and the absence of repeated elements.
pub proof fn lemma_insert_desc(s: Seq<(u32, nat)>, x: (u32, nat))
    ensures
        insert_desc(s, x).len() == s.len() + 1,
        forall|y: (u32, nat)| #[trigger] insert_desc(s, x).contains(y) <==> s.contains(y) || y == x,
        descending(s) ==> descending(insert_desc(s, x)),
        s.no_duplicates() && !s.contains(x) ==> insert_desc(s, x).no_duplicates(),
    decreases s.len(),
{
    let r = insert_desc(s, x);
    if s.len() == 0 {
        assert forall|y: (u32, nat)| #[trigger] r.contains(y) <==> s.contains(y) || y == x by {
            if y == x {
                assert(r[0] == x);
            }
        }
    } else if s.last().1 >= x.1 {
        assert forall|y: (u32, nat)| #[trigger] r.contains(y) <==> s.contains(y) || y == x by {
            if r.contains(y) {
                let q = choose|q: int| 0 <= q < r.len() && r[q] == y;
                if q < s.len() {
                    assert(s[q] == y);
                }
            }
            if s.contains(y) {
                let q = choose|q: int| 0 <= q < s.len() && s[q] == y;
                assert(r[q] == y);
            }
            if y == x {
                assert(r[s.len() as int] == x);
            }
        }
        if descending(s) {
            assert forall|i: int, j: int| 0 <= i < j < r.len() implies r[i].1 >= r[j].1 by {
                if j == s.len() {
                    assert(s[i].1 >= s[s.len() - 1].1);
                }
            }
        }
        if s.no_duplicates() && !s.contains(x) {
            assert forall|i: int, j: int| 0 <= i < r.len() && 0 <= j < r.len() && i != j implies r[i]
                != r[j] by {
                if i == s.len() {
                    assert(s.contains(r[j]));
                } else if j == s.len() {
                    assert(s.contains(r[i]));
                }
            }
        }
    } else {
        let pre = s.drop_last();
        let l = s.last();
        let t = insert_desc(pre, x);
        lemma_insert_desc(pre, x);
        assert(r == t.push(l));
        assert forall|y: (u32, nat)| #[trigger] r.contains(y) <==> s.contains(y) || y == x by {
            if r.contains(y) {
                let q = choose|q: int| 0 <= q < r.len() && r[q] == y;
                if q < t.len() {
                    assert(t.contains(y));
                    if pre.contains(y) {
                        let w = choose|w: int| 0 <= w < pre.len() && pre[w] == y;
                        assert(s[w] == y);
                    }
                } else {
                    assert(s[s.len() - 1] == y);
                }
            }
            if s.contains(y) {
                let q = choose|q: int| 0 <= q < s.len() && s[q] == y;
                if q < pre.len() {
                    assert(pre[q] == y);
                    assert(t.contains(y));
                    let w = choose|w: int| 0 <= w < t.len() && t[w] == y;
                    assert(r[w] == y);
                } else {
                    assert(r[t.len() as int] == y);
                }
            }
            if y == x {
                assert(t.contains(x));
                let w = choose|w: int| 0 <= w < t.len() && t[w] == x;
                assert(r[w] == x);
            }
        }
        if descending(s) {
            assert(descending(pre)) by {
                assert forall|i: int, j: int| 0 <= i < j < pre.len() implies pre[i].1 >= pre[j].1 by {
                    assert(pre[i] == s[i] && pre[j] == s[j]);
                }
            }
            assert forall|i: int, j: int| 0 <= i < j < r.len() implies r[i].1 >= r[j].1 by {
                if j == t.len() {
                    let y = t[i];
                    assert(t.contains(y));
                    if y != x {
                        assert(pre.contains(y));
                        let w = choose|w: int| 0 <= w < pre.len() && pre[w] == y;
                        assert(s[w] == y);
                    }
                }
            }
        }
        if s.no_duplicates() && !s.contains(x) {
            assert(pre.no_duplicates()) by {
                assert forall|i: int, j: int| 0 <= i < pre.len() && 0 <= j < pre.len() && i != j implies pre[i]
                    != pre[j] by {
                    assert(pre[i] == s[i] && pre[j] == s[j]);
                }
            }
            assert(!pre.contains(x)) by {
                if pre.contains(x) {
                    let w = choose|w: int| 0 <= w < pre.len() && pre[w] == x;
                    assert(s[w] == x);
                }
            }
            assert(!t.contains(l)) by {
                if t.contains(l) {
                    if pre.contains(l) {
                        let w = choose|w: int| 0 <= w < pre.len() && pre[w] == l;
                        assert(s[w] == l);
                        assert(s[s.len() - 1] == l);
                    } else {
                        assert(s[s.len() - 1] == x);
                    }
                }
            }
            assert forall|i: int, j: int| 0 <= i < r.len() && 0 <= j < r.len() && i != j implies r[i]
                != r[j] by {
                if i == t.len() {
                    assert(t.contains(r[j]));
                } else if j == t.len() {
                    assert(t.contains(r[i]));
                }
            }
        }
    }
}

/// `sort_desc` keeps the elements, orders them by decreasing total, and
/// keeps the absence of repeated elements.
pub proof fn lemma_sort_desc(s: Seq<(u32, nat)>)
    ensures
        sort_desc(s).len() == s.len(),
        forall|y: (u32, nat)| #[trigger] sort_desc(s).contains(y) <==> s.contains(y),
        descending(sort_desc(s)),
        s.no_duplicates() ==> sort_desc(s).no_duplicates(),
    decreases s.len(),
{
    if s.len() > 0 {
        let pre = s.drop_last();
        let t = sort_desc(pre);
        lemma_sort_desc(pre);
        lemma_insert_desc(t, s.last());
        assert forall|y: (u32, nat)| #[trigger] sort_desc(s).contains(y) <==> s.contains(y) by {
            if pre.contains(y) {
                let w = choose|w: int| 0 <= w < pre.len() && pre[w] == y;
                assert(s[w] == y);
            }
            if s.contains(y) {
                let w = choose|w: int| 0 <= w < s.len() && s[w] == y;
                if w < pre.len() {
                    assert(pre[w] == y);
                } else {
                    assert(y == s.last());
                }
            }
        }
        if s.no_duplicates() {
            assert(pre.no_duplicates()) by {
                assert forall|i: int, j: int| 0 <= i < pre.len() && 0 <= j < pre.len() && i != j implies pre[i]
                    != pre[j] by {
                    assert(pre[i] == s[i] && pre[j] == s[j]);
                }
            }
            assert(!t.contains(s.last())) by {
                if t.contains(s.last()) {
                    let w = choose|w: int| 0 <= w < pre.len() && pre[w] == s.last();
                    assert(s[w] == s[s.len() - 1]);
                }
            }
        }
    }
}

/// What a merge produces: each id of either payload exactly once, with the
/// sum of its counts over both payloads (modulo 2^32), ordered by decreasing
/// total, and a prefix size that is the saturating sum of both.
pub proof fn lemma_merged_shape(a: PayloadModel, b: PayloadModel)
    ensures
        ({
            let m = merged(a, b);
            &&& m.prefix_size == saturating_sum(a.prefix_size, b.prefix_size)
            &&& m.ids.len() == m.counts.len()
            &&& m.ids.no_duplicates()
            &&& forall|id: u32| #[trigger]
                m.ids.contains(id) <==> (a.ids.contains(id) || b.ids.contains(id))
            &&& forall|k: int| 0 <= k < m.ids.len() ==> #[trigger] m.counts[k] == (total(
                entries(a),
                m.ids[k],
            ) + total(entries(b), m.ids[k])) % 0x1_0000_0000
            &&& forall|i: int, j: int|
                0 <= i < j < m.ids.len() ==> total(entries(a), #[trigger] m.ids[i]) + total(
                    entries(b),
                    m.ids[i],
                ) >= total(entries(a), #[trigger] m.ids[j]) + total(entries(b), m.ids[j])
        }),
{
    let es = entries(a) + entries(b);
    let keys = first_keys(es);
    let acc = accumulate(es);
    let sorted = sort_desc(acc);
    let m = merged(a, b);
    lemma_first_keys(es);
    lemma_sort_desc(acc);
    assert forall|id: u32| total(es, id) == total(entries(a), id) + total(entries(b), id) by {
        lemma_total_concat(entries(a), entries(b), id);
    }
    // Every element of the sorted list is an (id, total) pair of a key of `es`.
    assert forall|q: int| 0 <= q < sorted.len() implies keys.contains(#[trigger] sorted[q].0)
        && sorted[q].1 == total(es, sorted[q].0) by {
        assert(sorted.contains(sorted[q]));
        assert(acc.contains(sorted[q]));
        let w = choose|w: int| 0 <= w < acc.len() && acc[w] == sorted[q];
        assert(acc[w] == (keys[w], total(es, keys[w])));
    }
    assert(acc.no_duplicates()) by {
        assert forall|i: int, j: int| 0 <= i < acc.len() && 0 <= j < acc.len() && i != j implies acc[i]
            != acc[j] by {
            assert(acc[i].0 == keys[i] && acc[j].0 == keys[j]);
        }
    }
    assert forall|i: int, j: int| 0 <= i < m.ids.len() && 0 <= j < m.ids.len() && i != j implies m.ids[i]
        != m.ids[j] by {
        assert(m.ids[i] == sorted[i].0 && m.ids[j] == sorted[j].0);
        if sorted[i].0 == sorted[j].0 {
            assert(sorted[i] == sorted[j]);
        }
    }
    assert forall|id: u32| #[trigger] m.ids.contains(id) <==> (a.ids.contains(id) || b.ids.contains(id)) by {
        if m.ids.contains(id) {
            let q = choose|q: int| 0 <= q < m.ids.len() && m.ids[q] == id;
            assert(sorted[q].0 == id);
            assert(keys.contains(id));
            let i = choose|i: int| 0 <= i < es.len() && es[i].0 == id;
            if i < a.ids.len() {
                assert(a.ids[i] == id);
            } else {
                assert(b.ids[i - a.ids.len()] == id);
            }
        }
        if a.ids.contains(id) || b.ids.contains(id) {
            if a.ids.contains(id) {
                let i = choose|i: int| 0 <= i < a.ids.len() && a.ids[i] == id;
                assert(es[i].0 == id);
            } else {
                let i = choose|i: int| 0 <= i < b.ids.len() && b.ids[i] == id;
                assert(es[a.ids.len() + i].0 == id);
            }
            assert(keys.contains(id));
            let w = choose|w: int| 0 <= w < keys.len() && keys[w] == id;
            assert(acc[w] == (id, total(es, id)));
            assert(acc.contains(acc[w]));
            assert(sorted.contains(acc[w]));
            let q = choose|q: int| 0 <= q < sorted.len() && sorted[q] == acc[w];
            assert(m.ids[q] == id);
        }
    }
    assert forall|i: int, j: int| 0 <= i < j < m.ids.len() implies total(
        entries(a),
        #[trigger] m.ids[i],
    ) + total(entries(b), m.ids[i]) >= total(entries(a), #[trigger] m.ids[j]) + total(
        entries(b),
        m.ids[j],
    ) by {
        assert(sorted[i].1 >= sorted[j].1);
        assert(m.ids[i] == sorted[i].0 && m.ids[j] == sorted[j].0);
    }
    assert forall|k: int| 0 <= k < m.ids.len() implies #[trigger] m.counts[k] == (total(
        entries(a),
        m.ids[k],
    ) + total(entries(b), m.ids[k])) % 0x1_0000_0000 by {
        assert(m.ids[k] == sorted[k].0);
    }
}

/// Merging is symmetric up to the order of videos with equal totals: both
/// orders give the same prefix size, the same videos and the same count for
/// each video.
pub proof fn lemma_merge_symmetric(a: PayloadModel, b: PayloadModel)
    ensures
        merged(a, b).prefix_size == merged(b, a).prefix_size,
        merged(a, b).ids.len() == merged(b, a).ids.len(),
        forall|id: u32| #[trigger] merged(a, b).ids.contains(id) <==> merged(b, a).ids.contains(id),
        forall|i: int, j: int|
            0 <= i < merged(a, b).ids.len() && 0 <= j < merged(b, a).ids.len() && merged(a, b).ids[i]
                == merged(b, a).ids[j] ==> #[trigger] merged(a, b).counts[i] == #[trigger] merged(
                b,
                a,
            ).counts[j],
{
    let m1 = merged(a, b);
    let m2 = merged(b, a);
    lemma_merged_shape(a, b);
    lemma_merged_shape(b, a);
    lemma_sort_desc(accumulate(entries(a) + entries(b)));
    lemma_sort_desc(accumulate(entries(b) + entries(a)));
    lemma_first_keys(entries(a) + entries(b));
    lemma_first_keys(entries(b) + entries(a));
    assert forall|i: int, j: int|
        0 <= i < m1.ids.len() && 0 <= j < m2.ids.len() && m1.ids[i] == m2.ids[j] implies #[trigger] m1.counts[i]
        == #[trigger] m2.counts[j] by {
        assert(m1.counts[i] == (total(entries(a), m1.ids[i]) + total(entries(b), m1.ids[i])) % 0x1_0000_0000);
        assert(m2.counts[j] == (total(entries(b), m2.ids[j]) + total(entries(a), m2.ids[j])) % 0x1_0000_0000);
    }
    // Both lists hold each id of either payload exactly once.
    assert(m1.ids.to_set() =~= m2.ids.to_set()) by {
        assert forall|id: u32| m1.ids.to_set().contains(id) <==> m2.ids.to_set().contains(id) by {
            assert(m1.ids.contains(id) <==> m2.ids.contains(id));
        }
    }
    m1.ids.unique_seq_to_set();
    m2.ids.unique_seq_to_set();
}

/// With distinct ids, the total of an id is the count at its position.
pub proof fn lemma_total_single(ids: Seq<u32>, counts: Seq<u32>, k: int)
    requires
        ids.no_duplicates(),
        0 <= k < ids.len(),
    ensures
        total(pairs(ids, counts), ids[k]) == counts[k],
    decreases ids.len(),
{
    let es = pairs(ids, counts);
    let pre = ids.drop_last();
    assert(es.drop_last() =~= pairs(pre, counts));
    if k == ids.len() - 1 {
        assert forall|i: int| 0 <= i < pairs(pre, counts).len() implies pairs(pre, counts)[i].0 != ids[k] by {
            assert(ids[i] != ids[k]);
        }
        lemma_total_absent(pairs(pre, counts), ids[k]);
    } else {
        assert(pre.no_duplicates()) by {
            assert forall|i: int, j: int| 0 <= i < pre.len() && 0 <= j < pre.len() && i != j implies pre[i]
                != pre[j] by {
                assert(pre[i] == ids[i] && pre[j] == ids[j]);
            }
        }
        assert(ids[ids.len() - 1] != ids[k]);
        lemma_total_single(pre, counts, k);
    }
}

/// Some position of `m` holds the id `id` with the count `c`.
pub open spec fn has_pair(m: PayloadModel, id: u32, c: u32) -> bool {
    exists|j: int| 0 <= j < m.ids.len() && m.ids[j] == id && m.counts[j] == c
}

/// Merging a payload whose ids are distinct (each with a count) with an
/// empty payload keeps its prefix size and its (id, count) pairs, only
/// reordered by decreasing count.
pub proof fn lemma_merge_empty(a: PayloadModel)
    requires
        a.ids.no_duplicates(),
        a.ids.len() == a.counts.len(),
    ensures
        merged(a, empty_model()).prefix_size == a.prefix_size,
        merged(a, empty_model()).ids.len() == a.ids.len(),
        forall|k: int|
            0 <= k < a.ids.len() ==> #[trigger] has_pair(merged(a, empty_model()), a.ids[k], a.counts[k]),
        forall|j: int|
            0 <= j < merged(a, empty_model()).ids.len() ==> #[trigger] has_pair(
                a,
                merged(a, empty_model()).ids[j],
                merged(a, empty_model()).counts[j],
            ),
{
    let b = empty_model();
    let m = merged(a, b);
    lemma_merged_shape(a, b);
    assert(entries(b) =~= Seq::<(u32, nat)>::empty());
    assert forall|id: u32| total(entries(b), id) == 0 by {}
    assert forall|k: int| 0 <= k < a.ids.len() implies #[trigger] has_pair(m, a.ids[k], a.counts[k]) by {
        assert(a.ids.contains(a.ids[k]));
        assert(m.ids.contains(a.ids[k]));
        let j = choose|j: int| 0 <= j < m.ids.len() && m.ids[j] == a.ids[k];
        lemma_total_single(a.ids, a.counts, k);
        assert(total(entries(b), a.ids[k]) == 0);
        assert(m.counts[j] == (total(entries(a), m.ids[j]) + total(entries(b), m.ids[j])) % 0x1_0000_0000);
        assert(m.counts[j] == a.counts[k]);
    }
    assert forall|j: int| 0 <= j < m.ids.len() implies #[trigger] has_pair(a, m.ids[j], m.counts[j]) by {
        assert(m.ids.contains(m.ids[j]));
        assert(!b.ids.contains(m.ids[j]));
        let k = choose|k: int| 0 <= k < a.ids.len() && a.ids[k] == m.ids[j];
        lemma_total_single(a.ids, a.counts, k);
        assert(total(entries(b), a.ids[k]) == 0);
        assert(m.counts[j] == (total(entries(a), m.ids[j]) + total(entries(b), m.ids[j])) % 0x1_0000_0000);
    }
    assert(m.prefix_size == a.prefix_size);
    assert(m.ids.to_set() =~= a.ids.to_set()) by {
        assert forall|id: u32| m.ids.to_set().contains(id) <==> a.ids.to_set().contains(id) by {
            assert(m.ids.contains(id) <==> (a.ids.contains(id) || b.ids.contains(id)));
        }
    }
    m.ids.unique_seq_to_set();
    a.ids.unique_seq_to_set();
}

/// Pruning to `n` videos keeps the first `n` ids and the first `n` counts,
/// exactly `n` of each when there are more than `n` (counts permitting);
/// without a limit, or with no more than `n` ids, nothing changes. The prefix
/// size never changes.
pub proof fn lemma_pruned_keeps_first(m: PayloadModel, top: Option<usize>)
    ensures
        pruned(m, top).prefix_size == m.prefix_size,
        top is None ==> pruned(m, top) == m,
        top matches Some(n) ==> (m.ids.len() <= n ==> pruned(m, top) == m),
        top matches Some(n) ==> (m.ids.len() > n ==> {
            &&& pruned(m, top).ids.len() == n
            &&& forall|i: int| 0 <= i < n ==> #[trigger] pruned(m, top).ids[i] == m.ids[i]
            &&& n <= m.counts.len() ==> pruned(m, top).counts.len() == n
            &&& forall|i: int|
                0 <= i < n && i < m.counts.len() ==> #[trigger] pruned(m, top).counts[i] == m.counts[i]
        }),
{
}

/// Adds one (id, count) entry to the running per-id totals `acc`.
fn tally_one(acc: &mut Vec<(u32, u64)>, id: u32, c: u32, Ghost(es): Ghost<Seq<(u32, nat)>>)
    requires
        widen(old(acc)@) == accumulate(es),
        total(es, id) + c <= u64::MAX,
    ensures
        widen(final(acc)@) == accumulate(es.push((id, c as nat))),
{
    let ghost es2 = es.push((id, c as nat));
    proof {
        lemma_first_keys(es);
        assert(es2.drop_last() =~= es);
        assert forall|k: u32| #[trigger] total(es2, k) == total(es, k) + if k == id { c as nat } else { 0 } by {
        }
    }
    let mut k: usize = 0;
    while k < acc.len() && acc[k].0 != id
        invariant
            k <= acc.len(),
            acc@ == old(acc)@,
            forall|q: int| 0 <= q < k ==> acc@[q].0 != id,
        decreases acc.len() - k,
    {
        k = k + 1;
    }
    let ghost keys = first_keys(es);
    assert(accumulate(es).len() == keys.len());
    assert(widen(acc@).len() == acc@.len());
    if k < acc.len() {
        assert(widen(acc@)[k as int] == (keys[k as int], total(es, keys[k as int])));
        assert(keys.contains(id));
        assert(first_keys(es2) == keys);
        let ghost before = acc@;
        let t = acc[k].1 + c as u64;
        acc.set(k, (id, t));
        assert forall|q: int| 0 <= q < keys.len() implies #[trigger] widen(acc@)[q] == accumulate(
            es2,
        )[q] by {
            assert(widen(before)[q] == (keys[q], total(es, keys[q])));
            if q != k {
                assert(keys[q] != id);
                assert(total(es2, keys[q]) == total(es, keys[q]));
            } else {
                assert(total(es2, id) == total(es, id) + c);
            }
        }
        assert(widen(acc@) =~= accumulate(es2));
    } else {
        assert forall|q: int| 0 <= q < keys.len() implies keys[q] != id by {
            assert(widen(acc@)[q] == (keys[q], total(es, keys[q])));
        }
        assert(!keys.contains(id));
        assert(first_keys(es2) == keys.push(id));
        assert forall|i: int| 0 <= i < es.len() implies es[i].0 != id by {
            if es[i].0 == id {
                assert(keys.contains(id));
            }
        }
        proof { lemma_total_absent(es, id); }
        let ghost before = acc@;
        acc.push((id, c as u64));
        assert forall|q: int| 0 <= q < acc@.len() implies #[trigger] widen(acc@)[q] == accumulate(
            es2,
        )[q] by {
            if q < keys.len() {
                assert(widen(before)[q] == (keys[q], total(es, keys[q])));
                assert(keys[q] != id);
                assert(total(es2, keys[q]) == total(es, keys[q]));
            } else {
                assert(total(es2, id) == total(es, id) + c);
            }
        }
        assert(widen(acc@) =~= accumulate(es2));
    }
}

/// Per-id totals over the entries of `a` followed by those of `b`, each id
/// once, in order of first occurrence.
fn tally(a_ids: &Vec<u32>, a_counts: &Vec<u32>, b_ids: &Vec<u32>, b_counts: &Vec<u32>) -> (acc: Vec<
    (u32, u64),
>)
    requires
        a_ids.len() <= a_counts.len(),
        b_ids.len() <= b_counts.len(),
        forall|id: u32| total(pairs(a_ids@, a_counts@) + pairs(b_ids@, b_counts@), id) <= u64::MAX,
    ensures
        widen(acc@) == accumulate(pairs(a_ids@, a_counts@) + pairs(b_ids@, b_counts@)),
{
    let ghost es = pairs(a_ids@, a_counts@) + pairs(b_ids@, b_counts@);
    let ghost na = a_ids@.len() as int;
    let mut acc: Vec<(u32, u64)> = Vec::new();
    assert(widen(acc@) =~= accumulate(es.take(0)));
    for i in 0..a_ids.len()
        invariant
            na == a_ids@.len(),
            a_ids.len() <= a_counts.len(),
            es == pairs(a_ids@, a_counts@) + pairs(b_ids@, b_counts@),
            forall|id: u32| total(es, id) <= u64::MAX,
            widen(acc@) == accumulate(es.take(i as int)),
    {
        let ghost pre = es.take(i as int);
        let id = a_ids[i];
        let c = a_counts[i];
        proof {
            assert(es[i as int] == (id, c as nat));
            assert(es.take(i + 1) =~= pre.push((id, c as nat)));
            assert(es.take(i + 1).drop_last() =~= pre);
            lemma_total_take(es, i + 1, id);
        }
        tally_one(&mut acc, id, c, Ghost(pre));
    }
    for i in 0..b_ids.len()
        invariant
            na == a_ids@.len(),
            b_ids.len() <= b_counts.len(),
            es == pairs(a_ids@, a_counts@) + pairs(b_ids@, b_counts@),
            forall|id: u32| total(es, id) <= u64::MAX,
            widen(acc@) == accumulate(es.take(na + i)),
    {
        let ghost pre = es.take(na + i);
        let id = b_ids[i];
        let c = b_counts[i];
        proof {
            assert(es[na + i] == (id, c as nat));
            assert(es.take(na + i + 1) =~= pre.push((id, c as nat)));
            assert(es.take(na + i + 1).drop_last() =~= pre);
            lemma_total_take(es, na + i + 1, id);
        }
        tally_one(&mut acc, id, c, Ghost(pre));
        assert(es.take(na + i + 1) == pre.push((id, c as nat)));
    }
    assert(es.take(na + b_ids@.len()) =~= es);
    acc
}

/// The entries of `acc`, stably ordered by decreasing total.
fn order_by_total(acc: &Vec<(u32, u64)>) -> (sorted: Vec<(u32, u64)>)
    ensures
        widen(sorted@) == sort_desc(widen(acc@)),
{
    let ghost w = widen(acc@);
    let mut sorted: Vec<(u32, u64)> = Vec::new();
    assert(widen(sorted@) =~= sort_desc(w.take(0)));
    for i in 0..acc.len()
        invariant
            w == widen(acc@),
            widen(sorted@) == sort_desc(w.take(i as int)),
    {
        let x = acc[i];
        let mut j = sorted.len();
        while j > 0 && sorted[j - 1].1 < x.1
            invariant
                j <= sorted.len(),
                forall|k: int| j <= k < sorted.len() ==> sorted@[k].1 < x.1,
            decreases j,
        {
            j -= 1;
        }
        let ghost xv = (x.0, x.1 as nat);
        let ghost before = widen(sorted@);
        proof {
            assert(w.take(i + 1).drop_last() =~= w.take(i as int));
            assert(w.take(i + 1).last() == xv);
            assert forall|k: int| j <= k < before.len() implies #[trigger] before[k].1 < xv.1 by {
                assert(sorted@[k].1 < x.1);
            }
            if j > 0 {
                assert(before[j - 1].1 >= xv.1);
            }
            lemma_insert_at(before, xv, j as int);
        }
        sorted.insert(j, x);
        assert(widen(sorted@) =~= before.insert(j as int, xv));
    }
    assert(w.take(acc.len() as int) =~= w);
    sorted
}

impl Payload {
    /// A payload with no prefix size and no videos.
    pub fn empty() -> (p: Self)
        ensures
            p@ == empty_model(),
    {
        Self { prefix_size: 0, video_ids: Vec::new(), video_counts: Vec::new() }
    }

    /// Merges `other` into this payload: prefix sizes add up (saturating at
    /// `u32::MAX`), counts are summed per video id over both payloads, and the
    /// videos are listed once each by decreasing total. Videos with equal
    /// totals keep the order in which they first appear (this payload's list
    /// first). A total is stored modulo 2^32.
    pub fn merge_from(&mut self, other: &Payload)
        requires
            counts_cover(old(self)@),
            counts_cover(other@),
            merge_fits(old(self)@, other@),
        ensures
            final(self)@ == merged(old(self)@, other@),
    {
        let ghost a = self@;
        let ghost b = other@;
        proof {
            assert forall|id: u32|
                total(
                    pairs(self.video_ids@, self.video_counts@) + pairs(
                        other.video_ids@,
                        other.video_counts@,
                    ),
                    id,
                ) <= u64::MAX by {
                lemma_total_concat(entries(a), entries(b), id);
            }
        }
        let acc = tally(&self.video_ids, &self.video_counts, &other.video_ids, &other.video_counts);
        let sorted = order_by_total(&acc);
        let ghost ws = widen(sorted@);
        let mut ids: Vec<u32> = Vec::new();
        let mut counts: Vec<u32> = Vec::new();
        for k in 0..sorted.len()
            invariant
                ws == widen(sorted@),
                ids@ == ws.take(k as int).map_values(|e: (u32, nat)| e.0),
                counts@ == ws.take(k as int).map_values(|e: (u32, nat)| (e.1 % 0x1_0000_0000) as u32),
        {
            ids.push(sorted[k].0);
            counts.push((sorted[k].1 % 4294967296) as u32);
            assert(ids@ =~= ws.take(k + 1).map_values(|e: (u32, nat)| e.0));
            assert(counts@ =~= ws.take(k + 1).map_values(|e: (u32, nat)| (e.1 % 0x1_0000_0000) as u32));
        }
        assert(ws.take(sorted.len() as int) =~= ws);
        self.prefix_size = self.prefix_size.saturating_add(other.prefix_size);
        self.video_ids = ids;
        self.video_counts = counts;
    }

    /// Keeps only the first `video_top_n` videos, when a limit is given.
    pub fn prune(&mut self, video_top_n: Option<usize>)
        ensures
            final(self)@ == pruned(old(self)@, video_top_n),
    {
        if let Some(n) = video_top_n {
            if self.video_ids.len() > n {
                self.video_ids.truncate(n);
                self.video_counts.truncate(n);
            }
        }
    }
}

} // verus!
