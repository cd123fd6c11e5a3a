use vstd::prelude::*;

use crate::prefix::trie::Trie;
use crate::text::{chars_of, string_of};

verus! {

/// A terminal node found by [`fuzzy_match`], with the labels on the way to it
/// and their edit distance to the search term.
#[derive(Debug, Clone)]
pub struct MatchResult {
    pub node_id: usize,
    pub prefix: String,
    pub distance: u32,
}

/// A node found by [`fuzzy_match_nodes`] and the edit distance of its labels
/// to the search term.
#[derive(Debug, Clone)]
pub struct NodeMatch {
    pub node_id: usize,
    pub distance: u16,
}

impl View for MatchResult {
    type V = (usize, Seq<char>, nat);

    open spec fn view(&self) -> (usize, Seq<char>, nat) {
        (self.node_id, self.prefix@, self.distance as nat)
    }
}

impl View for NodeMatch {
    type V = (usize, nat);

    open spec fn view(&self) -> (usize, nat) {
        (self.node_id, self.distance as nat)
    }
}

/// The contents of a list of key matches.
pub open spec fn match_views(s: Seq<MatchResult>) -> Seq<(usize, Seq<char>, nat)> {
    s.map_values(|m: MatchResult| m@)
}

/// The contents of a list of node matches.
pub open spec fn node_views(s: Seq<NodeMatch>) -> Seq<(usize, nat)> {
    s.map_values(|m: NodeMatch| m@)
}

/// The (node, distance) part of each hit.
pub open spec fn strip(s: Seq<(usize, Seq<char>, nat)>) -> Seq<(usize, nat)> {
    s.map_values(|h: (usize, Seq<char>, nat)| (h.0, h.2))
}

/// The smaller of two numbers.
pub open spec fn min2(a: nat, b: nat) -> nat {
    if a <= b {
        a
    } else {
        b
    }
}

/// Levenshtein distance: the fewest insertions, deletions and replacements of
/// single characters that turn `a` into `b`.
pub open spec fn lev(a: Seq<char>, b: Seq<char>) -> nat
    decreases a.len() + b.len(),
{
    if a.len() == 0 {
        b.len()
    } else if b.len() == 0 {
        a.len()
    } else {
        let ins = lev(a, b.drop_last()) + 1;
        let del = lev(a.drop_last(), b) + 1;
        let rep = lev(a.drop_last(), b.drop_last()) + if a.last() == b.last() {
            0nat
        } else {
            1nat
        };
        min2(min2(ins, del), rep)
    }
}

/// The smallest distance from `p` to a prefix of `t` of length at most `j`.
pub open spec fn row_min(p: Seq<char>, t: Seq<char>, j: nat) -> nat
    decreases j,
{
    if j == 0 {
        lev(p, t.take(0))
    } else {
        min2(row_min(p, t, (j - 1) as nat), lev(p, t.take(j as int)))
    }
}

/// The smallest distance from `p` to any prefix of `t`.
pub open spec fn best(p: Seq<char>, t: Seq<char>) -> nat {
    row_min(p, t, t.len())
}

/// How many results a limit stops at (a limit of zero stops at the first).
pub open spec fn cap(limit: Option<usize>) -> int {
    match limit {
        Some(l) => if l == 0 {
            1
        } else {
            l as int
        },
        None => 0,
    }
}

/// `n` results reach the limit.
pub open spec fn hits_cap(n: int, limit: Option<usize>) -> bool {
    limit is Some && n >= cap(limit)
}

/// The results that a search with this limit keeps.
pub open spec fn limited<A>(s: Seq<A>, limit: Option<usize>) -> Seq<A> {
    if hits_cap(s.len() as int, limit) {
        s.take(cap(limit))
    } else {
        s
    }
}

/// `a` is the start of `b`.
pub open spec fn prefix_of<A>(a: Seq<A>, b: Seq<A>) -> bool {
    a.len() <= b.len() && b.take(a.len() as int) == a
}

impl Trie {
    /// Every node has a valid children range, and every child has a label, a
    /// terminal flag and a children range of its own; node 0 (the root) exists.
    pub open spec fn wf(&self) -> bool {
        &&& self.node_shifts@.len() > 0
        &&& forall|v: int| 0 <= v < self.node_shifts@.len() ==> #[trigger] self.node_ok(v)
    }

    /// Node `v` has a valid children range, and each of its children has a
    /// label, a terminal flag and a children range of its own.
    pub open spec fn node_ok(&self, v: int) -> bool {
        &&& self.range_ok(v)
        &&& forall|k: int|
            0 <= k < self.child_list(v).len() ==> {
                &&& #[trigger] self.child_list(v)[k] < self.child_labels@.len()
                &&& self.child_list(v)[k] < self.terminals@.len()
                &&& self.child_list(v)[k] < self.node_shifts@.len()
            }
    }

    /// The hits below child `c` of a node reached through the labels `path`:
    /// nothing when `c` is labelled `'\0'` or when no prefix of `t` lies within
    /// `md` of the extended path; otherwise `c` itself when its labels lie
    /// within `md` of `t` (and, with `ot`, it is terminal), then the hits of
    /// its children. (The length bound is implied by the distance bound.)
    pub open spec fn visit(&self, t: Seq<char>, md: nat, ot: bool, path: Seq<char>, c: usize) -> Seq<
        (usize, Seq<char>, nat),
    >
        decreases t.len() + md + 1 - path.len(), 0int,
    {
        let ch = self.child_labels@[c as int];
        let p = path.push(ch);
        if ch != '\0' && best(p, t) <= md && p.len() <= t.len() + md {
            let d = lev(p, t);
            let here = if d <= md && (!ot || self.terminals@[c as int]) {
                seq![(c, p, d)]
            } else {
                Seq::empty()
            };
            here + self.scan(t, md, ot, p, self.child_list(c as int))
        } else {
            Seq::empty()
        }
    }

    /// The hits below the children `kids` of a node reached through `path`,
    /// in depth-first order.
    pub open spec fn scan(&self, t: Seq<char>, md: nat, ot: bool, path: Seq<char>, kids: Seq<usize>) -> Seq<
        (usize, Seq<char>, nat),
    >
        decreases t.len() + md + 1 - path.len(), kids.len() as int,
    {
        if kids.len() == 0 {
            Seq::empty()
        } else {
            self.scan(t, md, ot, path, kids.drop_last()) + self.visit(t, md, ot, path, kids.last())
        }
    }
}

impl Trie {
    /// `nodes` is a chain of child links starting below `from` whose labels
    /// spell `word`, with no `'\0'` label on the way.
    pub open spec fn spells(&self, from: int, nodes: Seq<usize>, word: Seq<char>) -> bool {
        &&& nodes.len() == word.len()
        &&& nodes.len() >= 1
        &&& self.child_list(from).contains(nodes[0])
        &&& forall|i: int|
            0 <= i < nodes.len() - 1 ==> self.child_list(#[trigger] nodes[i] as int).contains(nodes[i + 1])
        &&& forall|i: int|
            0 <= i < nodes.len() ==> #[trigger] self.child_labels@[nodes[i] as int] == word[i] && word[i]
                != '\0'
    }
}

/// Edit distances stay between the difference and the larger of the lengths.
pub proof fn lemma_lev_bounds(a: Seq<char>, b: Seq<char>)
    ensures
        a.len() - b.len() <= lev(a, b),
        b.len() - a.len() <= lev(a, b),
        lev(a, b) <= if a.len() >= b.len() {
            a.len()
        } else {
            b.len()
        },
    decreases a.len() + b.len(),
{
    if a.len() > 0 && b.len() > 0 {
        lemma_lev_bounds(a, b.drop_last());
        lemma_lev_bounds(a.drop_last(), b);
        lemma_lev_bounds(a.drop_last(), b.drop_last());
    }
}

/// `row_min` is at most each distance it ranges over.
pub proof fn lemma_row_min_le(p: Seq<char>, t: Seq<char>, j: nat, q: nat)
    requires
        q <= j,
    ensures
        row_min(p, t, j) <= lev(p, t.take(q as int)),
    decreases j,
{
    if j > q {
        lemma_row_min_le(p, t, (j - 1) as nat, q);
    }
}

/// `row_min` is at least `p.len() - j`.
pub proof fn lemma_row_min_ge(p: Seq<char>, t: Seq<char>, j: nat)
    requires
        j <= t.len(),
    ensures
        row_min(p, t, j) >= p.len() - j,
    decreases j,
{
    lemma_lev_bounds(p, t.take(j as int));
    if j > 0 {
        lemma_row_min_ge(p, t, (j - 1) as nat);
    }
}

/// A path whose best distance is at most `md` is at most `md` longer than `t`.
pub proof fn lemma_best_len(p: Seq<char>, t: Seq<char>, md: nat)
    requires
        best(p, t) <= md,
    ensures
        p.len() <= t.len() + md,
{
    lemma_row_min_ge(p, t, t.len());
}

/// The best distance to a prefix of `t` never drops when the path grows.
pub proof fn lemma_best_grows(p: Seq<char>, x: char, t: Seq<char>)
    ensures
        best(p, t) <= best(p.push(x), t),
{
    let q = p.push(x);
    assert(q.drop_last() =~= p);
    assert forall|j: nat| j <= t.len() implies best(p, t) <= #[trigger] lev(q, t.take(j as int)) by {
        lemma_step_ge(p, x, t, j);
    }
    lemma_row_min_all(q, t, t.len(), best(p, t));
}

proof fn lemma_step_ge(p: Seq<char>, x: char, t: Seq<char>, j: nat)
    requires
        j <= t.len(),
    ensures
        best(p, t) <= lev(p.push(x), t.take(j as int)),
    decreases j,
{
    let q = p.push(x);
    assert(q.drop_last() =~= p);
    if j == 0 {
        lemma_row_min_le(p, t, t.len(), 0);
        assert(t.take(0).len() == 0);
    } else {
        let b = t.take(j as int);
        assert(b.drop_last() =~= t.take(j - 1));
        lemma_step_ge(p, x, t, (j - 1) as nat);
        lemma_row_min_le(p, t, t.len(), j);
        lemma_row_min_le(p, t, t.len(), (j - 1) as nat);
    }
}

proof fn lemma_row_min_all(q: Seq<char>, t: Seq<char>, j: nat, lo: nat)
    requires
        j <= t.len(),
        forall|i: nat| i <= t.len() ==> lo <= #[trigger] lev(q, t.take(i as int)),
    ensures
        lo <= row_min(q, t, j),
    decreases j,
{
    assert(lo <= lev(q, t.take(j as int)));
    if j > 0 {
        lemma_row_min_all(q, t, (j - 1) as nat, lo);
    }
}

/// The distance to the whole of `t` is at least the best distance to a prefix.
pub proof fn lemma_best_le_lev(p: Seq<char>, t: Seq<char>)
    ensures
        best(p, t) <= lev(p, t),
{
    lemma_row_min_le(p, t, t.len(), t.len());
    assert(t.take(t.len() as int) =~= t);
}

/// `scan` over the first `m` children lists its hits first.
pub proof fn lemma_scan_take(
    tr: &Trie,
    t: Seq<char>,
    md: nat,
    ot: bool,
    path: Seq<char>,
    kids: Seq<usize>,
    m: int,
)
    requires
        0 <= m <= kids.len(),
    ensures
        prefix_of(tr.scan(t, md, ot, path, kids.take(m)), tr.scan(t, md, ot, path, kids)),
    decreases kids.len(),
{
    if m == kids.len() {
        assert(kids.take(m) =~= kids);
        let f = tr.scan(t, md, ot, path, kids);
        assert(f.take(f.len() as int) =~= f);
    } else {
        let pre = kids.drop_last();
        lemma_scan_take(tr, t, md, ot, path, pre, m);
        assert(pre.take(m) =~= kids.take(m));
        let a = tr.scan(t, md, ot, path, kids.take(m));
        let b = tr.scan(t, md, ot, path, pre);
        let v = tr.visit(t, md, ot, path, kids.last());
        assert(tr.scan(t, md, ot, path, kids) == b + v);
        assert(prefix_of(a, b));
        assert(a.len() <= (b + v).len());
        assert((b + v).take(a.len() as int) =~= b.take(a.len() as int));
        assert((b + v).take(a.len() as int) == a);
    }
}

proof fn lemma_prefix_extend<A>(x: Seq<A>, a: Seq<A>, b: Seq<A>)
    requires
        prefix_of(a, b),
    ensures
        prefix_of(x + a, x + b),
{
    assert((x + b).take((x + a).len() as int) =~= x + a);
}

proof fn lemma_prefix_trans<A>(a: Seq<A>, b: Seq<A>, c: Seq<A>)
    requires
        prefix_of(a, b),
        prefix_of(b, c),
    ensures
        prefix_of(a, c),
{
    assert(c.take(a.len() as int) =~= b.take(a.len() as int));
}

proof fn lemma_strip_prefix(a: Seq<(usize, Seq<char>, nat)>, b: Seq<(usize, Seq<char>, nat)>)
    requires
        prefix_of(a, b),
    ensures
        prefix_of(strip(a), strip(b)),
{
    assert(strip(b).take(strip(a).len() as int) =~= strip(a));
}

proof fn lemma_strip_concat(a: Seq<(usize, Seq<char>, nat)>, b: Seq<(usize, Seq<char>, nat)>)
    ensures
        strip(a + b) == strip(a) + strip(b),
{
    assert(strip(a + b) =~= strip(a) + strip(b));
}

/// When `r` is a prefix of `f` that reaches the limit, the limited `f` is `r`.
proof fn lemma_limited_prefix<A>(r: Seq<A>, f: Seq<A>, limit: Option<usize>)
    requires
        prefix_of(r, f),
        hits_cap(r.len() as int, limit),
        r.len() == cap(limit),
    ensures
        limited(f, limit) == r,
        hits_cap(f.len() as int, limit),
{
}

/// The next row of distances: from the row of `path` against every prefix of
/// `term`, the row of `path` extended by `c`, and its smallest entry.
fn next_row(prev: &Vec<u16>, depth: usize, term: &Vec<char>, c: char, Ghost(path): Ghost<Seq<char>>) -> (r: (
    Vec<u16>,
    u16,
))
    requires
        depth == path.len(),
        prev@.len() == term@.len() + 1,
        forall|j: int| 0 <= j <= term@.len() ==> prev@[j] == lev(path, term@.take(j)),
        path.len() <= 65533,
        term@.len() <= 65533,
    ensures
        r.0@.len() == term@.len() + 1,
        forall|j: int| 0 <= j <= term@.len() ==> r.0@[j] == lev(path.push(c), term@.take(j)),
        r.1 == best(path.push(c), term@),
{
    let ghost p = path.push(c);
    let ghost t = term@;
    assert(p.drop_last() =~= path);
    let i = (depth + 1) as u16;
    assert(t.take(0).len() == 0);
    let mut cur: Vec<u16> = Vec::new();
    cur.push(i);
    let mut min_val = i;
    let mut j: usize = 1;
    while j <= term.len()
        invariant
            1 <= j <= term@.len() + 1,
            t == term@,
            p == path.push(c),
            p.drop_last() == path,
            prev@.len() == term@.len() + 1,
            forall|q: int| 0 <= q <= term@.len() ==> prev@[q] == lev(path, term@.take(q)),
            path.len() <= 65533,
            term@.len() <= 65533,
            cur@.len() == j,
            forall|q: int| 0 <= q < j ==> cur@[q] == lev(p, t.take(q)),
            min_val == row_min(p, t, (j - 1) as nat),
        decreases term@.len() + 1 - j,
    {
        proof {
            lemma_lev_bounds(p, t.take(j - 1));
            lemma_lev_bounds(path, t.take(j as int));
            lemma_lev_bounds(path, t.take(j - 1));
        }
        let ins = cur[j - 1] + 1;
        let del = prev[j] + 1;
        let rep = prev[j - 1] + if term[j - 1] == c {
            0
        } else {
            1
        };
        let m1 = if ins <= del {
            ins
        } else {
            del
        };
        let m = if m1 <= rep {
            m1
        } else {
            rep
        };
        proof {
            let b = t.take(j as int);
            assert(b.drop_last() =~= t.take(j - 1));
            assert(b.last() == t[j - 1]);
            assert(m == lev(p, b));
        }
        cur.push(m);
        if m < min_val {
            min_val = m;
        }
        j += 1;
    }
    (cur, min_val)
}

/// Depth-first search below `node` for terminal nodes within `md` of `term`,
/// with `prev` the distance row of the labels in `prefix_buf`.
fn walk(
    trie: &Trie,
    node: usize,
    depth: usize,
    term: &Vec<char>,
    md: u16,
    prev: &Vec<u16>,
    results: &mut Vec<MatchResult>,
    prefix_buf: &mut Vec<char>,
    limit: Option<usize>,
) -> (stopped: bool)
    requires
        trie.wf(),
        node < trie.node_shifts@.len(),
        term@.len() + md <= 65533,
        depth == old(prefix_buf)@.len(),
        depth <= term@.len() + md,
        prev@.len() == term@.len() + 1,
        forall|j: int| 0 <= j <= term@.len() ==> prev@[j] == lev(old(prefix_buf)@, term@.take(j)),
        !hits_cap(old(results)@.len() as int, limit),
    ensures
        final(prefix_buf)@ == old(prefix_buf)@,
        match_views(final(results)@) == limited(
            match_views(old(results)@) + trie.scan(
                term@,
                md as nat,
                true,
                old(prefix_buf)@,
                trie.child_list(node as int),
            ),
            limit,
        ),
        stopped == hits_cap(
            (match_views(old(results)@) + trie.scan(
                term@,
                md as nat,
                true,
                old(prefix_buf)@,
                trie.child_list(node as int),
            )).len() as int,
            limit,
        ),
    decreases term@.len() + md + 1 - depth,
{
    let ghost path = prefix_buf@;
    let ghost t = term@;
    let ghost base = match_views(results@);
    let ghost kids_s = trie.child_list(node as int);
    let ghost full = base + trie.scan(t, md as nat, true, path, kids_s);
    assert(trie.node_ok(node as int));
    let kids = trie.children(node);
    let mut k: usize = 0;
    assert(kids@.take(0) =~= Seq::<usize>::empty());
    assert(base + trie.scan(t, md as nat, true, path, kids@.take(0)) =~= base);
    while k < kids.len()
        invariant
            trie.wf(),
            node < trie.node_shifts@.len(),
            t == term@,
            term@.len() + md <= 65533,
            depth == path.len(),
            depth <= term@.len() + md,
            prev@.len() == term@.len() + 1,
            forall|j: int| 0 <= j <= term@.len() ==> prev@[j] == lev(path, term@.take(j)),
            kids@ == kids_s,
            kids_s == trie.child_list(node as int),
            path == old(prefix_buf)@,
            base == match_views(old(results)@),
            full == base + trie.scan(t, md as nat, true, path, kids_s),
            k <= kids@.len(),
            prefix_buf@ == path,
            match_views(results@) == base + trie.scan(t, md as nat, true, path, kids@.take(k as int)),
            !hits_cap(results@.len() as int, limit),
        decreases kids@.len() - k,
    {
        let cid = kids[k];
        proof {
            assert(trie.node_ok(node as int));
            assert(trie.child_list(node as int)[k as int] < trie.child_labels@.len());
            assert(kids@.take(k + 1).drop_last() =~= kids@.take(k as int));
            assert(kids@.take(k + 1).last() == cid);
            lemma_scan_take(trie, t, md as nat, true, path, kids_s, k + 1);
            lemma_prefix_extend(
                base,
                trie.scan(t, md as nat, true, path, kids@.take(k + 1)),
                trie.scan(t, md as nat, true, path, kids_s),
            );
        }
        let ghost before = match_views(results@);
        let ghost visit = trie.visit(t, md as nat, true, path, cid);
        assert(base + trie.scan(t, md as nat, true, path, kids@.take(k + 1)) =~= before + visit);
        let c = trie.child_labels[cid];
        if c != '\0' {
            let (cur, min_val) = next_row(prev, depth, term, c, Ghost(path));
            let ghost p = path.push(c);
            if min_val <= md {
                proof {
                    lemma_best_len(p, t, md as nat);
                    assert(t.take(t.len() as int) =~= t);
                }
                let last = cur[term.len()];
                let ghost here: Seq<(usize, Seq<char>, nat)> = if trie.terminals@[cid as int] && last <= md {
                    seq![(cid, p, last as nat)]
                } else {
                    Seq::empty()
                };
                let ghost sub = trie.scan(t, md as nat, true, p, trie.child_list(cid as int));
                assert(visit == here + sub);
                if trie.terminals[cid] && last <= md {
                    prefix_buf.push(c);
                    let s = string_of(prefix_buf);
                    results.push(MatchResult { node_id: cid, prefix: s, distance: last as u32 });
                    prefix_buf.pop();
                    assert(prefix_buf@ =~= path);
                    assert(match_views(results@) =~= before + here);
                    if let Some(lim) = limit {
                        if results.len() >= lim {
                            proof {
                                assert(prefix_of(before + here, before + visit)) by {
                                    assert((before + visit).take((before + here).len() as int) =~= before
                                        + here);
                                }
                                lemma_prefix_trans(before + here, before + visit, full);
                                lemma_limited_prefix(before + here, full, limit);
                            }
                            assert(prefix_buf@ == old(prefix_buf)@);
                            return true;
                        }
                    }
                }
                assert(match_views(results@) == before + here);
                prefix_buf.push(c);
                proof {
                    assert(trie.child_list(node as int)[k as int] < trie.node_shifts@.len());
                }
                let stop = walk(trie, cid, depth + 1, term, md, &cur, results, prefix_buf, limit);
                prefix_buf.pop();
                assert(prefix_buf@ =~= path);
                assert(before + here + sub =~= before + visit);
                if stop {
                    proof {
                        let f2 = before + visit;
                        assert(match_views(results@) == f2.take(cap(limit)));
                        assert(prefix_of(f2.take(cap(limit)), f2));
                        lemma_prefix_trans(f2.take(cap(limit)), f2, full);
                        lemma_limited_prefix(f2.take(cap(limit)), full, limit);
                    }
                    return true;
                }
            } else {
                assert(visit =~= Seq::<(usize, Seq<char>, nat)>::empty());
            }
        } else {
            assert(visit =~= Seq::<(usize, Seq<char>, nat)>::empty());
        }
        assert(match_views(results@) =~= base + trie.scan(t, md as nat, true, path, kids@.take(k + 1)));
        k += 1;
    }
    assert(kids@.take(k as int) =~= kids_s);
    false
}

/// Collects the terminal nodes whose labels from the root lie within edit
/// distance `max_dist` of `term`, in depth-first order, stopping once
/// `limit` results are found (a limit of zero stops at the first).
pub fn fuzzy_match(trie: &Trie, term: &str, max_dist: u32, limit: Option<usize>) -> (results: Vec<
    MatchResult,
>)
    requires
        trie.wf(),
        term@.len() + max_dist <= 65533,
    ensures
        match_views(results@) == limited(
            trie.scan(term@, max_dist as nat, true, Seq::empty(), trie.child_list(0)),
            limit,
        ),
{
    let term_chars = chars_of(term);
    let l = term_chars.len();
    let md = max_dist as u16;
    let mut row0: Vec<u16> = Vec::new();
    let mut j: usize = 0;
    while j <= l
        invariant
            l == term_chars@.len(),
            l <= 65533,
            j <= l + 1,
            row0@.len() == j,
            forall|q: int| 0 <= q < j ==> row0@[q] == lev(Seq::<char>::empty(), term_chars@.take(q)),
        decreases l + 1 - j,
    {
        row0.push(j as u16);
        j += 1;
    }
    let mut results: Vec<MatchResult> = Vec::new();
    let mut prefix_buf: Vec<char> = Vec::new();
    assert(prefix_buf@ =~= Seq::<char>::empty());
    assert(match_views(results@) =~= Seq::<(usize, Seq<char>, nat)>::empty());
    let _ = walk(trie, 0, 0, &term_chars, md, &row0, &mut results, &mut prefix_buf, limit);
    assert(Seq::<(usize, Seq<char>, nat)>::empty() + trie.scan(
        term@,
        max_dist as nat,
        true,
        Seq::empty(),
        trie.child_list(0),
    ) =~= trie.scan(term@, max_dist as nat, true, Seq::empty(), trie.child_list(0)));
    results
}

/// Depth-first search below `node` for nodes within `md` of `term` (only
/// terminal ones when `only_terminals`), with `prev` the distance row of the
/// labels `path`.
fn walk_nodes(
    trie: &Trie,
    node: usize,
    depth: usize,
    term: &Vec<char>,
    md: u16,
    prev: &Vec<u16>,
    Ghost(path): Ghost<Seq<char>>,
    out: &mut Vec<NodeMatch>,
    only_terminals: bool,
    node_limit: Option<usize>,
) -> (stopped: bool)
    requires
        trie.wf(),
        node < trie.node_shifts@.len(),
        term@.len() + md <= 65533,
        depth == path.len(),
        depth <= term@.len() + md,
        prev@.len() == term@.len() + 1,
        forall|j: int| 0 <= j <= term@.len() ==> prev@[j] == lev(path, term@.take(j)),
        !hits_cap(old(out)@.len() as int, node_limit),
    ensures
        node_views(final(out)@) == limited(
            node_views(old(out)@) + strip(
                trie.scan(term@, md as nat, only_terminals, path, trie.child_list(node as int)),
            ),
            node_limit,
        ),
        stopped == hits_cap(
            (node_views(old(out)@) + strip(
                trie.scan(term@, md as nat, only_terminals, path, trie.child_list(node as int)),
            )).len() as int,
            node_limit,
        ),
    decreases term@.len() + md + 1 - depth,
{
    let ghost t = term@;
    let ghost ot = only_terminals;
    let ghost base = node_views(out@);
    let ghost kids_s = trie.child_list(node as int);
    let ghost full = base + strip(trie.scan(t, md as nat, ot, path, kids_s));
    assert(trie.node_ok(node as int));
    let kids = trie.children(node);
    let mut k: usize = 0;
    assert(kids@.take(0) =~= Seq::<usize>::empty());
    assert(base + strip(trie.scan(t, md as nat, ot, path, kids@.take(0))) =~= base);
    while k < kids.len()
        invariant
            trie.wf(),
            node < trie.node_shifts@.len(),
            t == term@,
            ot == only_terminals,
            term@.len() + md <= 65533,
            depth == path.len(),
            depth <= term@.len() + md,
            prev@.len() == term@.len() + 1,
            forall|j: int| 0 <= j <= term@.len() ==> prev@[j] == lev(path, term@.take(j)),
            kids@ == kids_s,
            kids_s == trie.child_list(node as int),
            base == node_views(old(out)@),
            full == base + strip(trie.scan(t, md as nat, ot, path, kids_s)),
            k <= kids@.len(),
            node_views(out@) == base + strip(trie.scan(t, md as nat, ot, path, kids@.take(k as int))),
            !hits_cap(out@.len() as int, node_limit),
        decreases kids@.len() - k,
    {
        let cid = kids[k];
        let ghost before = node_views(out@);
        let ghost visit = trie.visit(t, md as nat, ot, path, cid);
        proof {
            assert(trie.node_ok(node as int));
            assert(trie.child_list(node as int)[k as int] < trie.child_labels@.len());
            assert(kids@.take(k + 1).drop_last() =~= kids@.take(k as int));
            assert(kids@.take(k + 1).last() == cid);
            lemma_scan_take(trie, t, md as nat, ot, path, kids_s, k + 1);
            lemma_strip_prefix(
                trie.scan(t, md as nat, ot, path, kids@.take(k + 1)),
                trie.scan(t, md as nat, ot, path, kids_s),
            );
            lemma_prefix_extend(
                base,
                strip(trie.scan(t, md as nat, ot, path, kids@.take(k + 1))),
                strip(trie.scan(t, md as nat, ot, path, kids_s)),
            );
            lemma_strip_concat(trie.scan(t, md as nat, ot, path, kids@.take(k as int)), visit);
        }
        assert(base + strip(trie.scan(t, md as nat, ot, path, kids@.take(k + 1))) =~= before + strip(
            visit,
        ));
        let c = trie.child_labels[cid];
        if c != '\0' {
            let (cur, min_val) = next_row(prev, depth, term, c, Ghost(path));
            let ghost p = path.push(c);
            if min_val <= md {
                proof {
                    lemma_best_len(p, t, md as nat);
                    assert(t.take(t.len() as int) =~= t);
                }
                let last = cur[term.len()];
                let ghost here: Seq<(usize, Seq<char>, nat)> = if last <= md && (!ot
                    || trie.terminals@[cid as int]) {
                    seq![(cid, p, last as nat)]
                } else {
                    Seq::empty()
                };
                let ghost sub = trie.scan(t, md as nat, ot, p, trie.child_list(cid as int));
                assert(visit == here + sub);
                proof {
                    lemma_strip_concat(here, sub);
                }
                let pass = last <= md && (!only_terminals || trie.terminals[cid]);
                if pass {
                    out.push(NodeMatch { node_id: cid, distance: last });
                    assert(node_views(out@) =~= before + strip(here));
                    if let Some(lim) = node_limit {
                        if out.len() >= lim {
                            proof {
                                assert(prefix_of(before + strip(here), before + strip(visit))) by {
                                    assert((before + strip(visit)).take(
                                        (before + strip(here)).len() as int,
                                    ) =~= before + strip(here));
                                }
                                lemma_prefix_trans(before + strip(here), before + strip(visit), full);
                                lemma_limited_prefix(before + strip(here), full, node_limit);
                            }
                            return true;
                        }
                    }
                } else {
                    assert(strip(here) =~= Seq::<(usize, nat)>::empty());
                    assert(node_views(out@) =~= before + strip(here));
                }
                proof {
                    assert(trie.child_list(node as int)[k as int] < trie.node_shifts@.len());
                }
                let stop = walk_nodes(
                    trie,
                    cid,
                    depth + 1,
                    term,
                    md,
                    &cur,
                    Ghost(p),
                    out,
                    only_terminals,
                    node_limit,
                );
                assert(before + strip(here) + strip(sub) =~= before + strip(visit));
                if stop {
                    proof {
                        let f2 = before + strip(visit);
                        assert(node_views(out@) == f2.take(cap(node_limit)));
                        assert(prefix_of(f2.take(cap(node_limit)), f2));
                        lemma_prefix_trans(f2.take(cap(node_limit)), f2, full);
                        lemma_limited_prefix(f2.take(cap(node_limit)), full, node_limit);
                    }
                    return true;
                }
            } else {
                assert(strip(visit) =~= Seq::<(usize, nat)>::empty());
            }
        } else {
            assert(strip(visit) =~= Seq::<(usize, nat)>::empty());
        }
        assert(node_views(out@) =~= base + strip(trie.scan(t, md as nat, ot, path, kids@.take(k + 1))));
        k += 1;
    }
    assert(kids@.take(k as int) =~= kids_s);
    false
}

/// Collects the nodes whose labels from the root lie within edit distance
/// `max_dist` of `term` (only terminal ones when `only_terminals`), with their
/// distances, in depth-first order, stopping once `node_limit` results are
/// found (a limit of zero stops at the first).
pub fn fuzzy_match_nodes(
    trie: &Trie,
    term: &str,
    max_dist: u32,
    only_terminals: bool,
    node_limit: Option<usize>,
) -> (out: Vec<NodeMatch>)
    requires
        trie.wf(),
        term@.len() + max_dist <= 65533,
    ensures
        node_views(out@) == limited(
            strip(trie.scan(term@, max_dist as nat, only_terminals, Seq::empty(), trie.child_list(0))),
            node_limit,
        ),
{
    let term_chars = chars_of(term);
    let l = term_chars.len();
    let md = max_dist as u16;
    let mut row0: Vec<u16> = Vec::new();
    let mut j: usize = 0;
    while j <= l
        invariant
            l == term_chars@.len(),
            l <= 65533,
            j <= l + 1,
            row0@.len() == j,
            forall|q: int| 0 <= q < j ==> row0@[q] == lev(Seq::<char>::empty(), term_chars@.take(q)),
        decreases l + 1 - j,
    {
        row0.push(j as u16);
        j += 1;
    }
    let mut out: Vec<NodeMatch> = Vec::new();
    assert(node_views(out@) =~= Seq::<(usize, nat)>::empty());
    let _ = walk_nodes(
        trie,
        0,
        0,
        &term_chars,
        md,
        &row0,
        Ghost(Seq::empty()),
        &mut out,
        only_terminals,
        node_limit,
    );
    assert(Seq::<(usize, nat)>::empty() + strip(
        trie.scan(term@, max_dist as nat, only_terminals, Seq::empty(), trie.child_list(0)),
    ) =~= strip(trie.scan(term@, max_dist as nat, only_terminals, Seq::empty(), trie.child_list(0))));
    out
}

/// Every hit of a search is a node within `md` of `t` with its true edit
/// distance, terminal when only terminal nodes are asked for, and reached
/// through labels that extend `path` and end with the node's own label.
pub proof fn lemma_scan_sound(tr: &Trie, t: Seq<char>, md: nat, ot: bool, path: Seq<char>, kids: Seq<usize>)
    ensures
        forall|i: int|
            0 <= i < tr.scan(t, md, ot, path, kids).len() ==> {
                let h = #[trigger] tr.scan(t, md, ot, path, kids)[i];
                &&& h.2 == lev(h.1, t)
                &&& h.2 <= md
                &&& ot ==> tr.terminals@[h.0 as int]
                &&& h.1.len() > path.len()
                &&& h.1.take(path.len() as int) == path
                &&& h.1.last() == tr.child_labels@[h.0 as int]
            },
    decreases t.len() + md + 1 - path.len(), kids.len(),
{
    if kids.len() > 0 {
        let pre = kids.drop_last();
        let c = kids.last();
        let a = tr.scan(t, md, ot, path, pre);
        let v = tr.visit(t, md, ot, path, c);
        lemma_scan_sound(tr, t, md, ot, path, pre);
        let ch = tr.child_labels@[c as int];
        let p = path.push(ch);
        assert(p.take(path.len() as int) =~= path);
        if ch != '\0' && best(p, t) <= md && p.len() <= t.len() + md {
            let d = lev(p, t);
            let here: Seq<(usize, Seq<char>, nat)> = if d <= md && (!ot || tr.terminals@[c as int]) {
                seq![(c, p, d)]
            } else {
                Seq::empty()
            };
            let sub = tr.scan(t, md, ot, p, tr.child_list(c as int));
            lemma_scan_sound(tr, t, md, ot, p, tr.child_list(c as int));
            assert(v == here + sub);
            assert forall|i: int| 0 <= i < v.len() implies {
                let h = #[trigger] v[i];
                &&& h.2 == lev(h.1, t)
                &&& h.2 <= md
                &&& ot ==> tr.terminals@[h.0 as int]
                &&& h.1.len() > path.len()
                &&& h.1.take(path.len() as int) == path
                &&& h.1.last() == tr.child_labels@[h.0 as int]
            } by {
                if i >= here.len() {
                    let h = sub[i - here.len()];
                    assert(h == v[i]);
                    assert(h.1.take(path.len() as int) =~= h.1.take(p.len() as int).take(path.len() as int));
                }
            }
        } else {
            assert(v =~= Seq::<(usize, Seq<char>, nat)>::empty());
        }
        assert(tr.scan(t, md, ot, path, kids) == a + v);
        assert forall|i: int| 0 <= i < tr.scan(t, md, ot, path, kids).len() implies {
            let h = #[trigger] tr.scan(t, md, ot, path, kids)[i];
            &&& h.2 == lev(h.1, t)
            &&& h.2 <= md
            &&& ot ==> tr.terminals@[h.0 as int]
            &&& h.1.len() > path.len()
            &&& h.1.take(path.len() as int) == path
            &&& h.1.last() == tr.child_labels@[h.0 as int]
        } by {
            if i < a.len() {
                assert(tr.scan(t, md, ot, path, kids)[i] == a[i]);
            } else {
                assert(tr.scan(t, md, ot, path, kids)[i] == v[i - a.len()]);
            }
        }
    }
}

/// Extending a path never lowers its best distance to a prefix of `t`.
pub proof fn lemma_best_extend(q: Seq<char>, s: Seq<char>, t: Seq<char>)
    ensures
        best(q, t) <= best(q + s, t),
    decreases s.len(),
{
    if s.len() > 0 {
        lemma_best_extend(q, s.drop_last(), t);
        assert(q + s =~= (q + s.drop_last()).push(s.last()));
        lemma_best_grows(q + s.drop_last(), s.last(), t);
    }
}

/// The hits for each child appear in the hits of the whole child list.
proof fn lemma_scan_has_visit(
    tr: &Trie,
    t: Seq<char>,
    md: nat,
    ot: bool,
    path: Seq<char>,
    kids: Seq<usize>,
    i: int,
    x: (usize, Seq<char>, nat),
)
    requires
        0 <= i < kids.len(),
        tr.visit(t, md, ot, path, kids[i]).contains(x),
    ensures
        tr.scan(t, md, ot, path, kids).contains(x),
{
    let f = tr.scan(t, md, ot, path, kids);
    let a = tr.scan(t, md, ot, path, kids.take(i));
    let v = tr.visit(t, md, ot, path, kids[i]);
    assert(kids.take(i + 1).drop_last() =~= kids.take(i));
    assert(tr.scan(t, md, ot, path, kids.take(i + 1)) == a + v);
    lemma_scan_take(tr, t, md, ot, path, kids, i + 1);
    let q = choose|q: int| 0 <= q < v.len() && v[q] == x;
    assert((a + v)[a.len() + q] == x);
    assert(f[a.len() + q] == x);
}

/// Every node reached from below `from` through labels spelling `word`, whose
/// extended path lies within `md` of `t` (and that is terminal when only
/// terminal nodes are asked for), is a hit of the search below `from`.
pub proof fn lemma_scan_complete(
    tr: &Trie,
    t: Seq<char>,
    md: nat,
    ot: bool,
    path: Seq<char>,
    from: int,
    nodes: Seq<usize>,
    word: Seq<char>,
)
    requires
        tr.spells(from, nodes, word),
        lev(path + word, t) <= md,
        ot ==> tr.terminals@[nodes.last() as int],
    ensures
        tr.scan(t, md, ot, path, tr.child_list(from)).contains(
            (nodes.last(), path + word, lev(path + word, t)),
        ),
    decreases nodes.len(),
{
    let kids = tr.child_list(from);
    let c = nodes[0];
    let i = choose|i: int| 0 <= i < kids.len() && kids[i] == c;
    let ch = tr.child_labels@[c as int];
    assert(ch == word[0]);
    let p = path.push(ch);
    let rest = word.drop_first();
    assert(p + rest =~= path + word);
    lemma_best_extend(p, rest, t);
    lemma_best_le_lev(path + word, t);
    lemma_best_len(p, t, md);
    let target = (nodes.last(), path + word, lev(path + word, t));
    let v = tr.visit(t, md, ot, path, c);
    let sub = tr.scan(t, md, ot, p, tr.child_list(c as int));
    if nodes.len() == 1 {
        assert(rest.len() == 0);
        assert(p =~= path + word);
        assert(v[0] == target);
    } else {
        let nodes2 = nodes.drop_first();
        assert(tr.child_list(nodes[0] as int).contains(nodes[1]));
        assert forall|j: int| 0 <= j < nodes2.len() - 1 implies tr.child_list(
            #[trigger] nodes2[j] as int,
        ).contains(nodes2[j + 1]) by {
            assert(nodes2[j] == nodes[j + 1] && nodes2[j + 1] == nodes[j + 2]);
        }
        assert forall|j: int| 0 <= j < nodes2.len() implies #[trigger] tr.child_labels@[nodes2[j] as int]
            == rest[j] && rest[j] != '\0' by {
            assert(nodes2[j] == nodes[j + 1] && rest[j] == word[j + 1]);
        }
        assert(tr.spells(c as int, nodes2, rest));
        assert(nodes2.last() == nodes.last());
        lemma_scan_complete(tr, t, md, ot, p, c as int, nodes2, rest);
        let here: Seq<(usize, Seq<char>, nat)> = if lev(p, t) <= md && (!ot || tr.terminals@[c as int]) {
            seq![(c, p, lev(p, t))]
        } else {
            Seq::empty()
        };
        assert(v == here + sub);
        let q = choose|q: int| 0 <= q < sub.len() && sub[q] == target;
        assert(v[here.len() + q] == target);
    }
    lemma_scan_has_visit(tr, t, md, ot, path, kids, i, target);
}

/// On a well-formed trie, every hit below nodes that exist is a node with a
/// label.
pub proof fn lemma_scan_in_range(tr: &Trie, t: Seq<char>, md: nat, ot: bool, path: Seq<char>, kids: Seq<usize>)
    requires
        tr.wf(),
        forall|k: int| 0 <= k < kids.len() ==> #[trigger] kids[k] < tr.child_labels@.len() && kids[k]
            < tr.node_shifts@.len(),
    ensures
        forall|i: int|
            0 <= i < tr.scan(t, md, ot, path, kids).len() ==> (#[trigger] tr.scan(
                t,
                md,
                ot,
                path,
                kids,
            )[i]).0 < tr.child_labels@.len() && tr.scan(t, md, ot, path, kids)[i].0 < tr.node_shifts@.len(),
    decreases t.len() + md + 1 - path.len(), kids.len(),
{
    if kids.len() > 0 {
        let pre = kids.drop_last();
        let c = kids.last();
        let a = tr.scan(t, md, ot, path, pre);
        let v = tr.visit(t, md, ot, path, c);
        assert(kids[kids.len() - 1] == c);
        lemma_scan_in_range(tr, t, md, ot, path, pre);
        let ch = tr.child_labels@[c as int];
        let p = path.push(ch);
        if ch != '\0' && best(p, t) <= md && p.len() <= t.len() + md {
            let d = lev(p, t);
            let here: Seq<(usize, Seq<char>, nat)> = if d <= md && (!ot || tr.terminals@[c as int]) {
                seq![(c, p, d)]
            } else {
                Seq::empty()
            };
            let cl = tr.child_list(c as int);
            assert(tr.node_ok(c as int));
            assert forall|k: int| 0 <= k < cl.len() implies #[trigger] cl[k] < tr.child_labels@.len()
                && cl[k] < tr.node_shifts@.len() by {
                assert(tr.child_list(c as int)[k] < tr.child_labels@.len());
            }
            lemma_scan_in_range(tr, t, md, ot, p, cl);
            let sub = tr.scan(t, md, ot, p, cl);
            assert(v == here + sub);
            assert forall|i: int| 0 <= i < v.len() implies (#[trigger] v[i]).0 < tr.child_labels@.len() && v[i].0 < tr.node_shifts@.len() by {
                if i >= here.len() {
                    assert(v[i] == sub[i - here.len()]);
                }
            }
        } else {
            assert(v =~= Seq::<(usize, Seq<char>, nat)>::empty());
        }
        assert(tr.scan(t, md, ot, path, kids) == a + v);
        assert forall|i: int| 0 <= i < tr.scan(t, md, ot, path, kids).len() implies (
        #[trigger] tr.scan(t, md, ot, path, kids)[i]).0 < tr.child_labels@.len() && tr.scan(t, md, ot, path, kids)[i].0
        < tr.node_shifts@.len() by {
            if i < a.len() {
                assert(tr.scan(t, md, ot, path, kids)[i] == a[i]);
            } else {
                assert(tr.scan(t, md, ot, path, kids)[i] == v[i - a.len()]);
            }
        }
    }
}

impl Trie {
    /// Whether the trie is well formed for searching (see `wf`).
    pub fn is_wf(&self) -> (b: bool)
        ensures
            b == self.wf(),
    {
        let ns = self.node_shifts.len();
        if ns == 0 {
            return false;
        }
        let mut v: usize = 0;
        while v < ns
            invariant
                ns == self.node_shifts@.len(),
                ns > 0,
                v <= ns,
                forall|u: int| 0 <= u < v ==> #[trigger] self.node_ok(u),
            decreases ns - v,
        {
            let r = self.children_range(v);
            if r.start < r.end && r.end > self.child_transitions.len() {
                assert(!self.range_ok(v as int));
                assert(!self.node_ok(v as int));
                return false;
            }
            let mut i = r.start;
            while i < r.end
                invariant
                    v < ns,
                    ns == self.node_shifts@.len(),
                    r.start == self.range_start(v as int),
                    r.end == self.range_end(v as int),
                    self.range_ok(v as int),
                    r.start <= i <= r.end || (i == r.start && r.start >= r.end),
                    forall|u: int| 0 <= u < v ==> #[trigger] self.node_ok(u),
                    forall|k: int|
                        0 <= k < i - r.start ==> {
                            &&& #[trigger] self.child_list(v as int)[k] < self.child_labels@.len()
                            &&& self.child_list(v as int)[k] < self.terminals@.len()
                            &&& self.child_list(v as int)[k] < self.node_shifts@.len()
                        },
                decreases r.end - i,
            {
                let c = self.child_transitions[i] as usize;
                assert(self.child_list(v as int)[i - r.start] == c);
                if c >= self.child_labels.len() || c >= self.terminals.len() || c >= ns {
                    proof {
                        let k = i - r.start;
                        if self.node_ok(v as int) {
                            assert(self.child_list(v as int)[k] < self.child_labels@.len());
                        }
                        assert(!self.node_ok(v as int));
                    }
                    return false;
                }
                i += 1;
            }
            assert forall|k: int| 0 <= k < self.child_list(v as int).len() implies {
                &&& #[trigger] self.child_list(v as int)[k] < self.child_labels@.len()
                &&& self.child_list(v as int)[k] < self.terminals@.len()
                &&& self.child_list(v as int)[k] < self.node_shifts@.len()
            } by {
                assert(k < i - r.start);
            }
            assert(self.node_ok(v as int));
            v += 1;
        }
        true
    }
}

/// A limited result list is the start of the unlimited one, and holds at most
/// `max(limit, 1)` results when a limit is given.
pub proof fn lemma_limited_is_start<A>(s: Seq<A>, limit: Option<usize>)
    ensures
        prefix_of(limited(s, limit), s),
        limit is Some ==> limited(s, limit).len() <= cap(limit),
        limit is None ==> limited(s, limit) == s,
{
    assert(s.take(s.len() as int) =~= s);
}

/// Searching nodes with only terminal nodes asked for finds the same nodes,
/// with the same distances and in the same order, as `fuzzy_match` under the
/// same limit.
pub proof fn lemma_nodes_agree(tr: &Trie, t: Seq<char>, md: nat, limit: Option<usize>)
    ensures
        strip(limited(tr.scan(t, md, true, Seq::empty(), tr.child_list(0)), limit)) == limited(
            strip(tr.scan(t, md, true, Seq::empty(), tr.child_list(0))),
            limit,
        ),
{
    let s = tr.scan(t, md, true, Seq::empty(), tr.child_list(0));
    if hits_cap(s.len() as int, limit) {
        assert(strip(s.take(cap(limit))) =~= strip(s).take(cap(limit)));
    }
}

/// Whether a hit is a terminal node of `tr`.
pub open spec fn terminal_hit(tr: &Trie) -> spec_fn((usize, Seq<char>, nat)) -> bool {
    |h: (usize, Seq<char>, nat)| tr.terminals@[h.0 as int]
}

/// Whether a hit lies within distance `d`.
pub open spec fn hit_within(d: nat) -> spec_fn((usize, Seq<char>, nat)) -> bool {
    |h: (usize, Seq<char>, nat)| h.2 <= d
}

/// Whether a (node, distance) result is a terminal node of `tr`.
pub open spec fn terminal_node(tr: &Trie) -> spec_fn((usize, nat)) -> bool {
    |h: (usize, nat)| tr.terminals@[h.0 as int]
}

/// Whether a (node, distance) result lies within distance `d`.
pub open spec fn node_within(d: nat) -> spec_fn((usize, nat)) -> bool {
    |h: (usize, nat)| h.1 <= d
}

proof fn lemma_filter_empty<A>(pred: spec_fn(A) -> bool)
    ensures
        Seq::<A>::empty().filter(pred) == Seq::<A>::empty(),
{
    reveal(Seq::filter);
}

proof fn lemma_filter_one<A>(x: A, pred: spec_fn(A) -> bool)
    ensures
        seq![x].filter(pred) == if pred(x) {
            seq![x]
        } else {
            Seq::<A>::empty()
        },
{
    reveal_with_fuel(Seq::filter, 2);
    assert(seq![x].drop_last() =~= Seq::<A>::empty());
}

proof fn lemma_filter_none<A>(s: Seq<A>, pred: spec_fn(A) -> bool)
    requires
        forall|i: int| 0 <= i < s.len() ==> !pred(#[trigger] s[i]),
    ensures
        s.filter(pred) == Seq::<A>::empty(),
    decreases s.len(),
{
    reveal(Seq::filter);
    if s.len() > 0 {
        let pre = s.drop_last();
        assert forall|i: int| 0 <= i < pre.len() implies !pred(#[trigger] pre[i]) by {
            assert(pre[i] == s[i]);
        }
        lemma_filter_none(pre, pred);
        assert(!pred(s[s.len() - 1]));
    }
}

/// Filtering commutes with dropping the prefix, for predicates that read
/// only the node and the distance.
proof fn lemma_strip_filter(
    s: Seq<(usize, Seq<char>, nat)>,
    pf: spec_fn((usize, Seq<char>, nat)) -> bool,
    ps: spec_fn((usize, nat)) -> bool,
)
    requires
        forall|h: (usize, Seq<char>, nat)| #[trigger] pf(h) == ps((h.0, h.2)),
    ensures
        strip(s.filter(pf)) == strip(s).filter(ps),
    decreases s.len(),
{
    reveal(Seq::filter);
    if s.len() > 0 {
        let pre = s.drop_last();
        lemma_strip_filter(pre, pf, ps);
        assert(strip(s).drop_last() =~= strip(pre));
        assert(strip(s).last() == (s.last().0, s.last().2));
        assert(pf(s.last()) == ps((s.last().0, s.last().2)));
        if pf(s.last()) {
            assert(strip(pre.filter(pf).push(s.last())) =~= strip(pre.filter(pf)).push(
                (s.last().0, s.last().2),
            ));
        }
    }
}

/// Asking for terminal nodes only keeps the terminal hits of the full search,
/// in the same order: the terminal flag filters hits and never the walk.
pub proof fn lemma_terminal_filter(tr: &Trie, t: Seq<char>, md: nat, path: Seq<char>, kids: Seq<usize>)
    ensures
        tr.scan(t, md, true, path, kids) == tr.scan(t, md, false, path, kids).filter(terminal_hit(tr)),
    decreases t.len() + md + 1 - path.len(), kids.len(),
{
    let f = terminal_hit(tr);
    if kids.len() == 0 {
        lemma_filter_empty(f);
    } else {
        let pre = kids.drop_last();
        let c = kids.last();
        lemma_terminal_filter(tr, t, md, path, pre);
        let a = tr.scan(t, md, false, path, pre);
        let v = tr.visit(t, md, false, path, c);
        Seq::filter_distributes_over_add(a, v, f);
        let ch = tr.child_labels@[c as int];
        let p = path.push(ch);
        if ch != '\0' && best(p, t) <= md && p.len() <= t.len() + md {
            let d = lev(p, t);
            let here_f: Seq<(usize, Seq<char>, nat)> = if d <= md {
                seq![(c, p, d)]
            } else {
                Seq::empty()
            };
            let sub = tr.scan(t, md, false, p, tr.child_list(c as int));
            lemma_terminal_filter(tr, t, md, p, tr.child_list(c as int));
            Seq::filter_distributes_over_add(here_f, sub, f);
            let here_t: Seq<(usize, Seq<char>, nat)> = if d <= md && tr.terminals@[c as int] {
                seq![(c, p, d)]
            } else {
                Seq::empty()
            };
            if d <= md {
                lemma_filter_one((c, p, d), f);
                assert(f((c, p, d)) == tr.terminals@[c as int]);
            } else {
                lemma_filter_empty(f);
            }
            assert(here_f.filter(f) == here_t);
            assert(v == here_f + sub);
            assert(tr.visit(t, md, true, path, c) == here_t + tr.scan(t, md, true, p, tr.child_list(c as int)));
            assert(v.filter(f) == tr.visit(t, md, true, path, c));
        } else {
            lemma_filter_empty(f);
            assert(v == Seq::<(usize, Seq<char>, nat)>::empty());
            assert(tr.visit(t, md, true, path, c) == Seq::<(usize, Seq<char>, nat)>::empty());
        }
        assert(tr.scan(t, md, true, path, kids) == tr.scan(t, md, true, path, pre) + tr.visit(t, md, true, path, c));
        assert(tr.scan(t, md, false, path, kids) == a + v);
    }
}

/// Searching within a smaller distance finds exactly the hits of a search
/// within a larger distance whose distance is within the smaller one, in the
/// same order: a larger distance only adds matches.
pub proof fn lemma_distance_monotone(
    tr: &Trie,
    t: Seq<char>,
    d1: nat,
    d2: nat,
    ot: bool,
    path: Seq<char>,
    kids: Seq<usize>,
)
    requires
        d1 <= d2,
    ensures
        tr.scan(t, d1, ot, path, kids) == tr.scan(t, d2, ot, path, kids).filter(hit_within(d1)),
    decreases t.len() + d2 + 1 - path.len(), kids.len(),
{
    let f = hit_within(d1);
    if kids.len() == 0 {
        lemma_filter_empty(f);
    } else {
        let pre = kids.drop_last();
        let c = kids.last();
        lemma_distance_monotone(tr, t, d1, d2, ot, path, pre);
        let a = tr.scan(t, d2, ot, path, pre);
        let v2 = tr.visit(t, d2, ot, path, c);
        Seq::filter_distributes_over_add(a, v2, f);
        let ch = tr.child_labels@[c as int];
        let p = path.push(ch);
        let d = lev(p, t);
        if ch != '\0' && best(p, t) <= d2 && p.len() <= t.len() + d2 {
            let here2: Seq<(usize, Seq<char>, nat)> = if d <= d2 && (!ot || tr.terminals@[c as int]) {
                seq![(c, p, d)]
            } else {
                Seq::empty()
            };
            let kc = tr.child_list(c as int);
            let sub2 = tr.scan(t, d2, ot, p, kc);
            assert(v2 == here2 + sub2);
            Seq::filter_distributes_over_add(here2, sub2, f);
            if d <= d2 && (!ot || tr.terminals@[c as int]) {
                lemma_filter_one((c, p, d), f);
            } else {
                lemma_filter_empty(f);
            }
            if best(p, t) <= d1 && p.len() <= t.len() + d1 {
                lemma_distance_monotone(tr, t, d1, d2, ot, p, kc);
                let here1: Seq<(usize, Seq<char>, nat)> = if d <= d1 && (!ot || tr.terminals@[c as int]) {
                    seq![(c, p, d)]
                } else {
                    Seq::empty()
                };
                assert(f((c, p, d)) == (d <= d1));
                assert(here2.filter(f) == here1);
                assert(tr.visit(t, d1, ot, path, c) == here1 + tr.scan(t, d1, ot, p, kc));
                assert(v2.filter(f) == tr.visit(t, d1, ot, path, c));
            } else {
                assert(tr.visit(t, d1, ot, path, c) == Seq::<(usize, Seq<char>, nat)>::empty());
                // every hit at or below `c` lies farther than `d1`
                lemma_best_le_lev(p, t);
                lemma_lev_bounds(p, t);
                lemma_scan_sound(tr, t, d2, ot, p, kc);
                assert forall|i: int| 0 <= i < v2.len() implies !f(#[trigger] v2[i]) by {
                    if i >= here2.len() {
                        let h = sub2[i - here2.len()];
                        assert(v2[i] == h);
                        let rest = h.1.skip(p.len() as int);
                        assert(h.1 =~= p + rest);
                        lemma_best_extend(p, rest, t);
                        lemma_best_le_lev(h.1, t);
                        lemma_lev_bounds(h.1, t);
                    }
                }
                lemma_filter_none(v2, f);
            }
        } else {
            lemma_filter_empty(f);
            assert(v2 == Seq::<(usize, Seq<char>, nat)>::empty());
            assert(tr.visit(t, d1, ot, path, c) == Seq::<(usize, Seq<char>, nat)>::empty());
        }
        assert(tr.scan(t, d1, ot, path, kids) == tr.scan(t, d1, ot, path, pre) + tr.visit(t, d1, ot, path, c));
        assert(tr.scan(t, d2, ot, path, kids) == a + v2);
    }
}

/// A node search within a smaller distance, without a limit, gives exactly
/// the results of one within a larger distance whose distance is within the
/// smaller one, in the same order.
pub proof fn lemma_nodes_distance_monotone(tr: &Trie, t: Seq<char>, d1: nat, d2: nat, ot: bool)
    requires
        d1 <= d2,
    ensures
        strip(tr.scan(t, d1, ot, Seq::empty(), tr.child_list(0))) == strip(
            tr.scan(t, d2, ot, Seq::empty(), tr.child_list(0)),
        ).filter(node_within(d1)),
{
    lemma_distance_monotone(tr, t, d1, d2, ot, Seq::empty(), tr.child_list(0));
    lemma_strip_filter(tr.scan(t, d2, ot, Seq::empty(), tr.child_list(0)), hit_within(d1), node_within(d1));
}

/// A node search for terminal nodes only, without a limit, gives exactly the
/// terminal results of the search for all nodes, in the same order.
pub proof fn lemma_nodes_terminal_filter(tr: &Trie, t: Seq<char>, md: nat)
    ensures
        strip(tr.scan(t, md, true, Seq::empty(), tr.child_list(0))) == strip(
            tr.scan(t, md, false, Seq::empty(), tr.child_list(0)),
        ).filter(terminal_node(tr)),
{
    lemma_terminal_filter(tr, t, md, Seq::empty(), tr.child_list(0));
    lemma_strip_filter(tr.scan(t, md, false, Seq::empty(), tr.child_list(0)), terminal_hit(tr), terminal_node(tr));
}

/// The edit distance is zero exactly between equal character sequences:
/// characters are compared exactly, with no folding of any kind.
pub proof fn lemma_lev_zero(a: Seq<char>, b: Seq<char>)
    ensures
        lev(a, b) == 0 <==> a == b,
    decreases a.len() + b.len(),
{
    if a.len() == 0 || b.len() == 0 {
        if a.len() == 0 && b.len() == 0 {
            assert(a =~= b);
        }
    } else {
        let a1 = a.drop_last();
        let b1 = b.drop_last();
        lemma_lev_zero(a1, b1);
        assert(a =~= a1.push(a.last()));
        assert(b =~= b1.push(b.last()));
        if a == b {
            assert(a1 =~= b1);
            assert(a.last() == b.last());
        }
        if lev(a, b) == 0 {
            assert(lev(a1, b1) == 0 && a.last() == b.last());
            assert(a1 == b1);
            assert(a =~= b);
        }
    }
}

/// Between single characters the edit distance is 0 when they are the same
/// character and 1 otherwise.
pub proof fn lemma_lev_one(x: char, y: char)
    ensures
        lev(seq![x], seq![y]) == if x == y {
            0nat
        } else {
            1nat
        },
{
    let a = seq![x];
    let b = seq![y];
    assert(a.drop_last() =~= Seq::<char>::empty());
    assert(b.drop_last() =~= Seq::<char>::empty());
    assert(lev(a, b.drop_last()) == 1);
    assert(lev(a.drop_last(), b) == 1);
    assert(lev(a.drop_last(), b.drop_last()) == 0);
}

/// The distance from or to the empty sequence is the other sequence's length.
pub proof fn lemma_lev_empty(a: Seq<char>)
    ensures
        lev(a, Seq::empty()) == a.len(),
        lev(Seq::empty(), a) == a.len(),
{
}

/// The distance does not depend on the direction.
pub proof fn lemma_lev_symmetric(a: Seq<char>, b: Seq<char>)
    ensures
        lev(a, b) == lev(b, a),
    decreases a.len() + b.len(),
{
    if a.len() > 0 && b.len() > 0 {
        lemma_lev_symmetric(a, b.drop_last());
        lemma_lev_symmetric(a.drop_last(), b);
        lemma_lev_symmetric(a.drop_last(), b.drop_last());
    }
}

/// The number of positions at which two sequences of the same length differ.
pub open spec fn mismatches(a: Seq<char>, b: Seq<char>) -> nat
    decreases a.len(),
{
    if a.len() == 0 {
        0
    } else {
        mismatches(a.drop_last(), b.take(a.len() - 1)) + if a.last() == b[a.len() - 1] {
            0nat
        } else {
            1nat
        }
    }
}

/// Between sequences of the same length, the distance is at most the number
/// of positions where they differ (replacing each differing character).
pub proof fn lemma_lev_le_mismatches(a: Seq<char>, b: Seq<char>)
    requires
        a.len() == b.len(),
    ensures
        lev(a, b) <= mismatches(a, b),
    decreases a.len(),
{
    if a.len() > 0 {
        let b1 = b.take(a.len() - 1);
        assert(b.drop_last() =~= b1);
        lemma_lev_le_mismatches(a.drop_last(), b1);
        assert(b.last() == b[a.len() - 1]);
    }
}

} // verus!
