//! The directly-follows graph and the aggregation of decrypted pairs.
//!
//! The key holder decrypts the candidate pairs, drops every pair that
//! contains the `BOTTOM` sentinel, and counts the survivors per directed
//! edge.  The graph is built canonically: edges are enumerated in index
//! order, so the result depends only on how often each pair survived —
//! not on the order in which pairs arrived.  Node counts are recomputed
//! from edge counts: each activity counts the larger of its incoming and
//! outgoing edge frequencies, which makes the start and end markers count
//! the number of non-empty cases.

use vstd::prelude::*;
use vstd::multiset::Multiset;

use crate::alphabet::ActivityTable;

verus! {

/// One activity node of the graph.
pub struct DfgNode {
    pub label: String,
    pub count: u64,
}

/// One directed edge of the graph with its frequency.
pub struct DfgEdge {
    pub from: String,
    pub to: String,
    pub freq: u64,
}

/// The directly-follows graph.
pub struct Dfg {
    pub nodes: Vec<DfgNode>,
    pub edges: Vec<DfgEdge>,
}

impl Dfg {
    /// The nodes as plain values.
    pub open spec fn nodes_view(self) -> Seq<(Seq<char>, u64)> {
        self.nodes@.map(|_k: int, n: DfgNode| (n.label@, n.count))
    }

    /// The edges as plain values.
    pub open spec fn edges_view(self) -> Seq<(Seq<char>, Seq<char>, u64)> {
        self.edges@.map(|_k: int, e: DfgEdge| (e.from@, e.to@, e.freq))
    }
}

/// A decrypted pair survives when neither component is the sentinel.
pub open spec fn keep(p: (u16, u16), bot: u16) -> bool {
    p.0 != bot && p.1 != bot
}

/// How often a surviving pair occurs in a sequence of decrypted pairs.
pub open spec fn pair_count(s: Seq<(u16, u16)>, bot: u16, p: (u16, u16)) -> nat
    decreases s.len(),
{
    if s.len() == 0 {
        0
    } else {
        pair_count(s.drop_last(), bot, p) + (if s.last() == p && keep(s.last(), bot) {
            1nat
        } else {
            0nat
        })
    }
}

/// No pair can survive more often than there are pairs.
pub proof fn lemma_pair_count_le_len(s: Seq<(u16, u16)>, bot: u16, p: (u16, u16))
    ensures
        pair_count(s, bot, p) <= s.len(),
    decreases s.len(),
{
    if s.len() > 0 {
        lemma_pair_count_le_len(s.drop_last(), bot, p);
    }
}

/// Surviving occurrences split over a concatenation.
pub proof fn lemma_pair_count_add(a: Seq<(u16, u16)>, b: Seq<(u16, u16)>, bot: u16, p: (u16, u16))
    ensures
        pair_count(a + b, bot, p) == pair_count(a, bot, p) + pair_count(b, bot, p),
    decreases b.len(),
{
    if b.len() == 0 {
        assert(a + b =~= a);
    } else {
        lemma_pair_count_add(a, b.drop_last(), bot, p);
        assert((a + b).drop_last() =~= a + b.drop_last());
        assert((a + b).last() == b.last());
    }
}

/// Surviving occurrences are the multiset count, and a pair holding the
/// sentinel never survives.
pub proof fn lemma_pair_count_ms(s: Seq<(u16, u16)>, bot: u16, p: (u16, u16))
    ensures
        keep(p, bot) ==> pair_count(s, bot, p) == s.to_multiset().count(p),
        !keep(p, bot) ==> pair_count(s, bot, p) == 0,
    decreases s.len(),
{
    broadcast use vstd::seq_lib::group_to_multiset_ensures;

    if s.len() == 0 {
        assert(s.to_multiset() =~= Multiset::empty());
    } else {
        lemma_pair_count_ms(s.drop_last(), bot, p);
        assert(s =~= s.drop_last().push(s.last()));
        assert(s.drop_last().push(s.last()).to_multiset() =~= s.drop_last().to_multiset().insert(
            s.last(),
        ));
    }
}

/// The summed frequency of edges into `v` from the sources below `k`.
pub open spec fn in_sum(s: Seq<(u16, u16)>, bot: u16, v: u16, k: int) -> nat
    decreases k,
{
    if k <= 0 {
        0
    } else {
        in_sum(s, bot, v, k - 1) + pair_count(s, bot, ((k - 1) as u16, v))
    }
}

/// The summed frequency of edges out of `v` into the sinks below `k`.
pub open spec fn out_sum(s: Seq<(u16, u16)>, bot: u16, v: u16, k: int) -> nat
    decreases k,
{
    if k <= 0 {
        0
    } else {
        out_sum(s, bot, v, k - 1) + pair_count(s, bot, (v, (k - 1) as u16))
    }
}

/// Appending one pair raises the incoming sum of `v` by at most one.
proof fn lemma_in_sum_last(s: Seq<(u16, u16)>, bot: u16, v: u16, k: int)
    requires
        s.len() >= 1,
        k <= 0x10000,
    ensures
        in_sum(s.drop_last(), bot, v, k) <= in_sum(s, bot, v, k) <= in_sum(
            s.drop_last(),
            bot,
            v,
            k,
        ) + 1,
    decreases k,
{
    if k > 0 {
        lemma_in_sum_last(s, bot, v, k - 1);
        if k >= 2 {
            // at most one of the addends can grow: the one matching the
            // appended pair's source
            let p1 = ((k - 1) as u16, v);
            if s.last() == p1 && keep(s.last(), bot) {
                assert forall|k2: int| 0 < k2 < k implies in_sum(s, bot, v, k2) == in_sum(
                    s.drop_last(),
                    bot,
                    v,
                    k2,
                ) by {
                    lemma_in_sum_frozen(s, bot, v, k2, (k - 1) as u16);
                }
            }
        }
    }
}

/// If the appended pair's source is not below `k`, the partial incoming
/// sum does not change.
proof fn lemma_in_sum_frozen(s: Seq<(u16, u16)>, bot: u16, v: u16, k: int, u0: u16)
    requires
        s.len() >= 1,
        s.last() == (u0, v) || !(s.last().1 == v),
        k <= u0 as int,
    ensures
        in_sum(s, bot, v, k) == in_sum(s.drop_last(), bot, v, k),
    decreases k,
{
    if k > 0 {
        lemma_in_sum_frozen(s, bot, v, k - 1, u0);
    }
}

/// The incoming sum never exceeds the number of pairs.
pub proof fn lemma_in_sum_le_len(s: Seq<(u16, u16)>, bot: u16, v: u16, k: int)
    requires
        k <= 0x10000,
    ensures
        in_sum(s, bot, v, k) <= s.len(),
    decreases s.len(),
{
    if s.len() == 0 {
        lemma_in_sum_zero(s, bot, v, k);
    } else {
        lemma_in_sum_le_len(s.drop_last(), bot, v, k);
        lemma_in_sum_last(s, bot, v, k);
    }
}

/// The incoming sum of an empty sequence is zero.
proof fn lemma_in_sum_zero(s: Seq<(u16, u16)>, bot: u16, v: u16, k: int)
    requires
        s.len() == 0,
    ensures
        in_sum(s, bot, v, k) == 0,
    decreases k,
{
    if k > 0 {
        lemma_in_sum_zero(s, bot, v, k - 1);
    }
}

/// Appending one pair raises the outgoing sum of `v` by at most one.
proof fn lemma_out_sum_last(s: Seq<(u16, u16)>, bot: u16, v: u16, k: int)
    requires
        s.len() >= 1,
        k <= 0x10000,
    ensures
        out_sum(s.drop_last(), bot, v, k) <= out_sum(s, bot, v, k) <= out_sum(
            s.drop_last(),
            bot,
            v,
            k,
        ) + 1,
    decreases k,
{
    if k > 0 {
        lemma_out_sum_last(s, bot, v, k - 1);
        if k >= 2 {
            let p1 = (v, (k - 1) as u16);
            if s.last() == p1 && keep(s.last(), bot) {
                assert forall|k2: int| 0 < k2 < k implies out_sum(s, bot, v, k2) == out_sum(
                    s.drop_last(),
                    bot,
                    v,
                    k2,
                ) by {
                    lemma_out_sum_frozen(s, bot, v, k2, (k - 1) as u16);
                }
            }
        }
    }
}

/// If the appended pair's sink is not below `k`, the partial outgoing
/// sum does not change.
proof fn lemma_out_sum_frozen(s: Seq<(u16, u16)>, bot: u16, v: u16, k: int, w0: u16)
    requires
        s.len() >= 1,
        s.last() == (v, w0) || !(s.last().0 == v),
        k <= w0 as int,
    ensures
        out_sum(s, bot, v, k) == out_sum(s.drop_last(), bot, v, k),
    decreases k,
{
    if k > 0 {
        lemma_out_sum_frozen(s, bot, v, k - 1, w0);
    }
}

/// The outgoing sum never exceeds the number of pairs.
pub proof fn lemma_out_sum_le_len(s: Seq<(u16, u16)>, bot: u16, v: u16, k: int)
    requires
        k <= 0x10000,
    ensures
        out_sum(s, bot, v, k) <= s.len(),
    decreases s.len(),
{
    if s.len() == 0 {
        lemma_out_sum_zero(s, bot, v, k);
    } else {
        lemma_out_sum_le_len(s.drop_last(), bot, v, k);
        lemma_out_sum_last(s, bot, v, k);
    }
}

/// The outgoing sum of an empty sequence is zero.
proof fn lemma_out_sum_zero(s: Seq<(u16, u16)>, bot: u16, v: u16, k: int)
    requires
        s.len() == 0,
    ensures
        out_sum(s, bot, v, k) == 0,
    decreases k,
{
    if k > 0 {
        lemma_out_sum_zero(s, bot, v, k - 1);
    }
}

/// The count of one node: the larger of its summed incoming and outgoing
/// edge frequencies over the whole index range `n`.
pub open spec fn node_count(s: Seq<(u16, u16)>, bot: u16, v: u16, n: int) -> nat {
    if in_sum(s, bot, v, n) >= out_sum(s, bot, v, n) {
        in_sum(s, bot, v, n)
    } else {
        out_sum(s, bot, v, n)
    }
}

/// The canonical edge list of one source `u`: the sinks below `k`, in
/// index order, with their surviving frequency, zero frequencies left
/// out.
pub open spec fn agg_row(s: Seq<(u16, u16)>, bot: u16, u: int, k: int) -> Seq<((u16, u16), u64)>
    decreases k,
{
    if k <= 0 {
        Seq::empty()
    } else {
        let pre = agg_row(s, bot, u, k - 1);
        let c = pair_count(s, bot, (u as u16, (k - 1) as u16));
        if c > 0 {
            pre.push(((u as u16, (k - 1) as u16), c as u64))
        } else {
            pre
        }
    }
}

/// The canonical edge list over the sources below `k`.
pub open spec fn agg_all(s: Seq<(u16, u16)>, bot: u16, n: int, k: int) -> Seq<((u16, u16), u64)>
    decreases k,
{
    if k <= 0 {
        Seq::empty()
    } else {
        agg_all(s, bot, n, k - 1) + agg_row(s, bot, k - 1, n)
    }
}

/// The canonical node list of a table: every label except the sentinel,
/// in index order, with its recomputed count.
pub open spec fn nodes_spec(t: ActivityTable, s: Seq<(u16, u16)>, k: int) -> Seq<(Seq<char>, u64)>
    decreases k,
{
    if k <= 0 {
        Seq::empty()
    } else {
        let pre = nodes_spec(t, s, k - 1);
        if k - 1 == t.bot_spec() as int {
            pre
        } else {
            pre.push((t.labels@[k - 1]@, node_count(s, bot_of(t), (k - 1) as u16, t.labels@.len() as int) as u64))
        }
    }
}

/// The sentinel index of a table.
pub open spec fn bot_of(t: ActivityTable) -> u16 {
    t.bot_spec()
}

/// The canonical edge view of a table and a sequence of decrypted pairs.
pub open spec fn edges_view_spec(t: ActivityTable, s: Seq<(u16, u16)>) -> Seq<
    (Seq<char>, Seq<char>, u64),
> {
    agg_all(s, bot_of(t), t.labels@.len() as int, t.labels@.len() as int).map(
        |_k: int, e: ((u16, u16), u64)| (t.labels@[e.0.0 as int]@, t.labels@[e.0.1 as int]@, e.1),
    )
}

/// The canonical node view of a table and a sequence of decrypted pairs.
pub open spec fn nodes_view_spec(t: ActivityTable, s: Seq<(u16, u16)>) -> Seq<(Seq<char>, u64)> {
    nodes_spec(t, s, t.labels@.len() as int)
}

/// Counts how often one surviving pair occurs among the decrypted pairs.
fn count_pair(pairs: &Vec<(u16, u16)>, bot: u16, u: u16, v: u16) -> (r: u64)
    ensures
        r == pair_count(pairs@, bot, (u, v)),
{
    let mut r: u64 = 0;
    let mut t: usize = 0;
    while t < pairs.len()
        invariant
            0 <= t <= pairs@.len(),
            r == pair_count(pairs@.take(t as int), bot, (u, v)),
        decreases pairs@.len() - t,
    {
        proof {
            assert(pairs@.take(t as int + 1).drop_last() =~= pairs@.take(t as int));
            assert(pairs@.take(t as int + 1).last() == pairs@[t as int]);
            lemma_pair_count_le_len(pairs@.take(t as int), bot, (u, v));
        }
        let p = pairs[t];
        if p.0 == u && p.1 == v && p.0 != bot && p.1 != bot {
            r = r + 1;
        }
        t = t + 1;
    }
    proof {
        assert(pairs@.take(pairs@.len() as int) =~= pairs@);
    }
    r
}

/// Builds the directly-follows graph from the decrypted pairs: pairs
/// holding the sentinel are dropped, the surviving frequencies are
/// counted per edge in index order, and node counts are recomputed from
/// the edge frequencies.
pub fn build_dfg(table: &ActivityTable, pairs: &Vec<(u16, u16)>) -> (r: Dfg)
    requires
        table.wf(),
    ensures
        r.edges_view() == edges_view_spec(*table, pairs@),
        r.nodes_view() == nodes_view_spec(*table, pairs@),
{
    let bot = table.bot();
    let n = table.len();
    let ghost nn = table.labels@.len() as int;
    let mut agg: Vec<((u16, u16), u64)> = Vec::new();
    let mut u: usize = 0;
    while u < n
        invariant
            0 <= u <= n,
            n == table.labels@.len(),
            table.wf(),
            bot == bot_of(*table),
            agg@ == agg_all(pairs@, bot, n as int, u as int),
        decreases n - u,
    {
        let mut v: usize = 0;
        while v < n
            invariant
                0 <= v <= n,
                u < n,
                n == table.labels@.len(),
                table.wf(),
                bot == bot_of(*table),
                agg@ == agg_all(pairs@, bot, n as int, u as int) + agg_row(
                    pairs@,
                    bot,
                    u as int,
                    v as int,
                ),
            decreases n - v,
        {
            let c = count_pair(pairs, bot, u as u16, v as u16);
            if c > 0 {
                agg.push(((u as u16, v as u16), c));
            }
            assert(agg@ =~= agg_all(pairs@, bot, n as int, u as int) + agg_row(
                pairs@,
                bot,
                u as int,
                v as int + 1,
            ));
            v = v + 1;
        }
        assert(agg@ =~= agg_all(pairs@, bot, n as int, u as int + 1));
        u = u + 1;
    }

    proof {
        lemma_agg_all_bounds(pairs@, bot, nn, nn);
    }
    let mut edges: Vec<DfgEdge> = Vec::new();
    let mut e: usize = 0;
    while e < agg.len()
        invariant
            0 <= e <= agg@.len(),
            table.wf(),
            agg@ == agg_all(pairs@, bot, nn, nn),
            n == table.labels@.len(),
            nn == table.labels@.len(),
            forall|x: int|
                0 <= x < agg@.len() ==> ((#[trigger] agg@[x]).0.0 as int) < nn && (agg@[x].0.1
                    as int) < nn,
            edges@.len() == e,
            forall|x: int|
                0 <= x < e ==> (#[trigger] edges@[x]).from@ == table.labels@[agg@[x].0.0 as int]@
                    && edges@[x].to@ == table.labels@[agg@[x].0.1 as int]@ && edges@[x].freq
                    == agg@[x].1,
        decreases agg@.len() - e,
    {
        let entry = agg[e];
        assert((entry.0.0 as int) < nn && (entry.0.1 as int) < nn);
        let from = table.label_at(entry.0 .0);
        let to = table.label_at(entry.0 .1);
        edges.push(DfgEdge { from, to, freq: entry.1 });
        e = e + 1;
    }

    let mut nodes: Vec<DfgNode> = Vec::new();
    let npairs = pairs.len();
    let mut p: usize = 0;
    while p < n
        invariant
            0 <= p <= n,
            n == table.labels@.len(),
            table.wf(),
            bot == bot_of(*table),
            npairs == pairs@.len(),
            nodes@.map(|_k: int, nd: DfgNode| (nd.label@, nd.count)) == nodes_spec(
                *table,
                pairs@,
                p as int,
            ),
        decreases n - p,
    {
        if p as u16 != bot {
            let mut si: u64 = 0;
            let mut k: usize = 0;
            while k < n
                invariant
                    0 <= k <= n,
                    p < n,
                    n == table.labels@.len(),
                    table.wf(),
                    pairs@.len() <= usize::MAX,
                    si == in_sum(pairs@, bot, p as u16, k as int),
                decreases n - k,
            {
                proof {
                    lemma_in_sum_le_len(pairs@, bot, p as u16, k as int + 1);
                    lemma_pair_count_le_len(pairs@, bot, (k as u16, p as u16));
                }
                let c = count_pair(pairs, bot, k as u16, p as u16);
                proof {
                    lemma_in_sum_le_len(pairs@, bot, p as u16, k as int);
                    assert(in_sum(pairs@, bot, p as u16, k as int + 1) == in_sum(
                        pairs@,
                        bot,
                        p as u16,
                        k as int,
                    ) + pair_count(pairs@, bot, (k as u16, p as u16)));
                }
                si = si + c;
                k = k + 1;
            }
            let mut so: u64 = 0;
            let mut k2: usize = 0;
            while k2 < n
                invariant
                    0 <= k2 <= n,
                    p < n,
                    n == table.labels@.len(),
                    table.wf(),
                    pairs@.len() <= usize::MAX,
                    so == out_sum(pairs@, bot, p as u16, k2 as int),
                decreases n - k2,
            {
                proof {
                    lemma_out_sum_le_len(pairs@, bot, p as u16, k2 as int + 1);
                    lemma_pair_count_le_len(pairs@, bot, (p as u16, k2 as u16));
                    lemma_out_sum_le_len(pairs@, bot, p as u16, k2 as int);
                }
                let c = count_pair(pairs, bot, p as u16, k2 as u16);
                so = so + c;
                k2 = k2 + 1;
            }
            proof {
                lemma_in_sum_le_len(pairs@, bot, p as u16, n as int);
                lemma_out_sum_le_len(pairs@, bot, p as u16, n as int);
            }
            let cnt = if si >= so {
                si
            } else {
                so
            };
            assert(cnt == node_count(pairs@, bot, p as u16, n as int) as u64);
            let label = table.label_at(p as u16);
            nodes.push(DfgNode { label, count: cnt });
            assert(nodes@.map(|_k: int, nd: DfgNode| (nd.label@, nd.count)) =~= nodes_spec(
                *table,
                pairs@,
                p as int + 1,
            ));
        } else {
            assert(nodes@.map(|_k: int, nd: DfgNode| (nd.label@, nd.count)) =~= nodes_spec(
                *table,
                pairs@,
                p as int + 1,
            ));
        }
        p = p + 1;
    }

    let r = Dfg { nodes, edges };
    proof {
        assert(r.edges_view() =~= edges_view_spec(*table, pairs@)) by {
            lemma_agg_all_bounds(pairs@, bot, nn, nn);
        }
        assert(r.nodes_view() =~= nodes_view_spec(*table, pairs@));
    }
    r
}

/// Every canonical edge entry stays inside the index range.
proof fn lemma_agg_all_bounds(s: Seq<(u16, u16)>, bot: u16, n: int, k: int)
    requires
        k <= n <= 0x10000,
    ensures
        forall|x: int|
            0 <= x < agg_all(s, bot, n, k).len() ==> ((#[trigger] agg_all(s, bot, n, k)[x]).0.0
                as int) < n && (agg_all(s, bot, n, k)[x].0.1 as int) < n,
    decreases k,
{
    if k > 0 {
        lemma_agg_all_bounds(s, bot, n, k - 1);
        lemma_agg_row_bounds(s, bot, k - 1, n);
        let pre = agg_all(s, bot, n, k - 1);
        let row = agg_row(s, bot, k - 1, n);
        let cur = agg_all(s, bot, n, k);
        assert forall|x: int|
            0 <= x < cur.len() implies ((#[trigger] cur[x]).0.0 as int) < n && (cur[x].0.1
            as int) < n by {
            if x < pre.len() {
                assert(cur[x] == pre[x]);
            } else {
                assert(cur[x] == row[x - pre.len()]);
            }
        }
    }
}

/// Every entry of a canonical edge row stays inside the index range.
proof fn lemma_agg_row_bounds(s: Seq<(u16, u16)>, bot: u16, u: int, k: int)
    requires
        0 <= u <= 0xffff,
        k <= 0x10000,
    ensures
        forall|x: int|
            0 <= x < agg_row(s, bot, u, k).len() ==> ((#[trigger] agg_row(s, bot, u, k)[x]).0.0
                as int) == u && (agg_row(s, bot, u, k)[x].0.1 as int) < k,
    decreases k,
{
    if k > 0 {
        lemma_agg_row_bounds(s, bot, u, k - 1);
        let pre = agg_row(s, bot, u, k - 1);
        let cur = agg_row(s, bot, u, k);
        assert forall|x: int|
            0 <= x < cur.len() implies ((#[trigger] cur[x]).0.0 as int) == u && (cur[x].0.1
            as int) < k by {
            if x < pre.len() {
                assert(cur[x] == pre[x]);
            } else {
                assert(cur[x] == cur.last());
            }
        }
    }
}

/// The canonical edge rows depend only on the surviving counts.
proof fn lemma_agg_row_congruent(
    s1: Seq<(u16, u16)>,
    s2: Seq<(u16, u16)>,
    bot: u16,
    u: int,
    k: int,
)
    requires
        forall|p: (u16, u16)| pair_count(s1, bot, p) == pair_count(s2, bot, p),
    ensures
        agg_row(s1, bot, u, k) == agg_row(s2, bot, u, k),
    decreases k,
{
    if k > 0 {
        lemma_agg_row_congruent(s1, s2, bot, u, k - 1);
    }
}

/// The canonical edge list depends only on the surviving counts.
proof fn lemma_agg_all_congruent(
    s1: Seq<(u16, u16)>,
    s2: Seq<(u16, u16)>,
    bot: u16,
    n: int,
    k: int,
)
    requires
        forall|p: (u16, u16)| pair_count(s1, bot, p) == pair_count(s2, bot, p),
    ensures
        agg_all(s1, bot, n, k) == agg_all(s2, bot, n, k),
    decreases k,
{
    if k > 0 {
        lemma_agg_all_congruent(s1, s2, bot, n, k - 1);
        lemma_agg_row_congruent(s1, s2, bot, k - 1, n);
    }
}

/// The incoming and outgoing sums depend only on the surviving counts.
proof fn lemma_sums_congruent(s1: Seq<(u16, u16)>, s2: Seq<(u16, u16)>, bot: u16, v: u16, k: int)
    requires
        forall|p: (u16, u16)| pair_count(s1, bot, p) == pair_count(s2, bot, p),
    ensures
        in_sum(s1, bot, v, k) == in_sum(s2, bot, v, k),
        out_sum(s1, bot, v, k) == out_sum(s2, bot, v, k),
    decreases k,
{
    if k > 0 {
        lemma_sums_congruent(s1, s2, bot, v, k - 1);
    }
}

/// The canonical node list depends only on the surviving counts.
proof fn lemma_nodes_congruent(t: ActivityTable, s1: Seq<(u16, u16)>, s2: Seq<(u16, u16)>, k: int)
    requires
        forall|p: (u16, u16)| pair_count(s1, bot_of(t), p) == pair_count(s2, bot_of(t), p),
    ensures
        nodes_spec(t, s1, k) == nodes_spec(t, s2, k),
    decreases k,
{
    if k > 0 {
        lemma_nodes_congruent(t, s1, s2, k - 1);
        lemma_sums_congruent(s1, s2, bot_of(t), (k - 1) as u16, t.labels@.len() as int);
    }
}

/// The whole graph depends only on how often each pair survives: two
/// pair sequences with the same surviving counts yield the same node
/// and edge views.
pub proof fn lemma_views_determined(t: ActivityTable, s1: Seq<(u16, u16)>, s2: Seq<(u16, u16)>)
    requires
        forall|p: (u16, u16)| pair_count(s1, bot_of(t), p) == pair_count(s2, bot_of(t), p),
    ensures
        edges_view_spec(t, s1) == edges_view_spec(t, s2),
        nodes_view_spec(t, s1) == nodes_view_spec(t, s2),
{
    lemma_agg_all_congruent(s1, s2, bot_of(t), t.labels@.len() as int, t.labels@.len() as int);
    lemma_nodes_congruent(t, s1, s2, t.labels@.len() as int);
}

} // verus!
