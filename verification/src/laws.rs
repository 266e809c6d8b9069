//! The library's laws, stated and proved over the protocol model.
//!
//! Each public proof function below states one property of the
//! computation: correctness against the plaintext baseline, independence
//! from the window split, commutativity of the aggregation, the
//! empty-side chain, the survivor count, and the soundness of the
//! activity sanitisation.  The executable `discover_plain` function runs
//! the whole pipeline on plain values and carries the baseline theorem
//! as its contract.

use vstd::prelude::*;
use vstd::multiset::Multiset;

use crate::alphabet::ActivityTable;
use crate::dfg::Dfg;
use crate::dfg::bot_of;
use crate::dfg::build_dfg;
use crate::dfg::edges_view_spec;
use crate::dfg::nodes_view_spec;
use crate::dfg::lemma_views_determined;
use crate::model::Ev;
use crate::model::adj_pairs;
use crate::model::case_edges;
use crate::model::merged;
use crate::model::sorted_ts;
use crate::org::sanitized;
use crate::pipeline::PlainCase;
use crate::pipeline::all_case_pairs;
use crate::pipeline::case_survivors_ms;
use crate::pipeline::cases_edges_ms;
use crate::pipeline::kept_ms;
use crate::pipeline::lemma_case_survivors_edges;
use crate::pipeline::lemma_cases_survivors_edges;
use crate::pipeline::lemma_kept_ms_count;
use crate::pipeline::lemma_kept_ms_same;

verus! {

/// Runs the whole discovery pipeline on plain (already decrypted)
/// cases: plan generation, kernel evaluation in windows, filtering and
/// aggregation.
///
/// Correctness against the plaintext baseline: the resulting graph is
/// exactly what aggregating the directly-follows edges of the merged,
/// timestamp-sorted cases yields — any pair sequence whose surviving
/// pairs are those edges produces these very node and edge views.  The
/// window size does not appear in the contract: any `window_size >= 1`
/// produces the identical graph.
pub fn discover_plain(table: &ActivityTable, cases: &Vec<PlainCase>, window_size: usize) -> (r:
    Dfg)
    requires
        table.wf(),
        window_size >= 1,
        forall|c: int|
            0 <= c < cases@.len() ==> (#[trigger] cases@[c]).wf(table.bot_spec()),
        forall|c: int| 0 <= c < cases@.len() ==> (#[trigger] cases@[c]).sorted(),
    ensures
        forall|s: Seq<(u16, u16)>|
            kept_ms(s, table.bot_spec()) == cases_edges_ms(
                cases@,
                table.start_spec(),
                table.end_spec(),
                cases@.len() as int,
            ) ==> r.edges_view() == edges_view_spec(*table, s) && r.nodes_view()
                == nodes_view_spec(*table, s),
{
    let bot = table.bot();
    let start = table.start_idx();
    let end = table.end_idx();
    let pairs = all_case_pairs(cases, bot, start, end, window_size);
    let r = build_dfg(table, &pairs);
    proof {
        lemma_cases_survivors_edges(cases@, start, end, cases@.len() as int);
        assert forall|s: Seq<(u16, u16)>|
            kept_ms(s, table.bot_spec()) == cases_edges_ms(
                cases@,
                table.start_spec(),
                table.end_spec(),
                cases@.len() as int,
            ) implies r.edges_view() == edges_view_spec(*table, s) && r.nodes_view()
            == nodes_view_spec(*table, s) by {
            assert forall|p: (u16, u16)| true implies crate::dfg::pair_count(
                pairs@,
                bot_of(*table),
                p,
            ) == crate::dfg::pair_count(s, bot_of(*table), p) by {
                lemma_kept_ms_count(pairs@, bot, p);
                lemma_kept_ms_count(s, bot, p);
                assert(kept_ms(pairs@, bot) =~= kept_ms(s, bot));
            }
            lemma_views_determined(*table, pairs@, s);
        }
    }
    r
}

/// Window-size independence: the graph is a function of how often each
/// pair survives, so any two evaluations that produce the same
/// surviving pairs — regardless of how they were split into windows —
/// yield the identical graph.
pub proof fn lemma_window_independent(t: ActivityTable, s1: Seq<(u16, u16)>, s2: Seq<(u16, u16)>)
    requires
        kept_ms(s1, t.bot_spec()) == kept_ms(s2, t.bot_spec()),
    ensures
        edges_view_spec(t, s1) == edges_view_spec(t, s2),
        nodes_view_spec(t, s1) == nodes_view_spec(t, s2),
{
    assert forall|p: (u16, u16)| true implies crate::dfg::pair_count(s1, bot_of(t), p)
        == crate::dfg::pair_count(s2, bot_of(t), p) by {
        lemma_kept_ms_count(s1, t.bot_spec(), p);
        lemma_kept_ms_count(s2, t.bot_spec(), p);
    }
    lemma_views_determined(t, s1, s2);
}

/// Commutativity of the aggregation: shuffling the decrypted pairs —
/// within a window or across all of them — leaves the graph identical,
/// because a permutation keeps every pair's multiplicity.
pub proof fn lemma_aggregation_commutes(t: ActivityTable, s1: Seq<(u16, u16)>, s2: Seq<(u16, u16)>)
    requires
        s1.to_multiset() == s2.to_multiset(),
    ensures
        edges_view_spec(t, s1) == edges_view_spec(t, s2),
        nodes_view_spec(t, s1) == nodes_view_spec(t, s2),
{
    lemma_kept_ms_same(s1, s2, t.bot_spec());
    lemma_window_independent(t, s1, s2);
}

/// Empty-side handling: when one party has no events for a case, the
/// surviving pairs are exactly the straight chain over the other
/// party's trace, from the start marker through every adjacent pair to
/// the end marker.
pub proof fn lemma_empty_side(f: Seq<Ev>, o: Seq<Ev>, start: u16, end: u16)
    requires
        sorted_ts(f),
        sorted_ts(o),
    ensures
        o.len() == 0 ==> case_survivors_ms(f, o, start, end) == case_edges(f, start, end),
        f.len() == 0 ==> case_survivors_ms(f, o, start, end) == case_edges(o, start, end),
{
    lemma_case_survivors_edges(f, o, start, end);
    if o.len() == 0 {
        assert(merged(f, o) == f);
    }
    if f.len() == 0 {
        assert(merged(f, o) == o);
    }
}

/// The adjacent pairs of a trace number one less than its events.
proof fn lemma_adj_pairs_len(m: Seq<Ev>)
    ensures
        adj_pairs(m).len() == if m.len() < 2 {
            0int
        } else {
            m.len() - 1
        },
    decreases m.len(),
{
    if m.len() >= 2 {
        lemma_adj_pairs_len(m.drop_first());
    }
}

/// Sentinel masking: after filtering, a non-empty case keeps exactly
/// `F + O + 1` pairs — every masked candidate is gone, every true edge
/// survives exactly once.  An empty case keeps nothing.
pub proof fn lemma_survivor_count(f: Seq<Ev>, o: Seq<Ev>, start: u16, end: u16)
    requires
        sorted_ts(f),
        sorted_ts(o),
    ensures
        f.len() + o.len() > 0 ==> case_survivors_ms(f, o, start, end).len() == f.len() + o.len()
            + 1,
        f.len() + o.len() == 0 ==> case_survivors_ms(f, o, start, end).len() == 0,
{
    lemma_case_survivors_edges(f, o, start, end);
    crate::model::lemma_merged_basic(f, o);
    let m = merged(f, o);
    lemma_adj_pairs_len(m);
    if m.len() > 0 {
        assert(case_edges(m, start, end).len() == adj_pairs(m).len() + 2);
    }
}

/// Sanitisation soundness: a sanitised activity value never equals the
/// drop sentinel — an injected out-of-range index becomes the start
/// marker, a well-formed index passes unchanged — so sanitisation never
/// causes an edge of the case to be dropped.
pub proof fn lemma_sanitise_sound(v: u16, bot: u16, start: u16)
    requires
        start != bot,
    ensures
        sanitized(v, bot, start) != bot,
        v < bot ==> sanitized(v, bot, start) == v,
        v >= bot ==> sanitized(v, bot, start) == start,
{
}

/// Two traces carry the same events: equal timestamps, and activity
/// indices that are in range and denote the same label in the
/// respective tables.
pub open spec fn same_events(t1: ActivityTable, t2: ActivityTable, s1: Seq<Ev>, s2: Seq<Ev>) -> bool {
    &&& s1.len() == s2.len()
    &&& forall|i: int|
        0 <= i < s1.len() ==> (#[trigger] s1[i]).ts == (#[trigger] s2[i]).ts && (s1[i].act as int)
            < t1.labels@.len() && (s2[i].act as int) < t2.labels@.len() && t1.labels@[s1[i].act as int]@
            == t2.labels@[s2[i].act as int]@
}

/// Merging preserves the event correspondence.
proof fn lemma_merged_same(
    t1: ActivityTable,
    t2: ActivityTable,
    f1: Seq<Ev>,
    o1: Seq<Ev>,
    f2: Seq<Ev>,
    o2: Seq<Ev>,
)
    requires
        same_events(t1, t2, f1, f2),
        same_events(t1, t2, o1, o2),
    ensures
        same_events(t1, t2, merged(f1, o1), merged(f2, o2)),
    decreases f1.len() + o1.len(),
{
    if f1.len() == 0 || o1.len() == 0 {
    } else {
        let m1 = merged(f1, o1);
        let m2 = merged(f2, o2);
        assert(f1.first().ts == f2.first().ts);
        assert(o1.first().ts == o2.first().ts);
        if f1.first().ts <= o1.first().ts {
            assert(same_events(t1, t2, f1.drop_first(), f2.drop_first())) by {
                assert forall|i: int|
                    0 <= i < f1.drop_first().len() implies (#[trigger] f1.drop_first()[i]).ts == (
                #[trigger] f2.drop_first()[i]).ts && (f1.drop_first()[i].act as int)
                    < t1.labels@.len() && (f2.drop_first()[i].act as int) < t2.labels@.len()
                    && t1.labels@[f1.drop_first()[i].act as int]@ == t2.labels@[f2.drop_first()[i].act as int]@ by {
                    assert(f1.drop_first()[i] == f1[i + 1]);
                    assert(f2.drop_first()[i] == f2[i + 1]);
                }
            }
            lemma_merged_same(t1, t2, f1.drop_first(), o1, f2.drop_first(), o2);
            assert(m1 == seq![f1.first()] + merged(f1.drop_first(), o1));
            assert(m2 == seq![f2.first()] + merged(f2.drop_first(), o2));
            assert forall|i: int|
                0 <= i < m1.len() implies (#[trigger] m1[i]).ts == (#[trigger] m2[i]).ts && (
            m1[i].act as int) < t1.labels@.len() && (m2[i].act as int) < t2.labels@.len()
                && t1.labels@[m1[i].act as int]@ == t2.labels@[m2[i].act as int]@ by {
                if i == 0 {
                } else {
                    assert(m1[i] == merged(f1.drop_first(), o1)[i - 1]);
                    assert(m2[i] == merged(f2.drop_first(), o2)[i - 1]);
                }
            }
        } else {
            assert(same_events(t1, t2, o1.drop_first(), o2.drop_first())) by {
                assert forall|i: int|
                    0 <= i < o1.drop_first().len() implies (#[trigger] o1.drop_first()[i]).ts == (
                #[trigger] o2.drop_first()[i]).ts && (o1.drop_first()[i].act as int)
                    < t1.labels@.len() && (o2.drop_first()[i].act as int) < t2.labels@.len()
                    && t1.labels@[o1.drop_first()[i].act as int]@ == t2.labels@[o2.drop_first()[i].act as int]@ by {
                    assert(o1.drop_first()[i] == o1[i + 1]);
                    assert(o2.drop_first()[i] == o2[i + 1]);
                }
            }
            lemma_merged_same(t1, t2, f1, o1.drop_first(), f2, o2.drop_first());
            assert(m1 == seq![o1.first()] + merged(f1, o1.drop_first()));
            assert(m2 == seq![o2.first()] + merged(f2, o2.drop_first()));
            assert forall|i: int|
                0 <= i < m1.len() implies (#[trigger] m1[i]).ts == (#[trigger] m2[i]).ts && (
            m1[i].act as int) < t1.labels@.len() && (m2[i].act as int) < t2.labels@.len()
                && t1.labels@[m1[i].act as int]@ == t2.labels@[m2[i].act as int]@ by {
                if i == 0 {
                } else {
                    assert(m1[i] == merged(f1, o1.drop_first())[i - 1]);
                    assert(m2[i] == merged(f2, o2.drop_first())[i - 1]);
                }
            }
        }
    }
}

/// An in-range activity index is the table position of a held label
/// exactly when its label is that label.
proof fn lemma_act_is_pos(t: ActivityTable, a: u16, l: Seq<char>)
    requires
        t.wf(),
        (a as int) < t.labels@.len(),
        t.has(l),
    ensures
        (a as int == t.pos_of(l)) <==> (t.labels@[a as int]@ == l),
{
    if t.labels@[a as int]@ == l {
        t.lemma_pos_of(l, a as int);
    } else {
        let j = t.pos_of(l);
        assert(0 <= j < t.labels@.len() && t.labels@[j]@ == l);
    }
}

/// Corresponding traces have the same adjacency count for every pair of
/// labels.
proof fn lemma_adj_count_same(
    t1: ActivityTable,
    t2: ActivityTable,
    m1: Seq<Ev>,
    m2: Seq<Ev>,
    lu: Seq<char>,
    lv: Seq<char>,
)
    requires
        t1.wf(),
        t2.wf(),
        t1.has(lu),
        t1.has(lv),
        t2.has(lu),
        t2.has(lv),
        same_events(t1, t2, m1, m2),
    ensures
        adj_pairs(m1).count((t1.pos_of(lu) as u16, t1.pos_of(lv) as u16)) == adj_pairs(m2).count(
            (t2.pos_of(lu) as u16, t2.pos_of(lv) as u16),
        ),
    decreases m1.len(),
{
    let p1 = (t1.pos_of(lu) as u16, t1.pos_of(lv) as u16);
    let p2 = (t2.pos_of(lu) as u16, t2.pos_of(lv) as u16);
    if m1.len() < 2 {
        assert(adj_pairs(m1) =~= Multiset::<(u16, u16)>::empty());
        assert(adj_pairs(m2) =~= Multiset::<(u16, u16)>::empty());
    } else {
        assert(same_events(t1, t2, m1.drop_first(), m2.drop_first())) by {
            assert forall|i: int|
                0 <= i < m1.drop_first().len() implies (#[trigger] m1.drop_first()[i]).ts == (
            #[trigger] m2.drop_first()[i]).ts && (m1.drop_first()[i].act as int)
                < t1.labels@.len() && (m2.drop_first()[i].act as int) < t2.labels@.len()
                && t1.labels@[m1.drop_first()[i].act as int]@ == t2.labels@[m2.drop_first()[i].act as int]@ by {
                assert(m1.drop_first()[i] == m1[i + 1]);
                assert(m2.drop_first()[i] == m2[i + 1]);
            }
        }
        lemma_adj_count_same(t1, t2, m1.drop_first(), m2.drop_first(), lu, lv);
        let h1 = (m1[0].act, m1[1].act);
        let h2 = (m2[0].act, m2[1].act);
        assert((h1 == p1) <==> (h2 == p2)) by {
            lemma_act_is_pos(t1, m1[0].act, lu);
            lemma_act_is_pos(t1, m1[1].act, lv);
            lemma_act_is_pos(t2, m2[0].act, lu);
            lemma_act_is_pos(t2, m2[1].act, lv);
            assert(t1.labels@[m1[0].act as int]@ == t2.labels@[m2[0].act as int]@);
            assert(t1.labels@[m1[1].act as int]@ == t2.labels@[m2[1].act as int]@);
        }
        assert(adj_pairs(m1) == adj_pairs(m1.drop_first()).insert(h1));
        assert(adj_pairs(m2) == adj_pairs(m2.drop_first()).insert(h2));
    }
}

/// Alphabet independence: encoding the same events under two agreed
/// tables that hold the same labels — in any order — yields, for every
/// pair of labels, the same directly-follows frequency of a case.  The
/// graph's frequencies are exactly these counts, so permuting the
/// activity-index assignment does not change the labelled graph.
pub proof fn lemma_alphabet_independent(
    t1: ActivityTable,
    t2: ActivityTable,
    f1: Seq<Ev>,
    o1: Seq<Ev>,
    f2: Seq<Ev>,
    o2: Seq<Ev>,
    lu: Seq<char>,
    lv: Seq<char>,
)
    requires
        t1.wf(),
        t2.wf(),
        t1.has(lu),
        t1.has(lv),
        t2.has(lu),
        t2.has(lv),
        same_events(t1, t2, f1, f2),
        same_events(t1, t2, o1, o2),
    ensures
        case_edges(merged(f1, o1), t1.start_spec(), t1.end_spec()).count(
            (t1.pos_of(lu) as u16, t1.pos_of(lv) as u16),
        ) == case_edges(merged(f2, o2), t2.start_spec(), t2.end_spec()).count(
            (t2.pos_of(lu) as u16, t2.pos_of(lv) as u16),
        ),
{
    lemma_merged_same(t1, t2, f1, o1, f2, o2);
    let m1 = merged(f1, o1);
    let m2 = merged(f2, o2);
    lemma_adj_count_same(t1, t2, m1, m2, lu, lv);
    let p1 = (t1.pos_of(lu) as u16, t1.pos_of(lv) as u16);
    let p2 = (t2.pos_of(lu) as u16, t2.pos_of(lv) as u16);
    if m1.len() == 0 {
        assert(m2.len() == 0);
    } else {
        let s1 = (t1.start_spec(), m1[0].act);
        let s2 = (t2.start_spec(), m2[0].act);
        let e1 = (m1.last().act, t1.end_spec());
        let e2 = (m2.last().act, t2.end_spec());
        assert((s1 == p1) <==> (s2 == p2)) by {
            lemma_start_is_pos(t1, lu);
            lemma_start_is_pos(t2, lu);
            lemma_act_is_pos(t1, m1[0].act, lv);
            lemma_act_is_pos(t2, m2[0].act, lv);
        }
        assert((e1 == p1) <==> (e2 == p2)) by {
            lemma_end_is_pos(t1, lv);
            lemma_end_is_pos(t2, lv);
            lemma_act_is_pos(t1, m1.last().act, lu);
            lemma_act_is_pos(t2, m2.last().act, lu);
            assert(m1.last() == m1[m1.len() - 1]);
            assert(m2.last() == m2[m2.len() - 1]);
        }
        assert(case_edges(m1, t1.start_spec(), t1.end_spec()) == adj_pairs(m1).insert(s1).insert(
            e1,
        ));
        assert(case_edges(m2, t2.start_spec(), t2.end_spec()) == adj_pairs(m2).insert(s2).insert(
            e2,
        ));
    }
}

/// The start index is the position of the start label.
proof fn lemma_start_is_pos(t: ActivityTable, l: Seq<char>)
    requires
        t.wf(),
        t.has(l),
    ensures
        (t.start_spec() as int == t.pos_of(l)) <==> (l == "start"@),
{
    t.lemma_pos_of("start"@, t.labels@.len() - 2);
    if l == "start"@ {
    } else {
        let j = t.pos_of(l);
        assert(0 <= j < t.labels@.len() && t.labels@[j]@ == l);
        if j == t.labels@.len() - 2 {
            assert(l == "start"@);
        }
    }
}

/// The end index is the position of the end label.
proof fn lemma_end_is_pos(t: ActivityTable, l: Seq<char>)
    requires
        t.wf(),
        t.has(l),
    ensures
        (t.end_spec() as int == t.pos_of(l)) <==> (l == "end"@),
{
    t.lemma_pos_of("end"@, t.labels@.len() - 1);
    if l == "end"@ {
    } else {
        let j = t.pos_of(l);
        assert(0 <= j < t.labels@.len() && t.labels@[j]@ == l);
        if j == t.labels@.len() - 1 {
            assert(l == "end"@);
        }
    }
}

/// The entries of one canonical edge row never carry the sentinel: a
/// pair with a sentinel component never survives the filter, so its
/// count is zero and no entry is made.
proof fn lemma_agg_row_clean(s: Seq<(u16, u16)>, bot: u16, u: int, k: int)
    requires
        0 <= u <= 0xffff,
        k <= 0x10000,
    ensures
        forall|x: int|
            0 <= x < crate::dfg::agg_row(s, bot, u, k).len() ==> ((#[trigger] crate::dfg::agg_row(
                s,
                bot,
                u,
                k,
            )[x]).0.0 as int) == u && (crate::dfg::agg_row(s, bot, u, k)[x].0.1 as int) < k
                && crate::dfg::agg_row(s, bot, u, k)[x].0.0 != bot && crate::dfg::agg_row(
                s,
                bot,
                u,
                k,
            )[x].0.1 != bot,
    decreases k,
{
    if k > 0 {
        lemma_agg_row_clean(s, bot, u, k - 1);
        let pre = crate::dfg::agg_row(s, bot, u, k - 1);
        let cur = crate::dfg::agg_row(s, bot, u, k);
        let p = (u as u16, (k - 1) as u16);
        crate::dfg::lemma_pair_count_ms(s, bot, p);
        assert forall|x: int|
            0 <= x < cur.len() implies ((#[trigger] cur[x]).0.0 as int) == u && (cur[x].0.1
            as int) < k && cur[x].0.0 != bot && cur[x].0.1 != bot by {
            if x < pre.len() {
                assert(cur[x] == pre[x]);
            } else {
                assert(cur[x] == cur.last());
                assert(crate::dfg::pair_count(s, bot, p) > 0);
                assert(crate::dfg::keep(p, bot));
            }
        }
    }
}

/// No entry of the canonical edge list carries the sentinel.
proof fn lemma_agg_all_clean(s: Seq<(u16, u16)>, bot: u16, n: int, k: int)
    requires
        k <= n <= 0x10000,
    ensures
        forall|x: int|
            0 <= x < crate::dfg::agg_all(s, bot, n, k).len() ==> ((#[trigger] crate::dfg::agg_all(
                s,
                bot,
                n,
                k,
            )[x]).0.0 as int) < n && (crate::dfg::agg_all(s, bot, n, k)[x].0.1 as int) < n
                && crate::dfg::agg_all(s, bot, n, k)[x].0.0 != bot && crate::dfg::agg_all(
                s,
                bot,
                n,
                k,
            )[x].0.1 != bot,
    decreases k,
{
    if k > 0 {
        lemma_agg_all_clean(s, bot, n, k - 1);
        lemma_agg_row_clean(s, bot, k - 1, n);
        let pre = crate::dfg::agg_all(s, bot, n, k - 1);
        let row = crate::dfg::agg_row(s, bot, k - 1, n);
        let cur = crate::dfg::agg_all(s, bot, n, k);
        assert forall|x: int|
            0 <= x < cur.len() implies ((#[trigger] cur[x]).0.0 as int) < n && (cur[x].0.1
            as int) < n && cur[x].0.0 != bot && cur[x].0.1 != bot by {
            if x < pre.len() {
                assert(cur[x] == pre[x]);
            } else {
                assert(cur[x] == row[x - pre.len()]);
            }
        }
    }
}

/// No entry of the canonical node list is the sentinel's label.
proof fn lemma_nodes_clean(t: ActivityTable, s: Seq<(u16, u16)>, k: int)
    requires
        t.wf(),
        k <= t.labels@.len(),
    ensures
        forall|x: int|
            0 <= x < crate::dfg::nodes_spec(t, s, k).len() ==> (#[trigger] crate::dfg::nodes_spec(
                t,
                s,
                k,
            )[x]).0 != "bottom"@,
    decreases k,
{
    if k > 0 {
        lemma_nodes_clean(t, s, k - 1);
        let pre = crate::dfg::nodes_spec(t, s, k - 1);
        let cur = crate::dfg::nodes_spec(t, s, k);
        assert forall|x: int|
            0 <= x < cur.len() implies (#[trigger] cur[x]).0 != "bottom"@ by {
            if x < pre.len() {
                assert(cur[x] == pre[x]);
            } else {
                assert(k - 1 != t.bot_spec() as int);
                assert(cur[x].0 == t.labels@[k - 1]@);
                assert(t.labels@[t.labels@.len() - 3]@ == "bottom"@);
                if k - 1 != t.labels@.len() - 3 {
                    assert(t.labels@[k - 1]@ != t.labels@[t.labels@.len() - 3]@);
                }
            }
        }
    }
}

/// Sentinel filtering reaches the output: no edge and no node of the
/// aggregated graph ever carries the `bottom` label, whatever pairs
/// were decrypted — a pair with a sentinel component contributes to no
/// frequency.
pub proof fn lemma_no_bottom_in_output(t: ActivityTable, s: Seq<(u16, u16)>)
    requires
        t.wf(),
    ensures
        forall|x: int|
            0 <= x < edges_view_spec(t, s).len() ==> (#[trigger] edges_view_spec(t, s)[x]).0
                != "bottom"@ && edges_view_spec(t, s)[x].1 != "bottom"@,
        forall|x: int|
            0 <= x < nodes_view_spec(t, s).len() ==> (#[trigger] nodes_view_spec(t, s)[x]).0
                != "bottom"@,
{
    let n = t.labels@.len() as int;
    let agg = crate::dfg::agg_all(s, bot_of(t), n, n);
    lemma_agg_all_clean(s, bot_of(t), n, n);
    lemma_nodes_clean(t, s, n);
    assert forall|x: int|
        0 <= x < edges_view_spec(t, s).len() implies (#[trigger] edges_view_spec(t, s)[x]).0
        != "bottom"@ && edges_view_spec(t, s)[x].1 != "bottom"@ by {
        assert(edges_view_spec(t, s)[x].0 == t.labels@[agg[x].0.0 as int]@);
        assert(edges_view_spec(t, s)[x].1 == t.labels@[agg[x].0.1 as int]@);
        assert(t.labels@[t.labels@.len() - 3]@ == "bottom"@);
        assert((agg[x].0.0 as int) != t.labels@.len() - 3);
        assert((agg[x].0.1 as int) != t.labels@.len() - 3);
        if (agg[x].0.0 as int) != t.labels@.len() - 3 {
            assert(t.labels@[agg[x].0.0 as int]@ != t.labels@[t.labels@.len() - 3]@);
        }
        if (agg[x].0.1 as int) != t.labels@.len() - 3 {
            assert(t.labels@[agg[x].0.1 as int]@ != t.labels@[t.labels@.len() - 3]@);
        }
    }
}

} // verus!
