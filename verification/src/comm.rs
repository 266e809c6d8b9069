//! The protocol driver: one full run of the federated computation.
//!
//! The key holder and the evaluator exchange keys and the alphabet, the
//! key holder's encrypted cases travel to the evaluator, the evaluator
//! pairs the cases and works through them in windows, and the key holder
//! decrypts and aggregates.  The theorem carried by the driver: the
//! graph it returns is the aggregation of exactly the directly-follows
//! edges of the paired cases' merged traces — and the paired cases are
//! the union of both logs' cases, carrying their encoded traces.

use vstd::prelude::*;
use vstd::multiset::Multiset;

use crate::alphabet::ActivityTable;
use crate::alphabet::ProtocolError;
use crate::dfg::Dfg;
use crate::dfg::edges_view_spec;
use crate::dfg::nodes_view_spec;
use crate::log::Log;
use crate::log::CaseTrace;
use crate::log::has_case;
use crate::log::has_label;
use crate::log::labels_unreserved;
use crate::log::log_sorted;
use crate::log::names_distinct;
use crate::model::Ev;
use crate::model::case_edges;
use crate::model::merged;
use crate::model::sorted_ts;
use crate::org::BCase;
use crate::org::PrivateKeyOrganization;
use crate::org::PublicKeyOrganization;
use crate::org::bcases_ms;
use crate::org::encoded_trace;
use crate::org::fc_has;
use crate::org::fc_idx;
use crate::org::oc_has;
use crate::org::oc_idx;
use crate::org::log_labels_in;
use crate::org::paired_entry_ok;
use crate::org::sanitized;
use crate::org::trace_labels_in;
use crate::pipeline::kept_ms;
use crate::pipeline::lemma_case_survivors_edges;
use crate::pipeline::lemma_kept_ms_add;

verus! {

/// The activity labels of both logs together.
pub open spec fn combined_label_set(a: Log, b: Log) -> Set<Seq<char>> {
    Set::new(|v: Seq<char>| has_label(a, v) || has_label(b, v))
}

/// The index of a case of the log with this name.
pub open spec fn case_idx_of(log: Log, v: Seq<char>) -> int {
    choose|c: int| 0 <= c < log.cases@.len() && log.cases@[c].name@ == v
}

/// With distinct case names the chosen index is the one that carries
/// the name.
pub proof fn lemma_case_idx_of(log: Log, c: int)
    requires
        names_distinct(log),
        0 <= c < log.cases@.len(),
    ensures
        has_case(log, log.cases@[c].name@),
        case_idx_of(log, log.cases@[c].name@) == c,
{
    assert(has_case(log, log.cases@[c].name@));
    let j = case_idx_of(log, log.cases@[c].name@);
    assert(0 <= j < log.cases@.len() && log.cases@[j].name@ == log.cases@[c].name@);
    if c < j {
        assert(log.cases@[c].name@ != log.cases@[j].name@);
    } else if j < c {
        assert(log.cases@[j].name@ != log.cases@[c].name@);
    }
}

/// A label that is not one of the reserved symbols sits among the real
/// activities of the table.
proof fn lemma_pos_real(t: ActivityTable, v: Seq<char>)
    requires
        t.wf(),
        t.has(v),
        v != "bottom"@,
        v != "start"@,
        v != "end"@,
    ensures
        0 <= t.pos_of(v) < t.n_real(),
{
    let i = t.pos_of(v);
    assert(0 <= i < t.labels@.len() && t.labels@[i]@ == v);
    if i >= t.labels@.len() - 3 {
        assert(v == "bottom"@ || v == "start"@ || v == "end"@);
    }
}

/// Two tables with the same labels encode a trace identically.
proof fn lemma_encoded_same(t: ActivityTable, ta: ActivityTable, c: CaseTrace)
    requires
        t.labels@ == ta.labels@,
        t.wf(),
        trace_labels_in(t, c),
    ensures
        ta.wf(),
        trace_labels_in(ta, c),
        encoded_trace(ta, c) == encoded_trace(t, c),
{
    assert(ta.wf());
    assert forall|e: int| 0 <= e < c.events@.len() implies ta.has(
        (#[trigger] c.events@[e]).label@,
    ) && ta.pos_of(c.events@[e].label@) == t.pos_of(c.events@[e].label@) by {
        let v = c.events@[e].label@;
        assert(t.has(v));
        let i = t.pos_of(v);
        assert(0 <= i < t.labels@.len() && t.labels@[i]@ == v);
        assert(ta.labels@[i]@ == v);
        ta.lemma_pos_of(v, i);
    }
    assert(encoded_trace(ta, c) =~= encoded_trace(t, c));
}

/// The directly-follows edges of the paired cases below `k`, summed.
pub open spec fn bcases_edges_ms(cs: Seq<BCase>, start: u16, end: u16, k: int) -> Multiset<
    (u16, u16),
>
    decreases k,
{
    if k <= 0 {
        Multiset::empty()
    } else {
        bcases_edges_ms(cs, start, end, k - 1).add(
            case_edges(merged(cs[k - 1].fseq(), cs[k - 1].oseq()), start, end),
        )
    }
}

/// Survivor windows concatenate.
proof fn lemma_bcases_ms_concat(cs: Seq<BCase>, start: u16, end: u16, lo: int, mid: int, hi: int)
    requires
        lo <= mid <= hi,
    ensures
        bcases_ms(cs, start, end, lo, mid).add(bcases_ms(cs, start, end, mid, hi)) =~= bcases_ms(
            cs,
            start,
            end,
            lo,
            hi,
        ),
    decreases hi - mid,
{
    if mid < hi {
        lemma_bcases_ms_concat(cs, start, end, lo, mid, hi - 1);
    }
}

/// With sorted traces, the survivors of the paired cases are their
/// directly-follows edges.
proof fn lemma_bcases_survivors_edges(cs: Seq<BCase>, start: u16, end: u16, k: int)
    requires
        k <= cs.len(),
        forall|c: int|
            0 <= c < cs.len() ==> sorted_ts((#[trigger] cs[c]).fseq()) && sorted_ts(cs[c].oseq()),
    ensures
        bcases_ms(cs, start, end, 0, k) =~= bcases_edges_ms(cs, start, end, k),
    decreases k,
{
    if k > 0 {
        lemma_bcases_survivors_edges(cs, start, end, k - 1);
        lemma_case_survivors_edges(cs[k - 1].fseq(), cs[k - 1].oseq(), start, end);
    }
}

/// Runs the whole federated protocol between the two organizations and
/// returns the directly-follows graph of the merged logs.
///
/// The returned graph aggregates exactly the directly-follows edges of
/// the merged paired cases: any sequence of decrypted pairs whose
/// survivors are those edges yields precisely these node and edge
/// views.  The paired cases themselves are the union of both logs'
/// cases — one per case name — each carrying the table-encoded traces
/// of its events.
#[verifier::loop_isolation(false)]
pub fn communicate(
    org_a: &mut PrivateKeyOrganization,
    org_b: &mut PublicKeyOrganization,
    window_size: usize,
) -> (r: Result<Dfg, ProtocolError>)
    requires
        window_size >= 1,
        old(org_a).keys_coherent(),
        labels_unreserved(old(org_a).event_log),
        labels_unreserved(old(org_b).event_log),
        names_distinct(old(org_a).event_log),
        names_distinct(old(org_b).event_log),
        log_sorted(old(org_a).event_log),
        log_sorted(old(org_b).event_log),
    ensures
        match r {
            Ok(d) => {
                let t = final(org_a).table->Some_0;
                let cs = final(org_b).paired@;
                &&& final(org_a).table is Some
                &&& t.wf()
                &&& forall|v: Seq<char>|
                    t.has(v) <==> has_label(old(org_a).event_log, v) || has_label(
                        old(org_b).event_log,
                        v,
                    ) || v == "bottom"@ || v == "start"@ || v == "end"@
                &&& forall|v: Seq<char>|
                    (exists|k: int| 0 <= k < cs.len() && (#[trigger] cs[k]).name@ == v)
                        <==> has_case(old(org_a).event_log, v) || has_case(
                        old(org_b).event_log,
                        v,
                    )
                &&& forall|k1: int, k2: int|
                    0 <= k1 < k2 < cs.len() ==> (#[trigger] cs[k1]).name@ != (
                    #[trigger] cs[k2]).name@
                &&& forall|k: int|
                    0 <= k < cs.len() ==> (#[trigger] cs[k]).fseq() == (if has_case(
                        old(org_a).event_log,
                        cs[k].name@,
                    ) {
                        encoded_trace(
                            t,
                            old(org_a).event_log.cases@[case_idx_of(
                                old(org_a).event_log,
                                cs[k].name@,
                            )],
                        )
                    } else {
                        Seq::<Ev>::empty()
                    })
                &&& forall|k: int|
                    0 <= k < cs.len() ==> (#[trigger] cs[k]).oseq() == (if has_case(
                        old(org_b).event_log,
                        cs[k].name@,
                    ) {
                        encoded_trace(
                            t,
                            old(org_b).event_log.cases@[case_idx_of(
                                old(org_b).event_log,
                                cs[k].name@,
                            )],
                        )
                    } else {
                        Seq::<Ev>::empty()
                    })
                &&& forall|s: Seq<(u16, u16)>|
                    kept_ms(s, t.bot_spec()) == bcases_edges_ms(
                        cs,
                        t.start_spec(),
                        t.end_spec(),
                        cs.len() as int,
                    ) ==> d.edges_view() == edges_view_spec(t, s) && d.nodes_view()
                        == nodes_view_spec(t, s)
            },
            Err(e) => {
                &&& e == ProtocolError::AlphabetOverflow
                &&& combined_label_set(old(org_a).event_log, old(org_b).event_log).finite()
                &&& combined_label_set(old(org_a).event_log, old(org_b).event_log).len() + 3
                    > 0x10000
            },
        },
{
    let ghost log_a = org_a.event_log;
    let ghost log_b = org_b.event_log;
    let ghost kk = org_a.key_id();

    // key and alphabet exchange
    let (server_key, public_key) = org_a.get_public_keys();
    org_b.set_public_keys(public_key, server_key);
    proof {
        assert(org_b.kid() == kk);
        assert(org_b.public_key->Some_0.kid@ == kk);
    }

    let activities_b = org_b.find_activities();
    proof {
        assert forall|i: int|
            0 <= i < activities_b@.len() implies (#[trigger] activities_b@[i])@ != "bottom"@
            && activities_b@[i]@ != "start"@ && activities_b@[i]@ != "end"@ by {
            assert(crate::log::seq_has_view(activities_b@, activities_b@[i]@));
            assert(has_label(log_b, activities_b@[i]@));
        }
    }
    let agreed = org_a.update_with_foreign_activities(activities_b);
    proof {
        assert(crate::org::union_label_set(log_a, activities_b@) =~= combined_label_set(
            log_a,
            log_b,
        ));
    }
    let table = match agreed {
        Ok(t) => t,
        Err(e) => {
            return Err(e);
        },
    };
    let ghost t = table;
    let ghost ta = org_a.table->Some_0;
    proof {
        assert(ta.labels@ == t.labels@);
        assert(ta.wf());
        assert forall|v: Seq<char>|
            ta.has(v) <==> t.has(v) by {
            if ta.has(v) {
                let i = choose|i: int| 0 <= i < ta.labels@.len() && ta.labels@[i]@ == v;
                assert(t.labels@[i]@ == v);
            }
            if t.has(v) {
                let i = choose|i: int| 0 <= i < t.labels@.len() && t.labels@[i]@ == v;
                assert(ta.labels@[i]@ == v);
            }
        }
        assert(log_labels_in(t, log_a)) by {
            assert forall|c: int|
                0 <= c < log_a.cases@.len() implies trace_labels_in(
                t,
                #[trigger] log_a.cases@[c],
            ) by {
                assert forall|e: int|
                    0 <= e < log_a.cases@[c].events@.len() implies t.has(
                    (#[trigger] log_a.cases@[c].events@[e]).label@,
                ) by {
                    assert(has_label(log_a, log_a.cases@[c].events@[e].label@));
                }
            }
        }
        assert(log_labels_in(t, log_b)) by {
            assert forall|c: int|
                0 <= c < log_b.cases@.len() implies trace_labels_in(
                t,
                #[trigger] log_b.cases@[c],
            ) by {
                assert forall|e: int|
                    0 <= e < log_b.cases@[c].events@.len() implies t.has(
                    (#[trigger] log_b.cases@[c].events@[e]).label@,
                ) by {
                    assert(has_label(log_b, log_b.cases@[c].events@[e].label@));
                }
            }
        }
        assert(log_labels_in(ta, log_a)) by {
            assert forall|c: int|
                0 <= c < log_a.cases@.len() implies trace_labels_in(
                ta,
                #[trigger] log_a.cases@[c],
            ) by {
                lemma_encoded_same(t, ta, log_a.cases@[c]);
            }
        }
    }
    org_b.set_activity_to_pos(table);
    proof {
        assert(org_b.table->Some_0 == t);
    }

    // ciphertext preparation and transfer
    let org_a_encrypted_data = org_a.encrypt_all_data(org_b.skey.as_ref());
    let ghost enc_a = org_a_encrypted_data@;
    org_b.set_foreign_case_to_trace(org_a_encrypted_data);
    let ghost fsnap = org_b.foreign_case_to_trace@;
    org_b.encrypt_all_data();
    let ghost osnap = org_b.own_case_to_trace@;
    proof {
        // names of the transferred tables are the logs' case names
        assert(fsnap.len() == log_a.cases@.len());
        assert forall|c: int| 0 <= c < fsnap.len() implies (#[trigger] fsnap[c]).0@
            == log_a.cases@[c].name@ by {
            assert(enc_a[c].0 == log_a.cases@[c].name);
        }
        assert(osnap.len() == log_b.cases@.len());
        assert forall|c: int| 0 <= c < osnap.len() implies (#[trigger] osnap[c]).0@
            == log_b.cases@[c].name@ by {}
        // distinctness carries over, and lengths per entry agree
        assert forall|c1: int, c2: int|
            0 <= c1 < c2 < fsnap.len() implies (#[trigger] fsnap[c1]).0@ != (
        #[trigger] fsnap[c2]).0@ by {}
        assert forall|c1: int, c2: int|
            0 <= c1 < c2 < osnap.len() implies (#[trigger] osnap[c1]).0@ != (
        #[trigger] osnap[c2]).0@ by {}
        assert forall|c: int|
            0 <= c < fsnap.len() implies (#[trigger] fsnap[c]).1.0@.len()
            == fsnap[c].1.1@.len() by {
            assert(enc_a[c].1.0@.len() == log_a.cases@[c].events@.len());
        }
        assert forall|c: int|
            0 <= c < osnap.len() implies (#[trigger] osnap[c]).1.0@.len()
            == osnap[c].1.1@.len() by {}
        // everything received or produced so far sits under the key
        // holder's pair
        assert forall|c: int, e: int|
            0 <= c < fsnap.len() && 0 <= e < (#[trigger] fsnap[c]).1.0@.len() implies (
        #[trigger] fsnap[c].1.0@[e]).kid@ == kk && fsnap[c].1.1@[e].kid@ == kk by {
            assert(enc_a[c].1.0@[e].kid@ == kk);
            assert(enc_a[c].1.1@[e].kid@ == kk);
            assert(fsnap[c].1.1@[e].kid@ == enc_a[c].1.1@[e].kid@);
        }
        assert forall|c: int, e: int|
            0 <= c < osnap.len() && 0 <= e < (#[trigger] osnap[c]).1.0@.len() implies (
        #[trigger] osnap[c].1.0@[e]).kid@ == kk by {}
    }
    org_b.compute_all_case_names();
    let ghost cs = org_b.paired@;

    proof {
        // each paired case decodes to the logs' encoded traces
        assert forall|k: int|
            0 <= k < cs.len() implies ((#[trigger] cs[k]).fseq() == (if has_case(
            log_a,
            cs[k].name@,
        ) {
            encoded_trace(ta, log_a.cases@[case_idx_of(log_a, cs[k].name@)])
        } else {
            Seq::<Ev>::empty()
        }) && (cs[k].oseq() == (if has_case(log_b, cs[k].name@) {
            encoded_trace(ta, log_b.cases@[case_idx_of(log_b, cs[k].name@)])
        } else {
            Seq::<Ev>::empty()
        }) && cs[k].wf(t.bot_spec()) && cs[k].kid_ok(kk) && crate::org::bcase_in_table(
            cs[k],
            t.labels@.len() as int,
        ) && sorted_ts(cs[k].fseq()) && sorted_ts(cs[k].oseq()))) by {
            assert(paired_entry_ok(fsnap, osnap, cs[k]));
            let v = cs[k].name@;
            // the foreign side
            if fc_has(fsnap, v) {
                let fi = fc_idx(fsnap, v);
                assert(0 <= fi < fsnap.len() && fsnap[fi].0@ == v);
                assert(log_a.cases@[fi].name@ == v);
                lemma_case_idx_of(log_a, fi);
                assert(has_case(log_a, v) && case_idx_of(log_a, v) == fi);
                let lc = log_a.cases@[fi];
                lemma_encoded_same(t, ta, lc);
                let enc = encoded_trace(ta, lc);
                assert(cs[k].f_act@.len() == fsnap[fi].1.0@.len());
                assert(fsnap[fi].1.0@.len() == enc_a[fi].1.0@.len());
                assert(enc_a[fi].1.0@.len() == lc.events@.len());
                assert(cs[k].fseq().len() == enc.len());
                assert(cs[k].fseq() =~= enc) by {
                    assert forall|e: int| 0 <= e < cs[k].fseq().len() implies cs[k].fseq()[e]
                        == enc[e] by {
                        assert(cs[k].f_act@[e].val@ == fsnap[fi].1.0@[e].val@);
                        assert(cs[k].f_ts@[e].val@ == fsnap[fi].1.1@[e].val@);
                        assert(fsnap[fi].1.0@[e].val@ == sanitized(
                            enc_a[fi].1.0@[e].val@,
                            t.bot_spec(),
                            t.start_spec(),
                        ));
                        assert(fsnap[fi].1.1@[e].val@ == enc_a[fi].1.1@[e].val@);
                        assert(enc_a[fi].1.0@[e].val@ == encoded_trace(ta, lc)[e].act);
                        assert(enc_a[fi].1.1@[e].val@ == encoded_trace(ta, lc)[e].ts);
                        let lv = lc.events@[e].label@;
                        assert(has_label(log_a, lv));
                        assert(lv != "bottom"@ && lv != "start"@ && lv != "end"@);
                        lemma_pos_real(ta, lv);
                        assert(encoded_trace(ta, lc)[e].act < ta.n_real());
                        assert(sanitized(enc_a[fi].1.0@[e].val@, t.bot_spec(), t.start_spec())
                            == enc_a[fi].1.0@[e].val@);
                    }
                }
                assert(sorted_ts(cs[k].fseq())) by {
                    assert forall|e1: int, e2: int|
                        0 <= e1 <= e2 < cs[k].fseq().len() implies cs[k].fseq()[e1].ts
                        <= cs[k].fseq()[e2].ts by {
                        assert(cs[k].fseq()[e1].ts == lc.events@[e1].ts);
                        assert(cs[k].fseq()[e2].ts == lc.events@[e2].ts);
                    }
                }
                assert forall|e: int|
                    0 <= e < cs[k].f_act@.len() implies (#[trigger] cs[k].f_act@[e]).val@
                    != t.bot_spec() && ((cs[k].f_act@[e]).val@ as int) < t.labels@.len() by {
                    assert(cs[k].fseq()[e].act == cs[k].f_act@[e].val@);
                    let lv = lc.events@[e].label@;
                    assert(has_label(log_a, lv)) by {
                        assert(log_a.cases@[fi].events@[e].label@ == lv);
                    }
                    lemma_pos_real(ta, lv);
                    assert(enc[e].act < ta.n_real());
                }
                assert forall|e: int|
                    0 <= e < cs[k].f_act@.len() implies (#[trigger] cs[k].f_act@[e]).kid@
                    == kk by {
                    assert(cs[k].f_act@[e].kid@ == fsnap[fi].1.0@[e].kid@);
                }
                assert forall|e: int|
                    0 <= e < cs[k].f_ts@.len() implies (#[trigger] cs[k].f_ts@[e]).kid@ == kk by {
                    assert(cs[k].f_act@[e].kid@ == fsnap[fi].1.0@[e].kid@);
                    assert(cs[k].f_ts@[e].kid@ == fsnap[fi].1.1@[e].kid@);
                    assert(fsnap[fi].1.0@[e].kid@ == kk);
                }
            } else {
                assert(cs[k].f_act@.len() == 0);
                assert(!has_case(log_a, v)) by {
                    if has_case(log_a, v) {
                        let c = choose|c: int|
                            0 <= c < log_a.cases@.len() && log_a.cases@[c].name@ == v;
                        assert(fsnap[c].0@ == v);
                        assert(fc_has(fsnap, v));
                    }
                }
                assert(cs[k].fseq() =~= Seq::<Ev>::empty());
            }
            // the own side
            if oc_has(osnap, v) {
                let oi = oc_idx(osnap, v);
                assert(0 <= oi < osnap.len() && osnap[oi].0@ == v);
                assert(log_b.cases@[oi].name@ == v);
                lemma_case_idx_of(log_b, oi);
                let lc = log_b.cases@[oi];
                lemma_encoded_same(t, ta, lc);
                let enc = encoded_trace(ta, lc);
                assert(cs[k].o_act@.len() == osnap[oi].1.0@.len());
                assert(osnap[oi].1.0@.len() == lc.events@.len());
                assert(cs[k].oseq().len() == enc.len());
                assert(cs[k].oseq() =~= enc) by {
                    assert forall|e: int| 0 <= e < cs[k].oseq().len() implies cs[k].oseq()[e]
                        == enc[e] by {
                        assert(cs[k].o_act@[e].val@ == osnap[oi].1.0@[e].val@);
                        assert(cs[k].o_ts@[e] == osnap[oi].1.1@[e]);
                        assert(osnap[oi].1.0@[e].val@ == encoded_trace(t, lc)[e].act);
                        assert(osnap[oi].1.1@[e] == encoded_trace(t, lc)[e].ts);
                    }
                }
                assert(sorted_ts(cs[k].oseq())) by {
                    assert forall|e1: int, e2: int|
                        0 <= e1 <= e2 < cs[k].oseq().len() implies cs[k].oseq()[e1].ts
                        <= cs[k].oseq()[e2].ts by {
                        assert(cs[k].oseq()[e1].ts == lc.events@[e1].ts);
                        assert(cs[k].oseq()[e2].ts == lc.events@[e2].ts);
                    }
                }
                assert forall|e: int|
                    0 <= e < cs[k].o_act@.len() implies (#[trigger] cs[k].o_act@[e]).val@
                    != t.bot_spec() && ((cs[k].o_act@[e]).val@ as int) < t.labels@.len() by {
                    assert(cs[k].oseq()[e].act == cs[k].o_act@[e].val@);
                    let lv = lc.events@[e].label@;
                    assert(has_label(log_b, lv)) by {
                        assert(log_b.cases@[oi].events@[e].label@ == lv);
                    }
                    lemma_pos_real(ta, lv);
                    assert(enc[e].act < ta.n_real());
                }
                assert forall|e: int|
                    0 <= e < cs[k].o_act@.len() implies (#[trigger] cs[k].o_act@[e]).kid@
                    == kk by {
                    assert(cs[k].o_act@[e].kid@ == osnap[oi].1.0@[e].kid@);
                }
            } else {
                assert(cs[k].o_act@.len() == 0);
                assert(!has_case(log_b, v)) by {
                    if has_case(log_b, v) {
                        let c = choose|c: int|
                            0 <= c < log_b.cases@.len() && log_b.cases@[c].name@ == v;
                        assert(osnap[c].0@ == v);
                        assert(oc_has(osnap, v));
                    }
                }
                assert(cs[k].oseq() =~= Seq::<Ev>::empty());
            }
        }
        // the paired names are exactly the union of case names
        assert forall|v: Seq<char>|
            (exists|k: int| 0 <= k < cs.len() && (#[trigger] cs[k]).name@ == v) <==> (has_case(
            log_a,
            v,
        ) || has_case(log_b, v)) by {
            assert((exists|k: int| 0 <= k < cs.len() && (#[trigger] cs[k]).name@ == v) <==> (
            fc_has(fsnap, v) || oc_has(osnap, v)));
            if fc_has(fsnap, v) {
                let i = choose|i: int| 0 <= i < fsnap.len() && fsnap[i].0@ == v;
                assert(log_a.cases@[i].name@ == v);
                assert(has_case(log_a, v));
            }
            if oc_has(osnap, v) {
                let i = choose|i: int| 0 <= i < osnap.len() && osnap[i].0@ == v;
                assert(log_b.cases@[i].name@ == v);
                assert(has_case(log_b, v));
            }
            if has_case(log_a, v) {
                let c = choose|c: int| 0 <= c < log_a.cases@.len() && log_a.cases@[c].name@ == v;
                assert(fsnap[c].0@ == v);
                assert(fc_has(fsnap, v));
            }
            if has_case(log_b, v) {
                let c = choose|c: int| 0 <= c < log_b.cases@.len() && log_b.cases@[c].name@ == v;
                assert(osnap[c].0@ == v);
                assert(oc_has(osnap, v));
            }
        }
    }

    // windowed evaluation and decryption
    let max_size = org_b.get_cases_len();
    let ghost start_v = t.start_spec();
    let ghost end_v = t.end_spec();
    let ghost bot_v = t.bot_spec();
    let mut decrypted_edges: Vec<(u16, u16)> = Vec::new();
    let mut lo: usize = 0;
    while lo < max_size
        invariant
            0 <= lo <= max_size,
            kept_ms(decrypted_edges@, bot_v) =~= bcases_ms(cs, start_v, end_v, 0, lo as int),
            forall|x: int|
                0 <= x < decrypted_edges@.len() ==> ((#[trigger] decrypted_edges@[x]).0 as int)
                    < t.labels@.len() && (decrypted_edges@[x].1 as int) < t.labels@.len(),
        decreases max_size - lo,
    {
        let rem = max_size - lo;
        let hi = if rem / 2 < window_size {
            max_size
        } else {
            lo + window_size
        };
        let org_b_secrets = org_b.find_all_secrets(lo, hi);
        proof {
            assert forall|x: int|
                0 <= x < org_b_secrets@.len() implies (#[trigger] org_b_secrets@[x]).0.kid@
                == org_a.key_id() && org_b_secrets@[x].1.kid@ == org_a.key_id() by {
                assert(org_b_secrets@[x].0.kid@ == org_b.kid());
            }
        }
        let mut window_edges = org_a.decrypt_edges(org_b_secrets);
        let ghost we = window_edges@;
        let ghost before = decrypted_edges@;
        decrypted_edges.append(&mut window_edges);
        proof {
            assert(we =~= crate::org::pair_vals(org_b_secrets@));
            assert(decrypted_edges@ =~= before + we);
            lemma_kept_ms_add(before, we, bot_v);
            lemma_bcases_ms_concat(cs, start_v, end_v, 0, lo as int, hi as int);
            assert forall|x: int|
                0 <= x < decrypted_edges@.len() implies ((#[trigger] decrypted_edges@[x]).0
                as int) < t.labels@.len() && (decrypted_edges@[x].1 as int)
                < t.labels@.len() by {
                if x >= before.len() {
                    assert(decrypted_edges@[x] == we[x - before.len()]);
                    assert(we[x - before.len()] == (
                        org_b_secrets@[x - before.len()].0.val@,
                        org_b_secrets@[x - before.len()].1.val@,
                    ));
                }
            }
        }
        lo = hi;
    }

    // aggregation at the key holder
    proof {
        assert forall|x: int|
            0 <= x < decrypted_edges@.len() implies ((#[trigger] decrypted_edges@[x]).0 as int)
            < org_a.table->Some_0.labels@.len() && (decrypted_edges@[x].1 as int)
            < org_a.table->Some_0.labels@.len() by {
            assert(org_a.table->Some_0.labels@.len() == t.labels@.len());
        }
    }
    let graph = org_a.evaluate_decrypted_edges_to_dfg(decrypted_edges);
    proof {
        assert(bcases_ms(cs, start_v, end_v, 0, cs.len() as int) =~= bcases_edges_ms(
            cs,
            start_v,
            end_v,
            cs.len() as int,
        )) by {
            lemma_bcases_survivors_edges(cs, start_v, end_v, cs.len() as int);
        }
        assert forall|s: Seq<(u16, u16)>|
            kept_ms(s, t.bot_spec()) == bcases_edges_ms(
                cs,
                t.start_spec(),
                t.end_spec(),
                cs.len() as int,
            ) implies graph.edges_view() == edges_view_spec(ta, s) && graph.nodes_view()
            == nodes_view_spec(ta, s) by {
            assert forall|p: (u16, u16)| true implies crate::dfg::pair_count(
                decrypted_edges@,
                crate::dfg::bot_of(ta),
                p,
            ) == crate::dfg::pair_count(s, crate::dfg::bot_of(ta), p) by {
                assert(crate::dfg::bot_of(ta) == bot_v);
                crate::pipeline::lemma_kept_ms_count(decrypted_edges@, bot_v, p);
                crate::pipeline::lemma_kept_ms_count(s, bot_v, p);
                assert(kept_ms(decrypted_edges@, bot_v) =~= kept_ms(s, bot_v));
            }
            crate::dfg::lemma_views_determined(ta, decrypted_edges@, s);
        }
        // the table the key holder aggregates with has the agreed labels
        assert forall|v: Seq<char>|
            ta.has(v) <==> (has_label(log_a, v) || has_label(log_b, v) || v == "bottom"@ || v
                == "start"@ || v == "end"@) by {
            assert forall|vv: Seq<char>|
                has_label(log_b, vv) implies crate::log::seq_has_view(activities_b@, vv) by {}
        }
    }
    Ok(graph)
}

} // verus!
