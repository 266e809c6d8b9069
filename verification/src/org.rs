//! The two organizations of the protocol.
//!
//! The key holder (A) owns the secret key, encrypts its events, decrypts
//! the evaluated candidate pairs and aggregates the graph.  The
//! evaluator (B) receives the public material, encrypts its own
//! activities, sanitises A's activity ciphertexts and evaluates the
//! candidate plan of every case homomorphically.  All work on
//! ciphertexts is verified against the ghost plaintexts that the
//! homomorphic layer tracks.

use vstd::prelude::*;
use vstd::multiset::Multiset;

use crate::alphabet::ActivityTable;
use crate::alphabet::ProtocolError;
use crate::alphabet::build_table;
use crate::alphabet::clone_table;
use crate::dfg::Dfg;
use crate::dfg::keep;
use crate::dfg::build_dfg;
use crate::dfg::edges_view_spec;
use crate::dfg::nodes_view_spec;
use crate::fhe::ClientKeyHandle;
use crate::fhe::EncAct;
use crate::fhe::EncTs;
use crate::fhe::PublicKeyHandle;
use crate::fhe::ServerKeyHandle;
use crate::fhe::ServerKeyInstalled;
use crate::fhe::clone_act;
use crate::fhe::clone_ts;
use crate::fhe::clone_public_key;
use crate::fhe::clone_server_key;
use crate::fhe::decrypt_act;
use crate::fhe::encrypt_act_client;
use crate::fhe::encrypt_act_public;
use crate::fhe::encrypt_act_trivial;
use crate::fhe::encrypt_ts_client;
use crate::fhe::encrypt_ts_trivial;
use crate::fhe::fhe_and;
use crate::fhe::fhe_ge_plain_act;
use crate::fhe::fhe_generate_keys;
use crate::fhe::fhe_le_plain;
use crate::fhe::fhe_not;
use crate::fhe::fhe_or;
use crate::fhe::fhe_public_key;
use crate::fhe::fhe_select_act;
use crate::fhe::install_server_key;
use crate::fhe::shuffle_vec;
use crate::log::Log;
use crate::log::CaseTrace;
use crate::log::find_activities;
use crate::log::union_labels;
use crate::log::has_label;
use crate::log::labels_unreserved;
use crate::log::seq_has_view;
use crate::log::views_distinct;
use crate::kernel::eval_instr;
use crate::kernel::inner_foreign_valid;
use crate::kernel::inner_own_valid;
use crate::kernel::cross_fo_valid;
use crate::kernel::cross_of_valid;
use crate::kernel::first_act;
use crate::kernel::last_act;
use crate::kernel::ms_inner_foreign;
use crate::kernel::ms_inner_own;
use crate::kernel::ms_cross_fo_row;
use crate::kernel::ms_cross_fo;
use crate::kernel::ms_cross_of_row;
use crate::kernel::ms_cross_of;
use crate::kernel::ms_unmasked;
use crate::model::Ev;
use crate::pipeline::kept_ms;
use crate::pipeline::case_survivors_ms;
use crate::pipeline::eval_of;
use crate::plan::plan_inner_foreign;
use crate::plan::plan_inner_own;
use crate::plan::plan_cross_fo_row;
use crate::plan::plan_cross_fo;
use crate::plan::plan_cross_of_row;
use crate::plan::plan_cross_of;
use crate::plan::plan_spec;
use crate::plan::Instruction;

verus! {

/// The distinct activity labels that the agreed alphabet must hold:
/// every label of the key holder's log and every foreign label.
pub open spec fn union_label_set(log: Log, foreign: Seq<String>) -> Set<Seq<char>> {
    Set::new(|v: Seq<char>| has_label(log, v) || seq_has_view(foreign, v))
}

/// Encrypts a timestamp under the key holder's secret key; the debug
/// flag switches to a trivial (non-hiding) ciphertext, which needs the
/// evaluation key of the same pair installed.
pub fn encrypt_value_private(
    value: u32,
    private_key: &ClientKeyHandle,
    debug: bool,
    w: Option<&ServerKeyInstalled>,
) -> (r: EncTs)
    requires
        debug ==> w is Some && w->Some_0.kid@ == private_key.kid@,
    ensures
        r.val@ == value,
        r.kid@ == private_key.kid@,
{
    if debug {
        encrypt_ts_trivial(value, w.unwrap())
    } else {
        encrypt_ts_client(value, private_key)
    }
}

/// Encrypts an activity index under the key holder's secret key.
pub fn encrypt_activity_private(
    value: u16,
    private_key: &ClientKeyHandle,
    debug: bool,
    w: Option<&ServerKeyInstalled>,
) -> (r: EncAct)
    requires
        debug ==> w is Some && w->Some_0.kid@ == private_key.kid@,
    ensures
        r.val@ == value,
        r.kid@ == private_key.kid@,
{
    if debug {
        encrypt_act_trivial(value, w.unwrap())
    } else {
        encrypt_act_client(value, private_key)
    }
}

/// Encrypts an activity index under the public key.
pub fn encrypt_activity(
    value: u16,
    public_key: &PublicKeyHandle,
    debug: bool,
    w: Option<&ServerKeyInstalled>,
) -> (r: EncAct)
    requires
        debug ==> w is Some && w->Some_0.kid@ == public_key.kid@,
    ensures
        r.val@ == value,
        r.kid@ == public_key.kid@,
{
    if debug {
        encrypt_act_trivial(value, w.unwrap())
    } else {
        encrypt_act_public(value, public_key)
    }
}

/// Every event label of the trace is in the table.
pub open spec fn trace_labels_in(t: ActivityTable, c: CaseTrace) -> bool {
    forall|e: int| 0 <= e < c.events@.len() ==> t.has((#[trigger] c.events@[e]).label@)
}

/// The plain view of an encoded trace: each event's activity index and
/// timestamp.
pub open spec fn encoded_trace(t: ActivityTable, c: CaseTrace) -> Seq<Ev> {
    Seq::new(
        c.events@.len(),
        |e: int| Ev { act: t.pos_of(c.events@[e].label@) as u16, ts: c.events@[e].ts },
    )
}

/// Looks an activity index up; the caller guarantees the label is in
/// the table.
fn pos_u16(t: &ActivityTable, l: &String) -> (r: u16)
    requires
        t.wf(),
        t.has(l@),
    ensures
        r as int == t.pos_of(l@),
        r < t.labels@.len(),
{
    let p = t.lookup(l);
    match p {
        Some(p) => {
            proof {
                t.lemma_pos_of(l@, p as int);
            }
            p
        },
        None => {
            proof {
                let i = choose|i: int| 0 <= i < t.labels@.len() && t.labels@[i]@ == l@;
                assert(t.labels@[i]@ == l@);
                assert(false);
            }
            0
        },
    }
}

/// Encodes and encrypts one trace under the secret key: activity
/// indices and timestamps both become ciphertexts.
pub fn preprocess_trace_private(
    activity_table: &ActivityTable,
    private_key: &ClientKeyHandle,
    trace: &CaseTrace,
    debug: bool,
    w: Option<&ServerKeyInstalled>,
) -> (r: (Vec<EncAct>, Vec<EncTs>))
    requires
        activity_table.wf(),
        trace_labels_in(*activity_table, *trace),
        debug ==> w is Some && w->Some_0.kid@ == private_key.kid@,
    ensures
        r.0@.len() == trace.events@.len(),
        r.1@.len() == trace.events@.len(),
        forall|e: int|
            0 <= e < trace.events@.len() ==> (#[trigger] r.0@[e]).val@ == encoded_trace(
                *activity_table,
                *trace,
            )[e].act && r.1@[e].val@ == encoded_trace(*activity_table, *trace)[e].ts && r.0@[e].kid@
                == private_key.kid@ && r.1@[e].kid@ == private_key.kid@,
{
    let mut acts: Vec<EncAct> = Vec::new();
    let mut tss: Vec<EncTs> = Vec::new();
    let mut e: usize = 0;
    while e < trace.events.len()
        invariant
            0 <= e <= trace.events@.len(),
            activity_table.wf(),
            trace_labels_in(*activity_table, *trace),
            acts@.len() == e,
            tss@.len() == e,
            debug ==> w is Some && w->Some_0.kid@ == private_key.kid@,
            forall|e2: int|
                0 <= e2 < e ==> (#[trigger] acts@[e2]).val@ == encoded_trace(
                    *activity_table,
                    *trace,
                )[e2].act && tss@[e2].val@ == encoded_trace(*activity_table, *trace)[e2].ts
                    && acts@[e2].kid@ == private_key.kid@ && tss@[e2].kid@ == private_key.kid@,
        decreases trace.events@.len() - e,
    {
        let ev = &trace.events[e];
        let p = pos_u16(activity_table, &ev.label);
        acts.push(encrypt_activity_private(p, private_key, debug, w));
        tss.push(encrypt_value_private(ev.ts, private_key, debug, w));
        e = e + 1;
    }
    (acts, tss)
}

/// Encodes and encrypts one trace under the public key: only the
/// activity indices are encrypted, the timestamps stay plain.
pub fn preprocess_trace(
    activity_table: &ActivityTable,
    public_key: &PublicKeyHandle,
    trace: &CaseTrace,
    debug: bool,
    w: Option<&ServerKeyInstalled>,
) -> (r: (Vec<EncAct>, Vec<u32>))
    requires
        activity_table.wf(),
        trace_labels_in(*activity_table, *trace),
        debug ==> w is Some && w->Some_0.kid@ == public_key.kid@,
    ensures
        r.0@.len() == trace.events@.len(),
        r.1@.len() == trace.events@.len(),
        forall|e: int|
            0 <= e < trace.events@.len() ==> (#[trigger] r.0@[e]).val@ == encoded_trace(
                *activity_table,
                *trace,
            )[e].act && r.1@[e] == encoded_trace(*activity_table, *trace)[e].ts && r.0@[e].kid@
                == public_key.kid@,
{
    let mut acts: Vec<EncAct> = Vec::new();
    let mut tss: Vec<u32> = Vec::new();
    let mut e: usize = 0;
    while e < trace.events.len()
        invariant
            0 <= e <= trace.events@.len(),
            activity_table.wf(),
            trace_labels_in(*activity_table, *trace),
            acts@.len() == e,
            tss@.len() == e,
            debug ==> w is Some && w->Some_0.kid@ == public_key.kid@,
            forall|e2: int|
                0 <= e2 < e ==> (#[trigger] acts@[e2]).val@ == encoded_trace(
                    *activity_table,
                    *trace,
                )[e2].act && tss@[e2] == encoded_trace(*activity_table, *trace)[e2].ts
                    && acts@[e2].kid@ == public_key.kid@,
        decreases trace.events@.len() - e,
    {
        let ev = &trace.events[e];
        let p = pos_u16(activity_table, &ev.label);
        acts.push(encrypt_activity(p, public_key, debug, w));
        tss.push(ev.ts);
        e = e + 1;
    }
    (acts, tss)
}

/// Every event label of the log is in the table.
pub open spec fn log_labels_in(t: ActivityTable, log: Log) -> bool {
    forall|c: int| 0 <= c < log.cases@.len() ==> trace_labels_in(t, #[trigger] log.cases@[c])
}

/// The encrypted case table of the key holder's log: one entry per
/// case, in order, whose ciphertexts decrypt to the encoded trace.
pub open spec fn private_enc_ok(
    t: ActivityTable,
    log: Log,
    r: Seq<(String, (Vec<EncAct>, Vec<EncTs>))>,
    kid: int,
) -> bool {
    &&& r.len() == log.cases@.len()
    &&& forall|c: int|
        0 <= c < r.len() ==> (#[trigger] r[c]).0 == log.cases@[c].name && r[c].1.0@.len()
            == log.cases@[c].events@.len() && r[c].1.1@.len() == log.cases@[c].events@.len() && (
        forall|e: int|
            0 <= e < log.cases@[c].events@.len() ==> ((#[trigger] r[c].1.0@[e]).val@
                == encoded_trace(t, log.cases@[c])[e].act && r[c].1.1@[e].val@ == encoded_trace(
                t,
                log.cases@[c],
            )[e].ts && r[c].1.0@[e].kid@ == kid && r[c].1.1@[e].kid@ == kid))
}

/// The encrypted case table of the evaluator's own log: activity
/// ciphertexts decrypt to the encoded indices, timestamps stay plain.
pub open spec fn public_enc_ok(
    t: ActivityTable,
    log: Log,
    r: Seq<(String, (Vec<EncAct>, Vec<u32>))>,
    kid: int,
) -> bool {
    &&& r.len() == log.cases@.len()
    &&& forall|c: int|
        0 <= c < r.len() ==> (#[trigger] r[c]).0 == log.cases@[c].name && r[c].1.0@.len()
            == log.cases@[c].events@.len() && r[c].1.1@.len() == log.cases@[c].events@.len() && (
        forall|e: int|
            0 <= e < log.cases@[c].events@.len() ==> ((#[trigger] r[c].1.0@[e]).val@
                == encoded_trace(t, log.cases@[c])[e].act && r[c].1.1@[e] == encoded_trace(
                t,
                log.cases@[c],
            )[e].ts && r[c].1.0@[e].kid@ == kid))
}

/// Encodes and encrypts every case of a log under the secret key.
pub fn compute_case_to_trace_private(
    activity_table: &ActivityTable,
    private_key: &ClientKeyHandle,
    event_log: &Log,
    debug: bool,
    w: Option<&ServerKeyInstalled>,
) -> (r: Vec<(String, (Vec<EncAct>, Vec<EncTs>))>)
    requires
        activity_table.wf(),
        log_labels_in(*activity_table, *event_log),
        debug ==> w is Some && w->Some_0.kid@ == private_key.kid@,
    ensures
        private_enc_ok(*activity_table, *event_log, r@, private_key.kid@),
{
    let mut r: Vec<(String, (Vec<EncAct>, Vec<EncTs>))> = Vec::new();
    let mut c: usize = 0;
    while c < event_log.cases.len()
        invariant
            0 <= c <= event_log.cases@.len(),
            activity_table.wf(),
            log_labels_in(*activity_table, *event_log),
            r@.len() == c,
            forall|c2: int|
                0 <= c2 < c ==> (#[trigger] r@[c2]).0 == event_log.cases@[c2].name && r@[c2].1.0@.len() == event_log.cases@[c2].events@.len() && r@[c2].1.1@.len()
                    == event_log.cases@[c2].events@.len() && (forall|e: int|
                    0 <= e < event_log.cases@[c2].events@.len() ==> ((#[trigger] r@[c2].1.0@[e]).val@ == encoded_trace(*activity_table, event_log.cases@[c2])[e].act
                        && r@[c2].1.1@[e].val@ == encoded_trace(
                        *activity_table,
                        event_log.cases@[c2],
                    )[e].ts && r@[c2].1.0@[e].kid@ == private_key.kid@ && r@[c2].1.1@[e].kid@
                        == private_key.kid@)),
            debug ==> w is Some && w->Some_0.kid@ == private_key.kid@,
        decreases event_log.cases@.len() - c,
    {
        let case = &event_log.cases[c];
        let enc = preprocess_trace_private(activity_table, private_key, case, debug, w);
        r.push((case.name.clone(), enc));
        c = c + 1;
    }
    r
}

/// Encodes and encrypts every case of a log under the public key.
pub fn compute_case_to_trace(
    activity_table: &ActivityTable,
    public_key: &PublicKeyHandle,
    event_log: &Log,
    debug: bool,
    w: Option<&ServerKeyInstalled>,
) -> (r: Vec<(String, (Vec<EncAct>, Vec<u32>))>)
    requires
        activity_table.wf(),
        log_labels_in(*activity_table, *event_log),
        debug ==> w is Some && w->Some_0.kid@ == public_key.kid@,
    ensures
        public_enc_ok(*activity_table, *event_log, r@, public_key.kid@),
{
    let mut r: Vec<(String, (Vec<EncAct>, Vec<u32>))> = Vec::new();
    let mut c: usize = 0;
    while c < event_log.cases.len()
        invariant
            0 <= c <= event_log.cases@.len(),
            activity_table.wf(),
            log_labels_in(*activity_table, *event_log),
            r@.len() == c,
            forall|c2: int|
                0 <= c2 < c ==> (#[trigger] r@[c2]).0 == event_log.cases@[c2].name && r@[c2].1.0@.len() == event_log.cases@[c2].events@.len() && r@[c2].1.1@.len()
                    == event_log.cases@[c2].events@.len() && (forall|e: int|
                    0 <= e < event_log.cases@[c2].events@.len() ==> ((#[trigger] r@[c2].1.0@[e]).val@ == encoded_trace(*activity_table, event_log.cases@[c2])[e].act
                        && r@[c2].1.1@[e] == encoded_trace(
                        *activity_table,
                        event_log.cases@[c2],
                    )[e].ts && r@[c2].1.0@[e].kid@ == public_key.kid@)),
            debug ==> w is Some && w->Some_0.kid@ == public_key.kid@,
        decreases event_log.cases@.len() - c,
    {
        let case = &event_log.cases[c];
        let enc = preprocess_trace(activity_table, public_key, case, debug, w);
        r.push((case.name.clone(), enc));
        c = c + 1;
    }
    r
}

/// The key holder: owns the secret key and its part of the log.  The
/// secret key travels inside a [`ClientKeyHandle`], whose raw key is
/// private to the homomorphic layer: holders of this struct can decrypt
/// through the layer's operations, but the key itself cannot be read or
/// exported.
pub struct PrivateKeyOrganization {
    pub private_key: ClientKeyHandle,
    pub server_key: ServerKeyHandle,
    pub public_key: PublicKeyHandle,
    pub event_log: Log,
    pub table: Option<ActivityTable>,
    pub debug: bool,
}

impl PrivateKeyOrganization {
    /// The identity of the key holder's key pair.
    pub open spec fn key_id(self) -> int {
        self.private_key.kid@
    }

    /// All three keys belong to the one generated pair.
    pub open spec fn keys_coherent(self) -> bool {
        self.server_key.kid@ == self.key_id() && self.public_key.kid@ == self.key_id()
    }

    /// Creates the key holder with a fresh key set over its log.
    pub fn new(event_log: Log, debug: bool) -> (r: Self)
        ensures
            r.event_log == event_log,
            r.debug == debug,
            r.table is None,
            r.keys_coherent(),
    {
        let (private_key, server_key) = fhe_generate_keys();
        let public_key = fhe_public_key(&private_key);
        PrivateKeyOrganization { private_key, server_key, public_key, event_log, table: None, debug }
    }

    /// Hands the evaluation and encryption keys out; the secret key
    /// stays inside.
    pub fn get_public_keys(&self) -> (r: (ServerKeyHandle, PublicKeyHandle))
        ensures
            r.0.kid@ == self.server_key.kid@,
            r.1.kid@ == self.public_key.kid@,
    {
        (clone_server_key(&self.server_key), clone_public_key(&self.public_key))
    }

    /// Agrees on the shared alphabet: unions the evaluator's activity
    /// labels with its own, appends the reserved symbols and freezes the
    /// table.  Fails when the combined alphabet does not fit the 16-bit
    /// activity index.
    pub fn update_with_foreign_activities(&mut self, foreign_activities: Vec<String>) -> (r:
        Result<ActivityTable, ProtocolError>)
        requires
            views_distinct(foreign_activities@),
            labels_unreserved(old(self).event_log),
            forall|i: int|
                0 <= i < foreign_activities@.len() ==> (#[trigger] foreign_activities@[i])@
                    != "bottom"@ && foreign_activities@[i]@ != "start"@ && foreign_activities@[i]@
                    != "end"@,
        ensures
            final(self).event_log == old(self).event_log,
            final(self).debug == old(self).debug,
            final(self).key_id() == old(self).key_id(),
            final(self).server_key == old(self).server_key,
            final(self).public_key == old(self).public_key,
            match r {
                Ok(t) => {
                    &&& t.wf()
                    &&& final(self).table is Some
                    &&& final(self).table->Some_0.labels@ == t.labels@
                    &&& union_label_set(old(self).event_log, foreign_activities@).finite()
                    &&& union_label_set(old(self).event_log, foreign_activities@).len() + 3
                        <= 0x10000
                    &&& forall|v: Seq<char>|
                        t.has(v) <==> has_label(old(self).event_log, v) || seq_has_view(
                            foreign_activities@,
                            v,
                        ) || v == "bottom"@ || v == "start"@ || v == "end"@
                },
                Err(e) => {
                    &&& e == ProtocolError::AlphabetOverflow
                    &&& union_label_set(old(self).event_log, foreign_activities@).finite()
                    &&& union_label_set(old(self).event_log, foreign_activities@).len() + 3
                        > 0x10000
                },
            },
    {
        let own = find_activities(&self.event_log);
        let ghost own0 = own@;
        let u = union_labels(own, &foreign_activities);
        proof {
            assert forall|a: int|
                0 <= a < u@.len() implies (#[trigger] u@[a])@ != "bottom"@ && u@[a]@ != "start"@
                && u@[a]@ != "end"@ by {
                let v = u@[a]@;
                assert(seq_has_view(u@, v));
                if seq_has_view(own0, v) {
                    assert(has_label(old(self).event_log, v));
                }
            }
        }
        proof {
            lemma_union_cardinality(old(self).event_log, foreign_activities@, u@);
        }
        let built = build_table(u);
        match built {
            Ok(t) => {
                let copy = clone_table(&t);
                proof {
                    assert(copy.labels@ == t.labels@);
                }
                self.table = Some(copy);
                proof {
                    let ghost tt = t;
                    assert forall|v: Seq<char>|
                        tt.has(v) <==> (has_label(old(self).event_log, v) || seq_has_view(
                            foreign_activities@,
                            v,
                        ) || v == "bottom"@ || v == "start"@ || v == "end"@) by {
                        if tt.has(v) {
                            let i = choose|i: int|
                                0 <= i < tt.labels@.len() && tt.labels@[i]@ == v;
                            if i < tt.labels@.len() - 3 {
                                assert(tt.labels@[i]@ == u@[i]@);
                                assert(seq_has_view(u@, v));
                            }
                        }
                        if has_label(old(self).event_log, v) {
                            assert(seq_has_view(own0, v));
                            assert(seq_has_view(u@, v));
                            let i = choose|i: int| 0 <= i < u@.len() && u@[i]@ == v;
                            assert(tt.labels@[i]@ == v);
                            assert(tt.has(v));
                        }
                        if seq_has_view(foreign_activities@, v) {
                            assert(seq_has_view(u@, v));
                            let i = choose|i: int| 0 <= i < u@.len() && u@[i]@ == v;
                            assert(tt.labels@[i]@ == v);
                            assert(tt.has(v));
                        }
                        if v == "bottom"@ {
                            assert(tt.labels@[tt.labels@.len() - 3]@ == v);
                            assert(tt.has(v));
                        }
                        if v == "start"@ {
                            assert(tt.labels@[tt.labels@.len() - 2]@ == v);
                            assert(tt.has(v));
                        }
                        if v == "end"@ {
                            assert(tt.labels@[tt.labels@.len() - 1]@ == v);
                            assert(tt.has(v));
                        }
                    }

                }
                Ok(t)
            },
            Err(e) => Err(e),
        }
    }

    /// Encodes and encrypts every case of the key holder's log.  The
    /// debug mode builds trivial ciphertexts through the evaluation
    /// machinery, so it needs this pair's evaluation key installed.
    pub fn encrypt_all_data(&self, w: Option<&ServerKeyInstalled>) -> (r: Vec<
        (String, (Vec<EncAct>, Vec<EncTs>)),
    >)
        requires
            self.table is Some,
            self.table->Some_0.wf(),
            log_labels_in(self.table->Some_0, self.event_log),
            self.debug ==> w is Some && w->Some_0.kid@ == self.key_id(),
        ensures
            private_enc_ok(self.table->Some_0, self.event_log, r@, self.key_id()),
    {
        let t = self.table.as_ref().unwrap();
        proof {
            assert(*t == self.table->Some_0);
        }
        compute_case_to_trace_private(t, &self.private_key, &self.event_log, self.debug, w)
    }

    /// Decrypts the evaluated candidate pairs; they must belong to this
    /// organization's key pair.
    pub fn decrypt_edges(&self, secret_edges: Vec<(EncAct, EncAct)>) -> (r: Vec<(u16, u16)>)
        requires
            forall|k: int|
                0 <= k < secret_edges@.len() ==> (#[trigger] secret_edges@[k]).0.kid@
                    == self.key_id() && secret_edges@[k].1.kid@ == self.key_id(),
        ensures
            r@.len() == secret_edges@.len(),
            forall|k: int|
                0 <= k < r@.len() ==> #[trigger] r@[k] == (
                    secret_edges@[k].0.val@,
                    secret_edges@[k].1.val@,
                ),
    {
        let mut r: Vec<(u16, u16)> = Vec::new();
        let mut k: usize = 0;
        while k < secret_edges.len()
            invariant
                0 <= k <= secret_edges@.len(),
                r@.len() == k,
                forall|k2: int|
                    0 <= k2 < secret_edges@.len() ==> (#[trigger] secret_edges@[k2]).0.kid@
                        == self.key_id() && secret_edges@[k2].1.kid@ == self.key_id(),
                forall|k2: int|
                    0 <= k2 < k ==> #[trigger] r@[k2] == (
                        secret_edges@[k2].0.val@,
                        secret_edges@[k2].1.val@,
                    ),
            decreases secret_edges@.len() - k,
        {
            let pair = &secret_edges[k];
            let from = decrypt_act(&pair.0, &self.private_key);
            let to = decrypt_act(&pair.1, &self.private_key);
            r.push((from, to));
            k = k + 1;
        }
        r
    }

    /// Aggregates the decrypted pairs into the directly-follows graph:
    /// pairs holding the sentinel are dropped, frequencies counted, node
    /// counts recomputed.  Every component must be a position of the
    /// table: the evaluator only ever emits table indices or sanitised
    /// substitutes.
    pub fn evaluate_decrypted_edges_to_dfg(&self, decrypted_edges: Vec<(u16, u16)>) -> (r: Dfg)
        requires
            self.table is Some,
            self.table->Some_0.wf(),
            forall|k: int|
                0 <= k < decrypted_edges@.len() ==> ((#[trigger] decrypted_edges@[k]).0 as int)
                    < self.table->Some_0.labels@.len() && (decrypted_edges@[k].1 as int)
                    < self.table->Some_0.labels@.len(),
        ensures
            r.edges_view() == edges_view_spec(self.table->Some_0, decrypted_edges@),
            r.nodes_view() == nodes_view_spec(self.table->Some_0, decrypted_edges@),
    {
        let t = self.table.as_ref().unwrap();
        build_dfg(t, &decrypted_edges)
    }

    /// Builds a graph from already-labelled edges, mapping the labels
    /// back to indices first.
    pub fn edges_to_dfg(&self, edges: Vec<(String, String)>) -> (r: Dfg)
        requires
            self.table is Some,
            self.table->Some_0.wf(),
            forall|k: int|
                0 <= k < edges@.len() ==> self.table->Some_0.has((#[trigger] edges@[k]).0@)
                    && self.table->Some_0.has(edges@[k].1@),
        ensures
            r.edges_view() == edges_view_spec(
                self.table->Some_0,
                Seq::new(
                    edges@.len(),
                    |k: int|
                        (
                            self.table->Some_0.pos_of(edges@[k].0@) as u16,
                            self.table->Some_0.pos_of(edges@[k].1@) as u16,
                        ),
                ),
            ),
            r.nodes_view() == nodes_view_spec(
                self.table->Some_0,
                Seq::new(
                    edges@.len(),
                    |k: int|
                        (
                            self.table->Some_0.pos_of(edges@[k].0@) as u16,
                            self.table->Some_0.pos_of(edges@[k].1@) as u16,
                        ),
                ),
            ),
    {
        let t = self.table.as_ref().unwrap();
        let ghost target = Seq::new(
            edges@.len(),
            |k: int| (t.pos_of(edges@[k].0@) as u16, t.pos_of(edges@[k].1@) as u16),
        );
        let mut pairs: Vec<(u16, u16)> = Vec::new();
        let mut k: usize = 0;
        while k < edges.len()
            invariant
                0 <= k <= edges@.len(),
                t == &self.table->Some_0,
                t.wf(),
                forall|k2: int|
                    0 <= k2 < edges@.len() ==> t.has((#[trigger] edges@[k2]).0@) && t.has(
                        edges@[k2].1@,
                    ),
                pairs@.len() == k,
                forall|k2: int|
                    0 <= k2 < k ==> #[trigger] pairs@[k2] == (
                        t.pos_of(edges@[k2].0@) as u16,
                        t.pos_of(edges@[k2].1@) as u16,
                    ),
            decreases edges@.len() - k,
        {
            let from = pos_u16(t, &edges[k].0);
            let to = pos_u16(t, &edges[k].1);
            pairs.push((from, to));
            proof {
                assert(t.pos_of(edges@[k as int].0@) < t.labels@.len() <= 0x10000);
            }
            k = k + 1;
        }
        proof {
            assert(pairs@ =~= target);
        }
        build_dfg(t, &pairs)
    }
}

/// A sanitised activity value: an out-of-range index is replaced by the
/// start marker, anything else passes unchanged.
pub open spec fn sanitized(v: u16, bot: u16, start: u16) -> u16 {
    if v >= bot {
        start
    } else {
        v
    }
}

/// One case as the evaluator holds it for plan evaluation: the foreign
/// columns fully encrypted, the own activity column encrypted, the own
/// timestamps plain.
pub struct BCase {
    pub name: String,
    pub f_act: Vec<EncAct>,
    pub f_ts: Vec<EncTs>,
    pub o_act: Vec<EncAct>,
    pub o_ts: Vec<u32>,
}

impl BCase {
    /// The plain view of the foreign trace.
    pub open spec fn fseq(self) -> Seq<Ev> {
        Seq::new(
            self.f_act@.len(),
            |i: int| Ev { act: self.f_act@[i].val@, ts: self.f_ts@[i].val@ },
        )
    }

    /// The plain view of the own trace.
    pub open spec fn oseq(self) -> Seq<Ev> {
        Seq::new(self.o_act@.len(), |i: int| Ev { act: self.o_act@[i].val@, ts: self.o_ts@[i] })
    }

    /// Every ciphertext of the case belongs to this key pair.
    pub open spec fn kid_ok(self, kid: int) -> bool {
        &&& forall|i: int| 0 <= i < self.f_act@.len() ==> (#[trigger] self.f_act@[i]).kid@ == kid
        &&& forall|i: int| 0 <= i < self.f_ts@.len() ==> (#[trigger] self.f_ts@[i]).kid@ == kid
        &&& forall|i: int| 0 <= i < self.o_act@.len() ==> (#[trigger] self.o_act@[i]).kid@ == kid
    }

    /// Columns of equal length whose activity values avoid the
    /// sentinel.
    pub open spec fn wf(self, bot: u16) -> bool {
        &&& self.f_act@.len() == self.f_ts@.len()
        &&& self.o_act@.len() == self.o_ts@.len()
        &&& forall|i: int| 0 <= i < self.f_act@.len() ==> (#[trigger] self.f_act@[i]).val@ != bot
        &&& forall|i: int| 0 <= i < self.o_act@.len() ==> (#[trigger] self.o_act@[i]).val@ != bot
    }
}

/// Every activity value of the case is a position of a table with `n`
/// entries.
pub open spec fn bcase_in_table(bc: BCase, n: int) -> bool {
    &&& forall|i: int| 0 <= i < bc.f_act@.len() ==> ((#[trigger] bc.f_act@[i]).val@ as int) < n
    &&& forall|i: int| 0 <= i < bc.o_act@.len() ==> ((#[trigger] bc.o_act@[i]).val@ as int) < n
}

/// A foreign case table holds an entry with this name.
pub open spec fn fc_has(f: Seq<(String, (Vec<EncAct>, Vec<EncTs>))>, v: Seq<char>) -> bool {
    exists|i: int| 0 <= i < f.len() && f[i].0@ == v
}

/// The index of the foreign entry with this name.
pub open spec fn fc_idx(f: Seq<(String, (Vec<EncAct>, Vec<EncTs>))>, v: Seq<char>) -> int {
    choose|i: int| 0 <= i < f.len() && f[i].0@ == v
}

/// An own case table holds an entry with this name.
pub open spec fn oc_has(o: Seq<(String, (Vec<EncAct>, Vec<u32>))>, v: Seq<char>) -> bool {
    exists|i: int| 0 <= i < o.len() && o[i].0@ == v
}

/// The index of the own entry with this name.
pub open spec fn oc_idx(o: Seq<(String, (Vec<EncAct>, Vec<u32>))>, v: Seq<char>) -> int {
    choose|i: int| 0 <= i < o.len() && o[i].0@ == v
}

/// A paired case matches the two case tables: its columns carry (at the
/// plain level) exactly the traces both tables hold under its name, and
/// an absent side is empty.
pub open spec fn paired_entry_ok(
    f: Seq<(String, (Vec<EncAct>, Vec<EncTs>))>,
    o: Seq<(String, (Vec<EncAct>, Vec<u32>))>,
    bc: BCase,
) -> bool {
    &&& bc.f_act@.len() == bc.f_ts@.len()
    &&& bc.o_act@.len() == bc.o_ts@.len()
    &&& if fc_has(f, bc.name@) {
        let e = f[fc_idx(f, bc.name@)].1;
        &&& bc.f_act@.len() == e.0@.len()
        &&& e.0@.len() == e.1@.len()
        &&& forall|i: int|
            0 <= i < bc.f_act@.len() ==> (#[trigger] bc.f_act@[i]).val@ == e.0@[i].val@
                && bc.f_ts@[i].val@ == e.1@[i].val@ && bc.f_act@[i].kid@ == e.0@[i].kid@
                && bc.f_ts@[i].kid@ == e.1@[i].kid@
    } else {
        bc.f_act@.len() == 0
    }
    &&& if oc_has(o, bc.name@) {
        let e = o[oc_idx(o, bc.name@)].1;
        &&& bc.o_act@.len() == e.0@.len()
        &&& e.0@.len() == e.1@.len()
        &&& forall|i: int|
            0 <= i < bc.o_act@.len() ==> (#[trigger] bc.o_act@[i]).val@ == e.0@[i].val@
                && bc.o_ts@[i] == e.1@[i] && bc.o_act@[i].kid@ == e.0@[i].kid@
    } else {
        bc.o_act@.len() == 0
    }
}

/// Copies a column of activity ciphertexts.
pub fn clone_acts(v: &Vec<EncAct>) -> (r: Vec<EncAct>)
    ensures
        r@.len() == v@.len(),
        forall|i: int|
            0 <= i < v@.len() ==> (#[trigger] r@[i]).val@ == v@[i].val@ && r@[i].kid@
                == v@[i].kid@,
{
    let mut r: Vec<EncAct> = Vec::new();
    let mut i: usize = 0;
    while i < v.len()
        invariant
            0 <= i <= v@.len(),
            r@.len() == i,
            forall|j: int|
                0 <= j < i ==> (#[trigger] r@[j]).val@ == v@[j].val@ && r@[j].kid@ == v@[j].kid@,
        decreases v@.len() - i,
    {
        r.push(clone_act(&v[i]));
        i = i + 1;
    }
    r
}

/// Copies a column of timestamp ciphertexts.
pub fn clone_tss(v: &Vec<EncTs>) -> (r: Vec<EncTs>)
    ensures
        r@.len() == v@.len(),
        forall|i: int|
            0 <= i < v@.len() ==> (#[trigger] r@[i]).val@ == v@[i].val@ && r@[i].kid@
                == v@[i].kid@,
{
    let mut r: Vec<EncTs> = Vec::new();
    let mut i: usize = 0;
    while i < v.len()
        invariant
            0 <= i <= v@.len(),
            r@.len() == i,
            forall|j: int|
                0 <= j < i ==> (#[trigger] r@[j]).val@ == v@[j].val@ && r@[j].kid@ == v@[j].kid@,
        decreases v@.len() - i,
    {
        r.push(clone_ts(&v[i]));
        i = i + 1;
    }
    r
}

/// Copies a column of plain timestamps.
pub fn clone_u32s(v: &Vec<u32>) -> (r: Vec<u32>)
    ensures
        r@ == v@,
{
    let mut r: Vec<u32> = Vec::new();
    let mut i: usize = 0;
    while i < v.len()
        invariant
            0 <= i <= v@.len(),
            r@ == v@.take(i as int),
        decreases v@.len() - i,
    {
        r.push(v[i]);
        proof {
            assert(r@ =~= v@.take(i as int + 1));
        }
        i = i + 1;
    }
    proof {
        assert(r@ =~= v@);
    }
    r
}

/// The evaluator: receives the public material, holds both encrypted
/// case tables and runs the homomorphic plan evaluation.
pub struct PublicKeyOrganization {
    pub public_key: Option<PublicKeyHandle>,
    pub event_log: Log,
    pub table: Option<ActivityTable>,
    pub own_case_to_trace: Vec<(String, (Vec<EncAct>, Vec<u32>))>,
    pub foreign_case_to_trace: Vec<(String, (Vec<EncAct>, Vec<EncTs>))>,
    pub start: Option<EncAct>,
    pub end: Option<EncAct>,
    pub bottom: Option<EncAct>,
    pub paired: Vec<BCase>,
    pub skey: Option<ServerKeyInstalled>,
    pub debug: bool,
}

impl PublicKeyOrganization {
    /// The agreed table.
    pub open spec fn tbl(self) -> ActivityTable {
        self.table->Some_0
    }

    /// The key pair the evaluator works under: the one whose evaluation
    /// key is installed.
    pub open spec fn kid(self) -> int {
        self.skey->Some_0.kid@
    }

    /// The setup is complete: table and keys installed, the three
    /// reserved markers encrypted with their agreed indices, everything
    /// under one key pair.
    pub open spec fn setup_ok(self) -> bool {
        &&& self.table is Some
        &&& self.tbl().wf()
        &&& self.public_key is Some
        &&& self.skey is Some
        &&& self.start is Some
        &&& self.end is Some
        &&& self.bottom is Some
        &&& self.public_key->Some_0.kid@ == self.kid()
        &&& self.start->Some_0.val@ == self.tbl().start_spec()
        &&& self.end->Some_0.val@ == self.tbl().end_spec()
        &&& self.bottom->Some_0.val@ == self.tbl().bot_spec()
        &&& self.start->Some_0.kid@ == self.kid()
        &&& self.end->Some_0.kid@ == self.kid()
        &&& self.bottom->Some_0.kid@ == self.kid()
    }

    /// Creates the evaluator over its part of the log.
    pub fn new(event_log: Log, debug: bool) -> (r: Self)
        ensures
            r.event_log == event_log,
            r.debug == debug,
            r.table is None,
            r.own_case_to_trace@.len() == 0,
            r.foreign_case_to_trace@.len() == 0,
            r.paired@.len() == 0,
    {
        PublicKeyOrganization {
            public_key: None,
            event_log,
            table: None,
            own_case_to_trace: Vec::new(),
            foreign_case_to_trace: Vec::new(),
            start: None,
            end: None,
            bottom: None,
            paired: Vec::new(),
            skey: None,
            debug,
        }
    }

    /// The number of paired cases.
    pub fn get_cases_len(&self) -> (r: usize)
        ensures
            r == self.paired@.len(),
    {
        self.paired.len()
    }

    /// Installs the received public and evaluation keys.
    pub fn set_public_keys(&mut self, public_key: PublicKeyHandle, server_key: ServerKeyHandle)
        ensures
            final(self).public_key is Some,
            final(self).skey is Some,
            final(self).kid() == server_key.kid@,
            final(self).public_key->Some_0.kid@ == public_key.kid@,
            final(self).event_log == old(self).event_log,
            final(self).table == old(self).table,
            final(self).own_case_to_trace == old(self).own_case_to_trace,
            final(self).foreign_case_to_trace == old(self).foreign_case_to_trace,
            final(self).start == old(self).start,
            final(self).end == old(self).end,
            final(self).bottom == old(self).bottom,
            final(self).paired == old(self).paired,
            final(self).debug == old(self).debug,
    {
        self.public_key = Some(public_key);
        let w = install_server_key(server_key);
        self.skey = Some(w);
    }

    /// The evaluator's own activity labels.
    pub fn find_activities(&self) -> (r: Vec<String>)
        ensures
            views_distinct(r@),
            forall|v: Seq<char>| seq_has_view(r@, v) <==> has_label(self.event_log, v),
    {
        find_activities(&self.event_log)
    }

    /// Receives the agreed table and encrypts the three reserved
    /// markers.
    pub fn set_activity_to_pos(&mut self, activity_table: ActivityTable)
        requires
            activity_table.wf(),
            old(self).public_key is Some,
            old(self).skey is Some,
            old(self).public_key->Some_0.kid@ == old(self).kid(),
        ensures
            final(self).table == Some(activity_table),
            final(self).start is Some,
            final(self).end is Some,
            final(self).bottom is Some,
            final(self).start->Some_0.val@ == activity_table.start_spec(),
            final(self).end->Some_0.val@ == activity_table.end_spec(),
            final(self).bottom->Some_0.val@ == activity_table.bot_spec(),
            final(self).start->Some_0.kid@ == old(self).kid(),
            final(self).end->Some_0.kid@ == old(self).kid(),
            final(self).bottom->Some_0.kid@ == old(self).kid(),
            final(self).event_log == old(self).event_log,
            final(self).own_case_to_trace == old(self).own_case_to_trace,
            final(self).foreign_case_to_trace == old(self).foreign_case_to_trace,
            final(self).paired == old(self).paired,
            final(self).skey == old(self).skey,
            final(self).public_key == old(self).public_key,
            final(self).debug == old(self).debug,
    {
        let bot = activity_table.bot();
        let start = activity_table.start_idx();
        let end = activity_table.end_idx();
        let pk = self.public_key.as_ref().unwrap();
        let w = self.skey.as_ref();
        let bottom_ct = encrypt_activity(bot, pk, self.debug, w);
        let start_ct = encrypt_activity(start, pk, self.debug, w);
        let end_ct = encrypt_activity(end, pk, self.debug, w);
        self.bottom = Some(bottom_ct);
        self.start = Some(start_ct);
        self.end = Some(end_ct);
        self.table = Some(activity_table);
    }

    /// Encodes and encrypts the evaluator's own log under the public
    /// key.
    pub fn encrypt_all_data(&mut self)
        requires
            old(self).table is Some,
            old(self).table->Some_0.wf(),
            old(self).public_key is Some,
            old(self).skey is Some,
            old(self).public_key->Some_0.kid@ == old(self).kid(),
            log_labels_in(old(self).table->Some_0, old(self).event_log),
        ensures
            public_enc_ok(
                old(self).table->Some_0,
                old(self).event_log,
                final(self).own_case_to_trace@,
                old(self).kid(),
            ),
            final(self).event_log == old(self).event_log,
            final(self).table == old(self).table,
            final(self).foreign_case_to_trace == old(self).foreign_case_to_trace,
            final(self).start == old(self).start,
            final(self).end == old(self).end,
            final(self).bottom == old(self).bottom,
            final(self).paired == old(self).paired,
            final(self).skey == old(self).skey,
            final(self).public_key == old(self).public_key,
            final(self).debug == old(self).debug,
    {
        let t = self.table.as_ref().unwrap();
        proof {
            assert(*t == self.table->Some_0);
        }
        let pk = self.public_key.as_ref().unwrap();
        let w = self.skey.as_ref();
        let own = compute_case_to_trace(t, pk, &self.event_log, self.debug, w);
        self.own_case_to_trace = own;
    }

    /// Receives the key holder's encrypted case table and sanitises
    /// every foreign activity ciphertext: an out-of-range index becomes
    /// the start marker, so no foreign value can ever collide with the
    /// drop sentinel.
    pub fn set_foreign_case_to_trace(
        &mut self,
        foreign_case_to_trace: Vec<(String, (Vec<EncAct>, Vec<EncTs>))>,
    )
        requires
            old(self).table is Some,
            old(self).table->Some_0.wf(),
            old(self).skey is Some,
            old(self).start is Some,
            old(self).start->Some_0.val@ == old(self).table->Some_0.start_spec(),
            old(self).start->Some_0.kid@ == old(self).kid(),
            forall|c: int, e: int|
                0 <= c < foreign_case_to_trace@.len() && 0 <= e < (
                #[trigger] foreign_case_to_trace@[c]).1.0@.len() ==> (
                #[trigger] foreign_case_to_trace@[c].1.0@[e]).kid@ == old(self).kid(),
        ensures
            final(self).foreign_case_to_trace@.len() == foreign_case_to_trace@.len(),
            forall|c: int|
                0 <= c < foreign_case_to_trace@.len() ==> {
                    let src = #[trigger] foreign_case_to_trace@[c];
                    let dst = final(self).foreign_case_to_trace@[c];
                    &&& dst.0 == src.0
                    &&& dst.1.0@.len() == src.1.0@.len()
                    &&& dst.1.1@.len() == src.1.1@.len()
                    &&& forall|e: int|
                        0 <= e < src.1.0@.len() ==> (#[trigger] dst.1.0@[e]).val@ == sanitized(
                            src.1.0@[e].val@,
                            old(self).table->Some_0.bot_spec(),
                            old(self).table->Some_0.start_spec(),
                        ) && dst.1.0@[e].kid@ == old(self).kid()
                    &&& forall|e: int|
                        0 <= e < src.1.1@.len() ==> (#[trigger] dst.1.1@[e]).val@
                            == src.1.1@[e].val@ && dst.1.1@[e].kid@ == src.1.1@[e].kid@
                },
            final(self).event_log == old(self).event_log,
            final(self).table == old(self).table,
            final(self).own_case_to_trace == old(self).own_case_to_trace,
            final(self).start == old(self).start,
            final(self).end == old(self).end,
            final(self).bottom == old(self).bottom,
            final(self).paired == old(self).paired,
            final(self).skey == old(self).skey,
            final(self).public_key == old(self).public_key,
            final(self).debug == old(self).debug,
    {
        let ghost bot_g = old(self).table->Some_0.bot_spec();
        let ghost start_g = old(self).table->Some_0.start_spec();
        let nreal = self.table.as_ref().unwrap().bot();
        let mut out: Vec<(String, (Vec<EncAct>, Vec<EncTs>))> = Vec::new();
        let mut c: usize = 0;
        while c < foreign_case_to_trace.len()
            invariant
                0 <= c <= foreign_case_to_trace@.len(),
                self == old(self),
                self.table is Some,
                self.table->Some_0.wf(),
                self.skey is Some,
                self.start is Some,
                self.start->Some_0.val@ == start_g,
                self.start->Some_0.kid@ == self.kid(),
                forall|c2: int, e: int|
                    0 <= c2 < foreign_case_to_trace@.len() && 0 <= e < (
                    #[trigger] foreign_case_to_trace@[c2]).1.0@.len() ==> (
                    #[trigger] foreign_case_to_trace@[c2].1.0@[e]).kid@ == self.kid(),
                nreal == bot_g,
                bot_g == self.table->Some_0.bot_spec(),
                start_g == self.table->Some_0.start_spec(),
                out@.len() == c,
                forall|c2: int|
                    0 <= c2 < c ==> {
                        let src = #[trigger] foreign_case_to_trace@[c2];
                        let dst = out@[c2];
                        &&& dst.0 == src.0
                        &&& dst.1.0@.len() == src.1.0@.len()
                        &&& dst.1.1@.len() == src.1.1@.len()
                        &&& forall|e: int|
                            0 <= e < src.1.0@.len() ==> (#[trigger] dst.1.0@[e]).val@ == sanitized(
                                src.1.0@[e].val@,
                                bot_g,
                                start_g,
                            ) && dst.1.0@[e].kid@ == self.kid()
                        &&& forall|e: int|
                            0 <= e < src.1.1@.len() ==> (#[trigger] dst.1.1@[e]).val@
                                == src.1.1@[e].val@ && dst.1.1@[e].kid@ == src.1.1@[e].kid@
                    },
            decreases foreign_case_to_trace@.len() - c,
        {
            let entry = &foreign_case_to_trace[c];
            let w = self.skey.as_ref().unwrap();
            let start_ct = self.start.as_ref().unwrap();
            let mut acts: Vec<EncAct> = Vec::new();
            let mut e: usize = 0;
            while e < entry.1.0.len()
                invariant
                    0 <= e <= entry.1.0@.len(),
                    entry == &foreign_case_to_trace@[c as int],
                    c < foreign_case_to_trace@.len(),
                    start_ct.val@ == start_g,
                    start_ct.kid@ == w.kid@,
                    forall|e2: int|
                        0 <= e2 < entry.1.0@.len() ==> (#[trigger] entry.1.0@[e2]).kid@ == w.kid@,
                    nreal == bot_g,
                    acts@.len() == e,
                    forall|e2: int|
                        0 <= e2 < e ==> (#[trigger] acts@[e2]).val@ == sanitized(
                            entry.1.0@[e2].val@,
                            bot_g,
                            start_g,
                        ) && acts@[e2].kid@ == w.kid@,
                decreases entry.1.0@.len() - e,
            {
                let a = &entry.1.0[e];
                let cond = fhe_ge_plain_act(a, nreal, w);
                let cleaned = fhe_select_act(&cond, start_ct, a, w);
                acts.push(cleaned);
                e = e + 1;
            }
            let tss = clone_tss(&entry.1.1);
            out.push((entry.0.clone(), (acts, tss)));
            c = c + 1;
        }
        self.foreign_case_to_trace = out;
    }
}

/// The plain view of fully encrypted columns.
pub open spec fn enc_fseq(acts: Seq<EncAct>, tss: Seq<EncTs>) -> Seq<Ev> {
    Seq::new(acts.len(), |i: int| Ev { act: acts[i].val@, ts: tss[i].val@ })
}

/// The plain view of an encrypted activity column with plain
/// timestamps.
pub open spec fn enc_oseq(acts: Seq<EncAct>, tss: Seq<u32>) -> Seq<Ev> {
    Seq::new(acts.len(), |i: int| Ev { act: acts[i].val@, ts: tss[i] })
}

/// The plain values of evaluated ciphertext pairs.
pub open spec fn pair_vals(s: Seq<(EncAct, EncAct)>) -> Seq<(u16, u16)> {
    s.map_values(|p: (EncAct, EncAct)| (p.0.val@, p.1.val@))
}

/// Every ciphertext of an activity column belongs to this key pair.
pub open spec fn acts_kid(acts: Seq<EncAct>, kid: int) -> bool {
    forall|i: int| 0 <= i < acts.len() ==> (#[trigger] acts[i]).kid@ == kid
}

/// Every ciphertext of a timestamp column belongs to this key pair.
pub open spec fn tss_kid(tss: Seq<EncTs>, kid: int) -> bool {
    forall|i: int| 0 <= i < tss.len() ==> (#[trigger] tss[i]).kid@ == kid
}

/// Evaluates one candidate instruction homomorphically.  The returned
/// ciphertext pair decrypts to exactly what the plaintext kernel
/// computes for this instruction.
pub fn eval_instruction_enc(
    f_act: &Vec<EncAct>,
    f_ts: &Vec<EncTs>,
    o_act: &Vec<EncAct>,
    o_ts: &Vec<u32>,
    ins: Instruction,
    bot_ct: &EncAct,
    start_ct: &EncAct,
    end_ct: &EncAct,
    w: &ServerKeyInstalled,
) -> (r: (EncAct, EncAct))
    requires
        f_act@.len() == f_ts@.len(),
        o_act@.len() == o_ts@.len(),
        acts_kid(f_act@, w.kid@),
        tss_kid(f_ts@, w.kid@),
        acts_kid(o_act@, w.kid@),
        bot_ct.kid@ == w.kid@,
        start_ct.kid@ == w.kid@,
        end_ct.kid@ == w.kid@,
    ensures
        (r.0.val@, r.1.val@) == eval_instr(
            enc_fseq(f_act@, f_ts@),
            enc_oseq(o_act@, o_ts@),
            ins,
            bot_ct.val@,
            start_ct.val@,
            end_ct.val@,
        ),
        r.0.kid@ == w.kid@,
        r.1.kid@ == w.kid@,
{
    let ghost f = enc_fseq(f_act@, f_ts@);
    let ghost o = enc_oseq(o_act@, o_ts@);
    let flen = f_act.len();
    let olen = o_act.len();
    match ins {
        Instruction::FindStart => {
            if flen == 0 && olen == 0 {
                (clone_act(bot_ct), clone_act(bot_ct))
            } else if flen == 0 {
                (clone_act(start_ct), clone_act(&o_act[0]))
            } else if olen == 0 {
                (clone_act(start_ct), clone_act(&f_act[0]))
            } else {
                let cond = fhe_le_plain(&f_ts[0], o_ts[0], w);
                let sel = fhe_select_act(&cond, &f_act[0], &o_act[0], w);
                (clone_act(start_ct), sel)
            }
        },
        Instruction::FindEnd => {
            if flen == 0 && olen == 0 {
                (clone_act(bot_ct), clone_act(bot_ct))
            } else if flen == 0 {
                (clone_act(&o_act[olen - 1]), clone_act(end_ct))
            } else if olen == 0 {
                (clone_act(&f_act[flen - 1]), clone_act(end_ct))
            } else {
                let cond = fhe_le_plain(&f_ts[flen - 1], o_ts[olen - 1], w);
                let sel = fhe_select_act(&cond, &o_act[olen - 1], &f_act[flen - 1], w);
                (sel, clone_act(end_ct))
            }
        },
        Instruction::InnerForeign { i } => {
            if i < flen && i + 1 < flen {
                if olen == 0 {
                    assert(inner_foreign_valid(f, o, i as int));
                    (clone_act(&f_act[i]), clone_act(&f_act[i + 1]))
                } else {
                    let c0a = fhe_le_plain(&f_ts[i], o_ts[0], w);
                    let c0b = fhe_not(&c0a, w);
                    let c0c = fhe_le_plain(&f_ts[i + 1], o_ts[0], w);
                    let mut acc = fhe_or(&c0b, &c0c, w);
                    proof {
                        assert(acc.val@ == (o[0].ts < f[i as int].ts || o[0].ts >= f[i as int
                            + 1].ts));
                        assert forall|k2: int| 0 <= k2 < 1 implies (o[k2].ts < f[i as int].ts || o[
                            k2].ts >= f[i as int + 1].ts) == acc.val@ by {}
                    }
                    let mut k: usize = 1;
                    while k < olen
                        invariant
                            1 <= k <= olen,
                            i + 1 < flen,
                            f_act@.len() == f_ts@.len(),
                            o_act@.len() == o_ts@.len(),
                            flen == f_act@.len(),
                            olen == o_act@.len(),
                            f == enc_fseq(f_act@, f_ts@),
                            o == enc_oseq(o_act@, o_ts@),
                            tss_kid(f_ts@, w.kid@),
                            acc.kid@ == w.kid@,
                            acc.val@ == forall|k2: int|
                                0 <= k2 < k ==> o[k2].ts < f[i as int].ts || o[k2].ts >= f[i as int
                                    + 1].ts,
                        decreases olen - k,
                    {
                        let ca = fhe_le_plain(&f_ts[i], o_ts[k], w);
                        let cb = fhe_not(&ca, w);
                        let cc = fhe_le_plain(&f_ts[i + 1], o_ts[k], w);
                        let ck = fhe_or(&cb, &cc, w);
                        proof {
                            assert(ck.val@ == (o[k as int].ts < f[i as int].ts || o[k as int].ts
                                >= f[i as int + 1].ts));
                        }
                        acc = fhe_and(&acc, &ck, w);
                        k = k + 1;
                    }
                    proof {
                        assert(acc.val@ == inner_foreign_valid(f, o, i as int));
                    }
                    let a = fhe_select_act(&acc, &f_act[i], bot_ct, w);
                    let b = fhe_select_act(&acc, &f_act[i + 1], bot_ct, w);
                    (a, b)
                }
            } else {
                (clone_act(bot_ct), clone_act(bot_ct))
            }
        },
        Instruction::InnerOwn { j } => {
            if j < olen && j + 1 < olen {
                if flen == 0 {
                    assert(inner_own_valid(f, o, j as int));
                    (clone_act(&o_act[j]), clone_act(&o_act[j + 1]))
                } else {
                    let c0a = fhe_le_plain(&f_ts[0], o_ts[j], w);
                    let c0b = fhe_le_plain(&f_ts[0], o_ts[j + 1], w);
                    let c0c = fhe_not(&c0b, w);
                    let mut acc = fhe_or(&c0a, &c0c, w);
                    proof {
                        assert(acc.val@ == (f[0].ts <= o[j as int].ts || f[0].ts > o[j as int
                            + 1].ts));
                        assert forall|k2: int| 0 <= k2 < 1 implies (f[k2].ts <= o[j as int].ts || f[
                            k2].ts > o[j as int + 1].ts) == acc.val@ by {}
                    }
                    let mut k: usize = 1;
                    while k < flen
                        invariant
                            1 <= k <= flen,
                            j + 1 < olen,
                            f_act@.len() == f_ts@.len(),
                            o_act@.len() == o_ts@.len(),
                            flen == f_act@.len(),
                            olen == o_act@.len(),
                            f == enc_fseq(f_act@, f_ts@),
                            o == enc_oseq(o_act@, o_ts@),
                            tss_kid(f_ts@, w.kid@),
                            acc.kid@ == w.kid@,
                            acc.val@ == forall|k2: int|
                                0 <= k2 < k ==> f[k2].ts <= o[j as int].ts || f[k2].ts > o[j as int
                                    + 1].ts,
                        decreases flen - k,
                    {
                        let ca = fhe_le_plain(&f_ts[k], o_ts[j], w);
                        let cb = fhe_le_plain(&f_ts[k], o_ts[j + 1], w);
                        let cc = fhe_not(&cb, w);
                        let ck = fhe_or(&ca, &cc, w);
                        proof {
                            assert(ck.val@ == (f[k as int].ts <= o[j as int].ts || f[k as int].ts
                                > o[j as int + 1].ts));
                        }
                        acc = fhe_and(&acc, &ck, w);
                        k = k + 1;
                    }
                    proof {
                        assert(acc.val@ == inner_own_valid(f, o, j as int));
                    }
                    let a = fhe_select_act(&acc, &o_act[j], bot_ct, w);
                    let b = fhe_select_act(&acc, &o_act[j + 1], bot_ct, w);
                    (a, b)
                }
            } else {
                (clone_act(bot_ct), clone_act(bot_ct))
            }
        },
        Instruction::CrossForeignOwn { i, j } => {
            if i < flen && j < olen {
                let mut acc = fhe_le_plain(&f_ts[i], o_ts[j], w);
                if j > 0 {
                    let c = fhe_le_plain(&f_ts[i], o_ts[j - 1], w);
                    let cn = fhe_not(&c, w);
                    acc = fhe_and(&acc, &cn, w);
                }
                if i < flen - 1 {
                    let c = fhe_le_plain(&f_ts[i + 1], o_ts[j], w);
                    let cn = fhe_not(&c, w);
                    acc = fhe_and(&acc, &cn, w);
                }
                proof {
                    assert(acc.val@ == cross_fo_valid(f, o, i as int, j as int));
                }
                let a = fhe_select_act(&acc, &f_act[i], bot_ct, w);
                let b = fhe_select_act(&acc, &o_act[j], bot_ct, w);
                (a, b)
            } else {
                (clone_act(bot_ct), clone_act(bot_ct))
            }
        },
        Instruction::CrossOwnForeign { j, i } => {
            if i < flen && j < olen {
                let c0 = fhe_le_plain(&f_ts[i], o_ts[j], w);
                let mut acc = fhe_not(&c0, w);
                if i > 0 {
                    let c = fhe_le_plain(&f_ts[i - 1], o_ts[j], w);
                    acc = fhe_and(&acc, &c, w);
                }
                if j < olen - 1 {
                    let c = fhe_le_plain(&f_ts[i], o_ts[j + 1], w);
                    acc = fhe_and(&acc, &c, w);
                }
                proof {
                    assert(acc.val@ == cross_of_valid(f, o, j as int, i as int));
                }
                let a = fhe_select_act(&acc, &o_act[j], bot_ct, w);
                let b = fhe_select_act(&acc, &f_act[i], bot_ct, w);
                (a, b)
            } else {
                (clone_act(bot_ct), clone_act(bot_ct))
            }
        },
    }
}

/// Appends one evaluated pair, maintaining the surviving multiset.
fn push_pair(
    r: &mut Vec<(EncAct, EncAct)>,
    p: (EncAct, EncAct),
    Ghost(bot): Ghost<u16>,
    Ghost(extra): Ghost<Multiset<(u16, u16)>>,
)
    requires
        kept_ms(pair_vals(old(r)@), bot) == extra,
    ensures
        final(r)@.len() == old(r)@.len() + 1,
        pair_vals(final(r)@) == pair_vals(old(r)@).push((p.0.val@, p.1.val@)),
        forall|x: int| 0 <= x < old(r)@.len() ==> final(r)@[x] == old(r)@[x],
        final(r)@[old(r)@.len() as int] == p,
        kept_ms(pair_vals(final(r)@), bot) == (if keep((p.0.val@, p.1.val@), bot) {
            extra.insert((p.0.val@, p.1.val@))
        } else {
            extra
        }),
{
    let ghost before = r@;
    let ghost pv = (p.0.val@, p.1.val@);
    r.push(p);
    proof {
        assert(pair_vals(r@) =~= pair_vals(before).push(pv));
        assert(pair_vals(r@).drop_last() =~= pair_vals(before));
        assert(pair_vals(r@).last() == pv);
    }
}

/// Evaluates and appends the `InnerForeign` candidates from `k` up.
fn push_enc_if(
    r: &mut Vec<(EncAct, EncAct)>,
    f_act: &Vec<EncAct>,
    f_ts: &Vec<EncTs>,
    o_act: &Vec<EncAct>,
    o_ts: &Vec<u32>,
    bot_ct: &EncAct,
    start_ct: &EncAct,
    end_ct: &EncAct,
    w: &ServerKeyInstalled,
    k: usize,
)
    requires
        f_act@.len() == f_ts@.len(),
        o_act@.len() == o_ts@.len(),
        forall|i: int| 0 <= i < f_act@.len() ==> (#[trigger] f_act@[i]).val@ != bot_ct.val@,
        acts_kid(f_act@, w.kid@),
        tss_kid(f_ts@, w.kid@),
        acts_kid(o_act@, w.kid@),
        bot_ct.kid@ == w.kid@,
        start_ct.kid@ == w.kid@,
        end_ct.kid@ == w.kid@,
    ensures
        forall|x: int| 0 <= x < old(r)@.len() ==> final(r)@[x] == old(r)@[x],
        forall|x: int|
            old(r)@.len() <= x < final(r)@.len() ==> (#[trigger] final(r)@[x]).0.kid@ == w.kid@
                && final(r)@[x].1.kid@ == w.kid@,
        kept_ms(pair_vals(final(r)@), bot_ct.val@) =~= kept_ms(
            pair_vals(old(r)@),
            bot_ct.val@,
        ).add(ms_inner_foreign(enc_fseq(f_act@, f_ts@), enc_oseq(o_act@, o_ts@), k as int)),
        pair_vals(final(r)@) == pair_vals(old(r)@) + plan_inner_foreign(f_act@.len() as int, k as int).map_values(
            eval_of(
                enc_fseq(f_act@, f_ts@),
                enc_oseq(o_act@, o_ts@),
                bot_ct.val@,
                start_ct.val@,
                end_ct.val@,
            ),
        ),
    decreases f_act@.len() - k,
{
    let ghost f = enc_fseq(f_act@, f_ts@);
    let ghost o = enc_oseq(o_act@, o_ts@);
    let ghost bot = bot_ct.val@;
    if k < f_act.len() && k + 1 < f_act.len() {
        let p = eval_instruction_enc(
            f_act,
            f_ts,
            o_act,
            o_ts,
            Instruction::InnerForeign { i: k },
            bot_ct,
            start_ct,
            end_ct,
            w,
        );
        proof {
            if inner_foreign_valid(f, o, k as int) {
                assert(f[k as int].act == f_act@[k as int].val@);
                assert(keep((p.0.val@, p.1.val@), bot));
            } else {
                assert(!keep((p.0.val@, p.1.val@), bot));
            }
        }
        let ghost before = pair_vals(r@);
        let ghost pv = (p.0.val@, p.1.val@);
        push_pair(r, p, Ghost(bot), Ghost(kept_ms(pair_vals(r@), bot)));
        push_enc_if(r, f_act, f_ts, o_act, o_ts, bot_ct, start_ct, end_ct, w, k + 1);
        proof {
            let fm = eval_of(f, o, bot, start_ct.val@, end_ct.val@);
            assert(pair_vals(r@) =~= before + (seq![Instruction::InnerForeign { i: k }]
                + plan_inner_foreign(f_act@.len() as int, k as int + 1)).map_values(fm));
        }
    } else {
        proof {
            let fm = eval_of(f, o, bot_ct.val@, start_ct.val@, end_ct.val@);
            assert(pair_vals(r@) =~= pair_vals(r@) + plan_inner_foreign(
                f_act@.len() as int,
                k as int,
            ).map_values(fm));
        }
    }
}

/// Evaluates and appends the `InnerOwn` candidates from `k` up.
fn push_enc_io(
    r: &mut Vec<(EncAct, EncAct)>,
    f_act: &Vec<EncAct>,
    f_ts: &Vec<EncTs>,
    o_act: &Vec<EncAct>,
    o_ts: &Vec<u32>,
    bot_ct: &EncAct,
    start_ct: &EncAct,
    end_ct: &EncAct,
    w: &ServerKeyInstalled,
    k: usize,
)
    requires
        f_act@.len() == f_ts@.len(),
        o_act@.len() == o_ts@.len(),
        forall|i: int| 0 <= i < o_act@.len() ==> (#[trigger] o_act@[i]).val@ != bot_ct.val@,
        acts_kid(f_act@, w.kid@),
        tss_kid(f_ts@, w.kid@),
        acts_kid(o_act@, w.kid@),
        bot_ct.kid@ == w.kid@,
        start_ct.kid@ == w.kid@,
        end_ct.kid@ == w.kid@,
    ensures
        forall|x: int| 0 <= x < old(r)@.len() ==> final(r)@[x] == old(r)@[x],
        forall|x: int|
            old(r)@.len() <= x < final(r)@.len() ==> (#[trigger] final(r)@[x]).0.kid@ == w.kid@
                && final(r)@[x].1.kid@ == w.kid@,
        kept_ms(pair_vals(final(r)@), bot_ct.val@) =~= kept_ms(
            pair_vals(old(r)@),
            bot_ct.val@,
        ).add(ms_inner_own(enc_fseq(f_act@, f_ts@), enc_oseq(o_act@, o_ts@), k as int)),
        pair_vals(final(r)@) == pair_vals(old(r)@) + plan_inner_own(o_act@.len() as int, k as int).map_values(
            eval_of(
                enc_fseq(f_act@, f_ts@),
                enc_oseq(o_act@, o_ts@),
                bot_ct.val@,
                start_ct.val@,
                end_ct.val@,
            ),
        ),
    decreases o_act@.len() - k,
{
    let ghost f = enc_fseq(f_act@, f_ts@);
    let ghost o = enc_oseq(o_act@, o_ts@);
    let ghost bot = bot_ct.val@;
    if k < o_act.len() && k + 1 < o_act.len() {
        let p = eval_instruction_enc(
            f_act,
            f_ts,
            o_act,
            o_ts,
            Instruction::InnerOwn { j: k },
            bot_ct,
            start_ct,
            end_ct,
            w,
        );
        proof {
            if inner_own_valid(f, o, k as int) {
                assert(o[k as int].act == o_act@[k as int].val@);
                assert(keep((p.0.val@, p.1.val@), bot));
            } else {
                assert(!keep((p.0.val@, p.1.val@), bot));
            }
        }
        let ghost before = pair_vals(r@);
        let ghost pv = (p.0.val@, p.1.val@);
        push_pair(r, p, Ghost(bot), Ghost(kept_ms(pair_vals(r@), bot)));
        push_enc_io(r, f_act, f_ts, o_act, o_ts, bot_ct, start_ct, end_ct, w, k + 1);
        proof {
            let fm = eval_of(f, o, bot, start_ct.val@, end_ct.val@);
            assert(pair_vals(r@) =~= before + (seq![Instruction::InnerOwn { j: k }]
                + plan_inner_own(o_act@.len() as int, k as int + 1)).map_values(fm));
        }
    } else {
        proof {
            let fm = eval_of(
                enc_fseq(f_act@, f_ts@),
                enc_oseq(o_act@, o_ts@),
                bot_ct.val@,
                start_ct.val@,
                end_ct.val@,
            );
            assert(pair_vals(r@) =~= pair_vals(r@) + plan_inner_own(o_act@.len() as int, k as int).map_values(fm));
        }
    }
}

/// Evaluates and appends one `CrossForeignOwn` row from `k` up.
fn push_enc_cfo_row(
    r: &mut Vec<(EncAct, EncAct)>,
    f_act: &Vec<EncAct>,
    f_ts: &Vec<EncTs>,
    o_act: &Vec<EncAct>,
    o_ts: &Vec<u32>,
    bot_ct: &EncAct,
    start_ct: &EncAct,
    end_ct: &EncAct,
    w: &ServerKeyInstalled,
    i: usize,
    k: usize,
)
    requires
        f_act@.len() == f_ts@.len(),
        o_act@.len() == o_ts@.len(),
        i < f_act@.len(),
        forall|x: int| 0 <= x < f_act@.len() ==> (#[trigger] f_act@[x]).val@ != bot_ct.val@,
        forall|x: int| 0 <= x < o_act@.len() ==> (#[trigger] o_act@[x]).val@ != bot_ct.val@,
        acts_kid(f_act@, w.kid@),
        tss_kid(f_ts@, w.kid@),
        acts_kid(o_act@, w.kid@),
        bot_ct.kid@ == w.kid@,
        start_ct.kid@ == w.kid@,
        end_ct.kid@ == w.kid@,
    ensures
        forall|x: int| 0 <= x < old(r)@.len() ==> final(r)@[x] == old(r)@[x],
        forall|x: int|
            old(r)@.len() <= x < final(r)@.len() ==> (#[trigger] final(r)@[x]).0.kid@ == w.kid@
                && final(r)@[x].1.kid@ == w.kid@,
        kept_ms(pair_vals(final(r)@), bot_ct.val@) =~= kept_ms(
            pair_vals(old(r)@),
            bot_ct.val@,
        ).add(
            ms_cross_fo_row(enc_fseq(f_act@, f_ts@), enc_oseq(o_act@, o_ts@), i as int, k as int),
        ),
        pair_vals(final(r)@) == pair_vals(old(r)@) + plan_cross_fo_row(i as int, o_act@.len() as int, k as int).map_values(
            eval_of(
                enc_fseq(f_act@, f_ts@),
                enc_oseq(o_act@, o_ts@),
                bot_ct.val@,
                start_ct.val@,
                end_ct.val@,
            ),
        ),
    decreases o_act@.len() - k,
{
    let ghost f = enc_fseq(f_act@, f_ts@);
    let ghost o = enc_oseq(o_act@, o_ts@);
    let ghost bot = bot_ct.val@;
    if k < o_act.len() {
        let p = eval_instruction_enc(
            f_act,
            f_ts,
            o_act,
            o_ts,
            Instruction::CrossForeignOwn { i, j: k },
            bot_ct,
            start_ct,
            end_ct,
            w,
        );
        proof {
            if cross_fo_valid(f, o, i as int, k as int) {
                assert(keep((p.0.val@, p.1.val@), bot));
            } else {
                assert(!keep((p.0.val@, p.1.val@), bot));
            }
        }
        let ghost before = pair_vals(r@);
        let ghost pv = (p.0.val@, p.1.val@);
        push_pair(r, p, Ghost(bot), Ghost(kept_ms(pair_vals(r@), bot)));
        push_enc_cfo_row(r, f_act, f_ts, o_act, o_ts, bot_ct, start_ct, end_ct, w, i, k + 1);
        proof {
            let fm = eval_of(f, o, bot, start_ct.val@, end_ct.val@);
            assert(pair_vals(r@) =~= before + (seq![Instruction::CrossForeignOwn { i, j: k }]
                + plan_cross_fo_row(i as int, o_act@.len() as int, k as int + 1)).map_values(fm));
        }
    } else {
        proof {
            let fm = eval_of(
                enc_fseq(f_act@, f_ts@),
                enc_oseq(o_act@, o_ts@),
                bot_ct.val@,
                start_ct.val@,
                end_ct.val@,
            );
            assert(pair_vals(r@) =~= pair_vals(r@) + plan_cross_fo_row(i as int, o_act@.len() as int, k as int).map_values(fm));
        }
    }
}

/// Evaluates and appends all `CrossForeignOwn` rows from `k` up.
fn push_enc_cfo(
    r: &mut Vec<(EncAct, EncAct)>,
    f_act: &Vec<EncAct>,
    f_ts: &Vec<EncTs>,
    o_act: &Vec<EncAct>,
    o_ts: &Vec<u32>,
    bot_ct: &EncAct,
    start_ct: &EncAct,
    end_ct: &EncAct,
    w: &ServerKeyInstalled,
    k: usize,
)
    requires
        f_act@.len() == f_ts@.len(),
        o_act@.len() == o_ts@.len(),
        forall|x: int| 0 <= x < f_act@.len() ==> (#[trigger] f_act@[x]).val@ != bot_ct.val@,
        forall|x: int| 0 <= x < o_act@.len() ==> (#[trigger] o_act@[x]).val@ != bot_ct.val@,
        acts_kid(f_act@, w.kid@),
        tss_kid(f_ts@, w.kid@),
        acts_kid(o_act@, w.kid@),
        bot_ct.kid@ == w.kid@,
        start_ct.kid@ == w.kid@,
        end_ct.kid@ == w.kid@,
    ensures
        forall|x: int| 0 <= x < old(r)@.len() ==> final(r)@[x] == old(r)@[x],
        forall|x: int|
            old(r)@.len() <= x < final(r)@.len() ==> (#[trigger] final(r)@[x]).0.kid@ == w.kid@
                && final(r)@[x].1.kid@ == w.kid@,
        kept_ms(pair_vals(final(r)@), bot_ct.val@) =~= kept_ms(
            pair_vals(old(r)@),
            bot_ct.val@,
        ).add(ms_cross_fo(enc_fseq(f_act@, f_ts@), enc_oseq(o_act@, o_ts@), k as int)),
        pair_vals(final(r)@) == pair_vals(old(r)@) + plan_cross_fo(f_act@.len() as int, o_act@.len() as int, k as int).map_values(
            eval_of(
                enc_fseq(f_act@, f_ts@),
                enc_oseq(o_act@, o_ts@),
                bot_ct.val@,
                start_ct.val@,
                end_ct.val@,
            ),
        ),
    decreases f_act@.len() - k,
{
    let ghost f = enc_fseq(f_act@, f_ts@);
    let ghost o = enc_oseq(o_act@, o_ts@);
    if k < f_act.len() {
        let ghost before = pair_vals(r@);
        push_enc_cfo_row(r, f_act, f_ts, o_act, o_ts, bot_ct, start_ct, end_ct, w, k, 0);
        push_enc_cfo(r, f_act, f_ts, o_act, o_ts, bot_ct, start_ct, end_ct, w, k + 1);
        proof {
            let fm = eval_of(f, o, bot_ct.val@, start_ct.val@, end_ct.val@);
            assert(pair_vals(r@) =~= before + plan_cross_fo(
                f_act@.len() as int,
                o_act@.len() as int,
                k as int,
            ).map_values(fm)) by {
                assert((plan_cross_fo_row(k as int, o_act@.len() as int, 0) + plan_cross_fo(
                    f_act@.len() as int,
                    o_act@.len() as int,
                    k as int + 1,
                )).map_values(fm) =~= plan_cross_fo_row(k as int, o_act@.len() as int, 0)
                    .map_values(fm) + plan_cross_fo(
                    f_act@.len() as int,
                    o_act@.len() as int,
                    k as int + 1,
                ).map_values(fm));
            }
        }
    } else {
        proof {
            let fm = eval_of(f, o, bot_ct.val@, start_ct.val@, end_ct.val@);
            assert(pair_vals(r@) =~= pair_vals(r@) + plan_cross_fo(
                f_act@.len() as int,
                o_act@.len() as int,
                k as int,
            ).map_values(fm));
        }
    }
}

/// Evaluates and appends one `CrossOwnForeign` row from `k` up.
fn push_enc_cof_row(
    r: &mut Vec<(EncAct, EncAct)>,
    f_act: &Vec<EncAct>,
    f_ts: &Vec<EncTs>,
    o_act: &Vec<EncAct>,
    o_ts: &Vec<u32>,
    bot_ct: &EncAct,
    start_ct: &EncAct,
    end_ct: &EncAct,
    w: &ServerKeyInstalled,
    j: usize,
    k: usize,
)
    requires
        f_act@.len() == f_ts@.len(),
        o_act@.len() == o_ts@.len(),
        j < o_act@.len(),
        forall|x: int| 0 <= x < f_act@.len() ==> (#[trigger] f_act@[x]).val@ != bot_ct.val@,
        forall|x: int| 0 <= x < o_act@.len() ==> (#[trigger] o_act@[x]).val@ != bot_ct.val@,
        acts_kid(f_act@, w.kid@),
        tss_kid(f_ts@, w.kid@),
        acts_kid(o_act@, w.kid@),
        bot_ct.kid@ == w.kid@,
        start_ct.kid@ == w.kid@,
        end_ct.kid@ == w.kid@,
    ensures
        forall|x: int| 0 <= x < old(r)@.len() ==> final(r)@[x] == old(r)@[x],
        forall|x: int|
            old(r)@.len() <= x < final(r)@.len() ==> (#[trigger] final(r)@[x]).0.kid@ == w.kid@
                && final(r)@[x].1.kid@ == w.kid@,
        kept_ms(pair_vals(final(r)@), bot_ct.val@) =~= kept_ms(
            pair_vals(old(r)@),
            bot_ct.val@,
        ).add(
            ms_cross_of_row(enc_fseq(f_act@, f_ts@), enc_oseq(o_act@, o_ts@), j as int, k as int),
        ),
        pair_vals(final(r)@) == pair_vals(old(r)@) + plan_cross_of_row(j as int, f_act@.len() as int, k as int).map_values(
            eval_of(
                enc_fseq(f_act@, f_ts@),
                enc_oseq(o_act@, o_ts@),
                bot_ct.val@,
                start_ct.val@,
                end_ct.val@,
            ),
        ),
    decreases f_act@.len() - k,
{
    let ghost f = enc_fseq(f_act@, f_ts@);
    let ghost o = enc_oseq(o_act@, o_ts@);
    let ghost bot = bot_ct.val@;
    if k < f_act.len() {
        let p = eval_instruction_enc(
            f_act,
            f_ts,
            o_act,
            o_ts,
            Instruction::CrossOwnForeign { j, i: k },
            bot_ct,
            start_ct,
            end_ct,
            w,
        );
        proof {
            if cross_of_valid(f, o, j as int, k as int) {
                assert(keep((p.0.val@, p.1.val@), bot));
            } else {
                assert(!keep((p.0.val@, p.1.val@), bot));
            }
        }
        let ghost before = pair_vals(r@);
        let ghost pv = (p.0.val@, p.1.val@);
        push_pair(r, p, Ghost(bot), Ghost(kept_ms(pair_vals(r@), bot)));
        push_enc_cof_row(r, f_act, f_ts, o_act, o_ts, bot_ct, start_ct, end_ct, w, j, k + 1);
        proof {
            let fm = eval_of(f, o, bot, start_ct.val@, end_ct.val@);
            assert(pair_vals(r@) =~= before + (seq![Instruction::CrossOwnForeign { j, i: k }]
                + plan_cross_of_row(j as int, f_act@.len() as int, k as int + 1)).map_values(fm));
        }
    } else {
        proof {
            let fm = eval_of(
                enc_fseq(f_act@, f_ts@),
                enc_oseq(o_act@, o_ts@),
                bot_ct.val@,
                start_ct.val@,
                end_ct.val@,
            );
            assert(pair_vals(r@) =~= pair_vals(r@) + plan_cross_of_row(j as int, f_act@.len() as int, k as int).map_values(fm));
        }
    }
}

/// Evaluates and appends all `CrossOwnForeign` rows from `k` up.
fn push_enc_cof(
    r: &mut Vec<(EncAct, EncAct)>,
    f_act: &Vec<EncAct>,
    f_ts: &Vec<EncTs>,
    o_act: &Vec<EncAct>,
    o_ts: &Vec<u32>,
    bot_ct: &EncAct,
    start_ct: &EncAct,
    end_ct: &EncAct,
    w: &ServerKeyInstalled,
    k: usize,
)
    requires
        f_act@.len() == f_ts@.len(),
        o_act@.len() == o_ts@.len(),
        forall|x: int| 0 <= x < f_act@.len() ==> (#[trigger] f_act@[x]).val@ != bot_ct.val@,
        forall|x: int| 0 <= x < o_act@.len() ==> (#[trigger] o_act@[x]).val@ != bot_ct.val@,
        acts_kid(f_act@, w.kid@),
        tss_kid(f_ts@, w.kid@),
        acts_kid(o_act@, w.kid@),
        bot_ct.kid@ == w.kid@,
        start_ct.kid@ == w.kid@,
        end_ct.kid@ == w.kid@,
    ensures
        forall|x: int| 0 <= x < old(r)@.len() ==> final(r)@[x] == old(r)@[x],
        forall|x: int|
            old(r)@.len() <= x < final(r)@.len() ==> (#[trigger] final(r)@[x]).0.kid@ == w.kid@
                && final(r)@[x].1.kid@ == w.kid@,
        kept_ms(pair_vals(final(r)@), bot_ct.val@) =~= kept_ms(
            pair_vals(old(r)@),
            bot_ct.val@,
        ).add(ms_cross_of(enc_fseq(f_act@, f_ts@), enc_oseq(o_act@, o_ts@), k as int)),
        pair_vals(final(r)@) == pair_vals(old(r)@) + plan_cross_of(f_act@.len() as int, o_act@.len() as int, k as int).map_values(
            eval_of(
                enc_fseq(f_act@, f_ts@),
                enc_oseq(o_act@, o_ts@),
                bot_ct.val@,
                start_ct.val@,
                end_ct.val@,
            ),
        ),
    decreases o_act@.len() - k,
{
    let ghost f = enc_fseq(f_act@, f_ts@);
    let ghost o = enc_oseq(o_act@, o_ts@);
    if k < o_act.len() {
        let ghost before = pair_vals(r@);
        push_enc_cof_row(r, f_act, f_ts, o_act, o_ts, bot_ct, start_ct, end_ct, w, k, 0);
        push_enc_cof(r, f_act, f_ts, o_act, o_ts, bot_ct, start_ct, end_ct, w, k + 1);
        proof {
            let fm = eval_of(f, o, bot_ct.val@, start_ct.val@, end_ct.val@);
            assert(pair_vals(r@) =~= before + plan_cross_of(
                f_act@.len() as int,
                o_act@.len() as int,
                k as int,
            ).map_values(fm)) by {
                assert((plan_cross_of_row(k as int, f_act@.len() as int, 0) + plan_cross_of(
                    f_act@.len() as int,
                    o_act@.len() as int,
                    k as int + 1,
                )).map_values(fm) =~= plan_cross_of_row(k as int, f_act@.len() as int, 0)
                    .map_values(fm) + plan_cross_of(
                    f_act@.len() as int,
                    o_act@.len() as int,
                    k as int + 1,
                ).map_values(fm));
            }
        }
    } else {
        proof {
            let fm = eval_of(f, o, bot_ct.val@, start_ct.val@, end_ct.val@);
            assert(pair_vals(r@) =~= pair_vals(r@) + plan_cross_of(
                f_act@.len() as int,
                o_act@.len() as int,
                k as int,
            ).map_values(fm));
        }
    }
}

/// The survivors of the paired cases with indices in `lo .. hi`.
pub open spec fn bcases_ms(cs: Seq<BCase>, start: u16, end: u16, lo: int, hi: int) -> Multiset<
    (u16, u16),
>
    decreases hi - lo,
{
    if lo >= hi {
        Multiset::empty()
    } else {
        bcases_ms(cs, start, end, lo, hi - 1).add(
            case_survivors_ms(cs[hi - 1].fseq(), cs[hi - 1].oseq(), start, end),
        )
    }
}

/// The number of candidate-edge ciphertexts the evaluator will produce
/// for the paired cases below `k`: each case costs its two trace
/// lengths plus one.
pub open spec fn spec_secret_edges_len(cs: Seq<BCase>, k: int) -> int
    decreases k,
{
    if k <= 0 {
        0
    } else {
        spec_secret_edges_len(cs, k - 1) + cs[k - 1].f_act@.len() + cs[k - 1].o_act@.len() + 1
    }
}

impl PublicKeyOrganization {
    /// Evaluates the whole candidate plan of one case homomorphically.
    /// The surviving pairs decrypt to exactly the start probe, the end
    /// probe and the surviving candidates of the case.
    pub fn find_secrets_for_case(
        &self,
        foreign_activities: Vec<EncAct>,
        foreign_timestamps: Vec<EncTs>,
        own_activities: Vec<EncAct>,
        own_timestamps: Vec<u32>,
    ) -> (r: Vec<(EncAct, EncAct)>)
        requires
            self.setup_ok(),
            foreign_activities@.len() == foreign_timestamps@.len(),
            own_activities@.len() == own_timestamps@.len(),
            forall|i: int|
                0 <= i < foreign_activities@.len() ==> (#[trigger] foreign_activities@[i]).val@
                    != self.tbl().bot_spec(),
            forall|i: int|
                0 <= i < own_activities@.len() ==> (#[trigger] own_activities@[i]).val@
                    != self.tbl().bot_spec(),
            acts_kid(foreign_activities@, self.kid()),
            tss_kid(foreign_timestamps@, self.kid()),
            acts_kid(own_activities@, self.kid()),
        ensures
            forall|x: int|
                0 <= x < r@.len() ==> (#[trigger] r@[x]).0.kid@ == self.kid() && r@[x].1.kid@
                    == self.kid(),
            kept_ms(pair_vals(r@), self.tbl().bot_spec()) =~= case_survivors_ms(
                enc_fseq(foreign_activities@, foreign_timestamps@),
                enc_oseq(own_activities@, own_timestamps@),
                self.tbl().start_spec(),
                self.tbl().end_spec(),
            ),
            pair_vals(r@) == plan_spec(
                foreign_activities@.len() as int,
                own_activities@.len() as int,
            ).map_values(
                eval_of(
                    enc_fseq(foreign_activities@, foreign_timestamps@),
                    enc_oseq(own_activities@, own_timestamps@),
                    self.tbl().bot_spec(),
                    self.tbl().start_spec(),
                    self.tbl().end_spec(),
                ),
            ),
    {
        let ghost f = enc_fseq(foreign_activities@, foreign_timestamps@);
        let ghost o = enc_oseq(own_activities@, own_timestamps@);
        let ghost bot = self.tbl().bot_spec();
        let ghost start = self.tbl().start_spec();
        let ghost end = self.tbl().end_spec();
        let f_act = &foreign_activities;
        let f_ts = &foreign_timestamps;
        let o_act = &own_activities;
        let o_ts = &own_timestamps;
        let bot_ct = self.bottom.as_ref().unwrap();
        let start_ct = self.start.as_ref().unwrap();
        let end_ct = self.end.as_ref().unwrap();
        let w = self.skey.as_ref().unwrap();
        proof {
            assert(bot_ct.val@ == bot);
            assert(start_ct.val@ == start);
            assert(end_ct.val@ == end);
            assert(start != bot && end != bot);
        }
        let ghost fm = eval_of(f, o, bot, start, end);
        let mut r: Vec<(EncAct, EncAct)> = Vec::new();
        if f_act.len() == 0 && o_act.len() == 0 {
            proof {
                assert(pair_vals(r@) =~= Seq::<(u16, u16)>::empty());
                assert(kept_ms(pair_vals(r@), bot) =~= case_survivors_ms(f, o, start, end));
                assert(pair_vals(r@) =~= plan_spec(
                    foreign_activities@.len() as int,
                    own_activities@.len() as int,
                ).map_values(fm));
            }
            return r;
        }
        let p0 = eval_instruction_enc(
            f_act,
            f_ts,
            o_act,
            o_ts,
            Instruction::FindStart,
            bot_ct,
            start_ct,
            end_ct,
            w,
        );
        proof {
            if f.len() == 0 {
                assert(first_act(f, o) == o_act@[0].val@);
            } else if o.len() == 0 {
                assert(first_act(f, o) == f_act@[0].val@);
            } else {
                assert(first_act(f, o) == f_act@[0].val@ || first_act(f, o) == o_act@[0].val@);
            }
            assert(keep((p0.0.val@, p0.1.val@), bot));
            assert(pair_vals(r@) =~= Seq::<(u16, u16)>::empty());
        }
        let ghost p0v = (p0.0.val@, p0.1.val@);
        let ghost cur0 = kept_ms(pair_vals(r@), bot);
        push_pair(&mut r, p0, Ghost(bot), Ghost(cur0));
        let p1 = eval_instruction_enc(
            f_act,
            f_ts,
            o_act,
            o_ts,
            Instruction::FindEnd,
            bot_ct,
            start_ct,
            end_ct,
            w,
        );
        proof {
            if f.len() == 0 {
                assert(last_act(f, o) == o_act@[o.len() - 1].val@);
            } else if o.len() == 0 {
                assert(last_act(f, o) == f_act@[f.len() - 1].val@);
            } else {
                assert(last_act(f, o) == f_act@[f.len() - 1].val@ || last_act(f, o) == o_act@[
                    o.len() - 1].val@);
            }
            assert(keep((p1.0.val@, p1.1.val@), bot));
        }
        let ghost p1v = (p1.0.val@, p1.1.val@);
        let ghost cur1 = kept_ms(pair_vals(r@), bot);
        push_pair(&mut r, p1, Ghost(bot), Ghost(cur1));
        proof {
            assert(kept_ms(pair_vals(r@), bot) =~= Multiset::empty().insert(p0v).insert(p1v));
        }
        let ghost base = pair_vals(r@);
        push_enc_if(&mut r, f_act, f_ts, o_act, o_ts, bot_ct, start_ct, end_ct, w, 0);
        push_enc_io(&mut r, f_act, f_ts, o_act, o_ts, bot_ct, start_ct, end_ct, w, 0);
        push_enc_cfo(&mut r, f_act, f_ts, o_act, o_ts, bot_ct, start_ct, end_ct, w, 0);
        push_enc_cof(&mut r, f_act, f_ts, o_act, o_ts, bot_ct, start_ct, end_ct, w, 0);
        proof {
            let flen = f_act@.len() as int;
            let olen = o_act@.len() as int;
            let probes = seq![Instruction::FindStart, Instruction::FindEnd];
            assert(base =~= probes.map_values(fm));
            assert(pair_vals(r@) =~= plan_spec(flen, olen).map_values(fm)) by {
                assert((probes + plan_inner_foreign(flen, 0)).map_values(fm) =~= probes.map_values(
                    fm,
                ) + plan_inner_foreign(flen, 0).map_values(fm));
                assert((probes + plan_inner_foreign(flen, 0) + plan_inner_own(olen, 0)).map_values(
                    fm,
                ) =~= (probes + plan_inner_foreign(flen, 0)).map_values(fm) + plan_inner_own(
                    olen,
                    0,
                ).map_values(fm));
                assert((probes + plan_inner_foreign(flen, 0) + plan_inner_own(olen, 0)
                    + plan_cross_fo(flen, olen, 0)).map_values(fm) =~= (probes + plan_inner_foreign(
                    flen,
                    0,
                ) + plan_inner_own(olen, 0)).map_values(fm) + plan_cross_fo(flen, olen, 0)
                    .map_values(fm));
                assert((probes + plan_inner_foreign(flen, 0) + plan_inner_own(olen, 0)
                    + plan_cross_fo(flen, olen, 0) + plan_cross_of(flen, olen, 0)).map_values(fm)
                    =~= (probes + plan_inner_foreign(flen, 0) + plan_inner_own(olen, 0)
                    + plan_cross_fo(flen, olen, 0)).map_values(fm) + plan_cross_of(flen, olen, 0)
                    .map_values(fm));
            }
        }
        proof {
            assert(kept_ms(pair_vals(r@), bot) =~= Multiset::empty().insert(p0v).insert(p1v).add(
                ms_inner_foreign(f, o, 0),
            ).add(ms_inner_own(f, o, 0)).add(ms_cross_fo(f, o, 0)).add(ms_cross_of(f, o, 0)));
            assert(p0v == (start, first_act(f, o)));
            assert(p1v == (last_act(f, o), end));
            assert(kept_ms(pair_vals(r@), bot) =~= case_survivors_ms(f, o, start, end));
        }
        r
    }

    /// How many decrypted pairs will survive the sentinel filter over
    /// all paired cases — each case keeps its two trace lengths plus
    /// one.  The count saturates at the machine limit; it sizes the key
    /// holder's decryption progress, not the raw candidate stream,
    /// which is larger.
    pub fn get_secret_edges_len(&self) -> (r: usize)
        ensures
            r == if spec_secret_edges_len(self.paired@, self.paired@.len() as int) <= usize::MAX {
                spec_secret_edges_len(self.paired@, self.paired@.len() as int)
            } else {
                usize::MAX as int
            },
    {
        let mut r: usize = 0;
        let mut c: usize = 0;
        while c < self.paired.len()
            invariant
                0 <= c <= self.paired@.len(),
                r == if spec_secret_edges_len(self.paired@, c as int) <= usize::MAX {
                    spec_secret_edges_len(self.paired@, c as int)
                } else {
                    usize::MAX as int
                },
            decreases self.paired@.len() - c,
        {
            proof {
                lemma_secret_edges_len_mono(self.paired@, c as int);
            }
            let case = &self.paired[c];
            r = r.saturating_add(case.f_act.len()).saturating_add(case.o_act.len()).saturating_add(
                1,
            );
            c = c + 1;
        }
        r
    }

    /// Pairs the foreign and own encrypted case tables by case name:
    /// every foreign case first, then the own cases that have no foreign
    /// events.  A missing side becomes an empty trace.
    pub fn compute_all_case_names(&mut self)
        requires
            forall|c1: int, c2: int|
                0 <= c1 < c2 < old(self).foreign_case_to_trace@.len() ==> (#[trigger] old(self).foreign_case_to_trace@[c1]).0@ != (#[trigger] old(self).foreign_case_to_trace@[c2]).0@,
            forall|c1: int, c2: int|
                0 <= c1 < c2 < old(self).own_case_to_trace@.len() ==> (#[trigger] old(self).own_case_to_trace@[c1]).0@ != (#[trigger] old(self).own_case_to_trace@[c2]).0@,
            forall|c: int|
                0 <= c < old(self).foreign_case_to_trace@.len() ==> (#[trigger] old(self).foreign_case_to_trace@[c]).1.0@.len() == old(self).foreign_case_to_trace@[c].1.1@.len(),
            forall|c: int|
                0 <= c < old(self).own_case_to_trace@.len() ==> (#[trigger] old(self).own_case_to_trace@[c]).1.0@.len() == old(self).own_case_to_trace@[c].1.1@.len(),
        ensures
            forall|k: int|
                0 <= k < final(self).paired@.len() ==> paired_entry_ok(
                    old(self).foreign_case_to_trace@,
                    old(self).own_case_to_trace@,
                    #[trigger] final(self).paired@[k],
                ),
            forall|k1: int, k2: int|
                0 <= k1 < k2 < final(self).paired@.len() ==> (#[trigger] final(self).paired@[k1]).name@ != (#[trigger] final(self).paired@[k2]).name@,
            forall|v: Seq<char>|
                (exists|k: int|
                    0 <= k < final(self).paired@.len() && (#[trigger] final(self).paired@[k]).name@ == v) <==> fc_has(old(self).foreign_case_to_trace@, v)
                    || oc_has(old(self).own_case_to_trace@, v),
            final(self).event_log == old(self).event_log,
            final(self).table == old(self).table,
            final(self).own_case_to_trace == old(self).own_case_to_trace,
            final(self).foreign_case_to_trace == old(self).foreign_case_to_trace,
            final(self).start == old(self).start,
            final(self).end == old(self).end,
            final(self).bottom == old(self).bottom,
            final(self).skey == old(self).skey,
            final(self).public_key == old(self).public_key,
            final(self).debug == old(self).debug,
    {
        let ghost fgh = self.foreign_case_to_trace@;
        let ghost ogh = self.own_case_to_trace@;
        let mut paired: Vec<BCase> = Vec::new();
        let mut c: usize = 0;
        while c < self.foreign_case_to_trace.len()
            invariant
                self == old(self),
                0 <= c <= fgh.len(),
                fgh == self.foreign_case_to_trace@,
                ogh == self.own_case_to_trace@,
                forall|c1: int, c2: int|
                    0 <= c1 < c2 < fgh.len() ==> (#[trigger] fgh[c1]).0@ != (#[trigger] fgh[c2]).0@,
                forall|c1: int, c2: int|
                    0 <= c1 < c2 < ogh.len() ==> (#[trigger] ogh[c1]).0@ != (#[trigger] ogh[c2]).0@,
                forall|cc: int|
                    0 <= cc < fgh.len() ==> (#[trigger] fgh[cc]).1.0@.len() == fgh[cc].1.1@.len(),
                forall|cc: int|
                    0 <= cc < ogh.len() ==> (#[trigger] ogh[cc]).1.0@.len() == ogh[cc].1.1@.len(),
                paired@.len() == c,
                forall|k: int|
                    0 <= k < c ==> (#[trigger] paired@[k]).name@ == fgh[k].0@,
                forall|k: int|
                    0 <= k < c ==> paired_entry_ok(fgh, ogh, #[trigger] paired@[k]),
            decreases fgh.len() - c,
        {
            let entry = &self.foreign_case_to_trace[c];
            let name = entry.0.clone();
            let facts = clone_acts(&entry.1.0);
            let ftss = clone_tss(&entry.1.1);
            let found = find_own_entry(&self.own_case_to_trace, &name);
            let (oacts, otss) = match found {
                Some(j) => {
                    let own_entry = &self.own_case_to_trace[j];
                    (clone_acts(&own_entry.1.0), clone_u32s(&own_entry.1.1))
                },
                None => (Vec::new(), Vec::new()),
            };
            let bc = BCase { name, f_act: facts, f_ts: ftss, o_act: oacts, o_ts: otss };
            proof {
                assert(fgh[c as int].0@ == bc.name@);
                lemma_choose_fc(fgh, c as int);
                if oc_has(ogh, bc.name@) {
                    lemma_choose_oc(ogh, oc_idx(ogh, bc.name@));
                }
                assert(paired_entry_ok(fgh, ogh, bc));
            }
            paired.push(bc);
            c = c + 1;
        }
        let mut j: usize = 0;
        while j < self.own_case_to_trace.len()
            invariant
                self == old(self),
                0 <= j <= ogh.len(),
                fgh == self.foreign_case_to_trace@,
                ogh == self.own_case_to_trace@,
                forall|c1: int, c2: int|
                    0 <= c1 < c2 < fgh.len() ==> (#[trigger] fgh[c1]).0@ != (#[trigger] fgh[c2]).0@,
                forall|c1: int, c2: int|
                    0 <= c1 < c2 < ogh.len() ==> (#[trigger] ogh[c1]).0@ != (#[trigger] ogh[c2]).0@,
                forall|cc: int|
                    0 <= cc < fgh.len() ==> (#[trigger] fgh[cc]).1.0@.len() == fgh[cc].1.1@.len(),
                forall|cc: int|
                    0 <= cc < ogh.len() ==> (#[trigger] ogh[cc]).1.0@.len() == ogh[cc].1.1@.len(),
                paired@.len() >= fgh.len(),
                forall|k: int|
                    0 <= k < fgh.len() ==> (#[trigger] paired@[k]).name@ == fgh[k].0@,
                forall|k: int|
                    0 <= k < paired@.len() ==> paired_entry_ok(fgh, ogh, #[trigger] paired@[k]),
                forall|k: int|
                    fgh.len() <= k < paired@.len() ==> !fc_has(
                        fgh,
                        (#[trigger] paired@[k]).name@,
                    ) && oc_has(ogh, paired@[k].name@),
                forall|k: int|
                    fgh.len() <= k < paired@.len() ==> exists|jj: int|
                        0 <= jj < j && ogh[jj].0@ == (#[trigger] paired@[k]).name@,
                forall|k1: int, k2: int|
                    0 <= k1 < k2 < paired@.len() ==> (#[trigger] paired@[k1]).name@ != (
                    #[trigger] paired@[k2]).name@,
                forall|jj: int|
                    0 <= jj < j ==> fc_has(fgh, (#[trigger] ogh[jj]).0@) || (exists|k: int|
                        0 <= k < paired@.len() && (#[trigger] paired@[k]).name@ == ogh[jj].0@),
            decreases ogh.len() - j,
        {
            let own_entry = &self.own_case_to_trace[j];
            let in_foreign = find_foreign_entry(&self.foreign_case_to_trace, &own_entry.0);
            match in_foreign {
                Some(_) => {
                    proof {
                        assert(fc_has(fgh, ogh[j as int].0@));
                    }
                },
                None => {
                    let name = own_entry.0.clone();
                    let oacts = clone_acts(&own_entry.1.0);
                    let otss = clone_u32s(&own_entry.1.1);
                    let bc = BCase {
                        name,
                        f_act: Vec::new(),
                        f_ts: Vec::new(),
                        o_act: oacts,
                        o_ts: otss,
                    };
                    proof {
                        assert(ogh[j as int].0@ == bc.name@);
                        lemma_choose_oc(ogh, j as int);
                        assert(paired_entry_ok(fgh, ogh, bc));
                        assert forall|k: int|
                            0 <= k < paired@.len() implies (#[trigger] paired@[k]).name@
                            != bc.name@ by {
                            if k < fgh.len() {
                                assert(paired@[k].name@ == fgh[k].0@);
                            } else {
                                let jj = choose|jj: int|
                                    0 <= jj < j && ogh[jj].0@ == paired@[k].name@;
                                if paired@[k].name@ == bc.name@ {
                                    assert(ogh[jj].0@ == ogh[j as int].0@);
                                }
                            }
                        }
                    }
                    let ghost pb = paired@;
                    paired.push(bc);
                    proof {
                        assert(paired@[paired@.len() - 1].name@ == ogh[j as int].0@);
                        assert forall|jj: int|
                            0 <= jj < j + 1 implies fc_has(fgh, (#[trigger] ogh[jj]).0@) || (
                        exists|k: int|
                            0 <= k < paired@.len() && (#[trigger] paired@[k]).name@
                                == ogh[jj].0@) by {
                            if jj < j {
                                if !fc_has(fgh, ogh[jj].0@) {
                                    let k = choose|k: int|
                                        0 <= k < pb.len() && (#[trigger] pb[k]).name@
                                            == ogh[jj].0@;
                                    assert(paired@[k].name@ == ogh[jj].0@);
                                }
                            } else {
                                assert(paired@[paired@.len() - 1].name@ == ogh[jj].0@);
                            }
                        }
                    }
                },
            }
            j = j + 1;
        }
        self.paired = paired;
        proof {
            assert forall|v: Seq<char>|
                (exists|k: int|
                    0 <= k < self.paired@.len() && (#[trigger] self.paired@[k]).name@ == v) <==> (
            fc_has(fgh, v) || oc_has(ogh, v)) by {
                if exists|k: int|
                    0 <= k < self.paired@.len() && (#[trigger] self.paired@[k]).name@ == v {
                    let k = choose|k: int|
                        0 <= k < self.paired@.len() && (#[trigger] self.paired@[k]).name@ == v;
                    if k < fgh.len() {
                        assert(fgh[k].0@ == v);
                        assert(fc_has(fgh, v));
                    } else {
                        assert(oc_has(ogh, v));
                    }
                }
                if fc_has(fgh, v) {
                    let i = choose|i: int| 0 <= i < fgh.len() && fgh[i].0@ == v;
                    assert(self.paired@[i].name@ == v);
                }
                if oc_has(ogh, v) && !fc_has(fgh, v) {
                    let jx = choose|i: int| 0 <= i < ogh.len() && ogh[i].0@ == v;
                    assert(fc_has(fgh, ogh[jx].0@) || (exists|k: int|
                        0 <= k < self.paired@.len() && (#[trigger] self.paired@[k]).name@
                            == ogh[jx].0@));
                }
            }
        }
    }

    /// Evaluates the candidate plans of the paired cases in the window
    /// `start_case .. upper_bound` and shuffles the resulting
    /// ciphertext pairs.
    pub fn find_all_secrets(&self, start_case: usize, upper_bound: usize) -> (r: Vec<
        (EncAct, EncAct),
    >)
        requires
            self.setup_ok(),
            start_case <= upper_bound <= self.paired@.len(),
            forall|c: int|
                0 <= c < self.paired@.len() ==> (#[trigger] self.paired@[c]).wf(
                    self.tbl().bot_spec(),
                ),
            forall|c: int|
                0 <= c < self.paired@.len() ==> (#[trigger] self.paired@[c]).kid_ok(self.kid()),
            forall|c: int|
                0 <= c < self.paired@.len() ==> bcase_in_table(
                    #[trigger] self.paired@[c],
                    self.tbl().labels@.len() as int,
                ),
        ensures
            forall|x: int|
                0 <= x < r@.len() ==> (#[trigger] r@[x]).0.kid@ == self.kid() && r@[x].1.kid@
                    == self.kid(),
            forall|x: int|
                0 <= x < r@.len() ==> ((#[trigger] r@[x]).0.val@ as int)
                    < self.tbl().labels@.len() && (r@[x].1.val@ as int)
                    < self.tbl().labels@.len(),
            kept_ms(pair_vals(r@), self.tbl().bot_spec()) =~= bcases_ms(
                self.paired@,
                self.tbl().start_spec(),
                self.tbl().end_spec(),
                start_case as int,
                upper_bound as int,
            ),
    {
        let ghost bot = self.tbl().bot_spec();
        let ghost start = self.tbl().start_spec();
        let ghost end = self.tbl().end_spec();
        let mut r: Vec<(EncAct, EncAct)> = Vec::new();
        let mut c = start_case;
        while c < upper_bound
            invariant
                self.setup_ok(),
                bot == self.tbl().bot_spec(),
                start == self.tbl().start_spec(),
                end == self.tbl().end_spec(),
                start_case <= c <= upper_bound <= self.paired@.len(),
                forall|cc: int|
                    0 <= cc < self.paired@.len() ==> (#[trigger] self.paired@[cc]).wf(bot),
                forall|cc: int|
                    0 <= cc < self.paired@.len() ==> (#[trigger] self.paired@[cc]).kid_ok(
                        self.kid(),
                    ),
                forall|cc: int|
                    0 <= cc < self.paired@.len() ==> bcase_in_table(
                        #[trigger] self.paired@[cc],
                        self.tbl().labels@.len() as int,
                    ),
                forall|x: int|
                    0 <= x < r@.len() ==> (#[trigger] r@[x]).0.kid@ == self.kid() && r@[x].1.kid@
                        == self.kid(),
                forall|x: int|
                    0 <= x < r@.len() ==> ((#[trigger] r@[x]).0.val@ as int)
                        < self.tbl().labels@.len() && (r@[x].1.val@ as int)
                        < self.tbl().labels@.len(),
                kept_ms(pair_vals(r@), bot) =~= bcases_ms(
                    self.paired@,
                    start,
                    end,
                    start_case as int,
                    c as int,
                ),
            decreases upper_bound - c,
        {
            let case = &self.paired[c];
            let facts = clone_acts(&case.f_act);
            let ftss = clone_tss(&case.f_ts);
            let oacts = clone_acts(&case.o_act);
            let otss = clone_u32s(&case.o_ts);
            proof {
                assert(enc_fseq(facts@, ftss@) =~= self.paired@[c as int].fseq());
                assert(enc_oseq(oacts@, otss@) =~= self.paired@[c as int].oseq());
            }
            let ghost before = r@;
            let ghost fac = facts@;
            let ghost fts = ftss@;
            let ghost oac = oacts@;
            let ghost ots = otss@;
            let mut pairs = self.find_secrets_for_case(facts, ftss, oacts, otss);
            let ghost ps = pairs@;
            r.append(&mut pairs);
            proof {
                assert(r@ =~= before + ps);
                assert(pair_vals(r@) =~= pair_vals(before) + pair_vals(ps));
                crate::pipeline::lemma_kept_ms_add(pair_vals(before), pair_vals(ps), bot);
                let n = self.tbl().labels@.len() as int;
                let fe = enc_fseq(fac, fts);
                let oe = enc_oseq(oac, ots);
                let fm = crate::pipeline::eval_of(fe, oe, bot, start, end);
                assert forall|x: int|
                    0 <= x < ps.len() implies ((#[trigger] ps[x]).0.val@ as int) < n && (
                ps[x].1.val@ as int) < n by {
                    assert(pair_vals(ps)[x] == (ps[x].0.val@, ps[x].1.val@));
                    assert(pair_vals(ps)[x] == fm(
                        plan_spec(fac.len() as int, oac.len() as int)[x],
                    ));
                    lemma_eval_bounded(
                        fe,
                        oe,
                        plan_spec(fac.len() as int, oac.len() as int)[x],
                        bot,
                        start,
                        end,
                        n,
                    );
                }
            }
            c = c + 1;
        }
        let ghost pre = r@;
        shuffle_vec(&mut r);
        proof {
            crate::pipeline::lemma_map_values_multiset(
                pre,
                r@,
                |p: (EncAct, EncAct)| (p.0.val@, p.1.val@),
            );
            crate::pipeline::lemma_kept_ms_same(pair_vals(pre), pair_vals(r@), bot);
            lemma_perm_elements(pre, r@);
            assert forall|x: int|
                0 <= x < r@.len() implies (#[trigger] r@[x]).0.kid@ == self.kid() && r@[x].1.kid@
                == self.kid() && ((r@[x]).0.val@ as int) < self.tbl().labels@.len() && (
            r@[x].1.val@ as int) < self.tbl().labels@.len() by {
                assert(appears_in(r@[x], pre));
                let y = choose|y: int| 0 <= y < pre.len() && pre[y] == r@[x];
                assert(pre[y] == r@[x]);
            }
        }
        r
    }
}

/// A pair stands somewhere in the sequence.
pub open spec fn appears_in(p: (EncAct, EncAct), s: Seq<(EncAct, EncAct)>) -> bool {
    exists|y: int| 0 <= y < s.len() && s[y] == p
}

/// A permutation only rearranges the elements: every element of the
/// result stands somewhere in the input.
proof fn lemma_perm_elements(s1: Seq<(EncAct, EncAct)>, s2: Seq<(EncAct, EncAct)>)
    requires
        s1.to_multiset() == s2.to_multiset(),
    ensures
        forall|x: int| 0 <= x < s2.len() ==> appears_in(#[trigger] s2[x], s1),
{
    broadcast use vstd::seq_lib::group_to_multiset_ensures;

    assert forall|x: int| 0 <= x < s2.len() implies appears_in(#[trigger] s2[x], s1) by {
        assert(s2.contains(s2[x]));
        assert(s2.to_multiset().count(s2[x]) > 0);
        assert(s1.to_multiset().count(s2[x]) > 0);
        assert(s1.contains(s2[x]));
        let y = choose|i: int| 0 <= i < s1.len() && s1[i] == s2[x];
        assert(0 <= y < s1.len() && s1[y] == s2[x]);
    }
}

/// Every component an instruction can evaluate to is an activity of the
/// case or one of the reserved indices: all positions of the table.
proof fn lemma_eval_bounded(
    f: Seq<Ev>,
    o: Seq<Ev>,
    ins: Instruction,
    bot: u16,
    start: u16,
    end: u16,
    n: int,
)
    requires
        forall|i: int| 0 <= i < f.len() ==> ((#[trigger] f[i]).act as int) < n,
        forall|i: int| 0 <= i < o.len() ==> ((#[trigger] o[i]).act as int) < n,
        (bot as int) < n,
        (start as int) < n,
        (end as int) < n,
    ensures
        (eval_instr(f, o, ins, bot, start, end).0 as int) < n,
        (eval_instr(f, o, ins, bot, start, end).1 as int) < n,
{
    match ins {
        Instruction::FindStart => {
            if f.len() + o.len() != 0 {
                if f.len() == 0 {
                    assert((o[0].act as int) < n);
                } else if o.len() == 0 {
                    assert((f[0].act as int) < n);
                }
            }
        },
        Instruction::FindEnd => {
            if f.len() + o.len() != 0 {
                if f.len() == 0 {
                    assert((o[o.len() - 1].act as int) < n);
                } else if o.len() == 0 {
                    assert((f[f.len() - 1].act as int) < n);
                }
            }
        },
        Instruction::InnerForeign { i } => {},
        Instruction::InnerOwn { j } => {},
        Instruction::CrossForeignOwn { i, j } => {},
        Instruction::CrossOwnForeign { j, i } => {},
    }
}

/// Monotonicity of the saturating edge-count sum.
proof fn lemma_secret_edges_len_mono(cs: Seq<BCase>, k: int)
    requires
        0 <= k,
    ensures
        spec_secret_edges_len(cs, k) >= 0,
    decreases k,
{
    if k > 0 {
        lemma_secret_edges_len_mono(cs, k - 1);
    }
}

/// The chosen index of a held foreign name is the only one that holds
/// it.
proof fn lemma_choose_fc(f: Seq<(String, (Vec<EncAct>, Vec<EncTs>))>, i: int)
    requires
        0 <= i < f.len(),
        forall|c1: int, c2: int|
            0 <= c1 < c2 < f.len() ==> (#[trigger] f[c1]).0@ != (#[trigger] f[c2]).0@,
    ensures
        fc_has(f, f[i].0@),
        fc_idx(f, f[i].0@) == i,
{
    assert(fc_has(f, f[i].0@));
    let j = fc_idx(f, f[i].0@);
    assert(0 <= j < f.len() && f[j].0@ == f[i].0@);
    if i < j {
        assert(f[i].0@ != f[j].0@);
    } else if j < i {
        assert(f[j].0@ != f[i].0@);
    }
}

/// The chosen index of a held own name is the only one that holds it.
proof fn lemma_choose_oc(o: Seq<(String, (Vec<EncAct>, Vec<u32>))>, i: int)
    requires
        0 <= i < o.len(),
        forall|c1: int, c2: int|
            0 <= c1 < c2 < o.len() ==> (#[trigger] o[c1]).0@ != (#[trigger] o[c2]).0@,
    ensures
        oc_has(o, o[i].0@),
        oc_idx(o, o[i].0@) == i,
{
    assert(oc_has(o, o[i].0@));
    let j = oc_idx(o, o[i].0@);
    assert(0 <= j < o.len() && o[j].0@ == o[i].0@);
    if i < j {
        assert(o[i].0@ != o[j].0@);
    } else if j < i {
        assert(o[j].0@ != o[i].0@);
    }
}

/// Finds the own entry with this name.
fn find_own_entry(o: &Vec<(String, (Vec<EncAct>, Vec<u32>))>, name: &String) -> (r: Option<usize>)
    ensures
        match r {
            Some(i) => i < o@.len() && o@[i as int].0@ == name@,
            None => !oc_has(o@, name@),
        },
{
    let mut i: usize = 0;
    while i < o.len()
        invariant
            0 <= i <= o@.len(),
            forall|k: int| 0 <= k < i ==> (#[trigger] o@[k]).0@ != name@,
        decreases o@.len() - i,
    {
        if o[i].0.eq(name) {
            return Some(i);
        }
        i = i + 1;
    }
    None
}

/// Finds the foreign entry with this name.
fn find_foreign_entry(f: &Vec<(String, (Vec<EncAct>, Vec<EncTs>))>, name: &String) -> (r: Option<
    usize,
>)
    ensures
        match r {
            Some(i) => i < f@.len() && f@[i as int].0@ == name@,
            None => !fc_has(f@, name@),
        },
{
    let mut i: usize = 0;
    while i < f.len()
        invariant
            0 <= i <= f@.len(),
            forall|k: int| 0 <= k < i ==> (#[trigger] f@[k]).0@ != name@,
        decreases f@.len() - i,
    {
        if f[i].0.eq(name) {
            return Some(i);
        }
        i = i + 1;
    }
    None
}

/// A vector of distinct labels that covers the union measures its
/// cardinality.
proof fn lemma_union_cardinality(log: Log, foreign: Seq<String>, u: Seq<String>)
    requires
        views_distinct(u),
        forall|v: Seq<char>| seq_has_view(u, v) <==> has_label(log, v) || seq_has_view(foreign, v),
    ensures
        union_label_set(log, foreign).finite(),
        union_label_set(log, foreign).len() == u.len(),
{
    broadcast use vstd::seq_lib::seq_to_set_is_finite;
    broadcast use vstd::set::group_set_axioms;

    let vs = u.map_values(|l: String| l@);
    assert(vs.no_duplicates()) by {
        assert forall|i: int, j: int| 0 <= i < j < vs.len() implies vs[i] != vs[j] by {
            assert(vs[i] == u[i]@);
            assert(vs[j] == u[j]@);
        }
    }
    vs.unique_seq_to_set();
    assert(vs.to_set() =~= union_label_set(log, foreign)) by {
        assert forall|v: Seq<char>| vs.to_set().contains(v) implies union_label_set(
            log,
            foreign,
        ).contains(v) by {
            assert(vs.contains(v));
            let i = choose|i: int| 0 <= i < vs.len() && vs[i] == v;
            assert(u[i]@ == v);
            assert(seq_has_view(u, v));
        }
        assert forall|v: Seq<char>| union_label_set(log, foreign).contains(v) implies vs.to_set()
            .contains(v) by {
            assert(seq_has_view(u, v));
            let i = choose|i: int| 0 <= i < u.len() && u[i]@ == v;
            assert(vs[i] == v);
            assert(vs.contains(v));
        }
    }
}

} // verus!
