//! The event-log model that both organizations hold.
//!
//! A log is a set of cases; each case carries a name and its events,
//! sorted by timestamp.  Activity labels are opaque strings; the
//! provider is expected to deliver events already sorted.

use vstd::prelude::*;

verus! {

/// One event: an activity label and a unix timestamp in seconds.
pub struct Event {
    pub label: String,
    pub ts: u32,
}

/// The trace of one case.
pub struct CaseTrace {
    pub name: String,
    pub events: Vec<Event>,
}

/// An event log: the cases of one organization.
pub struct Log {
    pub cases: Vec<CaseTrace>,
}

/// Some event of the log carries this label.
pub open spec fn has_label(log: Log, v: Seq<char>) -> bool {
    exists|c: int, e: int|
        0 <= c < log.cases@.len() && 0 <= e < log.cases@[c].events@.len()
            && log.cases@[c].events@[e].label@ == v
}

/// Some case of the log carries this name.
pub open spec fn has_case(log: Log, v: Seq<char>) -> bool {
    exists|c: int| 0 <= c < log.cases@.len() && log.cases@[c].name@ == v
}

/// The case names of the log are distinct.
pub open spec fn names_distinct(log: Log) -> bool {
    forall|c1: int, c2: int|
        0 <= c1 < c2 < log.cases@.len() ==> log.cases@[c1].name@ != log.cases@[c2].name@
}

/// Every case's events are sorted by timestamp.
pub open spec fn log_sorted(log: Log) -> bool {
    forall|c: int, e1: int, e2: int|
        0 <= c < log.cases@.len() && 0 <= e1 <= e2 < log.cases@[c].events@.len()
            ==> (#[trigger] log.cases@[c].events@[e1]).ts <= (#[trigger] log.cases@[c].events@[e2]).ts
}

/// No label of the log uses a reserved name.
pub open spec fn labels_unreserved(log: Log) -> bool {
    forall|v: Seq<char>| has_label(log, v) ==> v != "bottom"@ && v != "start"@ && v != "end"@
}

/// A sequence of strings holds this view.
pub open spec fn seq_has_view(s: Seq<String>, v: Seq<char>) -> bool {
    exists|i: int| 0 <= i < s.len() && s[i]@ == v
}

/// The views of a sequence of strings are distinct.
pub open spec fn views_distinct(s: Seq<String>) -> bool {
    forall|i: int, j: int| 0 <= i < j < s.len() ==> s[i]@ != s[j]@
}

/// Whether a vector of strings holds a view, by linear search.
pub fn contains_string(v: &Vec<String>, l: &String) -> (r: bool)
    ensures
        r == seq_has_view(v@, l@),
{
    let mut i: usize = 0;
    while i < v.len()
        invariant
            0 <= i <= v@.len(),
            forall|j: int| 0 <= j < i ==> v@[j]@ != l@,
        decreases v@.len() - i,
    {
        if v[i].eq(l) {
            return true;
        }
        i = i + 1;
    }
    false
}

/// The timestamp of an event.
pub fn get_timestamp(event: &Event) -> (r: u32)
    ensures
        r == event.ts,
{
    event.ts
}

/// Collects the distinct activity labels of a log.
pub fn find_activities(event_log: &Log) -> (r: Vec<String>)
    ensures
        views_distinct(r@),
        forall|v: Seq<char>| seq_has_view(r@, v) <==> has_label(*event_log, v),
{
    let mut r: Vec<String> = Vec::new();
    let mut c: usize = 0;
    while c < event_log.cases.len()
        invariant
            0 <= c <= event_log.cases@.len(),
            views_distinct(r@),
            forall|v: Seq<char>|
                seq_has_view(r@, v) <==> exists|c2: int, e2: int|
                    0 <= c2 < c && 0 <= e2 < event_log.cases@[c2].events@.len()
                        && event_log.cases@[c2].events@[e2].label@ == v,
        decreases event_log.cases@.len() - c,
    {
        let case = &event_log.cases[c];
        let mut e: usize = 0;
        while e < case.events.len()
            invariant
                0 <= e <= case.events@.len(),
                c < event_log.cases@.len(),
                case == &event_log.cases@[c as int],
                views_distinct(r@),
                forall|v: Seq<char>|
                    seq_has_view(r@, v) <==> (exists|c2: int, e2: int|
                        0 <= c2 < c && 0 <= e2 < event_log.cases@[c2].events@.len()
                            && event_log.cases@[c2].events@[e2].label@ == v) || (exists|e2: int|
                        0 <= e2 < e && case.events@[e2].label@ == v),
            decreases case.events@.len() - e,
        {
            let ghost r0 = r@;
            let l = &case.events[e].label;
            let had = contains_string(&r, l);
            if !had {
                r.push(l.clone());
            }
            proof {
                if had {
                    assert(r@ == r0);
                } else {
                    assert(r@ =~= r0.push(r@[r0.len() as int]));
                    assert(r@[r0.len() as int]@ == l@);
                }
                assert(seq_has_view(r@, l@)) by {
                    if had {
                        let i = choose|i: int| 0 <= i < r0.len() && r0[i]@ == l@;
                        assert(r@[i]@ == l@);
                    } else {
                        assert(r@[r0.len() as int]@ == l@);
                    }
                }
                assert(views_distinct(r@)) by {
                    if !had {
                        assert forall|a: int, b: int| 0 <= a < b < r@.len() implies r@[a]@ != r@[b]@ by {
                            if b < r0.len() {
                            } else {
                                assert(r@[b]@ == l@);
                                assert(r@[a] == r0[a]);
                            }
                        }
                    }
                }
                assert forall|v: Seq<char>|
                    seq_has_view(r@, v) <==> ((exists|c2: int, e2: int|
                        0 <= c2 < c && 0 <= e2 < event_log.cases@[c2].events@.len()
                            && event_log.cases@[c2].events@[e2].label@ == v) || (exists|e2: int|
                        0 <= e2 < e + 1 && case.events@[e2].label@ == v)) by {
                    if seq_has_view(r@, v) {
                        let i = choose|i: int| 0 <= i < r@.len() && r@[i]@ == v;
                        if i < r0.len() {
                            assert(r0[i]@ == v);
                            assert(seq_has_view(r0, v));
                        } else {
                            assert(v == l@);
                            assert(case.events@[e as int].label@ == v);
                        }
                    }
                    if exists|c2: int, e2: int|
                        0 <= c2 < c && 0 <= e2 < event_log.cases@[c2].events@.len()
                            && event_log.cases@[c2].events@[e2].label@ == v {
                        assert(seq_has_view(r0, v));
                        let i = choose|i: int| 0 <= i < r0.len() && r0[i]@ == v;
                        assert(r@[i]@ == v);
                    }
                    if exists|e2: int| 0 <= e2 < e + 1 && case.events@[e2].label@ == v {
                        let e2 = choose|e2: int| 0 <= e2 < e + 1 && case.events@[e2].label@ == v;
                        if e2 < e {
                            assert(seq_has_view(r0, v));
                            let i = choose|i: int| 0 <= i < r0.len() && r0[i]@ == v;
                            assert(r@[i]@ == v);
                        } else {
                            assert(v == l@);
                        }
                    }
                }
            }
            e = e + 1;
        }
        c = c + 1;
        proof {
            assert forall|v: Seq<char>|
                seq_has_view(r@, v) <==> exists|c2: int, e2: int|
                    0 <= c2 < c && 0 <= e2 < event_log.cases@[c2].events@.len()
                        && event_log.cases@[c2].events@[e2].label@ == v by {}
        }
    }
    r
}

/// Unions two vectors of distinct labels into one, keeping the first
/// vector's entries and appending the second's that are new.
pub fn union_labels(base: Vec<String>, more: &Vec<String>) -> (r: Vec<String>)
    requires
        views_distinct(base@),
    ensures
        views_distinct(r@),
        forall|v: Seq<char>|
            seq_has_view(r@, v) <==> seq_has_view(base@, v) || seq_has_view(more@, v),
{
    let mut r = base;
    let mut i: usize = 0;
    while i < more.len()
        invariant
            0 <= i <= more@.len(),
            views_distinct(r@),
            forall|v: Seq<char>|
                seq_has_view(r@, v) <==> seq_has_view(base@, v) || (exists|j: int|
                    0 <= j < i && more@[j]@ == v),
        decreases more@.len() - i,
    {
        let ghost r0 = r@;
        let l = &more[i];
        let had = contains_string(&r, l);
        if !had {
            r.push(l.clone());
        }
        proof {
            if had {
                assert(r@ == r0);
            } else {
                assert(r@ =~= r0.push(r@[r0.len() as int]));
                assert(r@[r0.len() as int]@ == l@);
            }
            assert(seq_has_view(r@, l@)) by {
                if had {
                    let k = choose|k: int| 0 <= k < r0.len() && r0[k]@ == l@;
                    assert(r@[k]@ == l@);
                } else {
                    assert(r@[r0.len() as int]@ == l@);
                }
            }
            assert(views_distinct(r@)) by {
                if !had {
                    assert forall|a: int, b: int| 0 <= a < b < r@.len() implies r@[a]@ != r@[b]@ by {
                        if b < r0.len() {
                        } else {
                            assert(r@[b]@ == l@);
                            assert(r@[a] == r0[a]);
                        }
                    }
                }
            }
            assert forall|v: Seq<char>|
                seq_has_view(r@, v) <==> (seq_has_view(base@, v) || (exists|j: int|
                    0 <= j < i + 1 && more@[j]@ == v)) by {
                if seq_has_view(r@, v) {
                    let k = choose|k: int| 0 <= k < r@.len() && r@[k]@ == v;
                    if k < r0.len() {
                        assert(r0[k]@ == v);
                        assert(seq_has_view(r0, v));
                    } else {
                        assert(v == l@);
                        assert(more@[i as int]@ == v);
                    }
                }
                if seq_has_view(base@, v) || (exists|j: int| 0 <= j < i && more@[j]@ == v) {
                    assert(seq_has_view(r0, v));
                    let k = choose|k: int| 0 <= k < r0.len() && r0[k]@ == v;
                    assert(r@[k]@ == v);
                }
                if v == more@[i as int]@ {
                    assert(seq_has_view(r@, v));
                }
            }
        }
        i = i + 1;
    }
    r
}

/// Finds a case of the log by name.
pub fn find_case_idx(log: &Log, name: &String) -> (r: Option<usize>)
    ensures
        match r {
            Some(i) => i < log.cases@.len() && log.cases@[i as int].name@ == name@,
            None => !has_case(*log, name@),
        },
{
    let mut i: usize = 0;
    while i < log.cases.len()
        invariant
            0 <= i <= log.cases@.len(),
            forall|j: int| 0 <= j < i ==> log.cases@[j].name@ != name@,
        decreases log.cases@.len() - i,
    {
        if log.cases[i].name.eq(name) {
            return Some(i);
        }
        i = i + 1;
    }
    None
}

} // verus!
