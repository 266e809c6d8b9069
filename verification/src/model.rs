//! Plaintext model of traces and of the directly-follows relation.
//!
//! Events carry an activity index and a unix timestamp.  Each party's trace
//! of a case is sorted by timestamp; the reference order of the whole case
//! is the timestamp-order merge of the two traces, with equal timestamps
//! resolved toward the foreign (key holder's) side.  The directly-follows
//! edges of a case are the adjacent pairs of that merged trace, framed by a
//! synthetic start and end marker.

use vstd::prelude::*;
use vstd::multiset::Multiset;

verus! {

/// One event of a case: an activity index and a unix timestamp (seconds).
#[derive(Clone, Copy, PartialEq, Eq, Structural, Debug)]
pub struct Ev {
    pub act: u16,
    pub ts: u32,
}

/// The trace is sorted by timestamp (non-decreasing).
pub open spec fn sorted_ts(s: Seq<Ev>) -> bool {
    forall|i: int, j: int| 0 <= i <= j < s.len() ==> s[i].ts <= s[j].ts
}

/// Timestamp-order merge of a foreign and an own trace.  On equal
/// timestamps the foreign event goes first: this tie-break is part of the
/// protocol, so that both parties agree on one reference order.
pub open spec fn merged(f: Seq<Ev>, o: Seq<Ev>) -> Seq<Ev>
    decreases f.len() + o.len(),
{
    if f.len() == 0 {
        o
    } else if o.len() == 0 {
        f
    } else if f.first().ts <= o.first().ts {
        seq![f.first()] + merged(f.drop_first(), o)
    } else {
        seq![o.first()] + merged(f, o.drop_first())
    }
}

/// The multiset of adjacent activity pairs of a trace.
pub open spec fn adj_pairs(m: Seq<Ev>) -> Multiset<(u16, u16)>
    decreases m.len(),
{
    if m.len() < 2 {
        Multiset::empty()
    } else {
        adj_pairs(m.drop_first()).insert((m[0].act, m[1].act))
    }
}

/// All directly-follows edges of one case: the adjacent pairs of the merged
/// trace, plus a start edge into its first and an end edge out of its last
/// activity.  An empty case produces no edges.
pub open spec fn case_edges(m: Seq<Ev>, start: u16, end: u16) -> Multiset<(u16, u16)> {
    if m.len() == 0 {
        Multiset::empty()
    } else {
        adj_pairs(m).insert((start, m[0].act)).insert((m.last().act, end))
    }
}

/// Merging two sorted traces yields a sorted trace of their combined
/// length, and its first element is the earlier of the two first elements
/// (the foreign one on a tie).
pub proof fn lemma_merged_basic(f: Seq<Ev>, o: Seq<Ev>)
    requires
        sorted_ts(f),
        sorted_ts(o),
    ensures
        merged(f, o).len() == f.len() + o.len(),
        sorted_ts(merged(f, o)),
        f.len() > 0 && o.len() > 0 ==> merged(f, o).first() == (if f.first().ts
            <= o.first().ts {
            f.first()
        } else {
            o.first()
        }),
    decreases f.len() + o.len(),
{
    if f.len() == 0 || o.len() == 0 {
    } else if f.first().ts <= o.first().ts {
        lemma_merged_basic(f.drop_first(), o);
        let m = merged(f, o);
        let rest = merged(f.drop_first(), o);
        assert forall|i: int, j: int| 0 <= i <= j < m.len() implies m[i].ts <= m[j].ts by {
            if i == 0 && j > 0 {
                assert(m[j] == rest[j - 1]);
                if rest.len() > 0 {
                    if f.drop_first().len() > 0 && o.len() > 0 {
                        assert(rest.first() == (if f.drop_first().first().ts <= o.first().ts {
                            f.drop_first().first()
                        } else {
                            o.first()
                        }));
                    }
                    assert(m[0].ts <= rest[0].ts);
                    assert(rest[0].ts <= rest[j - 1].ts);
                }
            } else if i > 0 {
                assert(m[i] == rest[i - 1]);
                assert(m[j] == rest[j - 1]);
            }
        }
    } else {
        lemma_merged_basic(f, o.drop_first());
        let m = merged(f, o);
        let rest = merged(f, o.drop_first());
        assert forall|i: int, j: int| 0 <= i <= j < m.len() implies m[i].ts <= m[j].ts by {
            if i == 0 && j > 0 {
                assert(m[j] == rest[j - 1]);
                if rest.len() > 0 {
                    if f.len() > 0 && o.drop_first().len() > 0 {
                        assert(rest.first() == (if f.first().ts <= o.drop_first().first().ts {
                            f.first()
                        } else {
                            o.drop_first().first()
                        }));
                    }
                    assert(m[0].ts <= rest[0].ts);
                    assert(rest[0].ts <= rest[j - 1].ts);
                }
            } else if i > 0 {
                assert(m[i] == rest[i - 1]);
                assert(m[j] == rest[j - 1]);
            }
        }
    }
}

/// The last element of a merge: the latest event of the two traces; the
/// own one when the latest timestamps are equal.
pub proof fn lemma_merged_last(f: Seq<Ev>, o: Seq<Ev>)
    requires
        sorted_ts(f),
        sorted_ts(o),
        f.len() >= 1,
        o.len() >= 1,
    ensures
        merged(f, o).last() == (if f.last().ts <= o.last().ts {
            o.last()
        } else {
            f.last()
        }),
    decreases f.len() + o.len(),
{
    lemma_merged_basic(f, o);
    if f.first().ts <= o.first().ts {
        let fd = f.drop_first();
        let rest = merged(fd, o);
        assert(merged(f, o) == seq![f.first()] + rest);
        lemma_merged_basic(fd, o);
        assert(merged(f, o).last() == rest.last());
        if fd.len() == 0 {
            assert(rest == o);
            assert(f.last() == f.first());
            assert(f.last().ts <= o.first().ts);
            assert(o.first().ts <= o.last().ts);
        } else {
            assert(sorted_ts(fd)) by {
                assert forall|i: int, j: int|
                    0 <= i <= j < fd.len() implies fd[i].ts <= fd[j].ts by {
                    assert(fd[i] == f[i + 1]);
                    assert(fd[j] == f[j + 1]);
                }
            }
            lemma_merged_last(fd, o);
            assert(fd.last() == f.last());
        }
    } else {
        let od = o.drop_first();
        let rest = merged(f, od);
        assert(merged(f, o) == seq![o.first()] + rest);
        lemma_merged_basic(f, od);
        assert(merged(f, o).last() == rest.last());
        if od.len() == 0 {
            assert(rest == f);
            assert(o.last() == o.first());
            assert(o.last().ts < f.first().ts);
            assert(f.first().ts <= f.last().ts);
        } else {
            assert(sorted_ts(od)) by {
                assert forall|i: int, j: int|
                    0 <= i <= j < od.len() implies od[i].ts <= od[j].ts by {
                    assert(od[i] == o[i + 1]);
                    assert(od[j] == o[j + 1]);
                }
            }
            lemma_merged_last(f, od);
            assert(od.last() == o.last());
        }
    }
}

} // verus!
