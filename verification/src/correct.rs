//! Correctness of the edge-evaluation kernel.
//!
//! The central theorem: for two sorted traces, the multiset of surviving
//! candidate pairs of the plan (everything but the start and end probes)
//! equals the multiset of adjacent activity pairs of the timestamp-order
//! merge of the traces.  The proof removes the earliest event — the
//! foreign one on a timestamp tie — and shows that exactly one candidate
//! of the plan survives for it, while the validity of every other
//! candidate is unchanged by the removal.

use vstd::prelude::*;
use vstd::multiset::Multiset;

use crate::model::Ev;
use crate::model::adj_pairs;
use crate::model::merged;
use crate::model::sorted_ts;
use crate::model::lemma_merged_basic;
use crate::kernel::inner_foreign_valid;
use crate::kernel::inner_own_valid;
use crate::kernel::cross_fo_valid;
use crate::kernel::cross_of_valid;
use crate::kernel::ms_inner_foreign;
use crate::kernel::ms_inner_own;
use crate::kernel::ms_cross_fo_row;
use crate::kernel::ms_cross_fo;
use crate::kernel::ms_cross_of_row;
use crate::kernel::ms_cross_of;
use crate::kernel::ms_unmasked;

verus! {

/// A sorted trace stays sorted when its first event is removed.
proof fn lemma_sorted_drop(s: Seq<Ev>)
    requires
        sorted_ts(s),
        s.len() >= 1,
    ensures
        sorted_ts(s.drop_first()),
{
    assert forall|i: int, j: int|
        0 <= i <= j < s.drop_first().len() implies s.drop_first()[i].ts
        <= s.drop_first()[j].ts by {
        assert(s.drop_first()[i] == s[i + 1]);
        assert(s.drop_first()[j] == s[j + 1]);
    }
}

/// Adjacent pairs of a trace with one event put in front.
proof fn lemma_adj_cons(x: Ev, s: Seq<Ev>)
    ensures
        s.len() >= 1 ==> adj_pairs(seq![x] + s) =~= adj_pairs(s).insert((x.act, s[0].act)),
        s.len() == 0 ==> adj_pairs(seq![x] + s) =~= Multiset::empty(),
{
    let m = seq![x] + s;
    if s.len() >= 1 {
        assert(m.drop_first() =~= s);
        assert(m.len() >= 2);
        assert(m[0] == x);
        assert(m[1] == s[0]);
    }
}

/// Removing the foreign head does not change an `InnerForeign` candidate
/// with a positive index; its own index shifts down by one.
proof fn lemma_if_shift_f(f: Seq<Ev>, o: Seq<Ev>, k: int)
    requires
        f.len() >= 1,
        k >= 1,
    ensures
        ms_inner_foreign(f, o, k) =~= ms_inner_foreign(f.drop_first(), o, k - 1),
    decreases f.len() - k,
{
    let fd = f.drop_first();
    if k + 1 >= f.len() {
    } else {
        lemma_if_shift_f(f, o, k + 1);
        assert(fd[k - 1] == f[k]);
        assert(fd[k] == f[k + 1]);
        assert(inner_foreign_valid(f, o, k) == inner_foreign_valid(fd, o, k - 1));
    }
}

/// When the foreign head comes first, removing it does not change any
/// `InnerOwn` candidate: the head can never sit between two own events.
proof fn lemma_io_drop_f(f: Seq<Ev>, o: Seq<Ev>, k: int)
    requires
        sorted_ts(o),
        f.len() >= 1,
        o.len() >= 1,
        f[0].ts <= o[0].ts,
        k >= 0,
    ensures
        ms_inner_own(f, o, k) =~= ms_inner_own(f.drop_first(), o, k),
    decreases o.len() - k,
{
    let fd = f.drop_first();
    if k + 1 >= o.len() {
    } else {
        lemma_io_drop_f(f, o, k + 1);
        assert(inner_own_valid(f, o, k) == inner_own_valid(fd, o, k)) by {
            if inner_own_valid(fd, o, k) {
                assert forall|k2: int| 0 <= k2 < f.len() implies f[k2].ts <= o[k].ts || f[k2].ts
                    > o[k + 1].ts by {
                    if k2 == 0 {
                        assert(f[0].ts <= o[0].ts);
                        assert(o[0].ts <= o[k].ts);
                    } else {
                        assert(fd[k2 - 1] == f[k2]);
                        assert(fd[k2 - 1].ts <= o[k].ts || fd[k2 - 1].ts > o[k + 1].ts);
                    }
                }
            }
            if inner_own_valid(f, o, k) {
                assert forall|k2: int| 0 <= k2 < fd.len() implies fd[k2].ts <= o[k].ts || fd[k2].ts
                    > o[k + 1].ts by {
                    assert(fd[k2] == f[k2 + 1]);
                }
            }
        }
    }
}

/// A `CrossForeignOwn` row with a positive foreign index is unchanged by
/// removing the foreign head.
proof fn lemma_cfo_row_shift_f(f: Seq<Ev>, o: Seq<Ev>, i: int, k: int)
    requires
        f.len() >= 1,
        i >= 1,
        k >= 0,
    ensures
        ms_cross_fo_row(f, o, i, k) =~= ms_cross_fo_row(f.drop_first(), o, i - 1, k),
    decreases o.len() - k,
{
    let fd = f.drop_first();
    if k >= o.len() {
    } else {
        lemma_cfo_row_shift_f(f, o, i, k + 1);
        if i < f.len() {
            assert(fd[i - 1] == f[i]);
            if i + 1 < f.len() {
                assert(fd[i] == f[i + 1]);
            }
        }
        assert(cross_fo_valid(f, o, i, k) == cross_fo_valid(fd, o, i - 1, k));
    }
}

/// All `CrossForeignOwn` rows with positive indices shift down by one
/// when the foreign head is removed.
proof fn lemma_cfo_shift_f(f: Seq<Ev>, o: Seq<Ev>, k: int)
    requires
        f.len() >= 1,
        k >= 1,
    ensures
        ms_cross_fo(f, o, k) =~= ms_cross_fo(f.drop_first(), o, k - 1),
    decreases f.len() - k,
{
    if k >= f.len() {
    } else {
        lemma_cfo_shift_f(f, o, k + 1);
        lemma_cfo_row_shift_f(f, o, k, 0);
    }
}

/// When the foreign head comes first, a `CrossOwnForeign` row is
/// unchanged by removing it: no own event can be followed by the head.
proof fn lemma_cof_row_drop_f(f: Seq<Ev>, o: Seq<Ev>, j: int, k: int)
    requires
        sorted_ts(o),
        f.len() >= 1,
        o.len() >= 1,
        f[0].ts <= o[0].ts,
        0 <= j < o.len(),
        k >= 0,
    ensures
        k >= 1 ==> ms_cross_of_row(f, o, j, k) =~= ms_cross_of_row(f.drop_first(), o, j, k - 1),
        k == 0 ==> ms_cross_of_row(f, o, j, k) =~= ms_cross_of_row(f.drop_first(), o, j, 0),
    decreases f.len() - k,
{
    let fd = f.drop_first();
    if k >= f.len() {
    } else if k == 0 {
        assert(!cross_of_valid(f, o, j, 0)) by {
            assert(o[j].ts >= o[0].ts);
        }
        lemma_cof_row_drop_f(f, o, j, 1);
    } else {
        lemma_cof_row_drop_f(f, o, j, k + 1);
        assert(fd[k - 1] == f[k]);
        assert(cross_of_valid(f, o, j, k) == cross_of_valid(fd, o, j, k - 1)) by {
            if k - 1 == 0 {
                assert(f[0].ts <= o[0].ts);
                assert(o[0].ts <= o[j].ts);
            } else {
                assert(fd[k - 2] == f[k - 1]);
            }
        }
    }
}

/// The whole `CrossOwnForeign` family is unchanged by removing a foreign
/// head that comes first.
proof fn lemma_cof_drop_f(f: Seq<Ev>, o: Seq<Ev>, k: int)
    requires
        sorted_ts(o),
        f.len() >= 1,
        o.len() >= 1,
        f[0].ts <= o[0].ts,
        k >= 0,
    ensures
        ms_cross_of(f, o, k) =~= ms_cross_of(f.drop_first(), o, k),
    decreases o.len() - k,
{
    if k >= o.len() {
    } else {
        lemma_cof_drop_f(f, o, k + 1);
        lemma_cof_row_drop_f(f, o, k, 0);
    }
}

/// When the next merged event after the foreign head is also foreign, no
/// cross candidate of the head survives.
proof fn lemma_cfo_row0_empty(f: Seq<Ev>, o: Seq<Ev>, k: int)
    requires
        sorted_ts(o),
        f.len() >= 2,
        o.len() >= 1,
        f[1].ts <= o[0].ts,
        k >= 0,
    ensures
        ms_cross_fo_row(f, o, 0, k) =~= Multiset::empty(),
    decreases o.len() - k,
{
    if k >= o.len() {
    } else {
        lemma_cfo_row0_empty(f, o, k + 1);
        assert(!cross_fo_valid(f, o, 0, k)) by {
            assert(o[k].ts >= o[0].ts);
        }
    }
}

/// Beyond the first own event, no cross candidate of the foreign head
/// survives.
proof fn lemma_cfo_row0_tail_empty(f: Seq<Ev>, o: Seq<Ev>, k: int)
    requires
        sorted_ts(o),
        f.len() >= 1,
        o.len() >= 1,
        f[0].ts <= o[0].ts,
        k >= 1,
    ensures
        ms_cross_fo_row(f, o, 0, k) =~= Multiset::empty(),
    decreases o.len() - k,
{
    if k >= o.len() {
    } else {
        lemma_cfo_row0_tail_empty(f, o, k + 1);
        assert(!cross_fo_valid(f, o, 0, k)) by {
            assert(o[k - 1].ts >= o[0].ts);
        }
    }
}

/// The surviving candidates of a case with no foreign events are exactly
/// the adjacent own pairs.
proof fn lemma_unmasked_f_empty(o: Seq<Ev>, k: int)
    requires
        0 <= k <= o.len(),
    ensures
        ms_inner_own(Seq::<Ev>::empty(), o, k) =~= adj_pairs(o.skip(k)),
    decreases o.len() - k,
{
    let f = Seq::<Ev>::empty();
    if k + 1 >= o.len() {
        assert(adj_pairs(o.skip(k)) =~= Multiset::empty()) by {
            assert(o.skip(k).len() < 2);
        }
    } else {
        lemma_unmasked_f_empty(o, k + 1);
        assert(inner_own_valid(f, o, k));
        let s = o.skip(k);
        assert(s.len() >= 2);
        assert(s.drop_first() =~= o.skip(k + 1));
        assert(s[0] == o[k]);
        assert(s[1] == o[k + 1]);
        assert(adj_pairs(s) == adj_pairs(s.drop_first()).insert((s[0].act, s[1].act)));
    }
}

/// The surviving candidates of a case with no own events are exactly the
/// adjacent foreign pairs.
proof fn lemma_unmasked_o_empty(f: Seq<Ev>, k: int)
    requires
        0 <= k <= f.len(),
    ensures
        ms_inner_foreign(f, Seq::<Ev>::empty(), k) =~= adj_pairs(f.skip(k)),
    decreases f.len() - k,
{
    let o = Seq::<Ev>::empty();
    if k + 1 >= f.len() {
        assert(adj_pairs(f.skip(k)) =~= Multiset::empty()) by {
            assert(f.skip(k).len() < 2);
        }
    } else {
        lemma_unmasked_o_empty(f, k + 1);
        assert(inner_foreign_valid(f, o, k));
        let s = f.skip(k);
        assert(s.len() >= 2);
        assert(s.drop_first() =~= f.skip(k + 1));
        assert(s[0] == f[k]);
        assert(s[1] == f[k + 1]);
        assert(adj_pairs(s) == adj_pairs(s.drop_first()).insert((s[0].act, s[1].act)));
    }
}

/// With no foreign events, the other candidate families are empty.
proof fn lemma_families_f_empty(o: Seq<Ev>, k: int)
    requires
        k >= 0,
    ensures
        ms_cross_of(Seq::<Ev>::empty(), o, k) =~= Multiset::empty(),
    decreases o.len() - k,
{
    if k >= o.len() {
    } else {
        lemma_families_f_empty(o, k + 1);
    }
}

/// With no own events, the cross family toward foreign is empty.
proof fn lemma_families_o_empty(f: Seq<Ev>, k: int)
    requires
        k >= 0,
    ensures
        ms_cross_fo(f, Seq::<Ev>::empty(), k) =~= Multiset::empty(),
    decreases f.len() - k,
{
    if k >= f.len() {
    } else {
        lemma_families_o_empty(f, k + 1);
    }
}

// ---- mirror lemmas: the own head comes first (strictly earlier) ----

/// Removing the own head does not change an `InnerOwn` candidate with a
/// positive index.
proof fn lemma_io_shift_o(f: Seq<Ev>, o: Seq<Ev>, k: int)
    requires
        o.len() >= 1,
        k >= 1,
    ensures
        ms_inner_own(f, o, k) =~= ms_inner_own(f, o.drop_first(), k - 1),
    decreases o.len() - k,
{
    let od = o.drop_first();
    if k + 1 >= o.len() {
    } else {
        lemma_io_shift_o(f, o, k + 1);
        assert(od[k - 1] == o[k]);
        assert(od[k] == o[k + 1]);
        assert(inner_own_valid(f, o, k) == inner_own_valid(f, od, k - 1));
    }
}

/// When the own head comes strictly first, removing it does not change
/// any `InnerForeign` candidate.
proof fn lemma_if_drop_o(f: Seq<Ev>, o: Seq<Ev>, k: int)
    requires
        sorted_ts(f),
        f.len() >= 1,
        o.len() >= 1,
        o[0].ts < f[0].ts,
        k >= 0,
    ensures
        ms_inner_foreign(f, o, k) =~= ms_inner_foreign(f, o.drop_first(), k),
    decreases f.len() - k,
{
    let od = o.drop_first();
    if k + 1 >= f.len() {
    } else {
        lemma_if_drop_o(f, o, k + 1);
        assert(inner_foreign_valid(f, o, k) == inner_foreign_valid(f, od, k)) by {
            if inner_foreign_valid(f, od, k) {
                assert forall|k2: int| 0 <= k2 < o.len() implies o[k2].ts < f[k].ts || o[k2].ts
                    >= f[k + 1].ts by {
                    if k2 == 0 {
                        assert(o[0].ts < f[0].ts);
                        assert(f[0].ts <= f[k].ts);
                    } else {
                        assert(od[k2 - 1] == o[k2]);
                        assert(od[k2 - 1].ts < f[k].ts || od[k2 - 1].ts >= f[k + 1].ts);
                    }
                }
            }
            if inner_foreign_valid(f, o, k) {
                assert forall|k2: int| 0 <= k2 < od.len() implies od[k2].ts < f[k].ts || od[k2].ts
                    >= f[k + 1].ts by {
                    assert(od[k2] == o[k2 + 1]);
                }
            }
        }
    }
}

/// A `CrossOwnForeign` row with a positive own index is unchanged by
/// removing the own head.
proof fn lemma_cof_row_shift_o(f: Seq<Ev>, o: Seq<Ev>, j: int, k: int)
    requires
        o.len() >= 1,
        j >= 1,
        k >= 0,
    ensures
        ms_cross_of_row(f, o, j, k) =~= ms_cross_of_row(f, o.drop_first(), j - 1, k),
    decreases f.len() - k,
{
    let od = o.drop_first();
    if k >= f.len() {
    } else {
        lemma_cof_row_shift_o(f, o, j, k + 1);
        if j < o.len() {
            assert(od[j - 1] == o[j]);
            if j + 1 < o.len() {
                assert(od[j] == o[j + 1]);
            }
        }
        assert(cross_of_valid(f, o, j, k) == cross_of_valid(f, od, j - 1, k));
    }
}

/// All `CrossOwnForeign` rows with positive indices shift down by one
/// when the own head is removed.
proof fn lemma_cof_shift_o(f: Seq<Ev>, o: Seq<Ev>, k: int)
    requires
        o.len() >= 1,
        k >= 1,
    ensures
        ms_cross_of(f, o, k) =~= ms_cross_of(f, o.drop_first(), k - 1),
    decreases o.len() - k,
{
    if k >= o.len() {
    } else {
        lemma_cof_shift_o(f, o, k + 1);
        lemma_cof_row_shift_o(f, o, k, 0);
    }
}

/// When the own head comes strictly first, a `CrossForeignOwn` row is
/// unchanged by removing it: no foreign event can be followed by the
/// head.
proof fn lemma_cfo_row_drop_o(f: Seq<Ev>, o: Seq<Ev>, i: int, k: int)
    requires
        sorted_ts(f),
        f.len() >= 1,
        o.len() >= 1,
        o[0].ts < f[0].ts,
        0 <= i < f.len(),
        k >= 0,
    ensures
        k >= 1 ==> ms_cross_fo_row(f, o, i, k) =~= ms_cross_fo_row(f, o.drop_first(), i, k - 1),
        k == 0 ==> ms_cross_fo_row(f, o, i, k) =~= ms_cross_fo_row(f, o.drop_first(), i, 0),
    decreases o.len() - k,
{
    let od = o.drop_first();
    if k >= o.len() {
    } else if k == 0 {
        assert(!cross_fo_valid(f, o, i, 0)) by {
            assert(f[i].ts >= f[0].ts);
        }
        lemma_cfo_row_drop_o(f, o, i, 1);
    } else {
        lemma_cfo_row_drop_o(f, o, i, k + 1);
        assert(od[k - 1] == o[k]);
        assert(cross_fo_valid(f, o, i, k) == cross_fo_valid(f, od, i, k - 1)) by {
            if k - 1 == 0 {
                assert(o[0].ts < f[0].ts);
                assert(f[0].ts <= f[i].ts);
            } else {
                assert(od[k - 2] == o[k - 1]);
            }
        }
    }
}

/// The whole `CrossForeignOwn` family is unchanged by removing an own
/// head that comes strictly first.
proof fn lemma_cfo_drop_o(f: Seq<Ev>, o: Seq<Ev>, k: int)
    requires
        sorted_ts(f),
        f.len() >= 1,
        o.len() >= 1,
        o[0].ts < f[0].ts,
        k >= 0,
    ensures
        ms_cross_fo(f, o, k) =~= ms_cross_fo(f, o.drop_first(), k),
    decreases f.len() - k,
{
    if k >= f.len() {
    } else {
        lemma_cfo_drop_o(f, o, k + 1);
        lemma_cfo_row_drop_o(f, o, k, 0);
    }
}

/// When the next merged event after the own head is also own, no cross
/// candidate of the head survives.
proof fn lemma_cof_row0_empty(f: Seq<Ev>, o: Seq<Ev>, k: int)
    requires
        sorted_ts(f),
        f.len() >= 1,
        o.len() >= 2,
        o[1].ts < f[0].ts,
        k >= 0,
    ensures
        ms_cross_of_row(f, o, 0, k) =~= Multiset::empty(),
    decreases f.len() - k,
{
    if k >= f.len() {
    } else {
        lemma_cof_row0_empty(f, o, k + 1);
        assert(!cross_of_valid(f, o, 0, k)) by {
            assert(f[k].ts >= f[0].ts);
        }
    }
}

/// Beyond the first foreign event, no cross candidate of the own head
/// survives.
proof fn lemma_cof_row0_tail_empty(f: Seq<Ev>, o: Seq<Ev>, k: int)
    requires
        sorted_ts(f),
        f.len() >= 1,
        o.len() >= 1,
        o[0].ts < f[0].ts,
        k >= 1,
    ensures
        ms_cross_of_row(f, o, 0, k) =~= Multiset::empty(),
    decreases f.len() - k,
{
    if k >= f.len() {
    } else {
        lemma_cof_row0_tail_empty(f, o, k + 1);
        assert(!cross_of_valid(f, o, 0, k)) by {
            assert(f[k - 1].ts >= f[0].ts);
        }
    }
}

/// The central theorem: the surviving candidate pairs of a case are
/// exactly the adjacent pairs of the timestamp-order merge of its two
/// sorted traces.
pub proof fn lemma_unmasked_is_adj(f: Seq<Ev>, o: Seq<Ev>)
    requires
        sorted_ts(f),
        sorted_ts(o),
    ensures
        ms_unmasked(f, o) =~= adj_pairs(merged(f, o)),
    decreases f.len() + o.len(),
{
    if f.len() == 0 {
        assert(f =~= Seq::<Ev>::empty());
        lemma_unmasked_f_empty(o, 0);
        assert(o.skip(0) =~= o);
        lemma_families_f_empty(o, 0);
        assert(merged(f, o) == o);
    } else if o.len() == 0 {
        assert(o =~= Seq::<Ev>::empty());
        lemma_unmasked_o_empty(f, 0);
        assert(f.skip(0) =~= f);
        lemma_families_o_empty(f, 0);
        assert(merged(f, o) == f);
    } else if f[0].ts <= o[0].ts {
        let fd = f.drop_first();
        lemma_sorted_drop(f);
        lemma_unmasked_is_adj(fd, o);
        lemma_merged_basic(fd, o);
        let rest = merged(fd, o);
        assert(merged(f, o) == seq![f[0]] + rest);
        assert(rest.len() == fd.len() + o.len() >= 1);
        lemma_adj_cons(f[0], rest);

        // families untouched by the head
        lemma_io_drop_f(f, o, 0);
        lemma_cof_drop_f(f, o, 0);
        if f.len() >= 2 {
            lemma_if_shift_f(f, o, 1);
        } else {
            assert(ms_inner_foreign(f, o, 1) =~= Multiset::empty());
            assert(ms_inner_foreign(fd, o, 0) =~= Multiset::empty());
        }
        lemma_cfo_shift_f(f, o, 1);

        // the head's own candidates
        let m1 = rest[0];
        if f.len() >= 2 && f[1].ts <= o[0].ts {
            // next merged event is foreign: the inner candidate survives
            assert(fd[0] == f[1]);
            assert(m1 == f[1]);
            assert(inner_foreign_valid(f, o, 0)) by {
                assert forall|k: int| 0 <= k < o.len() implies o[k].ts < f[0].ts || o[k].ts >= f[1].ts by {
                    assert(o[k].ts >= o[0].ts);
                }
            }
            lemma_cfo_row0_empty(f, o, 0);
            assert(ms_inner_foreign(f, o, 0) =~= ms_inner_foreign(fd, o, 0).insert(
                (f[0].act, f[1].act),
            ));
            assert(ms_cross_fo(f, o, 0) =~= ms_cross_fo_row(f, o, 0, 0).add(ms_cross_fo(f, o, 1)));
            assert(ms_unmasked(f, o) =~= ms_unmasked(fd, o).insert((f[0].act, m1.act)));
        } else {
            // next merged event is own (or there is none on the foreign side)
            if fd.len() == 0 {
                assert(rest == o);
                assert(m1 == o[0]);
            } else {
                assert(fd[0] == f[1]);
                assert(o[0].ts < f[1].ts);
                assert(m1 == o[0]);
            }
            if f.len() >= 2 {
                assert(!inner_foreign_valid(f, o, 0)) by {
                    assert(o[0].ts >= f[0].ts || o[0].ts < f[1].ts);
                }
            }
            assert(cross_fo_valid(f, o, 0, 0));
            lemma_cfo_row0_tail_empty(f, o, 1);
            assert(ms_cross_fo_row(f, o, 0, 0) =~= Multiset::empty().insert(
                (f[0].act, o[0].act),
            ));
            assert(ms_inner_foreign(f, o, 0) =~= ms_inner_foreign(fd, o, 0));
            assert(ms_cross_fo(f, o, 0) =~= ms_cross_fo_row(f, o, 0, 0).add(ms_cross_fo(f, o, 1)));
            assert(ms_unmasked(f, o) =~= ms_unmasked(fd, o).insert((f[0].act, m1.act)));
        }
        assert(adj_pairs(merged(f, o)) =~= adj_pairs(rest).insert((f[0].act, m1.act)));
    } else {
        let od = o.drop_first();
        lemma_sorted_drop(o);
        lemma_unmasked_is_adj(f, od);
        lemma_merged_basic(f, od);
        let rest = merged(f, od);
        assert(merged(f, o) == seq![o[0]] + rest);
        assert(rest.len() == f.len() + od.len() >= 1);
        lemma_adj_cons(o[0], rest);

        lemma_if_drop_o(f, o, 0);
        lemma_cfo_drop_o(f, o, 0);
        if o.len() >= 2 {
            lemma_io_shift_o(f, o, 1);
        } else {
            assert(ms_inner_own(f, o, 1) =~= Multiset::empty());
            assert(ms_inner_own(f, od, 0) =~= Multiset::empty());
        }
        lemma_cof_shift_o(f, o, 1);

        let m1 = rest[0];
        if o.len() >= 2 && o[1].ts < f[0].ts {
            // next merged event is own: the inner candidate survives
            assert(od[0] == o[1]);
            assert(m1 == o[1]);
            assert(inner_own_valid(f, o, 0)) by {
                assert forall|k: int| 0 <= k < f.len() implies f[k].ts <= o[0].ts || f[k].ts > o[1].ts by {
                    assert(f[k].ts >= f[0].ts);
                }
            }
            lemma_cof_row0_empty(f, o, 0);
            assert(ms_inner_own(f, o, 0) =~= ms_inner_own(f, od, 0).insert((o[0].act, o[1].act)));
            assert(ms_cross_of(f, o, 0) =~= ms_cross_of_row(f, o, 0, 0).add(ms_cross_of(f, o, 1)));
            assert(ms_unmasked(f, o) =~= ms_unmasked(f, od).insert((o[0].act, m1.act)));
        } else {
            // next merged event is foreign (or there is none on the own side)
            if od.len() == 0 {
                assert(rest == f);
                assert(m1 == f[0]);
            } else {
                assert(od[0] == o[1]);
                assert(f[0].ts <= o[1].ts);
                assert(m1 == f[0]);
            }
            if o.len() >= 2 {
                assert(!inner_own_valid(f, o, 0)) by {
                    assert(!(f[0].ts <= o[0].ts) && !(f[0].ts > o[1].ts));
                }
            }
            assert(cross_of_valid(f, o, 0, 0));
            lemma_cof_row0_tail_empty(f, o, 1);
            assert(ms_cross_of_row(f, o, 0, 0) =~= Multiset::empty().insert(
                (o[0].act, f[0].act),
            ));
            assert(ms_inner_own(f, o, 0) =~= ms_inner_own(f, od, 0));
            assert(ms_cross_of(f, o, 0) =~= ms_cross_of_row(f, o, 0, 0).add(ms_cross_of(f, o, 1)));
            assert(ms_unmasked(f, o) =~= ms_unmasked(f, od).insert((o[0].act, m1.act)));
        }
        assert(adj_pairs(merged(f, o)) =~= adj_pairs(rest).insert((o[0].act, m1.act)));
    }
}

} // verus!
