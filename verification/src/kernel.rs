//! The edge-evaluation kernel, specified on plain values.
//!
//! Each instruction of a case plan evaluates to one pair of activity
//! indices.  A candidate that is a true directly-follows edge of the
//! merged case yields the two activities of that edge; every other
//! candidate yields the `(BOTTOM, BOTTOM)` pair, which the aggregator
//! drops after decryption.  The validity conditions below characterise
//! adjacency in the timestamp-order merge of the two traces, with equal
//! timestamps resolved toward the foreign side.

use vstd::prelude::*;
use vstd::multiset::Multiset;

use crate::model::Ev;
use crate::model::merged;
use crate::model::adj_pairs;
use crate::model::sorted_ts;
use crate::plan::Instruction;

verus! {

/// The events of equal-length activity and timestamp columns.
pub open spec fn evs(acts: Seq<u16>, tss: Seq<u32>) -> Seq<Ev> {
    Seq::new(acts.len(), |i: int| Ev { act: acts[i], ts: tss[i] })
}

/// `(foreign[i], foreign[i + 1])` is an edge: no own event sits between
/// the two in the merged order.  An own event at the very timestamp of
/// `foreign[i]` comes after it (the tie goes to the foreign side), so the
/// bound on the left is strict.
pub open spec fn inner_foreign_valid(f: Seq<Ev>, o: Seq<Ev>, i: int) -> bool {
    &&& 0 <= i
    &&& i + 1 < f.len()
    &&& forall|k: int|
        0 <= k < o.len() ==> o[k].ts < f[i].ts || o[k].ts >= f[i + 1].ts
}

/// `(own[j], own[j + 1])` is an edge: no foreign event sits between the
/// two in the merged order.
pub open spec fn inner_own_valid(f: Seq<Ev>, o: Seq<Ev>, j: int) -> bool {
    &&& 0 <= j
    &&& j + 1 < o.len()
    &&& forall|k: int|
        0 <= k < f.len() ==> f[k].ts <= o[j].ts || f[k].ts > o[j + 1].ts
}

/// `(foreign[i], own[j])` is an edge: `own[j]` immediately follows
/// `foreign[i]` in the merged order.
pub open spec fn cross_fo_valid(f: Seq<Ev>, o: Seq<Ev>, i: int, j: int) -> bool {
    &&& 0 <= i < f.len()
    &&& 0 <= j < o.len()
    &&& f[i].ts <= o[j].ts
    &&& (j == 0 || o[j - 1].ts < f[i].ts)
    &&& (i == f.len() - 1 || o[j].ts < f[i + 1].ts)
}

/// `(own[j], foreign[i])` is an edge: `foreign[i]` immediately follows
/// `own[j]` in the merged order.
pub open spec fn cross_of_valid(f: Seq<Ev>, o: Seq<Ev>, j: int, i: int) -> bool {
    &&& 0 <= i < f.len()
    &&& 0 <= j < o.len()
    &&& o[j].ts < f[i].ts
    &&& (i == 0 || f[i - 1].ts <= o[j].ts)
    &&& (j == o.len() - 1 || f[i].ts <= o[j + 1].ts)
}

/// The first activity of the merged case.
pub open spec fn first_act(f: Seq<Ev>, o: Seq<Ev>) -> u16
    recommends
        f.len() + o.len() > 0,
{
    if f.len() == 0 {
        o[0].act
    } else if o.len() == 0 {
        f[0].act
    } else if f[0].ts <= o[0].ts {
        f[0].act
    } else {
        o[0].act
    }
}

/// The last activity of the merged case; on an equal timestamp the own
/// event is the later one.
pub open spec fn last_act(f: Seq<Ev>, o: Seq<Ev>) -> u16
    recommends
        f.len() + o.len() > 0,
{
    if f.len() == 0 {
        o.last().act
    } else if o.len() == 0 {
        f.last().act
    } else if f.last().ts <= o.last().ts {
        o.last().act
    } else {
        f.last().act
    }
}

/// What one instruction evaluates (and later decrypts) to.
pub open spec fn eval_instr(
    f: Seq<Ev>,
    o: Seq<Ev>,
    ins: Instruction,
    bot: u16,
    start: u16,
    end: u16,
) -> (u16, u16) {
    match ins {
        Instruction::FindStart => if f.len() + o.len() == 0 {
            (bot, bot)
        } else {
            (start, first_act(f, o))
        },
        Instruction::FindEnd => if f.len() + o.len() == 0 {
            (bot, bot)
        } else {
            (last_act(f, o), end)
        },
        Instruction::InnerForeign { i } => if inner_foreign_valid(f, o, i as int) {
            (f[i as int].act, f[i as int + 1].act)
        } else {
            (bot, bot)
        },
        Instruction::InnerOwn { j } => if inner_own_valid(f, o, j as int) {
            (o[j as int].act, o[j as int + 1].act)
        } else {
            (bot, bot)
        },
        Instruction::CrossForeignOwn { i, j } => if cross_fo_valid(f, o, i as int, j as int) {
            (f[i as int].act, o[j as int].act)
        } else {
            (bot, bot)
        },
        Instruction::CrossOwnForeign { j, i } => if cross_of_valid(f, o, j as int, i as int) {
            (o[j as int].act, f[i as int].act)
        } else {
            (bot, bot)
        },
    }
}

/// The surviving pairs of the `InnerForeign` candidates from `k` up.
pub open spec fn ms_inner_foreign(f: Seq<Ev>, o: Seq<Ev>, k: int) -> Multiset<(u16, u16)>
    decreases f.len() - k,
{
    if k < 0 || k + 1 >= f.len() {
        Multiset::empty()
    } else {
        let rest = ms_inner_foreign(f, o, k + 1);
        if inner_foreign_valid(f, o, k) {
            rest.insert((f[k].act, f[k + 1].act))
        } else {
            rest
        }
    }
}

/// The surviving pairs of the `InnerOwn` candidates from `k` up.
pub open spec fn ms_inner_own(f: Seq<Ev>, o: Seq<Ev>, k: int) -> Multiset<(u16, u16)>
    decreases o.len() - k,
{
    if k < 0 || k + 1 >= o.len() {
        Multiset::empty()
    } else {
        let rest = ms_inner_own(f, o, k + 1);
        if inner_own_valid(f, o, k) {
            rest.insert((o[k].act, o[k + 1].act))
        } else {
            rest
        }
    }
}

/// The surviving pairs of the `CrossForeignOwn { i, _ }` row from `k` up.
pub open spec fn ms_cross_fo_row(f: Seq<Ev>, o: Seq<Ev>, i: int, k: int) -> Multiset<(u16, u16)>
    decreases o.len() - k,
{
    if k < 0 || k >= o.len() {
        Multiset::empty()
    } else {
        let rest = ms_cross_fo_row(f, o, i, k + 1);
        if cross_fo_valid(f, o, i, k) {
            rest.insert((f[i].act, o[k].act))
        } else {
            rest
        }
    }
}

/// The surviving pairs of all `CrossForeignOwn` rows from `k` up.
pub open spec fn ms_cross_fo(f: Seq<Ev>, o: Seq<Ev>, k: int) -> Multiset<(u16, u16)>
    decreases f.len() - k,
{
    if k < 0 || k >= f.len() {
        Multiset::empty()
    } else {
        ms_cross_fo_row(f, o, k, 0).add(ms_cross_fo(f, o, k + 1))
    }
}

/// The surviving pairs of the `CrossOwnForeign { j, _ }` row from `k` up.
pub open spec fn ms_cross_of_row(f: Seq<Ev>, o: Seq<Ev>, j: int, k: int) -> Multiset<(u16, u16)>
    decreases f.len() - k,
{
    if k < 0 || k >= f.len() {
        Multiset::empty()
    } else {
        let rest = ms_cross_of_row(f, o, j, k + 1);
        if cross_of_valid(f, o, j, k) {
            rest.insert((o[j].act, f[k].act))
        } else {
            rest
        }
    }
}

/// The surviving pairs of all `CrossOwnForeign` rows from `k` up.
pub open spec fn ms_cross_of(f: Seq<Ev>, o: Seq<Ev>, k: int) -> Multiset<(u16, u16)>
    decreases o.len() - k,
{
    if k < 0 || k >= o.len() {
        Multiset::empty()
    } else {
        ms_cross_of_row(f, o, k, 0).add(ms_cross_of(f, o, k + 1))
    }
}

/// All surviving candidate pairs of a case apart from the start and end
/// probes.
pub open spec fn ms_unmasked(f: Seq<Ev>, o: Seq<Ev>) -> Multiset<(u16, u16)> {
    ms_inner_foreign(f, o, 0).add(ms_inner_own(f, o, 0)).add(ms_cross_fo(f, o, 0)).add(
        ms_cross_of(f, o, 0),
    )
}

/// Evaluates one instruction on plain columns.
pub fn eval_instruction(
    f_act: &Vec<u16>,
    f_ts: &Vec<u32>,
    o_act: &Vec<u16>,
    o_ts: &Vec<u32>,
    ins: Instruction,
    bot: u16,
    start: u16,
    end: u16,
) -> (r: (u16, u16))
    requires
        f_act.len() == f_ts.len(),
        o_act.len() == o_ts.len(),
    ensures
        r == eval_instr(evs(f_act@, f_ts@), evs(o_act@, o_ts@), ins, bot, start, end),
{
    let ghost f = evs(f_act@, f_ts@);
    let ghost o = evs(o_act@, o_ts@);
    let flen = f_act.len();
    let olen = o_act.len();
    match ins {
        Instruction::FindStart => {
            if flen == 0 && olen == 0 {
                (bot, bot)
            } else if flen == 0 {
                (start, o_act[0])
            } else if olen == 0 {
                (start, f_act[0])
            } else if f_ts[0] <= o_ts[0] {
                (start, f_act[0])
            } else {
                (start, o_act[0])
            }
        },
        Instruction::FindEnd => {
            if flen == 0 && olen == 0 {
                (bot, bot)
            } else if flen == 0 {
                (o_act[olen - 1], end)
            } else if olen == 0 {
                (f_act[flen - 1], end)
            } else if f_ts[flen - 1] <= o_ts[olen - 1] {
                (o_act[olen - 1], end)
            } else {
                (f_act[flen - 1], end)
            }
        },
        Instruction::InnerForeign { i } => {
            if i < flen && i + 1 < flen {
                let mut valid = true;
                let mut k: usize = 0;
                while k < olen
                    invariant
                        0 <= k <= olen,
                        i + 1 < flen,
                        f_act.len() == f_ts.len(),
                        o_act.len() == o_ts.len(),
                        flen == f_act.len(),
                        olen == o_act.len(),
                        valid == forall|k2: int|
                            0 <= k2 < k ==> o_ts@[k2] < f_ts@[i as int] || o_ts@[k2] >= f_ts@[i as int + 1],
                    decreases olen - k,
                {
                    if !(o_ts[k] < f_ts[i] || o_ts[k] >= f_ts[i + 1]) {
                        valid = false;
                    }
                    k = k + 1;
                }
                proof {
                    assert forall|k2: int| 0 <= k2 < o.len() implies o[k2].ts == o_ts@[k2] by {}
                    assert(f[i as int].ts == f_ts@[i as int]);
                    assert(f[i as int + 1].ts == f_ts@[i as int + 1]);
                    assert(valid == inner_foreign_valid(f, o, i as int));
                }
                if valid {
                    (f_act[i], f_act[i + 1])
                } else {
                    (bot, bot)
                }
            } else {
                (bot, bot)
            }
        },
        Instruction::InnerOwn { j } => {
            if j < olen && j + 1 < olen {
                let mut valid = true;
                let mut k: usize = 0;
                while k < flen
                    invariant
                        0 <= k <= flen,
                        j + 1 < olen,
                        f_act.len() == f_ts.len(),
                        o_act.len() == o_ts.len(),
                        flen == f_act.len(),
                        olen == o_act.len(),
                        valid == forall|k2: int|
                            0 <= k2 < k ==> f_ts@[k2] <= o_ts@[j as int] || f_ts@[k2] > o_ts@[j as int + 1],
                    decreases flen - k,
                {
                    if !(f_ts[k] <= o_ts[j] || f_ts[k] > o_ts[j + 1]) {
                        valid = false;
                    }
                    k = k + 1;
                }
                proof {
                    assert forall|k2: int| 0 <= k2 < f.len() implies f[k2].ts == f_ts@[k2] by {}
                    assert(o[j as int].ts == o_ts@[j as int]);
                    assert(o[j as int + 1].ts == o_ts@[j as int + 1]);
                    assert(valid == inner_own_valid(f, o, j as int));
                }
                if valid {
                    (o_act[j], o_act[j + 1])
                } else {
                    (bot, bot)
                }
            } else {
                (bot, bot)
            }
        },
        Instruction::CrossForeignOwn { i, j } => {
            if i < flen && j < olen {
                let c1 = f_ts[i] <= o_ts[j];
                let c2 = j == 0 || o_ts[j - 1] < f_ts[i];
                let c3 = i == flen - 1 || o_ts[j] < f_ts[i + 1];
                if c1 && c2 && c3 {
                    (f_act[i], o_act[j])
                } else {
                    (bot, bot)
                }
            } else {
                (bot, bot)
            }
        },
        Instruction::CrossOwnForeign { j, i } => {
            if i < flen && j < olen {
                let c1 = o_ts[j] < f_ts[i];
                let c2 = i == 0 || f_ts[i - 1] <= o_ts[j];
                let c3 = j == olen - 1 || f_ts[i] <= o_ts[j + 1];
                if c1 && c2 && c3 {
                    (o_act[j], f_act[i])
                } else {
                    (bot, bot)
                }
            } else {
                (bot, bot)
            }
        },
    }
}

} // verus!
