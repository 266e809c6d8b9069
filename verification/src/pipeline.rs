//! Evaluation of whole cases and the windowed driver, on plain values.
//!
//! A case is evaluated by generating its candidate plan and evaluating
//! every instruction; the pairs that survive the sentinel filter are, by
//! the kernel's central theorem, exactly the directly-follows edges of
//! the merged case.  The driver walks the cases in windows of a
//! configurable size; the window split has no influence on the result,
//! which depends only on how often each pair survives.

use vstd::prelude::*;
use vstd::multiset::Multiset;

use crate::dfg::keep;
use crate::dfg::pair_count;
use crate::kernel::evs;
use crate::kernel::eval_instruction;
use crate::kernel::eval_instr;
use crate::kernel::first_act;
use crate::kernel::last_act;
use crate::kernel::inner_foreign_valid;
use crate::kernel::inner_own_valid;
use crate::kernel::cross_fo_valid;
use crate::kernel::cross_of_valid;
use crate::kernel::ms_inner_foreign;
use crate::kernel::ms_inner_own;
use crate::kernel::ms_cross_fo_row;
use crate::kernel::ms_cross_fo;
use crate::kernel::ms_cross_of_row;
use crate::kernel::ms_cross_of;
use crate::kernel::ms_unmasked;
use crate::model::Ev;
use crate::model::case_edges;
use crate::model::merged;
use crate::model::sorted_ts;
use crate::model::lemma_merged_basic;
use crate::model::lemma_merged_last;
use crate::correct::lemma_unmasked_is_adj;
use crate::plan::Instruction;
use crate::plan::plan_inner_foreign;
use crate::plan::plan_inner_own;
use crate::plan::plan_cross_fo_row;
use crate::plan::plan_cross_fo;
use crate::plan::plan_cross_of_row;
use crate::plan::plan_cross_of;
use crate::plan::plan_spec;

verus! {

/// The multiset of pairs that survive the sentinel filter.
pub open spec fn kept_ms(s: Seq<(u16, u16)>, bot: u16) -> Multiset<(u16, u16)>
    decreases s.len(),
{
    if s.len() == 0 {
        Multiset::empty()
    } else {
        let rest = kept_ms(s.drop_last(), bot);
        if keep(s.last(), bot) {
            rest.insert(s.last())
        } else {
            rest
        }
    }
}

/// The surviving count of one pair is its occurrence count.
pub proof fn lemma_kept_ms_count(s: Seq<(u16, u16)>, bot: u16, p: (u16, u16))
    ensures
        kept_ms(s, bot).count(p) == pair_count(s, bot, p),
    decreases s.len(),
{
    if s.len() > 0 {
        lemma_kept_ms_count(s.drop_last(), bot, p);
    }
}

/// A column of activity indices that never uses the sentinel.
pub open spec fn col_ok(acts: Seq<u16>, bot: u16) -> bool {
    forall|i: int| 0 <= i < acts.len() ==> acts[i] != bot
}

/// One case, both parties' columns in plain form.
pub struct PlainCase {
    pub f_act: Vec<u16>,
    pub f_ts: Vec<u32>,
    pub o_act: Vec<u16>,
    pub o_ts: Vec<u32>,
}

impl PlainCase {
    /// The foreign trace of the case.
    pub open spec fn fseq(self) -> Seq<Ev> {
        evs(self.f_act@, self.f_ts@)
    }

    /// The own trace of the case.
    pub open spec fn oseq(self) -> Seq<Ev> {
        evs(self.o_act@, self.o_ts@)
    }

    /// Columns of equal length whose activities avoid the sentinel.
    pub open spec fn wf(self, bot: u16) -> bool {
        &&& self.f_act@.len() == self.f_ts@.len()
        &&& self.o_act@.len() == self.o_ts@.len()
        &&& col_ok(self.f_act@, bot)
        &&& col_ok(self.o_act@, bot)
    }

    /// Both traces are sorted by timestamp.
    pub open spec fn sorted(self) -> bool {
        sorted_ts(self.fseq()) && sorted_ts(self.oseq())
    }
}

/// All pairs of one case that survive the filter: the start and end
/// probes and every surviving candidate.
pub open spec fn case_survivors_ms(f: Seq<Ev>, o: Seq<Ev>, start: u16, end: u16) -> Multiset<
    (u16, u16),
> {
    if f.len() + o.len() == 0 {
        Multiset::empty()
    } else {
        ms_unmasked(f, o).insert((start, first_act(f, o))).insert((last_act(f, o), end))
    }
}

/// The survivors of a case are its directly-follows edges.
pub proof fn lemma_case_survivors_edges(f: Seq<Ev>, o: Seq<Ev>, start: u16, end: u16)
    requires
        sorted_ts(f),
        sorted_ts(o),
    ensures
        case_survivors_ms(f, o, start, end) =~= case_edges(merged(f, o), start, end),
{
    lemma_merged_basic(f, o);
    lemma_unmasked_is_adj(f, o);
    let m = merged(f, o);
    if f.len() + o.len() == 0 {
        assert(m.len() == 0);
    } else {
        assert(m.len() >= 1);
        if f.len() == 0 {
            assert(m == o);
            assert(first_act(f, o) == m[0].act);
            assert(last_act(f, o) == m.last().act);
        } else if o.len() == 0 {
            assert(m == f);
            assert(first_act(f, o) == m[0].act);
            assert(last_act(f, o) == m.last().act);
        } else {
            assert(m[0] == (if f[0].ts <= o[0].ts {
                f[0]
            } else {
                o[0]
            }));
            assert(first_act(f, o) == m[0].act);
            lemma_merged_last(f, o);
            assert(last_act(f, o) == m.last().act);
        }
    }
}


/// Mapping a function over a concatenation maps both parts.
proof fn lemma_map_values_add<A, B>(a: Seq<A>, b: Seq<A>, fm: spec_fn(A) -> B)
    ensures
        (a + b).map_values(fm) =~= a.map_values(fm) + b.map_values(fm),
{
}

/// The evaluation of every instruction of a case, in plan order.
pub open spec fn eval_of(
    f: Seq<Ev>,
    o: Seq<Ev>,
    bot: u16,
    start: u16,
    end: u16,
) -> spec_fn(Instruction) -> (u16, u16) {
    |ins: Instruction| eval_instr(f, o, ins, bot, start, end)
}

fn push_eval_if(
    r: &mut Vec<(u16, u16)>,
    f_act: &Vec<u16>,
    f_ts: &Vec<u32>,
    o_act: &Vec<u16>,
    o_ts: &Vec<u32>,
    bot: u16,
    start: u16,
    end: u16,
    k: usize,
)
    requires
        f_act.len() == f_ts.len(),
        o_act.len() == o_ts.len(),
        col_ok(f_act@, bot),
    ensures
        kept_ms(final(r)@, bot) =~= kept_ms(old(r)@, bot).add(
            ms_inner_foreign(evs(f_act@, f_ts@), evs(o_act@, o_ts@), k as int),
        ),
        final(r)@ == old(r)@ + plan_inner_foreign(f_act@.len() as int, k as int).map_values(
            eval_of(evs(f_act@, f_ts@), evs(o_act@, o_ts@), bot, start, end),
        ),
    decreases f_act.len() - k,
{
    let ghost f = evs(f_act@, f_ts@);
    let ghost o = evs(o_act@, o_ts@);
    if k < f_act.len() && k + 1 < f_act.len() {
        let ghost before = r@;
        let p = eval_instruction(f_act, f_ts, o_act, o_ts, Instruction::InnerForeign { i: k }, bot, start, end);
        r.push(p);
        proof {
            assert(r@.drop_last() =~= before);
            if inner_foreign_valid(f, o, k as int) {
                assert(f[k as int].act == f_act@[k as int]);
                assert(keep(p, bot));
            } else {
                assert(!keep(p, bot));
            }
        }
        push_eval_if(r, f_act, f_ts, o_act, o_ts, bot, start, end, k + 1);
        proof {
            let fm = eval_of(f, o, bot, start, end);
            assert(r@ =~= before + (seq![Instruction::InnerForeign { i: k }]
                + plan_inner_foreign(f_act@.len() as int, k as int + 1)).map_values(fm));
        }
    } else {
        proof {
            let fm = eval_of(f, o, bot, start, end);
            assert(r@ =~= r@ + plan_inner_foreign(f_act@.len() as int, k as int).map_values(fm));
        }
    }
}

fn push_eval_io(
    r: &mut Vec<(u16, u16)>,
    f_act: &Vec<u16>,
    f_ts: &Vec<u32>,
    o_act: &Vec<u16>,
    o_ts: &Vec<u32>,
    bot: u16,
    start: u16,
    end: u16,
    k: usize,
)
    requires
        f_act.len() == f_ts.len(),
        o_act.len() == o_ts.len(),
        col_ok(o_act@, bot),
    ensures
        kept_ms(final(r)@, bot) =~= kept_ms(old(r)@, bot).add(
            ms_inner_own(evs(f_act@, f_ts@), evs(o_act@, o_ts@), k as int),
        ),
        final(r)@ == old(r)@ + plan_inner_own(o_act@.len() as int, k as int).map_values(
            eval_of(evs(f_act@, f_ts@), evs(o_act@, o_ts@), bot, start, end),
        ),
    decreases o_act.len() - k,
{
    let ghost f = evs(f_act@, f_ts@);
    let ghost o = evs(o_act@, o_ts@);
    if k < o_act.len() && k + 1 < o_act.len() {
        let ghost before = r@;
        let p = eval_instruction(f_act, f_ts, o_act, o_ts, Instruction::InnerOwn { j: k }, bot, start, end);
        r.push(p);
        proof {
            assert(r@.drop_last() =~= before);
            if inner_own_valid(f, o, k as int) {
                assert(o[k as int].act == o_act@[k as int]);
                assert(keep(p, bot));
            } else {
                assert(!keep(p, bot));
            }
        }
        push_eval_io(r, f_act, f_ts, o_act, o_ts, bot, start, end, k + 1);
        proof {
            let fm = eval_of(f, o, bot, start, end);
            assert(r@ =~= before + (seq![Instruction::InnerOwn { j: k }]
                + plan_inner_own(o_act@.len() as int, k as int + 1)).map_values(fm));
        }
    } else {
        proof {
            let fm = eval_of(f, o, bot, start, end);
            assert(r@ =~= r@ + plan_inner_own(o_act@.len() as int, k as int).map_values(fm));
        }
    }
}

fn push_eval_cfo_row(
    r: &mut Vec<(u16, u16)>,
    f_act: &Vec<u16>,
    f_ts: &Vec<u32>,
    o_act: &Vec<u16>,
    o_ts: &Vec<u32>,
    bot: u16,
    start: u16,
    end: u16,
    i: usize,
    k: usize,
)
    requires
        f_act.len() == f_ts.len(),
        o_act.len() == o_ts.len(),
        col_ok(f_act@, bot),
        col_ok(o_act@, bot),
        i < f_act.len(),
    ensures
        kept_ms(final(r)@, bot) =~= kept_ms(old(r)@, bot).add(
            ms_cross_fo_row(evs(f_act@, f_ts@), evs(o_act@, o_ts@), i as int, k as int),
        ),
        final(r)@ == old(r)@ + plan_cross_fo_row(i as int, o_act@.len() as int, k as int).map_values(
            eval_of(evs(f_act@, f_ts@), evs(o_act@, o_ts@), bot, start, end),
        ),
    decreases o_act.len() - k,
{
    let ghost f = evs(f_act@, f_ts@);
    let ghost o = evs(o_act@, o_ts@);
    if k < o_act.len() {
        let ghost before = r@;
        let p = eval_instruction(f_act, f_ts, o_act, o_ts, Instruction::CrossForeignOwn { i, j: k }, bot, start, end);
        r.push(p);
        proof {
            assert(r@.drop_last() =~= before);
            if cross_fo_valid(f, o, i as int, k as int) {
                assert(keep(p, bot));
            } else {
                assert(!keep(p, bot));
            }
        }
        push_eval_cfo_row(r, f_act, f_ts, o_act, o_ts, bot, start, end, i, k + 1);
        proof {
            let fm = eval_of(f, o, bot, start, end);
            assert(r@ =~= before + (seq![Instruction::CrossForeignOwn { i, j: k }]
                + plan_cross_fo_row(i as int, o_act@.len() as int, k as int + 1)).map_values(fm));
        }
    } else {
        proof {
            let fm = eval_of(f, o, bot, start, end);
            assert(r@ =~= r@ + plan_cross_fo_row(i as int, o_act@.len() as int, k as int)
                .map_values(fm));
        }
    }
}

fn push_eval_cfo(
    r: &mut Vec<(u16, u16)>,
    f_act: &Vec<u16>,
    f_ts: &Vec<u32>,
    o_act: &Vec<u16>,
    o_ts: &Vec<u32>,
    bot: u16,
    start: u16,
    end: u16,
    k: usize,
)
    requires
        f_act.len() == f_ts.len(),
        o_act.len() == o_ts.len(),
        col_ok(f_act@, bot),
        col_ok(o_act@, bot),
    ensures
        kept_ms(final(r)@, bot) =~= kept_ms(old(r)@, bot).add(
            ms_cross_fo(evs(f_act@, f_ts@), evs(o_act@, o_ts@), k as int),
        ),
        final(r)@ == old(r)@ + plan_cross_fo(f_act@.len() as int, o_act@.len() as int, k as int).map_values(
            eval_of(evs(f_act@, f_ts@), evs(o_act@, o_ts@), bot, start, end),
        ),
    decreases f_act.len() - k,
{
    let ghost f = evs(f_act@, f_ts@);
    let ghost o = evs(o_act@, o_ts@);
    if k < f_act.len() {
        let ghost before = r@;
        push_eval_cfo_row(r, f_act, f_ts, o_act, o_ts, bot, start, end, k, 0);
        push_eval_cfo(r, f_act, f_ts, o_act, o_ts, bot, start, end, k + 1);
        proof {
            let fm = eval_of(f, o, bot, start, end);
            lemma_map_values_add(
                plan_cross_fo_row(k as int, o_act@.len() as int, 0),
                plan_cross_fo(f_act@.len() as int, o_act@.len() as int, k as int + 1),
                fm,
            );
            assert(r@ =~= before + plan_cross_fo(f_act@.len() as int, o_act@.len() as int, k as int)
                .map_values(fm));
        }
    } else {
        proof {
            let fm = eval_of(f, o, bot, start, end);
            assert(r@ =~= r@ + plan_cross_fo(f_act@.len() as int, o_act@.len() as int, k as int)
                .map_values(fm));
        }
    }
}

fn push_eval_cof_row(
    r: &mut Vec<(u16, u16)>,
    f_act: &Vec<u16>,
    f_ts: &Vec<u32>,
    o_act: &Vec<u16>,
    o_ts: &Vec<u32>,
    bot: u16,
    start: u16,
    end: u16,
    j: usize,
    k: usize,
)
    requires
        f_act.len() == f_ts.len(),
        o_act.len() == o_ts.len(),
        col_ok(f_act@, bot),
        col_ok(o_act@, bot),
        j < o_act.len(),
    ensures
        kept_ms(final(r)@, bot) =~= kept_ms(old(r)@, bot).add(
            ms_cross_of_row(evs(f_act@, f_ts@), evs(o_act@, o_ts@), j as int, k as int),
        ),
        final(r)@ == old(r)@ + plan_cross_of_row(j as int, f_act@.len() as int, k as int).map_values(
            eval_of(evs(f_act@, f_ts@), evs(o_act@, o_ts@), bot, start, end),
        ),
    decreases f_act.len() - k,
{
    let ghost f = evs(f_act@, f_ts@);
    let ghost o = evs(o_act@, o_ts@);
    if k < f_act.len() {
        let ghost before = r@;
        let p = eval_instruction(f_act, f_ts, o_act, o_ts, Instruction::CrossOwnForeign { j, i: k }, bot, start, end);
        r.push(p);
        proof {
            assert(r@.drop_last() =~= before);
            if cross_of_valid(f, o, j as int, k as int) {
                assert(keep(p, bot));
            } else {
                assert(!keep(p, bot));
            }
        }
        push_eval_cof_row(r, f_act, f_ts, o_act, o_ts, bot, start, end, j, k + 1);
        proof {
            let fm = eval_of(f, o, bot, start, end);
            assert(r@ =~= before + (seq![Instruction::CrossOwnForeign { j, i: k }]
                + plan_cross_of_row(j as int, f_act@.len() as int, k as int + 1)).map_values(fm));
        }
    } else {
        proof {
            let fm = eval_of(f, o, bot, start, end);
            assert(r@ =~= r@ + plan_cross_of_row(j as int, f_act@.len() as int, k as int)
                .map_values(fm));
        }
    }
}

fn push_eval_cof(
    r: &mut Vec<(u16, u16)>,
    f_act: &Vec<u16>,
    f_ts: &Vec<u32>,
    o_act: &Vec<u16>,
    o_ts: &Vec<u32>,
    bot: u16,
    start: u16,
    end: u16,
    k: usize,
)
    requires
        f_act.len() == f_ts.len(),
        o_act.len() == o_ts.len(),
        col_ok(f_act@, bot),
        col_ok(o_act@, bot),
    ensures
        kept_ms(final(r)@, bot) =~= kept_ms(old(r)@, bot).add(
            ms_cross_of(evs(f_act@, f_ts@), evs(o_act@, o_ts@), k as int),
        ),
        final(r)@ == old(r)@ + plan_cross_of(f_act@.len() as int, o_act@.len() as int, k as int).map_values(
            eval_of(evs(f_act@, f_ts@), evs(o_act@, o_ts@), bot, start, end),
        ),
    decreases o_act.len() - k,
{
    let ghost f = evs(f_act@, f_ts@);
    let ghost o = evs(o_act@, o_ts@);
    if k < o_act.len() {
        let ghost before = r@;
        push_eval_cof_row(r, f_act, f_ts, o_act, o_ts, bot, start, end, k, 0);
        push_eval_cof(r, f_act, f_ts, o_act, o_ts, bot, start, end, k + 1);
        proof {
            let fm = eval_of(f, o, bot, start, end);
            lemma_map_values_add(
                plan_cross_of_row(k as int, f_act@.len() as int, 0),
                plan_cross_of(f_act@.len() as int, o_act@.len() as int, k as int + 1),
                fm,
            );
            assert(r@ =~= before + plan_cross_of(f_act@.len() as int, o_act@.len() as int, k as int)
                .map_values(fm));
        }
    } else {
        proof {
            let fm = eval_of(f, o, bot, start, end);
            assert(r@ =~= r@ + plan_cross_of(f_act@.len() as int, o_act@.len() as int, k as int)
                .map_values(fm));
        }
    }
}

/// Evaluates the whole candidate plan of one case.  The returned pairs
/// include the masked candidates; the pairs that survive the filter are
/// exactly the start probe, the end probe and the surviving candidates.
pub fn case_pairs(
    f_act: &Vec<u16>,
    f_ts: &Vec<u32>,
    o_act: &Vec<u16>,
    o_ts: &Vec<u32>,
    bot: u16,
    start: u16,
    end: u16,
) -> (r: Vec<(u16, u16)>)
    requires
        f_act.len() == f_ts.len(),
        o_act.len() == o_ts.len(),
        col_ok(f_act@, bot),
        col_ok(o_act@, bot),
        start != bot,
        end != bot,
    ensures
        kept_ms(r@, bot) =~= case_survivors_ms(
            evs(f_act@, f_ts@),
            evs(o_act@, o_ts@),
            start,
            end,
        ),
        r@ == plan_spec(f_act@.len() as int, o_act@.len() as int).map_values(
            eval_of(evs(f_act@, f_ts@), evs(o_act@, o_ts@), bot, start, end),
        ),
{
    let ghost f = evs(f_act@, f_ts@);
    let ghost o = evs(o_act@, o_ts@);
    let ghost fm = eval_of(f, o, bot, start, end);
    let mut r: Vec<(u16, u16)> = Vec::new();
    if f_act.len() == 0 && o_act.len() == 0 {
        proof {
            assert(r@ =~= plan_spec(f_act@.len() as int, o_act@.len() as int).map_values(fm));
        }
        return r;
    }
    let ghost before0 = r@;
    let p0 = eval_instruction(f_act, f_ts, o_act, o_ts, Instruction::FindStart, bot, start, end);
    r.push(p0);
    proof {
        assert(r@.drop_last() =~= before0);
        if f.len() == 0 {
            assert(first_act(f, o) == o_act@[0]);
        } else if o.len() == 0 {
            assert(first_act(f, o) == f_act@[0]);
        } else {
            assert(first_act(f, o) == f_act@[0] || first_act(f, o) == o_act@[0]);
        }
        assert(keep(p0, bot));
    }
    let ghost before1 = r@;
    let p1 = eval_instruction(f_act, f_ts, o_act, o_ts, Instruction::FindEnd, bot, start, end);
    r.push(p1);
    proof {
        assert(r@.drop_last() =~= before1);
        if f.len() == 0 {
            assert(last_act(f, o) == o_act@[o.len() - 1]);
        } else if o.len() == 0 {
            assert(last_act(f, o) == f_act@[f.len() - 1]);
        } else {
            assert(last_act(f, o) == f_act@[f.len() - 1] || last_act(f, o) == o_act@[o.len() - 1]);
        }
        assert(keep(p1, bot));
        assert(kept_ms(before0, bot) =~= Multiset::empty());
        assert(before1.last() == p0 && before1.drop_last() =~= before0);
        assert(kept_ms(before1, bot) =~= Multiset::empty().insert(p0));
        assert(r@.last() == p1);
        assert(kept_ms(r@, bot) =~= Multiset::empty().insert(p0).insert(p1));
    }
    let ghost base = r@;
    push_eval_if(&mut r, f_act, f_ts, o_act, o_ts, bot, start, end, 0);
    push_eval_io(&mut r, f_act, f_ts, o_act, o_ts, bot, start, end, 0);
    push_eval_cfo(&mut r, f_act, f_ts, o_act, o_ts, bot, start, end, 0);
    push_eval_cof(&mut r, f_act, f_ts, o_act, o_ts, bot, start, end, 0);
    proof {
        let flen = f_act@.len() as int;
        let olen = o_act@.len() as int;
        let probes = seq![Instruction::FindStart, Instruction::FindEnd];
        assert(base =~= probes.map_values(fm));
        lemma_map_values_add(probes, plan_inner_foreign(flen, 0), fm);
        lemma_map_values_add(probes + plan_inner_foreign(flen, 0), plan_inner_own(olen, 0), fm);
        lemma_map_values_add(
            probes + plan_inner_foreign(flen, 0) + plan_inner_own(olen, 0),
            plan_cross_fo(flen, olen, 0),
            fm,
        );
        lemma_map_values_add(
            probes + plan_inner_foreign(flen, 0) + plan_inner_own(olen, 0) + plan_cross_fo(
                flen,
                olen,
                0,
            ),
            plan_cross_of(flen, olen, 0),
            fm,
        );
        assert(r@ =~= plan_spec(flen, olen).map_values(fm));
    }
    proof {
        assert(kept_ms(r@, bot) =~= Multiset::empty().insert(p0).insert(p1).add(
            ms_inner_foreign(f, o, 0),
        ).add(ms_inner_own(f, o, 0)).add(ms_cross_fo(f, o, 0)).add(ms_cross_of(f, o, 0)));
        assert(p0 == (start, first_act(f, o)));
        assert(p1 == (last_act(f, o), end));
        assert(kept_ms(r@, bot) =~= case_survivors_ms(f, o, start, end));
    }
    r
}

/// The survivors of the cases below `k`, summed.
pub open spec fn cases_survivors_ms(cs: Seq<PlainCase>, start: u16, end: u16, k: int) -> Multiset<
    (u16, u16),
>
    decreases k,
{
    if k <= 0 {
        Multiset::empty()
    } else {
        cases_survivors_ms(cs, start, end, k - 1).add(
            case_survivors_ms(cs[k - 1].fseq(), cs[k - 1].oseq(), start, end),
        )
    }
}

/// The directly-follows edges of the cases below `k`, summed.
pub open spec fn cases_edges_ms(cs: Seq<PlainCase>, start: u16, end: u16, k: int) -> Multiset<
    (u16, u16),
>
    decreases k,
{
    if k <= 0 {
        Multiset::empty()
    } else {
        cases_edges_ms(cs, start, end, k - 1).add(
            case_edges(merged(cs[k - 1].fseq(), cs[k - 1].oseq()), start, end),
        )
    }
}

/// With sorted traces the survivors of the cases are their edges.
pub proof fn lemma_cases_survivors_edges(cs: Seq<PlainCase>, start: u16, end: u16, k: int)
    requires
        forall|c: int| 0 <= c < cs.len() ==> (#[trigger] cs[c]).sorted(),
        k <= cs.len(),
    ensures
        cases_survivors_ms(cs, start, end, k) =~= cases_edges_ms(cs, start, end, k),
    decreases k,
{
    if k > 0 {
        lemma_cases_survivors_edges(cs, start, end, k - 1);
        lemma_case_survivors_edges(cs[k - 1].fseq(), cs[k - 1].oseq(), start, end);
    }
}

/// Surviving pairs accumulate over a concatenation.
pub proof fn lemma_kept_ms_add(a: Seq<(u16, u16)>, b: Seq<(u16, u16)>, bot: u16)
    ensures
        kept_ms(a + b, bot) =~= kept_ms(a, bot).add(kept_ms(b, bot)),
    decreases b.len(),
{
    if b.len() == 0 {
        assert(a + b =~= a);
    } else {
        lemma_kept_ms_add(a, b.drop_last(), bot);
        assert((a + b).drop_last() =~= a + b.drop_last());
        assert((a + b).last() == b.last());
    }
}

/// Evaluates all cases in windows of size `w` and concatenates the
/// resulting pairs.  The window split leaves the surviving pairs — and
/// with them the final graph — unchanged.
pub fn all_case_pairs(cases: &Vec<PlainCase>, bot: u16, start: u16, end: u16, w: usize) -> (r: Vec<
    (u16, u16),
>)
    requires
        w >= 1,
        start != bot,
        end != bot,
        forall|c: int| 0 <= c < cases@.len() ==> (#[trigger] cases@[c]).wf(bot),
    ensures
        kept_ms(r@, bot) =~= cases_survivors_ms(cases@, start, end, cases@.len() as int),
{
    let mut r: Vec<(u16, u16)> = Vec::new();
    let len = cases.len();
    let mut lo: usize = 0;
    while lo < len
        invariant
            w >= 1,
            start != bot,
            end != bot,
            forall|c: int| 0 <= c < cases@.len() ==> (#[trigger] cases@[c]).wf(bot),
            len == cases@.len(),
            0 <= lo <= len,
            kept_ms(r@, bot) =~= cases_survivors_ms(cases@, start, end, lo as int),
        decreases len - lo,
    {
        // the final window absorbs a tail smaller than one window
        let rem = len - lo;
        let hi = if rem / 2 < w {
            len
        } else {
            lo + w
        };
        let mut c = lo;
        while c < hi
            invariant
                w >= 1,
                start != bot,
                end != bot,
                forall|cc: int| 0 <= cc < cases@.len() ==> (#[trigger] cases@[cc]).wf(bot),
                len == cases@.len(),
                lo <= c <= hi <= len,
                kept_ms(r@, bot) =~= cases_survivors_ms(cases@, start, end, c as int),
            decreases hi - c,
        {
            let case = &cases[c];
            let ghost before = r@;
            let mut pairs = case_pairs(
                &case.f_act,
                &case.f_ts,
                &case.o_act,
                &case.o_ts,
                bot,
                start,
                end,
            );
            let ghost ps = pairs@;
            r.append(&mut pairs);
            proof {
                assert(r@ =~= before + ps);
                lemma_kept_ms_add(before, ps, bot);
            }
            c = c + 1;
        }
        lo = hi;
    }
    r
}

/// Mapping a projection over two sequences that are permutations of one
/// another yields permutations again.
pub proof fn lemma_map_values_multiset<A, B>(s1: Seq<A>, s2: Seq<A>, fm: spec_fn(A) -> B)
    requires
        s1.to_multiset() == s2.to_multiset(),
    ensures
        s1.map_values(fm).to_multiset() == s2.map_values(fm).to_multiset(),
    decreases s1.len(),
{
    broadcast use vstd::seq_lib::group_to_multiset_ensures;

    if s1.len() == 0 {
        assert(s1.to_multiset() =~= Multiset::empty());
        assert(s2.to_multiset().len() == 0);
        assert(s2.len() == 0);
        assert(s1.map_values(fm) =~= Seq::<B>::empty());
        assert(s2.map_values(fm) =~= Seq::<B>::empty());
    } else {
        let a = s1.last();
        assert(s1 =~= s1.drop_last().push(a));
        assert(s1.drop_last().push(a).to_multiset() =~= s1.drop_last().to_multiset().insert(a));
        assert(s2.to_multiset().count(a) > 0);
        assert(s2.contains(a));
        let i = choose|i: int| 0 <= i < s2.len() && s2[i] == a;
        let s2r = s2.remove(i);
        assert(s2r.to_multiset() =~= s2.to_multiset().remove(a));
        assert(s1.drop_last().to_multiset() =~= s2r.to_multiset()) by {
            assert(s1.drop_last().to_multiset() =~= s1.to_multiset().remove(a));
        }
        lemma_map_values_multiset(s1.drop_last(), s2r, fm);
        assert(s1.map_values(fm) =~= s1.drop_last().map_values(fm).push(fm(a)));
        assert(s1.map_values(fm).to_multiset() =~= s1.drop_last().map_values(fm).to_multiset()
            .insert(fm(a)));
        assert(s2.map_values(fm).remove(i) =~= s2r.map_values(fm));
        assert(s2.map_values(fm)[i] == fm(a));
        assert(s2.map_values(fm).remove(i).to_multiset() =~= s2.map_values(fm).to_multiset()
            .remove(fm(a)));
        assert(s2.map_values(fm).to_multiset().count(fm(a)) > 0) by {
            assert(s2.map_values(fm).contains(fm(a)));
        }
        assert(s1.map_values(fm).to_multiset() =~= s2.map_values(fm).to_multiset());
    }
}

/// Two permutations of the same pairs survive the filter identically.
pub proof fn lemma_kept_ms_same(s1: Seq<(u16, u16)>, s2: Seq<(u16, u16)>, bot: u16)
    requires
        s1.to_multiset() == s2.to_multiset(),
    ensures
        kept_ms(s1, bot) =~= kept_ms(s2, bot),
{
    assert forall|p: (u16, u16)| true implies kept_ms(s1, bot).count(p) == kept_ms(
        s2,
        bot,
    ).count(p) by {
        lemma_kept_ms_count(s1, bot, p);
        lemma_kept_ms_count(s2, bot, p);
        crate::dfg::lemma_pair_count_ms(s1, bot, p);
        crate::dfg::lemma_pair_count_ms(s2, bot, p);
    }
}

} // verus!
