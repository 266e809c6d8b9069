//! The per-case instruction plan.
//!
//! For one case with a foreign trace of length `F` and an own trace of
//! length `O`, the evaluator works through a deterministic list of
//! candidate-edge instructions: one start probe, one end probe, the
//! foreign-adjacent and own-adjacent candidates, and all cross candidates
//! in both directions.  Every true directly-follows edge of the merged
//! case is produced by exactly one instruction; all other instructions
//! collapse to the `BOTTOM` sentinel when evaluated.

use vstd::prelude::*;

verus! {

/// One candidate directly-follows edge of a case.
#[derive(Clone, Copy, PartialEq, Eq, Structural, Debug)]
pub enum Instruction {
    /// The edge from the start marker into the first activity of the case.
    FindStart,
    /// The edge from the last activity of the case into the end marker.
    FindEnd,
    /// Candidate `(foreign[i], foreign[i + 1])`.
    InnerForeign { i: usize },
    /// Candidate `(own[j], own[j + 1])`.
    InnerOwn { j: usize },
    /// Candidate `(foreign[i], own[j])`.
    CrossForeignOwn { i: usize, j: usize },
    /// Candidate `(own[j], foreign[i])`.
    CrossOwnForeign { j: usize, i: usize },
}

/// The instructions `InnerForeign { i }` for `i` in `k .. flen - 1`.
pub open spec fn plan_inner_foreign(flen: int, k: int) -> Seq<Instruction>
    decreases flen - k,
{
    if k < 0 || k + 1 >= flen {
        Seq::empty()
    } else {
        seq![Instruction::InnerForeign { i: k as usize }] + plan_inner_foreign(flen, k + 1)
    }
}

/// The instructions `InnerOwn { j }` for `j` in `k .. olen - 1`.
pub open spec fn plan_inner_own(olen: int, k: int) -> Seq<Instruction>
    decreases olen - k,
{
    if k < 0 || k + 1 >= olen {
        Seq::empty()
    } else {
        seq![Instruction::InnerOwn { j: k as usize }] + plan_inner_own(olen, k + 1)
    }
}

/// The instructions `CrossForeignOwn { i, j }` for `j` in `k .. olen`.
pub open spec fn plan_cross_fo_row(i: int, olen: int, k: int) -> Seq<Instruction>
    decreases olen - k,
{
    if k < 0 || k >= olen {
        Seq::empty()
    } else {
        seq![Instruction::CrossForeignOwn { i: i as usize, j: k as usize }] + plan_cross_fo_row(
            i,
            olen,
            k + 1,
        )
    }
}

/// The rows `CrossForeignOwn { i, _ }` for `i` in `k .. flen`.
pub open spec fn plan_cross_fo(flen: int, olen: int, k: int) -> Seq<Instruction>
    decreases flen - k,
{
    if k < 0 || k >= flen {
        Seq::empty()
    } else {
        plan_cross_fo_row(k, olen, 0) + plan_cross_fo(flen, olen, k + 1)
    }
}

/// The instructions `CrossOwnForeign { j, i }` for `i` in `k .. flen`.
pub open spec fn plan_cross_of_row(j: int, flen: int, k: int) -> Seq<Instruction>
    decreases flen - k,
{
    if k < 0 || k >= flen {
        Seq::empty()
    } else {
        seq![Instruction::CrossOwnForeign { j: j as usize, i: k as usize }] + plan_cross_of_row(
            j,
            flen,
            k + 1,
        )
    }
}

/// The rows `CrossOwnForeign { j, _ }` for `j` in `k .. olen`.
pub open spec fn plan_cross_of(flen: int, olen: int, k: int) -> Seq<Instruction>
    decreases olen - k,
{
    if k < 0 || k >= olen {
        Seq::empty()
    } else {
        plan_cross_of_row(k, flen, 0) + plan_cross_of(flen, olen, k + 1)
    }
}

/// The full plan of a case: empty when the case has no events at all,
/// otherwise the start and end probes followed by every candidate family.
pub open spec fn plan_spec(flen: int, olen: int) -> Seq<Instruction> {
    if flen <= 0 && olen <= 0 {
        Seq::empty()
    } else {
        seq![Instruction::FindStart, Instruction::FindEnd] + plan_inner_foreign(flen, 0)
            + plan_inner_own(olen, 0) + plan_cross_fo(flen, olen, 0) + plan_cross_of(flen, olen, 0)
    }
}

fn push_inner_foreign(r: &mut Vec<Instruction>, flen: usize, k: usize)
    ensures
        final(r)@ == old(r)@ + plan_inner_foreign(flen as int, k as int),
    decreases flen - k,
{
    if !(k < flen && k + 1 < flen) {
        assert(r@ =~= old(r)@ + plan_inner_foreign(flen as int, k as int));
    } else {
        r.push(Instruction::InnerForeign { i: k });
        push_inner_foreign(r, flen, k + 1);
        assert(r@ =~= old(r)@ + plan_inner_foreign(flen as int, k as int));
    }
}

fn push_inner_own(r: &mut Vec<Instruction>, olen: usize, k: usize)
    ensures
        final(r)@ == old(r)@ + plan_inner_own(olen as int, k as int),
    decreases olen - k,
{
    if !(k < olen && k + 1 < olen) {
        assert(r@ =~= old(r)@ + plan_inner_own(olen as int, k as int));
    } else {
        r.push(Instruction::InnerOwn { j: k });
        push_inner_own(r, olen, k + 1);
        assert(r@ =~= old(r)@ + plan_inner_own(olen as int, k as int));
    }
}

fn push_cross_fo_row(r: &mut Vec<Instruction>, i: usize, olen: usize, k: usize)
    ensures
        final(r)@ == old(r)@ + plan_cross_fo_row(i as int, olen as int, k as int),
    decreases olen - k,
{
    if k >= olen {
        assert(r@ =~= old(r)@ + plan_cross_fo_row(i as int, olen as int, k as int));
    } else {
        r.push(Instruction::CrossForeignOwn { i, j: k });
        push_cross_fo_row(r, i, olen, k + 1);
        assert(r@ =~= old(r)@ + plan_cross_fo_row(i as int, olen as int, k as int));
    }
}

fn push_cross_fo(r: &mut Vec<Instruction>, flen: usize, olen: usize, k: usize)
    ensures
        final(r)@ == old(r)@ + plan_cross_fo(flen as int, olen as int, k as int),
    decreases flen - k,
{
    if k >= flen {
        assert(r@ =~= old(r)@ + plan_cross_fo(flen as int, olen as int, k as int));
    } else {
        push_cross_fo_row(r, k, olen, 0);
        push_cross_fo(r, flen, olen, k + 1);
        assert(r@ =~= old(r)@ + plan_cross_fo(flen as int, olen as int, k as int));
    }
}

fn push_cross_of_row(r: &mut Vec<Instruction>, j: usize, flen: usize, k: usize)
    ensures
        final(r)@ == old(r)@ + plan_cross_of_row(j as int, flen as int, k as int),
    decreases flen - k,
{
    if k >= flen {
        assert(r@ =~= old(r)@ + plan_cross_of_row(j as int, flen as int, k as int));
    } else {
        r.push(Instruction::CrossOwnForeign { j, i: k });
        push_cross_of_row(r, j, flen, k + 1);
        assert(r@ =~= old(r)@ + plan_cross_of_row(j as int, flen as int, k as int));
    }
}

fn push_cross_of(r: &mut Vec<Instruction>, flen: usize, olen: usize, k: usize)
    ensures
        final(r)@ == old(r)@ + plan_cross_of(flen as int, olen as int, k as int),
    decreases olen - k,
{
    if k >= olen {
        assert(r@ =~= old(r)@ + plan_cross_of(flen as int, olen as int, k as int));
    } else {
        push_cross_of_row(r, k, flen, 0);
        push_cross_of(r, flen, olen, k + 1);
        assert(r@ =~= old(r)@ + plan_cross_of(flen as int, olen as int, k as int));
    }
}

/// Builds the instruction plan of one case with `flen` foreign and `olen`
/// own events.
pub fn gen_plan(flen: usize, olen: usize) -> (r: Vec<Instruction>)
    ensures
        r@ == plan_spec(flen as int, olen as int),
{
    let mut r: Vec<Instruction> = Vec::new();
    if flen == 0 && olen == 0 {
        assert(r@ =~= plan_spec(flen as int, olen as int));
        return r;
    }
    r.push(Instruction::FindStart);
    r.push(Instruction::FindEnd);
    push_inner_foreign(&mut r, flen, 0);
    push_inner_own(&mut r, olen, 0);
    push_cross_fo(&mut r, flen, olen, 0);
    push_cross_of(&mut r, flen, olen, 0);
    assert(r@ =~= plan_spec(flen as int, olen as int));
    r
}

} // verus!
