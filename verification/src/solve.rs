//! Node references of the substitution solver, kept apart by type: nodes
//! of the source expression and nodes of the destination.
use vstd::prelude::*;
use crate::nid::{NID, T, VAR, INV, IDX_MASK, RVAR_BITS};
use crate::nidtext::vid_num;
use crate::vid::{VID, VidEnum};

verus! {

/// A node of the source expression.
#[derive(Clone, Copy, Debug, PartialEq, Eq, Structural)]
pub struct SrcNid {
    pub n: NID,
}

/// A node of the destination.
#[derive(Clone, Copy, Debug, PartialEq, Eq, Structural)]
pub struct DstNid {
    pub n: NID,
}

/// The bits of the nid of real variable `v`.
pub open spec fn real_var_bits(v: u32) -> u64 {
    ((((v as u64) | RVAR_BITS)) << 32) | VAR
}

/// The bits of the nid of virtual variable `v`.
pub open spec fn virt_var_bits(v: u32) -> u64 {
    ((v as u64) << 32) | VAR
}

/// The destination node for a source node: constants stay, a variable's
/// node becomes the real variable with the same number, and a node without
/// variable becomes the virtual variable numbered by its index; inversion is kept.
pub fn convert_nid(sn: SrcNid) -> (r: DstNid)
    requires
        sn.n.n & T != 0
        || (sn.n.n & VAR != 0 && (sn.n.vid_spec().v is Var || sn.n.vid_spec().v is Vir))
        || crate::ast::is_ixn_spec(sn.n),
    ensures
        sn.n.n & T != 0 ==> r.n == sn.n,
        sn.n.n & T == 0 && sn.n.n & VAR != 0 ==> r.n.n
            == (real_var_bits(vid_num(sn.n.vid_spec()) as u32) ^ (if sn.n.n & INV != 0 { INV } else { 0 })),
        sn.n.n & T == 0 && sn.n.n & VAR == 0 ==> r.n.n
            == (virt_var_bits((sn.n.n & IDX_MASK) as u32) ^ (if sn.n.n & INV != 0 { INV } else { 0 })),
{
    let n = sn.n;
    proof {
        let a = n.n;
        assert(a ^ 0 == a) by (bit_vector);
        crate::ast::lemma_ixn_bits(n);
    }
    let r = if n.is_const() {
        n
    } else {
        let r0 = if n.is_vid() {
            let k = n.vid().vid_ix();
            proof { assert(k as nat == vid_num(n.vid_spec())); }
            NID::var(k as u32)
        } else {
            NID::vir(n.idx() as u32)
        };
        proof {
            let a = r0.n;
            assert(a ^ 0 == a) by (bit_vector);
        }
        if n.is_inv() { crate::nid::negate(r0) } else { r0 }
    };
    DstNid { n: r }
}


/// Where a solving run stands: the number of steps of the whole problem,
/// how often to save (every that many steps; never when 0), the step to
/// take next (counting down to 0), the steps taken so far in this run, and
/// the current context node.
#[derive(Clone, Copy, Debug, PartialEq, Eq, Structural)]
pub struct SolveState {
    pub total_steps: usize,
    pub save_every: usize,
    pub step: usize,
    pub steps_done: usize,
    pub ctx: NID,
}

/// What the driver of a solving run reports.
#[derive(Clone, Copy, Debug, PartialEq, Eq, Structural)]
pub enum SolveEvent {
    /// The run starts from the state given; whether the time limit has passed.
    Begin { timed_out: bool },
    /// The refinement asked for gave the new context `ctx`; whether the time
    /// limit has passed since the run started.
    Refined { ctx: NID, timed_out: bool },
    /// The snapshot asked for was written; whether the time limit has passed.
    Saved { timed_out: bool },
}

/// What the driver of a solving run is to do next.
#[derive(Clone, Copy, Debug, PartialEq, Eq, Structural)]
pub enum SolveAction {
    /// Substitute the definition of virtual variable `v` into the context.
    Refine(VID),
    /// Write a snapshot of the context, labelled with the number of steps
    /// taken of the whole problem and the variable just refined.
    Save { step: u32, rv: VID },
    /// The context is an input variable or a constant, or the last step is
    /// taken: stop.
    Done,
    /// The time limit has passed: stop.
    TimedOut,
}

/// The context needs no more refining: it is an input variable or a constant.
pub open spec fn settled(ctx: NID) -> bool {
    ctx.n & T != 0 || (ctx.n & VAR != 0 && ctx.vid_spec().v is Var)
}

/// At the head of the loop: stop when the context is settled or the time
/// is up, else refine the variable of the current step.
pub open spec fn solve_head(s: SolveState, timed_out: bool) -> (SolveState, SolveAction) {
    if settled(s.ctx) {
        (s, SolveAction::Done)
    } else if timed_out {
        (s, SolveAction::TimedOut)
    } else {
        (s, SolveAction::Refine(VID { v: VidEnum::Vir(s.step as u32) }))
    }
}

/// After a step: stop after step 0, else count down and go to the head of
/// the loop.
pub open spec fn solve_advance(s: SolveState, timed_out: bool) -> (SolveState, SolveAction) {
    if s.step == 0 {
        (s, SolveAction::Done)
    } else {
        solve_head(SolveState { step: (s.step - 1) as usize, ..s }, timed_out)
    }
}

/// The next state and action of a solving run after event `e`: a refinement
/// counts a step, and asks for a snapshot when the steps taken are a
/// multiple of `save_every`; the snapshot (or a step without one) is followed
/// by the next step.
pub open spec fn solve_next(s: SolveState, e: SolveEvent) -> (SolveState, SolveAction) {
    match e {
        SolveEvent::Begin { timed_out } => solve_head(s, timed_out),
        SolveEvent::Refined { ctx, timed_out } => {
            let s1 = SolveState { ctx, steps_done: (s.steps_done + 1) as usize, ..s };
            if s.save_every > 0 && s1.steps_done % s.save_every == 0 {
                (s1, SolveAction::Save {
                    step: (s.total_steps - s.step) as u32,
                    rv: VID { v: VidEnum::Vir(s.step as u32) },
                })
            } else {
                solve_advance(s1, timed_out)
            }
        },
        SolveEvent::Saved { timed_out } => solve_advance(s, timed_out),
    }
}

/// What every turn of a solving run keeps: the problem size and the saving
/// period stay, the step never goes up and the steps taken never go down, at
/// most one step is counted per turn, and a refinement is always asked for
/// the variable of the step the new state stands at.
pub proof fn lemma_solve_turn(s: SolveState, e: SolveEvent)
    requires e is Refined ==> s.steps_done < usize::MAX,
    ensures ({
        let (t, a) = solve_next(s, e);
        &&& t.total_steps == s.total_steps && t.save_every == s.save_every
        &&& t.step <= s.step
        &&& s.steps_done <= t.steps_done <= s.steps_done + 1
        &&& (a matches SolveAction::Refine(v) ==> v == VID { v: VidEnum::Vir(t.step as u32) })
        &&& (a matches SolveAction::Save { step, rv } ==> rv == VID { v: VidEnum::Vir(t.step as u32) }
                && step == (t.total_steps - t.step) as u32)
    }),
{
}

fn head(s: SolveState, timed_out: bool) -> (r: (SolveState, SolveAction))
    ensures r == solve_head(s, timed_out),
{
    if s.ctx.is_const() || s.ctx.is_var() {
        (s, SolveAction::Done)
    } else if timed_out {
        (s, SolveAction::TimedOut)
    } else {
        (s, SolveAction::Refine(VID::vir(s.step as u32)))
    }
}

fn advance(s: SolveState, timed_out: bool) -> (r: (SolveState, SolveAction))
    ensures r == solve_advance(s, timed_out),
{
    if s.step == 0 {
        (s, SolveAction::Done)
    } else {
        head(SolveState { step: s.step - 1, ..s }, timed_out)
    }
}

/// One turn of a solving run: from the state and what the driver reports,
/// the next state and what the driver is to do.
pub fn solve_step(s: SolveState, e: SolveEvent) -> (r: (SolveState, SolveAction))
    requires
        s.step <= s.total_steps,
        e is Refined ==> s.steps_done < usize::MAX,
    ensures r == solve_next(s, e),
{
    match e {
        SolveEvent::Begin { timed_out } => head(s, timed_out),
        SolveEvent::Refined { ctx, timed_out } => {
            let s1 = SolveState { ctx, steps_done: s.steps_done + 1, ..s };
            if s.save_every > 0 && s1.steps_done % s.save_every == 0 {
                (s1, SolveAction::Save {
                    step: (s.total_steps - s.step) as u32,
                    rv: VID::vir(s.step as u32),
                })
            } else {
                advance(s1, timed_out)
            }
        },
        SolveEvent::Saved { timed_out } => advance(s, timed_out),
    }
}

} // verus!
