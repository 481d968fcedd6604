use bex::nid::NID;
use bex::solve::{solve_step, SolveAction, SolveEvent, SolveState};
use bex::vid::VID;

fn start(total_steps: usize, save_every: usize, ctx: NID) -> SolveState {
    SolveState { total_steps, save_every, step: total_steps, steps_done: 0, ctx }
}

#[test]
fn solve_run_refines_saves_and_stops() {
    let s = start(2, 1, NID::ixn(0));
    let (s, a) = solve_step(s, SolveEvent::Begin { timed_out: false });
    assert_eq!(a, SolveAction::Refine(VID::vir(2)));
    let (s, a) = solve_step(s, SolveEvent::Refined { ctx: NID::ixn(5), timed_out: false });
    assert_eq!(a, SolveAction::Save { step: 0, rv: VID::vir(2) });
    assert_eq!((s.steps_done, s.ctx), (1, NID::ixn(5)));
    let (s, a) = solve_step(s, SolveEvent::Saved { timed_out: false });
    assert_eq!(a, SolveAction::Refine(VID::vir(1)));
    assert_eq!(s.step, 1);
    // the context becomes an input variable: one more snapshot, then stop
    let (s, a) = solve_step(s, SolveEvent::Refined { ctx: NID::var(0), timed_out: false });
    assert_eq!(a, SolveAction::Save { step: 1, rv: VID::vir(1) });
    let (s, a) = solve_step(s, SolveEvent::Saved { timed_out: false });
    assert_eq!(a, SolveAction::Done);
    assert_eq!((s.step, s.steps_done), (0, 2));
}

#[test]
fn solve_run_saves_every_few_steps() {
    let s = start(3, 2, NID::ixn(0));
    let (s, a) = solve_step(s, SolveEvent::Begin { timed_out: false });
    assert_eq!(a, SolveAction::Refine(VID::vir(3)));
    // first step: no snapshot yet
    let (s, a) = solve_step(s, SolveEvent::Refined { ctx: NID::ixn(1), timed_out: false });
    assert_eq!(a, SolveAction::Refine(VID::vir(2)));
    // second step: a snapshot
    let (s, a) = solve_step(s, SolveEvent::Refined { ctx: NID::ixn(2), timed_out: false });
    assert_eq!(a, SolveAction::Save { step: 1, rv: VID::vir(2) });
    let (_, a) = solve_step(s, SolveEvent::Saved { timed_out: false });
    assert_eq!(a, SolveAction::Refine(VID::vir(1)));
    // never saving
    let s = start(1, 0, NID::ixn(0));
    let (s, _) = solve_step(s, SolveEvent::Begin { timed_out: false });
    let (s, a) = solve_step(s, SolveEvent::Refined { ctx: NID::ixn(1), timed_out: false });
    assert_eq!(a, SolveAction::Refine(VID::vir(0)));
    // the last step ends the run, whatever the context
    let (_, a) = solve_step(s, SolveEvent::Refined { ctx: NID::ixn(2), timed_out: false });
    assert_eq!(a, SolveAction::Done);
}

#[test]
fn solve_run_stops_on_time_or_settled_context() {
    let s = start(4, 1, NID::ixn(0));
    let (_, a) = solve_step(s, SolveEvent::Begin { timed_out: true });
    assert_eq!(a, SolveAction::TimedOut);
    let (s, _) = solve_step(s, SolveEvent::Begin { timed_out: false });
    let (s, _) = solve_step(s, SolveEvent::Refined { ctx: NID::ixn(3), timed_out: true });
    let (_, a) = solve_step(s, SolveEvent::Saved { timed_out: true });
    assert_eq!(a, SolveAction::TimedOut);
    // a constant or an input variable needs no refining
    let (_, a) = solve_step(start(4, 1, NID::o()), SolveEvent::Begin { timed_out: false });
    assert_eq!(a, SolveAction::Done);
    let (_, a) = solve_step(start(4, 1, NID::var(3)), SolveEvent::Begin { timed_out: false });
    assert_eq!(a, SolveAction::Done);
    // a virtual variable still does
    let (_, a) = solve_step(start(4, 1, NID::vir(3)), SolveEvent::Begin { timed_out: false });
    assert_eq!(a, SolveAction::Refine(VID::vir(4)));
}
