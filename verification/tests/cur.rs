use bex::cur::{Cursor, CursorPlan};
use bex::nid::NID;
use bex::reg::Reg;
use bex::vhl::{HiLo, HiLoBase};
use bex::vid::VID;

/// x1 AND x0, as a two-node graph.
struct AndGraph {
    top: NID,
    low: NID,
}

impl AndGraph {
    fn new() -> Self {
        AndGraph { top: NID::from_vid_idx(VID::var(1), 0), low: NID::from_vid_idx(VID::var(0), 1) }
    }
}

impl HiLoBase for AndGraph {
    fn branches(&self, n: NID) -> Option<HiLo> {
        self.get_hilo(n)
    }

    fn get_hilo(&self, n: NID) -> Option<HiLo> {
        if n == self.top {
            Some(HiLo::new(self.low, NID::o()))
        } else if n == self.low {
            Some(HiLo::new(NID::i(), NID::o()))
        } else {
            None
        }
    }
}

impl CursorPlan for AndGraph {}

#[test]
fn cursor_descend_finds_the_solution() {
    let g = AndGraph::new();
    let mut cur = Cursor::new(2, g.top);
    assert!(cur.at_top());
    cur.descend(&g);
    assert_eq!(cur.node, NID::i());
    assert_eq!(cur.nstack, vec![g.top, g.low]);
    assert!(cur.scope.get(0) && cur.scope.get(1));
    assert_eq!(cur.cube(), vec![(VID::var(0), true), (VID::var(1), true)]);
    assert_eq!(cur.step_up(), g.low);
    assert!(cur.var_get());
    cur.ascend();
    assert!(cur.at_top());
    assert_eq!(cur.node, g.top);
}

#[test]
fn cursor_put_step_and_clear() {
    let g = AndGraph::new();
    let mut cur = Cursor::new(2, g.top);
    cur.put_step(&g, false);
    assert_eq!(cur.node, NID::o());
    assert!(!cur.scope.get(1));
    cur.step_up();
    cur.scope.put(0, true);
    cur.clear_trailing_bits();
    assert!(!cur.scope.get(0));
}

#[test]
fn cursor_increment_skips_dont_cares() {
    let g = AndGraph::new();
    let mut cur = Cursor::new(3, g.top);
    cur.can_skip.put(0, true);
    assert_eq!(cur.dontcares(), vec![0]);
    // bit 0 is a don't-care: it is set before adding one, so the carry stops at bit 1
    assert_eq!(cur.increment(), Some(1));
    assert!(!cur.scope.get(0) && cur.scope.get(1));
    let watch = Reg::from_bits(3, &[0]);
    let mut w = Cursor::new_with_watch(3, g.top, watch);
    w.can_skip.put(0, true);
    assert!(w.dontcares().is_empty());
    assert_eq!(w.increment(), Some(0));
}
