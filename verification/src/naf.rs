//! Nodes of the negation-and-xor form: a branch on a variable, or an
//! (optionally negated) and or exclusive or of two nodes.
use vstd::prelude::*;
use crate::nid::{NID, INV};
use crate::vid::{VID, topmost, depth_key};
use crate::vhl::Vhl;

verus! {

/// A node: a branch on a variable, or a possibly inverted and / exclusive or.
#[derive(Debug, Clone, Copy, PartialEq, Eq, Structural, Hash)]
pub enum NAF {
    Vhl(Vhl),
    And { inv: bool, x: NID, y: NID },
    Xor { inv: bool, x: NID, y: NID },
}

/// The variable of the topmost of two nodes.
pub open spec fn top_of(x: NID, y: NID) -> VID {
    if depth_key(x.vid_spec()) > depth_key(y.vid_spec()) { x.vid_spec() } else { y.vid_spec() }
}

/// The branch node with its else branch inverted, when `inv` holds.
pub open spec fn inv_vhl_spec(vhl: Vhl, inv: bool) -> Vhl {
    if inv { Vhl { v: vhl.v, hi: vhl.hi, lo: NID { n: vhl.lo.n ^ INV } } } else { vhl }
}

fn inv_vhl_if(vhl: Vhl, inv: bool) -> (r: Vhl)
    ensures r == inv_vhl_spec(vhl, inv),
{
    if inv { Vhl { v: vhl.v, hi: vhl.hi, lo: crate::nid::negate(vhl.lo) } } else { vhl }
}

impl NAF {
    /// The node's variable: the branch variable, or the topmost variable of the operands.
    pub fn var(&self) -> (r: VID)
        ensures
            r == match *self {
                NAF::Vhl(vhl) => vhl.v,
                NAF::And { x, y, .. } => top_of(x, y),
                NAF::Xor { x, y, .. } => top_of(x, y),
            },
    {
        match self {
            NAF::Vhl(vhl) => vhl.v,
            NAF::And { inv: _, x, y } => topmost(x.vid(), y.vid()),
            NAF::Xor { inv: _, x, y } => topmost(x.vid(), y.vid()),
        }
    }

    /// The node, inverted when `cond` holds.
    pub fn inv_if(self, cond: bool) -> (r: NAF)
        ensures
            r == if !cond { self } else {
                match self {
                    NAF::Vhl(vhl) => NAF::Vhl(inv_vhl_spec(vhl, true)),
                    NAF::And { inv, x, y } => NAF::And { inv: !inv, x, y },
                    NAF::Xor { inv, x, y } => NAF::Xor { inv: !inv, x, y },
                }
            },
    {
        if cond {
            match self {
                NAF::Vhl(vhl) => NAF::Vhl(inv_vhl_if(vhl, true)),
                NAF::And { inv, x, y } => NAF::And { inv: !inv, x, y },
                NAF::Xor { inv, x, y } => NAF::Xor { inv: !inv, x, y },
            }
        } else {
            self
        }
    }
}

} // verus!
