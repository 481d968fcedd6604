//! (Var, Hi, Lo) triples.
use vstd::prelude::*;
use crate::nid::{NID, INV};
use crate::vid::VID;

verus! {

/// Hi/lo pair stored for a node. All nodes with the same branching variable
/// go in the same array, so there is no point in storing the variable.
#[derive(PartialEq, Eq, Structural, Hash, Clone, Copy, Debug, Default)]
pub struct HiLo {
    pub hi: NID,
    pub lo: NID,
}

/// Which branch of a hi/lo pair.
#[derive(PartialEq, Eq, Structural, Debug, Copy, Clone)]
pub enum HiLoPart {
    HiPart,
    LoPart,
}

impl HiLo {
    /// Constructor.
    pub fn new(hi: NID, lo: NID) -> (r: HiLo)
        ensures r.hi == hi, r.lo == lo,
    {
        HiLo { hi, lo }
    }

    /// Both branches inverted.
    pub fn invert(self) -> (r: HiLo)
        ensures r.hi.n == self.hi.n ^ INV, r.lo.n == self.lo.n ^ INV,
    {
        HiLo { hi: crate::nid::negate(self.hi), lo: crate::nid::negate(self.lo) }
    }

    /// The branch named by `which`.
    pub fn get_part(&self, which: HiLoPart) -> (r: NID)
        ensures r == if which == HiLoPart::HiPart { self.hi } else { self.lo },
    {
        if which == HiLoPart::HiPart { self.hi } else { self.lo }
    }
}

impl std::ops::Not for HiLo {
    type Output = HiLo;

    fn not(self) -> (r: HiLo)
        ensures r.hi.n == self.hi.n ^ INV, r.lo.n == self.lo.n ^ INV,
    {
        self.invert()
    }
}

impl vstd::std_specs::ops::NotSpecImpl for HiLo {
    open spec fn obeys_not_spec() -> bool { true }
    open spec fn not_req(self) -> bool { true }
    open spec fn not_spec(self) -> HiLo {
        HiLo { hi: NID { n: self.hi.n ^ INV }, lo: NID { n: self.lo.n ^ INV } }
    }
}

/// A node together with its branching variable.
#[derive(PartialEq, Eq, Structural, Hash, Clone, Copy, Debug)]
pub struct Vhl {
    pub v: VID,
    pub hi: NID,
    pub lo: NID,
}

impl Vhl {
    /// Constructor.
    pub fn new(v: VID, hi: NID, lo: NID) -> (r: Vhl)
        ensures r.v == v, r.hi == hi, r.lo == lo,
    {
        Vhl { v, hi, lo }
    }

    /// The branches without the variable.
    pub fn hilo(&self) -> (r: HiLo)
        ensures r.hi == self.hi, r.lo == self.lo,
    {
        HiLo { hi: self.hi, lo: self.lo }
    }
}

impl std::ops::Not for Vhl {
    type Output = Vhl;

    fn not(self) -> (r: Vhl)
        ensures r.v == self.v, r.hi.n == self.hi.n ^ INV, r.lo.n == self.lo.n ^ INV,
    {
        Vhl { v: self.v, hi: crate::nid::negate(self.hi), lo: crate::nid::negate(self.lo) }
    }
}

impl vstd::std_specs::ops::NotSpecImpl for Vhl {
    open spec fn obeys_not_spec() -> bool { true }
    open spec fn not_req(self) -> bool { true }
    open spec fn not_spec(self) -> Vhl {
        Vhl { v: self.v, hi: NID { n: self.hi.n ^ INV }, lo: NID { n: self.lo.n ^ INV } }
    }
}

/// A node under construction: the branches found so far.
#[derive(PartialEq, Eq, Structural, Debug, Copy, Clone)]
pub struct VhlParts {
    pub v: VID,
    pub hi: Option<NID>,
    pub lo: Option<NID>,
    pub invert: bool,
}

impl VhlParts {
    /// Both branches, once both are known.
    pub fn hilo(&self) -> (r: Option<HiLo>)
        ensures
            r == match (self.hi, self.lo) {
                (Some(hi), Some(lo)) => Some(HiLo { hi, lo }),
                _ => None::<HiLo>,
            },
    {
        match (self.hi, self.lo) {
            (Some(hi), Some(lo)) => Some(HiLo { hi, lo }),
            _ => None,
        }
    }

    /// Record one of the branches.
    pub fn set_part(&mut self, part: HiLoPart, v: Option<NID>)
        ensures
            part == HiLoPart::HiPart ==> *final(self) == (VhlParts { hi: v, ..*old(self) }),
            part == HiLoPart::LoPart ==> *final(self) == (VhlParts { lo: v, ..*old(self) }),
    {
        if part == HiLoPart::HiPart { self.hi = v } else { self.lo = v }
    }
}

/// Anything that can give the hi/lo branches of its nodes.
pub trait HiLoBase {
    /// The branches of node `n`, if it is a node of this base.
    spec fn branches(&self, n: NID) -> Option<HiLo>;

    /// The branches of node `n`, if it is a node of this base.
    fn get_hilo(&self, n: NID) -> (r: Option<HiLo>)
        ensures r == self.branches(n);
}

} // verus!
