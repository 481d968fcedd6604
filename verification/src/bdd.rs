//! If/then/else triples and their normal form (for binary decision diagrams).
use vstd::prelude::*;
use crate::nid::{NID, INV, T, nid_o, nid_i, negate, IDX_MASK};
use crate::vid::{VID, depth_key, topmost_of3, spec_topmost};
use crate::simp::not_spec;

verus! {

/// An if/then/else triple. Like VHL, but all three slots are NIDs.
#[derive(Debug, Default, PartialEq, Eq, Structural, Hash, Clone, Copy)]
pub struct ITE {
    pub i: NID,
    pub t: NID,
    pub e: NID,
}

/// A normalized ITE suitable for use as a key in the computed cache.
#[derive(Eq, PartialEq, Structural, Hash, Debug, Default, Clone, Copy)]
pub struct NormIteKey(pub ITE);

/// The result of normalizing an ITE.
#[derive(Debug, PartialEq, Eq, Structural, Clone, Copy)]
pub enum Norm {
    /// used when the ITE simplifies to a single NID.
    Nid(NID),
    /// a normalized ITE.
    Ite(NormIteKey),
    /// a normalized, inverted ITE.
    Not(NormIteKey),
}

impl ITE {
    /// shorthand constructor
    pub fn new(i: NID, t: NID, e: NID) -> (r: ITE)
        ensures r == (ITE { i, t, e }),
    {
        ITE { i, t, e }
    }

    /// The topmost variable among the three slots.
    pub fn top_vid(&self) -> (r: VID)
        ensures r == spec_topmost(self.i.vid_spec(), spec_topmost(self.t.vid_spec(), self.e.vid_spec())),
    {
        let (i, t, e) = (self.i.vid(), self.t.vid(), self.e.vid());
        topmost_of3(i, t, e)
    }
}

impl Norm {
    /// The key of a normalized (not inverted) ITE.
    pub fn to_key(&self) -> (r: NormIteKey)
        requires *self is Ite,
        ensures r == self->Ite_0,
    {
        match self {
            Norm::Ite(ite) => *ite,
            Norm::Nid(_) => NormIteKey(ITE::new(NID::o(), NID::o(), NID::o())),
            Norm::Not(ite) => *ite,
        }
    }

    /// Does the normal form stand for an inverted node?
    pub fn is_inv(&self) -> (r: bool)
        ensures
            r == match *self {
                Norm::Nid(x) => x.n & INV != 0,
                Norm::Not(_) => true,
                Norm::Ite(_) => false,
            },
    {
        match self {
            Norm::Nid(x) => x.is_inv(),
            Norm::Not(_) => true,
            Norm::Ite(_) => false,
        }
    }
}

// ---- meaning ----

/// A reading of nids as booleans that respects inversion and the constants.
pub open spec fn reading(m: spec_fn(NID) -> bool) -> bool {
    &&& forall|n: NID| #[trigger] m(not_spec(n)) == !m(n)
    &&& m(nid_o()) == false
    &&& m(nid_i()) == true
}

/// A constant nid is O or I.
pub open spec fn proper(x: NID) -> bool {
    x.n & T != 0 ==> (x == nid_o() || x == nid_i())
}

pub open spec fn ite_val(m: spec_fn(NID) -> bool, f: NID, g: NID, h: NID) -> bool {
    if m(f) { m(g) } else { m(h) }
}

/// What a normal form means under a reading.
pub open spec fn norm_val(m: spec_fn(NID) -> bool, r: Norm) -> bool {
    match r {
        Norm::Nid(x) => m(x),
        Norm::Ite(k) => ite_val(m, k.0.i, k.0.t, k.0.e),
        Norm::Not(k) => !ite_val(m, k.0.i, k.0.t, k.0.e),
    }
}

/// The triple of a normalized ITE: the condition is a node that is not
/// inverted, the then-branch is not inverted, the branches differ, and
/// neither branch is the condition or its inverse.
pub open spec fn normal_key(k: ITE) -> bool {
    &&& !is_const(k.i) && k.i.n & INV == 0 && k.t.n & INV == 0
    &&& k.t != k.e
    &&& k.t != k.i && k.t != not_spec(k.i)
    &&& k.e != k.i && k.e != not_spec(k.i)
}

/// Position of a (non-constant) node in the order used to pick the condition:
/// higher variables first, then lower indices.
pub open spec fn slot_key(x: NID) -> int {
    depth_key(x.vid_spec()) * 0x2_0000_0000 + (0x1_0000_0000 - (x.n & IDX_MASK) as int)
}

pub open spec fn is_const(x: NID) -> bool {
    x.n & T != 0
}

pub open spec fn bound_key() -> int {
    0x20_0000_0000_0000_0000int
}

/// Measure for the normalization loop.
pub open spec fn measure(f: NID, g: NID, h: NID) -> (int, int, int) {
    (
        bound_key() - slot_key(f),
        (if is_const(g) { 0int } else { 1int }) + (if is_const(h) { 0int } else { 1int }),
        (if f.n & INV != 0 { 2int } else { 0int }) + (if g.n & INV != 0 { 1int } else { 0int }),
    )
}

proof fn lemma_key_bounds(x: NID)
    ensures 0 <= slot_key(x) < bound_key(),
{
    let d = depth_key(x.vid_spec());
    assert(0 <= d <= 0x2_FFFF_FFFF);
    crate::bits::lemma_word(x.n, 0);
    assert(0 <= d * 0x2_0000_0000 <= 0x2_FFFF_FFFF * 0x2_0000_0000) by (nonlinear_arith)
        requires 0 <= d <= 0x2_FFFF_FFFF;
}

proof fn lemma_neg_facts(x: NID)
    ensures
        not_spec(x).vid_spec() == x.vid_spec(),
        not_spec(x).n & IDX_MASK == x.n & IDX_MASK,
        slot_key(not_spec(x)) == slot_key(x),
        is_const(not_spec(x)) == is_const(x),
        (not_spec(x).n & INV != 0) == (x.n & INV == 0),
        not_spec(not_spec(x)) == x,
        proper(x) ==> proper(not_spec(x)),
        not_spec(nid_o()) == nid_i(),
        not_spec(nid_i()) == nid_o(),
        not_spec(x) != x,
{
    crate::nid::lemma_neg_fields(x);
    crate::nid::lemma_not_not(x);
}

impl ITE {
    /// Choose a normal form for the triple (f, g, h). Algorithm based on:
    /// "Efficient Implementation of a BDD Package" (Brace, Rudell, Bryant).
    pub fn norm(f0: NID, g0: NID, h0: NID) -> (r: Norm)
        ensures
            forall|m: spec_fn(NID) -> bool| reading(m) && proper(f0) && proper(g0) && proper(h0)
                ==> #[trigger] norm_val(m, r) == ite_val(m, f0, g0, h0),
            r is Ite ==> normal_key(r->Ite_0.0),
            r is Not ==> normal_key(r->Not_0.0),
        decreases measure(f0, g0, h0).0, measure(f0, g0, h0).1, measure(f0, g0, h0).2,
    {
        let mut f = f0;
        let mut g = g0;
        let mut h = h0;
        proof { lemma_key_bounds(f); }
        loop
            invariant
                proper(f0) && proper(g0) && proper(h0) ==> proper(f) && proper(g) && proper(h),
                forall|m: spec_fn(NID) -> bool| reading(m) && proper(f0) && proper(g0) && proper(h0)
                    ==> #[trigger] ite_val(m, f, g, h) == ite_val(m, f0, g0, h0),
                measure(f, g, h) == measure(f0, g0, h0) || decreases_lex(measure(f, g, h), measure(f0, g0, h0)),
            decreases measure(f, g, h).0, measure(f, g, h).1, measure(f, g, h).2,
        {
            proof {
                crate::bits::lemma_constants();
                lemma_neg_facts(f);
                lemma_neg_facts(g);
                lemma_neg_facts(h);
                lemma_key_bounds(f);
                lemma_key_bounds(g);
                lemma_key_bounds(h);
            }
            let ghost (pf, pg, ph) = (f, g, h);
            if f.is_const() {
                let r = Norm::Nid(if f == NID::i() { g } else { h });
                proof { lemma_ret(f0, g0, h0, f, g, h, r); }
                return r;
            }
            if g == h {
                let r = Norm::Nid(g);
                proof { lemma_ret(f0, g0, h0, f, g, h, r); }
                return r;
            }
            if g == f {
                if h.is_const() {
                    let r = Norm::Nid(if h == NID::i() { NID::i() } else { f });
                    proof { lemma_ret(f0, g0, h0, f, g, h, r); }
                    return r;
                } else {
                    g = NID::i();
                }
            } else if g.is_const() && h.is_const() {
                let r = if g == NID::i() { Norm::Nid(f) } else { Norm::Nid(negate(f)) };
                proof { lemma_ret(f0, g0, h0, f, g, h, r); }
                return r;
            } else {
                let nf = negate(f);
                if g == nf {
                    g = NID::o();
                } else if h == nf {
                    h = NID::i();
                } else if h == f {
                    h = NID::o();
                } else {
                    let fv = f.vid();
                    let fi = f.idx();
                    if g.is_const() && above(h, fv, fi) {
                        if g == NID::i() {
                            g = f;
                            f = h;
                            h = g;
                            g = NID::i();
                            proof { lemma_above_key(ph, pf); }
                        } else {
                            f = negate(h);
                            proof { lemma_above_key(ph, pf); }
                            g = NID::o();
                            h = nf;
                        }
                    } else if h.is_const() && above(g, fv, fi) {
                        if h == NID::i() {
                            f = negate(g);
                            g = nf;
                            h = NID::i();
                            proof { lemma_above_key(pg, pf); }
                        } else {
                            h = f;
                            f = g;
                            g = h;
                            h = NID::o();
                            proof { lemma_above_key(pg, pf); }
                        }
                    } else {
                        let ng = negate(g);
                        if h == ng && above(g, fv, fi) {
                            h = f;
                            f = g;
                            g = h;
                            h = nf;
                            proof { lemma_above_key(pg, pf); }
                        } else if f.is_inv() {
                            f = g;
                            g = h;
                            h = f;
                            f = nf;
                        } else if g.is_inv() {
                            let nh = negate(h);
                            proof { assert(decreases_lex(measure(f, ng, nh), measure(f0, g0, h0))
                                || measure(f, ng, nh) == measure(f0, g0, h0)); }
                            let q = ITE::norm(f, ng, nh);
                            let r = match q {
                                Norm::Nid(nid) => Norm::Nid(negate(nid)),
                                Norm::Not(ite) => Norm::Ite(ite),
                                Norm::Ite(ite) => Norm::Not(ite),
                            };
                            proof {
                                assert forall|m: spec_fn(NID) -> bool| reading(m) && proper(f0) && proper(g0) && proper(h0)
                                    implies #[trigger] norm_val(m, r) == ite_val(m, f0, g0, h0) by {
                                    assert(ite_val(m, f, g, h) == ite_val(m, f0, g0, h0));
                                    assert(m(not_spec(g)) == !m(g));
                                    assert(m(not_spec(h)) == !m(h));
                                    assert(norm_val(m, q) == ite_val(m, f, ng, nh));
                                    match q {
                                        Norm::Nid(nid) => { assert(m(not_spec(nid)) == !m(nid)); },
                                        _ => {},
                                    }
                                }
                            }
                            return r;
                        } else {
                            let r = Norm::Ite(NormIteKey(ITE::new(f, g, h)));
                            proof { lemma_ret(f0, g0, h0, f, g, h, r); }
                            return r;
                        }
                    }
                }
            }
            proof {
                lemma_neg_facts(pf);
                lemma_neg_facts(pg);
                lemma_neg_facts(ph);
                crate::bits::lemma_constants();
                assert(decreases_lex(measure(f, g, h), measure(pf, pg, ph)));
                assert forall|m: spec_fn(NID) -> bool| reading(m) && proper(f0) && proper(g0) && proper(h0)
                    implies #[trigger] ite_val(m, f, g, h) == ite_val(m, f0, g0, h0) by {
                    assert(ite_val(m, pf, pg, ph) == ite_val(m, f0, g0, h0));
                    assert(m(not_spec(pf)) == !m(pf));
                    assert(m(not_spec(pg)) == !m(pg));
                    assert(m(not_spec(ph)) == !m(ph));
                }
            }
        }
    }
}

/// A returned normal form means what the triple means.
proof fn lemma_ret(f0: NID, g0: NID, h0: NID, f: NID, g: NID, h: NID, r: Norm)
    requires
        forall|m: spec_fn(NID) -> bool| reading(m) && proper(f0) && proper(g0) && proper(h0)
            ==> #[trigger] ite_val(m, f, g, h) == ite_val(m, f0, g0, h0),
        proper(f0) && proper(g0) && proper(h0) ==> proper(f) && proper(g) && proper(h),
        forall|m: spec_fn(NID) -> bool| reading(m) && proper(f) && proper(g) && proper(h)
            ==> #[trigger] norm_val(m, r) == ite_val(m, f, g, h),
    ensures
        forall|m: spec_fn(NID) -> bool| reading(m) && proper(f0) && proper(g0) && proper(h0)
            ==> #[trigger] norm_val(m, r) == ite_val(m, f0, g0, h0),
{
    assert forall|m: spec_fn(NID) -> bool| reading(m) && proper(f0) && proper(g0) && proper(h0)
        implies #[trigger] norm_val(m, r) == ite_val(m, f0, g0, h0) by {
        assert(ite_val(m, f, g, h) == ite_val(m, f0, g0, h0));
        assert(norm_val(m, r) == ite_val(m, f, g, h));
    }
}

proof fn lemma_above_key(x: NID, f: NID)
    requires depth_key(x.vid_spec()) > depth_key(f.vid_spec())
        || (x.vid_spec() == f.vid_spec() && x.n & IDX_MASK < f.n & IDX_MASK),
    ensures slot_key(x) > slot_key(f),
{
    let dx = depth_key(x.vid_spec());
    let df = depth_key(f.vid_spec());
    crate::bits::lemma_word(x.n, 0);
    crate::bits::lemma_word(f.n, 0);
    let ix = (x.n & IDX_MASK) as int;
    let jf = (f.n & IDX_MASK) as int;
    if dx > df {
        assert(dx * 0x2_0000_0000 >= df * 0x2_0000_0000 + 0x2_0000_0000) by (nonlinear_arith)
            requires dx > df;
    }
}

pub open spec fn decreases_lex(a: (int, int, int), b: (int, int, int)) -> bool {
    a.0 < b.0 || (a.0 == b.0 && (a.1 < b.1 || (a.1 == b.1 && a.2 < b.2)))
}

/// Does `x` come before the condition (variable `fv`, index `fi`) in the order?
fn above(x: NID, fv: VID, fi: usize) -> (r: bool)
    ensures r == (depth_key(x.vid_spec()) > depth_key(fv) || (x.vid_spec() == fv && x.n & IDX_MASK < fi)),
{
    let x0 = x.vid();
    x0.is_above(&fv) || (x0 == fv && x.idx() < fi)
}

} // verus!
