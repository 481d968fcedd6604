//! The jobs of the algebraic-normal-form swarm, the parts of a result
//! that a job waits for, the shared store of nodes, and the steps a worker
//! takes on a job.
use vstd::prelude::*;
use crate::nid::{NID, T, VAR, nid_o, nid_i};
use crate::vid::{VID, VidOrdering, depth_key};
use crate::vhl::Vhl;
use crate::nidtext::plain_vid;
use crate::anf::{ANFBase, MAX_NODES, value, nid_ok, prefix, fetch_spec, depth, max_depth, is_inv,
    lemma_keep, lemma_prefix_trans, lemma_prefix_refl, lemma_consts, lemma_inv, lemma_ok_inv, lemma_const_ok,
    lemma_value_inv, lemma_fetch, lemma_depth_inj, lemma_plain_nids, lemma_ok_shape, lemma_support,
    env_set, at_top, n_inv, nodes_ok, inv};
use crate::simp;

verus! {

/// A job: exclusive or, and, or substitution.
#[derive(Debug, Clone, Copy, PartialEq, Eq, Structural, Hash)]
pub enum AnfJob {
    Xor(NID, NID),
    And(NID, NID),
    Sub(VID, NID, NID),
}

impl Default for AnfJob {
    fn default() -> (r: AnfJob)
        ensures r == AnfJob::Xor(nid_o(), nid_o()),
    {
        AnfJob::Xor(NID::o(), NID::o())
    }
}

impl AnfJob {
    /// The exclusive-or job, with its operands in order.
    pub fn xor(x: NID, y: NID) -> (r: AnfJob)
        ensures r == if x.n <= y.n { AnfJob::Xor(x, y) } else { AnfJob::Xor(y, x) },
    {
        if x.n <= y.n { AnfJob::Xor(x, y) } else { AnfJob::Xor(y, x) }
    }

    /// The and job, with its operands in order.
    pub fn and(x: NID, y: NID) -> (r: AnfJob)
        ensures r == if x.n <= y.n { AnfJob::And(x, y) } else { AnfJob::And(y, x) },
    {
        if x.n <= y.n { AnfJob::And(x, y) } else { AnfJob::And(y, x) }
    }
}

/// A slot of a result under construction.
#[derive(Debug, Clone, Copy, PartialEq, Eq, Structural)]
pub enum AnfSlot {
    Hi,
    Lo,
    Bq,
    Br,
    Cq,
    Cr,
}

/// The parts of a result under construction.
#[derive(Debug, Clone, Copy, PartialEq, Eq, Structural)]
pub enum AnfParts {
    Empty,
    Xor { v: VID, hi: Option<NID>, lo: Option<NID> },
    AndAbove { v: VID, hi: Option<NID>, lo: Option<NID> },
    AndLevel { v: VID, bq: Option<NID>, br: Option<NID>, cq: Option<NID>, cr: Option<NID> },
}

impl Default for AnfParts {
    fn default() -> (r: AnfParts)
        ensures r == AnfParts::Empty,
    {
        AnfParts::Empty
    }
}

/// The parts after filling `slot` with `nid` (slots that the parts do not have are ignored).
pub open spec fn set_slot_spec(p: AnfParts, slot: AnfSlot, nid: Option<NID>) -> AnfParts {
    match p {
        AnfParts::Xor { v, hi, lo } => match slot {
            AnfSlot::Hi => AnfParts::Xor { v, hi: nid, lo },
            AnfSlot::Lo => AnfParts::Xor { v, hi, lo: nid },
            _ => p,
        },
        AnfParts::AndAbove { v, hi, lo } => match slot {
            AnfSlot::Hi => AnfParts::AndAbove { v, hi: nid, lo },
            AnfSlot::Lo => AnfParts::AndAbove { v, hi, lo: nid },
            _ => p,
        },
        AnfParts::AndLevel { v, bq, br, cq, cr } => match slot {
            AnfSlot::Bq => AnfParts::AndLevel { v, bq: nid, br, cq, cr },
            AnfSlot::Br => AnfParts::AndLevel { v, bq, br: nid, cq, cr },
            AnfSlot::Cq => AnfParts::AndLevel { v, bq, br, cq: nid, cr },
            AnfSlot::Cr => AnfParts::AndLevel { v, bq, br, cq, cr: nid },
            _ => p,
        },
        AnfParts::Empty => p,
    }
}

/// Every slot of the parts is filled.
pub open spec fn ready_spec(p: AnfParts) -> bool {
    match p {
        AnfParts::Empty => false,
        AnfParts::Xor { hi, lo, .. } => hi is Some && lo is Some,
        AnfParts::AndAbove { hi, lo, .. } => hi is Some && lo is Some,
        AnfParts::AndLevel { bq, br, cq, cr, .. } => bq is Some && br is Some && cq is Some && cr is Some,
    }
}

impl AnfParts {
    /// Fill one slot.
    pub fn set_slot(&mut self, slot: AnfSlot, nid: Option<NID>)
        ensures *final(self) == set_slot_spec(*old(self), slot, nid),
    {
        *self = match *self {
            AnfParts::Xor { v, hi, lo } => match slot {
                AnfSlot::Hi => AnfParts::Xor { v, hi: nid, lo },
                AnfSlot::Lo => AnfParts::Xor { v, hi, lo: nid },
                _ => *self,
            },
            AnfParts::AndAbove { v, hi, lo } => match slot {
                AnfSlot::Hi => AnfParts::AndAbove { v, hi: nid, lo },
                AnfSlot::Lo => AnfParts::AndAbove { v, hi, lo: nid },
                _ => *self,
            },
            AnfParts::AndLevel { v, bq, br, cq, cr } => match slot {
                AnfSlot::Bq => AnfParts::AndLevel { v, bq: nid, br, cq, cr },
                AnfSlot::Br => AnfParts::AndLevel { v, bq, br: nid, cq, cr },
                AnfSlot::Cq => AnfParts::AndLevel { v, bq, br, cq: nid, cr },
                AnfSlot::Cr => AnfParts::AndLevel { v, bq, br, cq, cr: nid },
                _ => *self,
            },
            AnfParts::Empty => *self,
        };
    }

    /// Are all slots filled?
    pub fn is_ready(&self) -> (r: bool)
        ensures r == ready_spec(*self),
    {
        match self {
            AnfParts::Empty => false,
            AnfParts::Xor { hi, lo, .. } => hi.is_some() && lo.is_some(),
            AnfParts::AndAbove { hi, lo, .. } => hi.is_some() && lo.is_some(),
            AnfParts::AndLevel { bq, br, cq, cr, .. } => bq.is_some() && br.is_some() && cq.is_some() && cr.is_some(),
        }
    }
}


/// The parts of a finished job name nodes of the store below its variable,
/// with lo branches that are not inverted.
pub open spec fn parts_ok(nodes: Seq<Vhl>, p: AnfParts) -> bool {
    match p {
        AnfParts::Empty => false,
        AnfParts::Xor { v, hi, lo } | AnfParts::AndAbove { v, hi, lo } => {
            &&& plain_vid(v)
            &&& (hi matches Some(h) ==> nid_ok(nodes, h) && depth(h) < depth_key(v))
            &&& (lo matches Some(l) ==> nid_ok(nodes, l) && depth(l) < depth_key(v) && !is_inv(l))
        },
        AnfParts::AndLevel { v, bq, br, cq, cr } => {
            &&& plain_vid(v)
            &&& (bq matches Some(n) ==> nid_ok(nodes, n) && depth(n) < depth_key(v))
            &&& (br matches Some(n) ==> nid_ok(nodes, n) && depth(n) < depth_key(v))
            &&& (cq matches Some(n) ==> nid_ok(nodes, n) && depth(n) < depth_key(v))
            &&& (cr matches Some(n) ==> nid_ok(nodes, n) && depth(n) < depth_key(v) && !is_inv(n))
        },
    }
}

/// The value of the node that the (ready) parts make.
pub open spec fn parts_value(nodes: Seq<Vhl>, p: AnfParts, env: spec_fn(VID) -> bool) -> bool {
    match p {
        AnfParts::Xor { v, hi, lo } | AnfParts::AndAbove { v, hi, lo } =>
            (env(v) && value(nodes, hi->0, env)) != value(nodes, lo->0, env),
        AnfParts::AndLevel { v, bq, br, cq, cr } =>
            (env(v) && ((value(nodes, bq->0, env) != value(nodes, br->0, env)) != value(nodes, cq->0, env)))
                != value(nodes, cr->0, env),
        AnfParts::Empty => false,
    }
}

/// The shared store of the swarm's polynomial nodes: the nodes and their
/// cache, with the sequential operations that the workers fall back on.
pub struct AnfStore {
    base: ANFBase,
}

impl Default for AnfStore {
    fn default() -> (r: AnfStore)
        ensures r.wf(), r.nodes() == Seq::<Vhl>::empty(),
    {
        AnfStore { base: ANFBase::new() }
    }
}

impl AnfStore {
    /// The invariant (that of the underlying base).
    pub closed spec fn wf(&self) -> bool { self.base.wf() }

    /// The stored nodes.
    pub closed spec fn nodes(&self) -> Seq<Vhl> { self.base.nodes() }

    /// The store's cache holds node `n` for the triple `(v, hi, lo)`.
    pub closed spec fn holds(&self, v: VID, hi: NID, lo: NID, n: NID) -> bool { self.base.holds(v, hi, lo, n) }

    /// `self` extends `old`.
    pub open spec fn grows(&self, old: &AnfStore) -> bool { prefix(old.nodes(), self.nodes()) }

    /// The value of `x` under `env`.
    #[verifier::inline]
    pub open spec fn value(&self, x: NID, env: spec_fn(VID) -> bool) -> bool { value(self.nodes(), x, env) }

    /// Can `x` be handed to the store?
    #[verifier::inline]
    pub open spec fn valid(&self, x: NID) -> bool { nid_ok(self.nodes(), x) }

    /// Is there room for another node?
    #[verifier::inline]
    pub open spec fn room(&self) -> bool { self.nodes().len() < MAX_NODES }

    /// The triple of a variable or a stored node (inverted with the nid).
    pub fn fetch(&self, n: NID) -> (r: Vhl)
        requires self.wf(), self.valid(n), n.n & T == 0,
        ensures r == fetch_spec(self.nodes(), n),
    {
        self.base.fetch(n)
    }

    /// The node `(v AND hi) XOR lo`, stored once: a triple that was stored
    /// before gives back the same nid. `I, O` gives the variable itself.
    /// (When the store is full and the node is new, the result is O.)
    pub fn vhl(&mut self, v: VID, hi0: NID, lo0: NID) -> (r: NID)
        requires
            old(self).wf(), plain_vid(v), old(self).valid(hi0), old(self).valid(lo0),
            depth(hi0) < depth_key(v), depth(lo0) < depth_key(v), !is_inv(lo0),
        ensures
            final(self).wf(), final(self).grows(&*old(self)), final(self).valid(r),
            !is_inv(r), depth(r) <= depth_key(v),
            final(self).room() ==> forall|env: spec_fn(VID) -> bool| #[trigger] final(self).value(r, env)
                == ((env(v) && final(self).value(hi0, env)) != final(self).value(lo0, env)),
            hi0 == nid_i() && lo0 == nid_o() ==> r == NID::from_vid_spec(v),
            !(hi0 == nid_i() && lo0 == nid_o()) ==> {
                &&& forall|n: NID| #[trigger] old(self).holds(v, hi0, lo0, n) ==> r == n
                &&& final(self).room() ==> final(self).holds(v, hi0, lo0, r)
            },
    {
        self.base.vhl(v, hi0, lo0)
    }

    /// `x XOR y` (the sequential xor of the base).
    fn xor_sync(&mut self, x: NID, y: NID) -> (r: NID)
        requires old(self).wf(), old(self).valid(x), old(self).valid(y),
        ensures
            final(self).wf(), final(self).grows(&*old(self)), final(self).valid(r),
            depth(r) <= max_depth(x, y),
            is_inv(r) == (is_inv(x) != is_inv(y)),
            final(self).room() ==> forall|env: spec_fn(VID) -> bool| #[trigger] final(self).value(r, env)
                == (final(self).value(x, env) != final(self).value(y, env)),
    {
        self.base.xor(x, y)
    }

    /// `x AND y`.
    pub fn and(&mut self, x: NID, y: NID) -> (r: NID)
        requires old(self).wf(), old(self).valid(x), old(self).valid(y),
        ensures
            final(self).wf(), final(self).grows(&*old(self)), final(self).valid(r),
            depth(r) <= max_depth(x, y),
            is_inv(r) == (is_inv(x) && is_inv(y)),
            final(self).room() ==> forall|env: spec_fn(VID) -> bool| #[trigger] final(self).value(r, env)
                == (final(self).value(x, env) && final(self).value(y, env)),
        decreases max_depth(x, y), at_top(x, y), 4 * n_inv(x, y) + (if depth(x) < depth(y) { 3int } else { 1int }),
    {
        let ghost s0 = self.base.nodes();
        proof {
            self.base.lemma_wf();
            lemma_consts();
            lemma_inv(x);
            lemma_inv(y);
            lemma_ok_inv(s0, x);
            lemma_ok_inv(s0, y);
            lemma_prefix_refl(s0);
        }
        match simp::and(x, y) {
            Some(n) => {
                proof {
                    assert forall|env: spec_fn(VID) -> bool| #[trigger] value(s0, n, env)
                        == (value(s0, x, env) && value(s0, y, env)) by {
                        lemma_value_inv(s0, x, env);
                        lemma_value_inv(s0, y, env);
                    }
                }
                n
            },
            None => {
                let a = x.raw();
                let b = y.raw();
                proof {
                    if x.n & T != 0 { lemma_const_ok(s0, x); }
                    if y.n & T != 0 { lemma_const_ok(s0, y); }
                    assert forall|env: spec_fn(VID) -> bool| #[trigger] value(s0, a, env)
                        == (value(s0, x, env) != is_inv(x)) && value(s0, b, env) == (value(s0, y, env) != is_inv(y)) by {
                        lemma_value_inv(s0, a, env);
                        lemma_value_inv(s0, b, env);
                    }
                }
                if x.is_inv() {
                    if y.is_inv() {
                        let ab = self.and(a, b);
                        let ghost s1 = self.base.nodes();
                        proof { lemma_keep(s0, s1, b); lemma_keep(s0, s1, a); }
                        let t1 = self.xor_sync(ab, b);
                        let ghost s2 = self.base.nodes();
                        proof { lemma_prefix_trans(s0, s1, s2); lemma_keep(s0, s2, a); }
                        let t2 = self.xor_sync(a, t1);
                        let ghost s3 = self.base.nodes();
                        proof { lemma_prefix_trans(s0, s2, s3); lemma_keep(s0, s3, nid_i()); }
                        let r = self.xor_sync(NID::i(), t2);
                        proof {
                            let s4 = self.base.nodes();
                            lemma_prefix_trans(s0, s3, s4);
                            lemma_prefix_trans(s1, s2, s3);
                            lemma_prefix_trans(s1, s3, s4);
                            lemma_prefix_trans(s2, s3, s4);
                            lemma_keep(s0, s4, x); lemma_keep(s0, s4, y); lemma_keep(s0, s4, a); lemma_keep(s0, s4, b);
                            lemma_keep(s0, s1, x); lemma_keep(s0, s1, y);
                            lemma_keep(s0, s2, b);
                            lemma_keep(s1, s4, ab); lemma_keep(s2, s4, t1); lemma_keep(s3, s4, t2);
                            lemma_keep(s1, s2, ab); lemma_keep(s2, s3, t1);
                            lemma_keep(s0, s3, a);
                            if s4.len() < MAX_NODES {
                                assert forall|env: spec_fn(VID) -> bool| #[trigger] value(s4, r, env)
                                    == (value(s4, x, env) && value(s4, y, env)) by {
                                    assert(value(s1, ab, env) == (value(s1, a, env) && value(s1, b, env)));
                                    assert(value(s2, t1, env) == (value(s2, ab, env) != value(s2, b, env)));
                                    assert(value(s3, t2, env) == (value(s3, a, env) != value(s3, t1, env)));
                                    assert(value(s4, r, env) == (value(s4, nid_i(), env) != value(s4, t2, env)));
                                    assert(value(s0, a, env) == (value(s0, x, env) != is_inv(x)));
                                    assert(value(s0, b, env) == (value(s0, y, env) != is_inv(y)));
                                }
                            }
                        }
                        r
                    } else {
                        let ab = self.and(a, b);
                        let ghost s1 = self.base.nodes();
                        proof { lemma_keep(s0, s1, b); }
                        let r = self.xor_sync(ab, b);
                        proof {
                            let s2 = self.base.nodes();
                            lemma_prefix_trans(s0, s1, s2);
                            lemma_keep(s0, s2, x); lemma_keep(s0, s2, y); lemma_keep(s0, s2, a); lemma_keep(s0, s2, b);
                            lemma_keep(s0, s1, a);
                            lemma_keep(s1, s2, ab);
                            if s2.len() < MAX_NODES {
                                assert forall|env: spec_fn(VID) -> bool| #[trigger] value(s2, r, env)
                                    == (value(s2, x, env) && value(s2, y, env)) by {
                                    assert(value(s1, ab, env) == (value(s1, a, env) && value(s1, b, env)));
                                    assert(value(s0, a, env) == (value(s0, x, env) != is_inv(x)));
                                    assert(value(s0, b, env) == (value(s0, y, env) != is_inv(y)));
                                }
                            }
                        }
                        r
                    }
                } else if y.is_inv() {
                    let ab = self.and(a, b);
                    let ghost s1 = self.base.nodes();
                    proof { lemma_keep(s0, s1, a); }
                    let r = self.xor_sync(ab, a);
                    proof {
                        let s2 = self.base.nodes();
                        lemma_prefix_trans(s0, s1, s2);
                        lemma_keep(s0, s2, x); lemma_keep(s0, s2, y); lemma_keep(s0, s2, a); lemma_keep(s0, s2, b);
                        lemma_keep(s0, s1, b);
                        lemma_keep(s1, s2, ab);
                        if s2.len() < MAX_NODES {
                            assert forall|env: spec_fn(VID) -> bool| #[trigger] value(s2, r, env)
                                == (value(s2, x, env) && value(s2, y, env)) by {
                                assert(value(s1, ab, env) == (value(s1, a, env) && value(s1, b, env)));
                                assert(value(s0, a, env) == (value(s0, x, env) != is_inv(x)));
                                assert(value(s0, b, env) == (value(s0, y, env) != is_inv(y)));
                            }
                        }
                    }
                    r
                } else {
                    self.calc_and_sync(x, y)
                }
            },
        }
    }

    /// `x AND y` for two nids that are neither constants nor inverted.
    fn calc_and_sync(&mut self, x: NID, y: NID) -> (r: NID)
        requires
            old(self).wf(), old(self).valid(x), old(self).valid(y),
            x.n & T == 0, y.n & T == 0, !is_inv(x), !is_inv(y),
        ensures
            final(self).wf(), final(self).grows(&*old(self)), final(self).valid(r),
            depth(r) <= max_depth(x, y), !is_inv(r),
            final(self).room() ==> forall|env: spec_fn(VID) -> bool| #[trigger] final(self).value(r, env)
                == (final(self).value(x, env) && final(self).value(y, env)),
        decreases max_depth(x, y), at_top(x, y), (if depth(x) < depth(y) { 2int } else { 0int }),
    {
        let ghost s0 = self.base.nodes();
        proof {
            self.base.lemma_wf();
            lemma_consts();
            lemma_fetch(s0, x);
            lemma_fetch(s0, y);
        }
        let xv = x.vid();
        let yv = y.vid();
        match xv.cmp_depth(&yv) {
            VidOrdering::Above => {
                if x.is_vid() {
                    let r = self.base.vhl(xv, y, NID::o());
                    proof {
                        let s1 = self.base.nodes();
                        lemma_keep(s0, s1, x);
                        lemma_keep(s0, s1, y);
                        lemma_keep(s0, s1, nid_o());
                        if s1.len() < MAX_NODES {
                            assert forall|env: spec_fn(VID) -> bool| #[trigger] value(s1, r, env)
                                == (value(s1, x, env) && value(s1, y, env)) by {
                                assert(value(s0, x, env) == ((env(xv) && value(s0, nid_i(), env)) != value(s0, nid_o(), env)));
                            }
                        }
                    }
                    r
                } else {
                    let f = self.base.fetch(x);
                    let hi = self.and(f.hi, y);
                    let ghost s1 = self.base.nodes();
                    proof { lemma_keep(s0, s1, f.lo); lemma_keep(s0, s1, y); }
                    let lo = self.and(f.lo, y);
                    let ghost s2 = self.base.nodes();
                    proof { lemma_keep(s1, s2, hi); }
                    let r = self.base.vhl(f.v, hi, lo);
                    proof {
                        let s3 = self.base.nodes();
                        lemma_prefix_trans(s0, s1, s2);
                        lemma_prefix_trans(s0, s2, s3);
                        lemma_prefix_trans(s1, s2, s3);
                        lemma_keep(s0, s3, x); lemma_keep(s0, s3, y);
                        lemma_keep(s0, s3, f.hi); lemma_keep(s0, s3, f.lo);
                        lemma_keep(s0, s1, f.hi);
                        lemma_keep(s0, s2, f.lo); lemma_keep(s0, s2, y);
                        lemma_keep(s1, s3, hi); lemma_keep(s2, s3, lo);
                        if s3.len() < MAX_NODES {
                            assert forall|env: spec_fn(VID) -> bool| #[trigger] value(s3, r, env)
                                == (value(s3, x, env) && value(s3, y, env)) by {
                                assert(value(s1, hi, env) == (value(s1, f.hi, env) && value(s1, y, env)));
                                assert(value(s2, lo, env) == (value(s2, f.lo, env) && value(s2, y, env)));
                                assert(value(s0, x, env) == ((env(f.v) && value(s0, f.hi, env)) != value(s0, f.lo, env)));
                            }
                        }
                    }
                    r
                }
            },
            VidOrdering::Below => {
                self.and(y, x)
            },
            VidOrdering::Level => {
                proof { lemma_depth_inj(xv, yv); }
                let fx = self.base.fetch(x);
                let fy = self.base.fetch(y);
                let (a, b, c) = (fx.v, fx.hi, fx.lo);
                let (q, r) = (fy.hi, fy.lo);
                let bq = self.and(b, q);
                let ghost s1 = self.base.nodes();
                proof { lemma_keep(s0, s1, b); lemma_keep(s0, s1, c); lemma_keep(s0, s1, q); lemma_keep(s0, s1, r); }
                let br = self.and(b, r);
                let ghost s2 = self.base.nodes();
                proof { lemma_prefix_trans(s0, s1, s2); lemma_keep(s0, s2, c); lemma_keep(s0, s2, q); lemma_keep(s0, s2, r); }
                let cq = self.and(c, q);
                let ghost s3 = self.base.nodes();
                proof { lemma_prefix_trans(s0, s2, s3); lemma_keep(s0, s3, c); lemma_keep(s0, s3, r); }
                let cr = self.and(c, r);
                let ghost s4 = self.base.nodes();
                proof {
                    lemma_prefix_trans(s1, s2, s3);
                    lemma_prefix_trans(s1, s3, s4);
                    lemma_prefix_trans(s2, s3, s4);
                    lemma_keep(s1, s4, bq); lemma_keep(s2, s4, br); lemma_keep(s3, s4, cq);
                }
                let t = self.xor_sync(bq, br);
                let ghost s5 = self.base.nodes();
                proof { lemma_prefix_trans(s3, s4, s5); lemma_keep(s3, s5, cq); lemma_keep(s4, s5, cr); }
                let hi = self.xor_sync(t, cq);
                let ghost s6 = self.base.nodes();
                proof { lemma_prefix_trans(s4, s5, s6); lemma_keep(s4, s6, cr); }
                let res = self.base.vhl(a, hi, cr);
                proof {
                    let s7 = self.base.nodes();
                    lemma_prefix_trans(s0, s3, s4);
                    lemma_prefix_trans(s0, s4, s5);
                    lemma_prefix_trans(s0, s5, s6);
                    lemma_prefix_trans(s0, s6, s7);
                    lemma_prefix_trans(s1, s4, s5);
                    lemma_prefix_trans(s1, s5, s6);
                    lemma_prefix_trans(s1, s6, s7);
                    lemma_prefix_trans(s2, s4, s5);
                    lemma_prefix_trans(s2, s5, s6);
                    lemma_prefix_trans(s2, s6, s7);
                    lemma_prefix_trans(s3, s5, s6);
                    lemma_prefix_trans(s3, s6, s7);
                    lemma_prefix_trans(s4, s6, s7);
                    lemma_prefix_trans(s5, s6, s7);
                    lemma_keep(s0, s7, x); lemma_keep(s0, s7, y);
                    lemma_keep(s0, s7, b); lemma_keep(s0, s7, c); lemma_keep(s0, s7, q); lemma_keep(s0, s7, r);
                    lemma_keep(s1, s7, bq); lemma_keep(s2, s7, br); lemma_keep(s3, s7, cq); lemma_keep(s4, s7, cr);
                    lemma_keep(s5, s7, t); lemma_keep(s6, s7, hi);
                    lemma_keep(s1, s5, bq); lemma_keep(s2, s5, br); lemma_keep(s3, s6, cq); lemma_keep(s5, s6, t);
                    lemma_keep(s4, s7, cr);
                    lemma_keep(s0, s2, b); lemma_keep(s0, s3, q); lemma_keep(s0, s4, c); lemma_keep(s0, s4, r);
                    if s7.len() < MAX_NODES {
                        assert forall|env: spec_fn(VID) -> bool| #[trigger] value(s7, res, env)
                            == (value(s7, x, env) && value(s7, y, env)) by {
                            assert(value(s1, bq, env) == (value(s1, b, env) && value(s1, q, env)));
                            assert(value(s2, br, env) == (value(s2, b, env) && value(s2, r, env)));
                            assert(value(s3, cq, env) == (value(s3, c, env) && value(s3, q, env)));
                            assert(value(s4, cr, env) == (value(s4, c, env) && value(s4, r, env)));
                            assert(value(s5, t, env) == (value(s5, bq, env) != value(s5, br, env)));
                            assert(value(s6, hi, env) == (value(s6, t, env) != value(s6, cq, env)));
                            assert(value(s0, x, env) == ((env(a) && value(s0, b, env)) != value(s0, c, env)));
                            assert(value(s0, y, env) == ((env(a) && value(s0, q, env)) != value(s0, r, env)));
                        }
                    }
                }
                res
            },
        }
    }

    /// Substitute node `n` for variable `v` in `ctx`.
    pub fn sub(&mut self, v: VID, n: NID, ctx: NID) -> (r: NID)
        requires old(self).wf(), old(self).valid(n), old(self).valid(ctx),
        ensures
            final(self).wf(), final(self).grows(&*old(self)), final(self).valid(r),
            final(self).room() ==> forall|env: spec_fn(VID) -> bool| #[trigger] final(self).value(r, env)
                == final(self).value(ctx, env_set(env, v, final(self).value(n, env))),
        decreases depth(ctx),
    {
        let ghost s0 = self.base.nodes();
        proof {
            self.base.lemma_wf();
            lemma_consts();
            lemma_prefix_refl(s0);
        }
        let cv = ctx.vid();
        if ctx.might_depend_on(v) {
            proof { lemma_fetch(s0, ctx); }
            let x = self.base.fetch(ctx);
            let hi = x.hi;
            let lo = x.lo;
            if v == cv {
                let nh = self.and(n, hi);
                let ghost s1 = self.base.nodes();
                proof { lemma_keep(s0, s1, lo); }
                let r = self.xor_sync(nh, lo);
                proof {
                    let s2 = self.base.nodes();
                    lemma_prefix_trans(s0, s1, s2);
                    lemma_keep(s0, s2, n); lemma_keep(s0, s2, ctx); lemma_keep(s0, s2, hi); lemma_keep(s0, s2, lo);
                    lemma_keep(s0, s1, n); lemma_keep(s0, s1, hi);
                    lemma_keep(s1, s2, nh);
                    if s2.len() < MAX_NODES {
                        assert forall|env: spec_fn(VID) -> bool| #[trigger] value(s2, r, env)
                            == value(s2, ctx, env_set(env, v, value(s2, n, env))) by {
                            let e2 = env_set(env, v, value(s2, n, env));
                            lemma_support(s0, hi, env, e2);
                            lemma_support(s0, lo, env, e2);
                            assert(value(s1, nh, env) == (value(s1, n, env) && value(s1, hi, env)));
                            assert(value(s0, ctx, e2) == ((e2(cv) && value(s0, hi, e2)) != value(s0, lo, e2)));
                        }
                    }
                }
                r
            } else {
                let rhi = self.sub(v, n, hi);
                let ghost s1 = self.base.nodes();
                proof { lemma_keep(s0, s1, lo); lemma_keep(s0, s1, n); }
                let rlo = self.sub(v, n, lo);
                let ghost s2 = self.base.nodes();
                proof { crate::nidtext::lemma_plain_bits(cv); lemma_plain_nids(cv, 0); lemma_keep(s1, s2, rhi); }
                let top = NID::from_vid(cv);
                let th = self.and(top, rhi);
                let ghost s3 = self.base.nodes();
                proof { lemma_keep(s2, s3, rlo); }
                let r = self.xor_sync(th, rlo);
                proof {
                    let s4 = self.base.nodes();
                    lemma_prefix_trans(s0, s1, s2);
                    lemma_prefix_trans(s0, s2, s3);
                    lemma_prefix_trans(s0, s3, s4);
                    lemma_prefix_trans(s1, s2, s3);
                    lemma_prefix_trans(s1, s3, s4);
                    lemma_prefix_trans(s2, s3, s4);
                    lemma_keep(s0, s4, n); lemma_keep(s0, s4, ctx); lemma_keep(s0, s4, hi); lemma_keep(s0, s4, lo);
                    lemma_keep(s0, s1, hi); lemma_keep(s0, s2, n); lemma_keep(s0, s2, lo);
                    lemma_keep(s1, s4, rhi); lemma_keep(s2, s4, rlo); lemma_keep(s3, s4, th);
                    lemma_keep(s1, s3, rhi); lemma_keep(s2, s3, rlo);
                    if s4.len() < MAX_NODES {
                        assert forall|env: spec_fn(VID) -> bool| #[trigger] value(s4, r, env)
                            == value(s4, ctx, env_set(env, v, value(s4, n, env))) by {
                            let e2 = env_set(env, v, value(s4, n, env));
                            assert(value(s1, rhi, env) == value(s1, hi, env_set(env, v, value(s1, n, env))));
                            assert(value(s2, rlo, env) == value(s2, lo, env_set(env, v, value(s2, n, env))));
                            assert(value(s3, th, env) == (value(s3, top, env) && value(s3, rhi, env)));
                            assert(value(s3, top, env) == env(cv));
                            assert(value(s0, ctx, e2) == ((e2(cv) && value(s0, hi, e2)) != value(s0, lo, e2)));
                        }
                    }
                }
                r
            }
        } else {
            proof {
                if ctx.n & T == 0 {
                    lemma_ok_shape(s0, ctx);
                    assert forall|env: spec_fn(VID) -> bool| #[trigger] value(s0, ctx, env)
                        == value(s0, ctx, env_set(env, v, value(s0, n, env))) by {
                        let e2 = env_set(env, v, value(s0, n, env));
                        if ctx.n & VAR == 0 {
                            assert(depth(ctx) < depth_key(v)) by {
                                if depth(ctx) == depth_key(v) { lemma_depth_inj(cv, v); }
                            }
                            lemma_support(s0, ctx, env, e2);
                        }
                    }
                }
            }
            ctx
        }
    }

    /// Finish a job whose parts are all in: the node of the parts.
    pub fn resolve_job(&mut self, parts: AnfParts) -> (r: NID)
        requires
            old(self).wf(), ready_spec(parts),
            parts_ok(old(self).nodes(), parts),
        ensures
            final(self).wf(), final(self).grows(&*old(self)), final(self).valid(r), !is_inv(r),
            final(self).room() ==> forall|env: spec_fn(VID) -> bool| #[trigger] final(self).value(r, env)
                == parts_value(final(self).nodes(), parts, env),
    {
        match parts {
            AnfParts::Xor { v, hi: Some(hi), lo: Some(lo) } => self.vhl(v, hi, lo),
            AnfParts::AndAbove { v, hi: Some(hi), lo: Some(lo) } => self.vhl(v, hi, lo),
            AnfParts::AndLevel { v, bq: Some(bq), br: Some(br), cq: Some(cq), cr: Some(cr) } => {
                let ghost s0 = self.base.nodes();
                let t = self.xor_sync(bq, br);
                let ghost s1 = self.base.nodes();
                proof { lemma_keep(s0, s1, cq); lemma_keep(s0, s1, cr); }
                let hi = self.xor_sync(t, cq);
                let ghost s2 = self.base.nodes();
                proof { lemma_prefix_trans(s0, s1, s2); lemma_keep(s0, s2, cr); }
                let r = self.vhl(v, hi, cr);
                proof {
                    let s3 = self.base.nodes();
                    lemma_prefix_trans(s0, s2, s3);
                    lemma_prefix_trans(s1, s2, s3);
                    lemma_keep(s0, s3, bq); lemma_keep(s0, s3, br); lemma_keep(s0, s3, cq); lemma_keep(s0, s3, cr);
                    lemma_keep(s0, s1, bq); lemma_keep(s0, s1, br);
                    lemma_keep(s1, s3, t); lemma_keep(s2, s3, hi); lemma_keep(s1, s2, t);
                    lemma_keep(s1, s2, cq);
                    if s3.len() < MAX_NODES {
                        assert forall|env: spec_fn(VID) -> bool| #[trigger] value(s3, r, env)
                            == parts_value(s3, parts, env) by {
                            assert(value(s1, t, env) == (value(s1, bq, env) != value(s1, br, env)));
                            assert(value(s2, hi, env) == (value(s2, t, env) != value(s2, cq, env)));
                        }
                    }
                }
                r
            },
            _ => {
                proof { assert(false); }
                NID::o()
            },
        }
    }
}


/// What a child slot of a job gets: a nid at once, or a job to wait for.
#[derive(Debug, Clone, Copy, PartialEq, Eq, Structural)]
pub enum AnfCore {
    Nid(NID),
    Job(AnfJob),
}

/// One step of a worker on a job: the answer, or the parts to wait for
/// with what each slot gets.
#[derive(Debug)]
pub enum AnfStep {
    Nid(NID),
    Parts(AnfParts, Vec<(AnfSlot, AnfCore)>),
}

/// The child of an exclusive-or: the constant rule's answer, or the job.
pub open spec fn xor_core_spec(x: NID, y: NID) -> AnfCore {
    match simp::xor_spec(x, y) {
        Some(n) => AnfCore::Nid(n),
        None => AnfCore::Job(if x.n <= y.n { AnfJob::Xor(x, y) } else { AnfJob::Xor(y, x) }),
    }
}

/// The child of an and: the constant rule's answer, or the job.
pub open spec fn and_core_spec(x: NID, y: NID) -> AnfCore {
    match simp::and_spec(x, y) {
        Some(n) => AnfCore::Nid(n),
        None => AnfCore::Job(if x.n <= y.n { AnfJob::And(x, y) } else { AnfJob::And(y, x) }),
    }
}

/// The parts and children of the exclusive-or of `x` and `y`, `x` no shallower than `y`:
/// below a deeper `x`, the lo branch waits for `lo XOR y`; at one level, hi and lo
/// wait for the exclusive-or of the branches.
pub open spec fn xor_parts(nodes: Seq<Vhl>, x: NID, y: NID) -> (AnfParts, Seq<(AnfSlot, AnfCore)>) {
    let fx = fetch_spec(nodes, x);
    let fy = fetch_spec(nodes, y);
    if depth(x) > depth(y) {
        (AnfParts::Xor { v: fx.v, hi: Some(fx.hi), lo: None }, seq![(AnfSlot::Lo, xor_core_spec(fx.lo, y))])
    } else {
        (AnfParts::Xor { v: fx.v, hi: None, lo: None },
            seq![(AnfSlot::Hi, xor_core_spec(fx.hi, fy.hi)), (AnfSlot::Lo, xor_core_spec(fx.lo, fy.lo))])
    }
}

/// The parts and children of the and of `x` and `y`, `x` a stored node
/// no shallower than `y`: below a deeper `x`, each branch is anded with `y`;
/// at one level, the four products of the branches.
pub open spec fn and_parts(nodes: Seq<Vhl>, x: NID, y: NID) -> (AnfParts, Seq<(AnfSlot, AnfCore)>) {
    let fx = fetch_spec(nodes, x);
    let fy = fetch_spec(nodes, y);
    if depth(x) > depth(y) {
        (AnfParts::AndAbove { v: fx.v, hi: None, lo: None },
            seq![(AnfSlot::Hi, and_core_spec(fx.hi, y)), (AnfSlot::Lo, and_core_spec(fx.lo, y))])
    } else {
        (AnfParts::AndLevel { v: fx.v, bq: None, br: None, cq: None, cr: None },
            seq![(AnfSlot::Bq, and_core_spec(fx.hi, fy.hi)), (AnfSlot::Br, and_core_spec(fx.hi, fy.lo)),
                 (AnfSlot::Cq, and_core_spec(fx.lo, fy.hi)), (AnfSlot::Cr, and_core_spec(fx.lo, fy.lo))])
    }
}

/// The child of an exclusive-or.
pub fn xor_core(x: NID, y: NID) -> (r: AnfCore)
    ensures r == xor_core_spec(x, y),
{
    match simp::xor(x, y) {
        Some(n) => AnfCore::Nid(n),
        None => AnfCore::Job(AnfJob::xor(x, y)),
    }
}

/// The child of an and.
pub fn and_core(x: NID, y: NID) -> (r: AnfCore)
    ensures r == and_core_spec(x, y),
{
    match simp::and(x, y) {
        Some(n) => AnfCore::Nid(n),
        None => AnfCore::Job(AnfJob::and(x, y)),
    }
}

/// A worker's step on the exclusive-or of two nids of the store that are not constants.
pub fn xor_step(store: &AnfStore, x: NID, y: NID) -> (r: AnfStep)
    requires store.wf(), store.valid(x), store.valid(y), x.n & T == 0, y.n & T == 0,
    ensures
        r matches AnfStep::Parts(p, ch) && ({
            let e = if depth(x) >= depth(y) { xor_parts(store.nodes(), x, y) } else { xor_parts(store.nodes(), y, x) };
            p == e.0 && ch@ == e.1
        }),
    decreases (if depth(x) < depth(y) { 1int } else { 0int }),
{
    let xv = x.vid();
    let yv = y.vid();
    match xv.cmp_depth(&yv) {
        VidOrdering::Above => {
            let f = store.fetch(x);
            let mut ch: Vec<(AnfSlot, AnfCore)> = Vec::new();
            ch.push((AnfSlot::Lo, xor_core(f.lo, y)));
            proof { assert(ch@ =~= seq![(AnfSlot::Lo, xor_core_spec(f.lo, y))]); }
            AnfStep::Parts(AnfParts::Xor { v: f.v, hi: Some(f.hi), lo: None }, ch)
        },
        VidOrdering::Below => xor_step(store, y, x),
        VidOrdering::Level => {
            let fx = store.fetch(x);
            let fy = store.fetch(y);
            let mut ch: Vec<(AnfSlot, AnfCore)> = Vec::new();
            ch.push((AnfSlot::Hi, xor_core(fx.hi, fy.hi)));
            ch.push((AnfSlot::Lo, xor_core(fx.lo, fy.lo)));
            proof {
                assert(ch@ =~= seq![(AnfSlot::Hi, xor_core_spec(fx.hi, fy.hi)), (AnfSlot::Lo, xor_core_spec(fx.lo, fy.lo))]);
            }
            AnfStep::Parts(AnfParts::Xor { v: fx.v, hi: None, lo: None }, ch)
        },
    }
}

/// A worker's step on the and of two nids of the store that are not
/// constants: a variable above the other nid makes its node at once.
pub fn and_step(store: &mut AnfStore, x: NID, y: NID) -> (r: AnfStep)
    requires old(store).wf(), old(store).valid(x), old(store).valid(y), x.n & T == 0, y.n & T == 0,
    ensures
        final(store).wf(), final(store).grows(&*old(store)),
        match r {
            AnfStep::Nid(n) => {
                &&& (x.n & VAR != 0 && depth(x) > depth(y)) || (y.n & VAR != 0 && depth(y) > depth(x))
                &&& final(store).valid(n)
                &&& final(store).room() && !is_inv(x) && !is_inv(y) ==> forall|env: spec_fn(VID) -> bool|
                        #[trigger] final(store).value(n, env) == (final(store).value(x, env) && final(store).value(y, env))
            },
            AnfStep::Parts(p, ch) => {
                let e = if depth(x) >= depth(y) { and_parts(old(store).nodes(), x, y) } else { and_parts(old(store).nodes(), y, x) };
                &&& final(store).nodes() == old(store).nodes()
                &&& !((x.n & VAR != 0 && depth(x) > depth(y)) || (y.n & VAR != 0 && depth(y) > depth(x)))
                &&& p == e.0 && ch@ == e.1
            },
        },
    decreases (if depth(x) < depth(y) { 1int } else { 0int }),
{
    let ghost s0 = store.nodes();
    proof {
        store.base.lemma_wf();
        lemma_consts();
        lemma_fetch(s0, x);
        lemma_fetch(s0, y);
        lemma_prefix_refl(s0);
    }
    let xv = x.vid();
    let yv = y.vid();
    match xv.cmp_depth(&yv) {
        VidOrdering::Above => {
            if x.is_vid() {
                let n = store.vhl(xv, y, NID::o());
                proof {
                    let s1 = store.nodes();
                    lemma_keep(s0, s1, x);
                    lemma_keep(s0, s1, y);
                    if s1.len() < MAX_NODES && !is_inv(x) {
                        assert forall|env: spec_fn(VID) -> bool| #[trigger] value(s1, n, env)
                            == (value(s1, x, env) && value(s1, y, env)) by {
                            assert(value(s0, x, env) == ((env(xv) && value(s0, nid_i(), env)) != value(s0, nid_o(), env)));
                        }
                    }
                }
                AnfStep::Nid(n)
            } else {
                let f = store.fetch(x);
                let mut ch: Vec<(AnfSlot, AnfCore)> = Vec::new();
                ch.push((AnfSlot::Hi, and_core(f.hi, y)));
                ch.push((AnfSlot::Lo, and_core(f.lo, y)));
                proof {
                    assert(ch@ =~= seq![(AnfSlot::Hi, and_core_spec(f.hi, y)), (AnfSlot::Lo, and_core_spec(f.lo, y))]);
                }
                AnfStep::Parts(AnfParts::AndAbove { v: f.v, hi: None, lo: None }, ch)
            }
        },
        VidOrdering::Below => and_step(store, y, x),
        VidOrdering::Level => {
            let fx = store.fetch(x);
            let fy = store.fetch(y);
            let mut ch: Vec<(AnfSlot, AnfCore)> = Vec::new();
            ch.push((AnfSlot::Bq, and_core(fx.hi, fy.hi)));
            ch.push((AnfSlot::Br, and_core(fx.hi, fy.lo)));
            ch.push((AnfSlot::Cq, and_core(fx.lo, fy.hi)));
            ch.push((AnfSlot::Cr, and_core(fx.lo, fy.lo)));
            proof {
                assert(ch@ =~= seq![(AnfSlot::Bq, and_core_spec(fx.hi, fy.hi)), (AnfSlot::Br, and_core_spec(fx.hi, fy.lo)),
                    (AnfSlot::Cq, and_core_spec(fx.lo, fy.hi)), (AnfSlot::Cr, and_core_spec(fx.lo, fy.lo))]);
            }
            AnfStep::Parts(AnfParts::AndLevel { v: fx.v, bq: None, br: None, cq: None, cr: None }, ch)
        },
    }
}


/// The value under `env` of what a child slot gets: the nid's value, or
/// the value of the job's answer (the exclusive or, the and, or the context
/// with the variable set to the value of the node put in for it).
pub open spec fn core_value(nodes: Seq<Vhl>, c: AnfCore, env: spec_fn(VID) -> bool) -> bool {
    match c {
        AnfCore::Nid(n) => value(nodes, n, env),
        AnfCore::Job(AnfJob::Xor(a, b)) => value(nodes, a, env) != value(nodes, b, env),
        AnfCore::Job(AnfJob::And(a, b)) => value(nodes, a, env) && value(nodes, b, env),
        AnfCore::Job(AnfJob::Sub(v, n, ctx)) => value(nodes, ctx, env_set(env, v, value(nodes, n, env))),
    }
}

/// The parts with each empty slot filled with the nid `fill` gives for it.
pub open spec fn filled(p: AnfParts, fill: spec_fn(AnfSlot) -> NID) -> AnfParts {
    let pick = |o: Option<NID>, s: AnfSlot| if o is Some { o } else { Some(fill(s)) };
    match p {
        AnfParts::Xor { v, hi, lo } => AnfParts::Xor { v, hi: pick(hi, AnfSlot::Hi), lo: pick(lo, AnfSlot::Lo) },
        AnfParts::AndAbove { v, hi, lo } => AnfParts::AndAbove { v, hi: pick(hi, AnfSlot::Hi), lo: pick(lo, AnfSlot::Lo) },
        AnfParts::AndLevel { v, bq, br, cq, cr } => AnfParts::AndLevel {
            v, bq: pick(bq, AnfSlot::Bq), br: pick(br, AnfSlot::Br), cq: pick(cq, AnfSlot::Cq), cr: pick(cr, AnfSlot::Cr) },
        AnfParts::Empty => p,
    }
}

/// Every child slot is filled with a nid whose value is that of what the slot gets.
pub open spec fn fills_children(nodes: Seq<Vhl>, ch: Seq<(AnfSlot, AnfCore)>, fill: spec_fn(AnfSlot) -> NID,
    env: spec_fn(VID) -> bool) -> bool
{
    forall|k: int| 0 <= k < ch.len() ==> value(nodes, fill(#[trigger] ch[k].0), env) == core_value(nodes, ch[k].1, env)
}

/// What the simplifying rule of an and gives has the value of the and.
pub proof fn lemma_and_core_value(nodes: Seq<Vhl>, a: NID, b: NID, env: spec_fn(VID) -> bool)
    ensures core_value(nodes, and_core_spec(a, b), env) == (value(nodes, a, env) && value(nodes, b, env)),
{
    lemma_consts();
    lemma_value_inv(nodes, b, env);
    lemma_inv(b);
}

/// What the simplifying rule of an exclusive or gives has the value of the exclusive or.
pub proof fn lemma_xor_core_value(nodes: Seq<Vhl>, a: NID, b: NID, env: spec_fn(VID) -> bool)
    ensures core_value(nodes, xor_core_spec(a, b), env) == (value(nodes, a, env) != value(nodes, b, env)),
{
    lemma_consts();
    lemma_value_inv(nodes, a, env);
    lemma_value_inv(nodes, b, env);
    lemma_inv(a);
    lemma_inv(b);
}

/// The and step is right: when the children of the and of two nodes `x`
/// and `y` (`x` no shallower) are answered, the node the parts make has the
/// value of `x AND y`, under every assignment.
pub proof fn lemma_and_parts_value(nodes: Seq<Vhl>, x: NID, y: NID, fill: spec_fn(AnfSlot) -> NID,
    env: spec_fn(VID) -> bool)
    requires
        nodes_ok(nodes), nid_ok(nodes, x), nid_ok(nodes, y), x.n & T == 0, y.n & T == 0,
        depth(x) >= depth(y),
        fills_children(nodes, and_parts(nodes, x, y).1, fill, env),
    ensures
        parts_value(nodes, filled(and_parts(nodes, x, y).0, fill), env) == (value(nodes, x, env) && value(nodes, y, env)),
{
    let fx = fetch_spec(nodes, x);
    let fy = fetch_spec(nodes, y);
    lemma_fetch(nodes, x);
    lemma_fetch(nodes, y);
    let ch = and_parts(nodes, x, y).1;
    let vx = value(nodes, x, env);
    let vy = value(nodes, y, env);
    if depth(x) > depth(y) {
        assert(ch[0].0 == AnfSlot::Hi && ch[1].0 == AnfSlot::Lo);
        lemma_and_core_value(nodes, fx.hi, y, env);
        lemma_and_core_value(nodes, fx.lo, y, env);
        assert(value(nodes, fill(ch[0].0), env) == core_value(nodes, ch[0].1, env));
        assert(value(nodes, fill(ch[1].0), env) == core_value(nodes, ch[1].1, env));
    } else {
        lemma_depth_inj(fx.v, fy.v);
        assert(ch[0].0 == AnfSlot::Bq && ch[1].0 == AnfSlot::Br && ch[2].0 == AnfSlot::Cq && ch[3].0 == AnfSlot::Cr);
        lemma_and_core_value(nodes, fx.hi, fy.hi, env);
        lemma_and_core_value(nodes, fx.hi, fy.lo, env);
        lemma_and_core_value(nodes, fx.lo, fy.hi, env);
        lemma_and_core_value(nodes, fx.lo, fy.lo, env);
        assert(value(nodes, fill(ch[0].0), env) == core_value(nodes, ch[0].1, env));
        assert(value(nodes, fill(ch[1].0), env) == core_value(nodes, ch[1].1, env));
        assert(value(nodes, fill(ch[2].0), env) == core_value(nodes, ch[2].1, env));
        assert(value(nodes, fill(ch[3].0), env) == core_value(nodes, ch[3].1, env));
    }
}

/// The exclusive-or step is right: when the children of the exclusive or of
/// two nodes `x` and `y` (`x` no shallower) are answered, the node the
/// parts make has the value of `x XOR y`, under every assignment.
pub proof fn lemma_xor_parts_value(nodes: Seq<Vhl>, x: NID, y: NID, fill: spec_fn(AnfSlot) -> NID,
    env: spec_fn(VID) -> bool)
    requires
        nodes_ok(nodes), nid_ok(nodes, x), nid_ok(nodes, y), x.n & T == 0, y.n & T == 0,
        depth(x) >= depth(y),
        fills_children(nodes, xor_parts(nodes, x, y).1, fill, env),
    ensures
        parts_value(nodes, filled(xor_parts(nodes, x, y).0, fill), env) == (value(nodes, x, env) != value(nodes, y, env)),
{
    let fx = fetch_spec(nodes, x);
    let fy = fetch_spec(nodes, y);
    lemma_fetch(nodes, x);
    lemma_fetch(nodes, y);
    let ch = xor_parts(nodes, x, y).1;
    if depth(x) > depth(y) {
        assert(ch[0].0 == AnfSlot::Lo);
        lemma_xor_core_value(nodes, fx.lo, y, env);
        assert(value(nodes, fill(ch[0].0), env) == core_value(nodes, ch[0].1, env));
    } else {
        lemma_depth_inj(fx.v, fy.v);
        assert(ch[0].0 == AnfSlot::Hi && ch[1].0 == AnfSlot::Lo);
        lemma_xor_core_value(nodes, fx.hi, fy.hi, env);
        lemma_xor_core_value(nodes, fx.lo, fy.lo, env);
        assert(value(nodes, fill(ch[0].0), env) == core_value(nodes, ch[0].1, env));
        assert(value(nodes, fill(ch[1].0), env) == core_value(nodes, ch[1].1, env));
    }
}

} // verus!
