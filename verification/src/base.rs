//! The standard trait for databases of boolean expressions.
use vstd::prelude::*;
use crate::nid::NID;
use crate::vid::VID;
use crate::simp;
use crate::vid::vid_text;

verus! {

/// A nid with a branch variable and an index: not a table, not a plain
/// index node, not a literal.
pub open spec fn needs_sub(n: NID) -> bool {
    &&& n.n & crate::nid::F != crate::nid::F
    &&& !crate::ast::is_ixn_spec(n)
    &&& n.n & crate::nid::VAR == 0
    &&& n.n & crate::nid::T == 0
}

/// Is `n` one of the two constants?
pub open spec fn is_const(n: NID) -> bool {
    n == crate::nid::nid_o() || n == crate::nid::nid_i()
}

/// The truth value of a constant.
pub open spec fn cbool(n: NID) -> bool {
    n == crate::nid::nid_i()
}

/// The constant for a truth value.
pub open spec fn cnid(b: bool) -> NID {
    if b { crate::nid::nid_i() } else { crate::nid::nid_o() }
}

/// Inverting a constant gives the other constant.
pub proof fn lemma_not_const(d: NID)
    requires is_const(d),
    ensures (NID { n: d.n ^ crate::nid::INV }) == cnid(!cbool(d)),
{
    crate::bits::lemma_constants();
}

/// A call made on a base, with its arguments and the nid it gave back.
pub enum Call {
    And(NID, NID, NID),
    Xor(NID, NID, NID),
    Or(NID, NID, NID),
    Ite(NID, NID, NID, NID),
    Sub(VID, NID, NID, NID),
}

/// The value `ev` gives the result of call `c` is that of its operation on
/// the values of its arguments (substitutions say nothing).
pub open spec fn call_ok(ev: spec_fn(NID) -> bool, c: Call) -> bool {
    match c {
        Call::And(x, y, r) => ev(r) == (ev(x) && ev(y)),
        Call::Xor(x, y, r) => ev(r) == (ev(x) != ev(y)),
        Call::Or(x, y, r) => ev(r) == (ev(x) || ev(y)),
        Call::Ite(i, t, e, r) => ev(r) == if ev(i) { ev(t) } else { ev(e) },
        Call::Sub(_, _, _, _) => true,
    }
}

/// `ev` is an evaluation of the nids that agrees with every call made: O is
/// false, I is true, an inverted nid has the opposite value, and each call's
/// result has the value of its operation.
pub open spec fn respects(ev: spec_fn(NID) -> bool, calls: Seq<Call>) -> bool {
    &&& !ev(crate::nid::nid_o()) && ev(crate::nid::nid_i())
    &&& forall|n: NID| #[trigger] ev(simp::not_spec(n)) == !ev(n)
    &&& forall|k: int| 0 <= k < calls.len() ==> call_ok(ev, #[trigger] calls[k])
}

/// Functions common to all expression databases.
///
/// A base hands out nids for the nodes it makes. `valid` says which nids a
/// base can be given (constants, variables, and its own nodes), and `spare`
/// how many more nodes it has room for.
pub trait Base: Sized {
    /// The invariant of the base.
    spec fn inv(&self) -> bool;

    /// Can `n` be handed to this base?
    spec fn valid(&self, n: NID) -> bool;

    /// How many more nodes the base can make.
    spec fn spare(&self) -> nat;

    /// How many nodes `when_hi` or `when_lo` may make for `n`.
    spec fn when_cost(&self, n: NID) -> nat;

    /// Does `sub` work in this base?
    spec fn sub_ready(&self) -> bool;

    /// The names given to nodes (by `tag` and `def`).
    spec fn names(&self) -> Map<Seq<char>, NID>;

    /// The calls of `and`, `xor`, `or`, `ite` and `sub` made on the base so
    /// far, oldest first.
    spec fn calls(&self) -> Seq<Call>;

    /// Every base can be given the constants.
    proof fn lemma_consts_valid(&self)
        requires self.inv(),
        ensures self.valid(crate::nid::nid_o()), self.valid(crate::nid::nid_i());

    /// A base that can be given a nid can be given its inverse.
    proof fn lemma_not_valid(&self, n: NID)
        requires self.inv(), self.valid(n),
        ensures self.valid(simp::not_spec(n));

    /// A base that holds nodes with a branch variable and an index (neither
    /// tables, nor plain index nodes, nor literals) can substitute into them.
    proof fn lemma_vhl_sub(&self, n: NID)
        requires self.inv(), self.valid(n), needs_sub(n),
        ensures self.sub_ready();

    /// Create a new instance of the base.
    fn new() -> (r: Self)
        ensures r.inv(), r.calls() == Seq::<Call>::empty();

    /// The value of node `n` when `v = 1` (so `v` itself becomes I, and
    /// constants and other variables stay as they are).
    fn when_hi(&mut self, v: VID, n: NID) -> (r: NID)
        requires old(self).inv(), old(self).valid(n), old(self).when_cost(n) <= old(self).spare(),
        ensures
            n.n & crate::nid::VAR != 0 && n.n & crate::nid::INV == 0 && n.vid_spec() == v ==> r == crate::nid::nid_i(),
            n.n & crate::nid::T != 0 && n.n & crate::nid::VAR == 0 ==> r == n,
            n.n & crate::nid::VAR != 0 && n.vid_spec() != v ==> r == n,
            final(self).inv(), final(self).valid(r),
            final(self).spare() + old(self).when_cost(n) >= old(self).spare(),
            final(self).names() == old(self).names(), final(self).sub_ready() == old(self).sub_ready(),
            final(self).calls() == old(self).calls(),
            forall|m: NID| old(self).valid(m) ==> #[trigger] final(self).valid(m);

    /// The value of node `n` when `v = 0` (so `v` itself becomes O, and
    /// constants and other variables stay as they are).
    fn when_lo(&mut self, v: VID, n: NID) -> (r: NID)
        requires old(self).inv(), old(self).valid(n), old(self).when_cost(n) <= old(self).spare(),
        ensures
            n.n & crate::nid::VAR != 0 && n.n & crate::nid::INV == 0 && n.vid_spec() == v ==> r == crate::nid::nid_o(),
            n.n & crate::nid::T != 0 && n.n & crate::nid::VAR == 0 ==> r == n,
            n.n & crate::nid::VAR != 0 && n.vid_spec() != v ==> r == n,
            final(self).inv(), final(self).valid(r),
            final(self).spare() + old(self).when_cost(n) >= old(self).spare(),
            final(self).names() == old(self).names(), final(self).sub_ready() == old(self).sub_ready(),
            final(self).calls() == old(self).calls(),
            forall|m: NID| old(self).valid(m) ==> #[trigger] final(self).valid(m);

    /// A node for the logical AND of `x` and `y` (of two constants, the constant).
    fn and(&mut self, x: NID, y: NID) -> (r: NID)
        requires old(self).inv(), old(self).valid(x), old(self).valid(y), old(self).spare() >= 1,
        ensures
            is_const(x) && is_const(y) ==> r == cnid(cbool(x) && cbool(y)),
            final(self).inv(), final(self).valid(r), final(self).spare() + 1 >= old(self).spare(),
            final(self).names() == old(self).names(), final(self).sub_ready() == old(self).sub_ready(),
            final(self).calls() == old(self).calls().push(Call::And(x, y, r)),
            forall|m: NID| old(self).valid(m) ==> #[trigger] final(self).valid(m);

    /// A node for the logical XOR of `x` and `y` (of two constants, the constant).
    fn xor(&mut self, x: NID, y: NID) -> (r: NID)
        requires old(self).inv(), old(self).valid(x), old(self).valid(y), old(self).spare() >= 1,
        ensures
            is_const(x) && is_const(y) ==> r == cnid(cbool(x) != cbool(y)),
            final(self).inv(), final(self).valid(r), final(self).spare() + 1 >= old(self).spare(),
            final(self).names() == old(self).names(), final(self).sub_ready() == old(self).sub_ready(),
            final(self).calls() == old(self).calls().push(Call::Xor(x, y, r)),
            forall|m: NID| old(self).valid(m) ==> #[trigger] final(self).valid(m);

    /// A node for the logical OR of `x` and `y` (of two constants, the constant).
    fn or(&mut self, x: NID, y: NID) -> (r: NID)
        requires old(self).inv(), old(self).valid(x), old(self).valid(y), old(self).spare() >= 2,
        ensures
            is_const(x) && is_const(y) ==> r == cnid(cbool(x) || cbool(y)),
            final(self).inv(), final(self).valid(r), final(self).spare() + 2 >= old(self).spare(),
            final(self).names() == old(self).names(), final(self).sub_ready() == old(self).sub_ready(),
            final(self).calls() == old(self).calls().push(Call::Or(x, y, r)),
            forall|m: NID| old(self).valid(m) ==> #[trigger] final(self).valid(m);

    /// A node for "if `i` then `t` else `e`" (when a constant rule
    /// settles it, that rule's answer).
    fn ite(&mut self, i: NID, t: NID, e: NID) -> (r: NID)
        requires old(self).inv(), old(self).valid(i), old(self).valid(t), old(self).valid(e), old(self).spare() >= 1,
        ensures
            simp::ite_spec(i, t, e) matches Some(x) ==> r == x,
            final(self).inv(), final(self).valid(r), final(self).spare() + 1 >= old(self).spare(),
            final(self).names() == old(self).names(), final(self).sub_ready() == old(self).sub_ready(),
            final(self).calls() == old(self).calls().push(Call::Ite(i, t, e, r)),
            forall|m: NID| old(self).valid(m) ==> #[trigger] final(self).valid(m);

    /// Name variable `v` with `s` followed by the variable's name; returns its nid.
    fn def(&mut self, s: String, v: VID) -> (r: NID)
        requires old(self).inv(),
        ensures
            r == NID::from_vid_spec(v),
            final(self).inv(), final(self).spare() == old(self).spare(),
            final(self).names() == old(self).names().insert(s@ + vid_text(v), r),
            final(self).sub_ready() == old(self).sub_ready(),
            final(self).calls() == old(self).calls(),
            forall|m: NID| old(self).valid(m) ==> #[trigger] final(self).valid(m);

    /// Name node `n` with `s`; returns `n`.
    fn tag(&mut self, n: NID, s: String) -> (r: NID)
        requires old(self).inv(), old(self).valid(n),
        ensures
            r == n, final(self).inv(), final(self).spare() == old(self).spare(),
            final(self).names() == old(self).names().insert(s@, n),
            final(self).sub_ready() == old(self).sub_ready(),
            final(self).calls() == old(self).calls(),
            forall|m: NID| old(self).valid(m) <==> #[trigger] final(self).valid(m);

    /// The node with the given name, if there is one.
    fn get(&self, s: &str) -> (r: Option<NID>)
        requires self.inv(),
        ensures
            r == if self.names().contains_key(s@) { Some(self.names()[s@]) } else { None::<NID> },
            r matches Some(n) ==> self.valid(n);

    /// Substitute node `n` for variable `v` in `ctx` (so `v` itself becomes
    /// `n`, and constants and other variables stay as they are).
    fn sub(&mut self, v: VID, n: NID, ctx: NID) -> (r: NID)
        requires old(self).inv(), old(self).sub_ready(), old(self).valid(n), old(self).valid(ctx),
        ensures
            ctx.n & crate::nid::T != 0 ==> r == ctx,
            ctx.n & crate::nid::VAR != 0 && ctx.vid_spec() != v ==> r == ctx,
            ctx.n & crate::nid::VAR != 0 && ctx.n & crate::nid::INV == 0 && ctx.vid_spec() == v ==> r == n,
            final(self).inv(), final(self).valid(r),
            final(self).names() == old(self).names(), final(self).sub_ready() == old(self).sub_ready(),
            final(self).calls() == old(self).calls().push(Call::Sub(v, n, ctx, r)),
            forall|m: NID| old(self).valid(m) ==> #[trigger] final(self).valid(m);
}

/// A base decorated with the constant-folding rules for AND (and with the
/// operands of AND put in order).
pub struct Simplify<T: Base> {
    pub base: T,
    /// The calls made on this base.
    pub log: Ghost<Seq<Call>>,
}

impl<T: Base> Base for Simplify<T> {
    open spec fn inv(&self) -> bool { self.base.inv() }
    open spec fn valid(&self, n: NID) -> bool { self.base.valid(n) }
    open spec fn spare(&self) -> nat { self.base.spare() }
    open spec fn when_cost(&self, n: NID) -> nat { self.base.when_cost(n) }
    open spec fn sub_ready(&self) -> bool { self.base.sub_ready() }
    open spec fn names(&self) -> Map<Seq<char>, NID> { self.base.names() }
    open spec fn calls(&self) -> Seq<Call> { self.log@ }

    proof fn lemma_consts_valid(&self) {
        self.base.lemma_consts_valid();
    }

    proof fn lemma_not_valid(&self, n: NID) {
        self.base.lemma_not_valid(n);
    }

    proof fn lemma_vhl_sub(&self, n: NID) {
        self.base.lemma_vhl_sub(n);
    }

    fn new() -> (r: Self) {
        Simplify { base: T::new(), log: Ghost(Seq::empty()) }
    }

    fn when_hi(&mut self, v: VID, n: NID) -> (r: NID) {
        self.base.when_hi(v, n)
    }

    fn when_lo(&mut self, v: VID, n: NID) -> (r: NID) {
        self.base.when_lo(v, n)
    }

    fn and(&mut self, x: NID, y: NID) -> (r: NID) {
        let r = match simp::and(x, y) {
            Some(n) => {
                proof { self.base.lemma_consts_valid(); }
                n
            },
            None => {
                if x.n < y.n { self.base.and(x, y) } else { self.base.and(y, x) }
            },
        };
        proof { self.log@ = self.log@.push(Call::And(x, y, r)); }
        r
    }

    fn xor(&mut self, x: NID, y: NID) -> (r: NID) {
        let r = self.base.xor(x, y);
        proof { self.log@ = self.log@.push(Call::Xor(x, y, r)); }
        r
    }

    fn or(&mut self, x: NID, y: NID) -> (r: NID) {
        let r = self.base.or(x, y);
        proof { self.log@ = self.log@.push(Call::Or(x, y, r)); }
        r
    }

    fn ite(&mut self, i: NID, t: NID, e: NID) -> (r: NID) {
        let r = self.base.ite(i, t, e);
        proof { self.log@ = self.log@.push(Call::Ite(i, t, e, r)); }
        r
    }

    fn def(&mut self, s: String, v: VID) -> (r: NID) {
        self.base.def(s, v)
    }

    fn tag(&mut self, n: NID, s: String) -> (r: NID) {
        self.base.tag(n, s)
    }

    fn get(&self, s: &str) -> (r: Option<NID>) {
        self.base.get(s)
    }

    fn sub(&mut self, v: VID, n: NID, ctx: NID) -> (r: NID) {
        let r = self.base.sub(v, n, ctx);
        proof { self.log@ = self.log@.push(Call::Sub(v, n, ctx, r)); }
        r
    }
}

} // verus!
