//! Cursors (a register plus a stack and a scope) for walking the paths of
//! vhl-graphs (BDDs, ANFs and the like).
use vstd::prelude::*;
use crate::reg::{Reg, width, num, lemma_capacity};
use crate::nid::{NID, T, INV};
use crate::vid::{VID, VidEnum, depth_key};
use crate::vhl::{HiLo, HiLoPart, HiLoBase};
use crate::nidfun::pow2;

verus! {

/// A base whose solutions a cursor can walk.
pub trait CursorPlan: HiLoBase {
    /// Is the given (leaf) node a solution, given the current inversion state?
    fn includes_leaf(&self, n: NID) -> bool {
        n == NID::i()
    }

    /// Is the lo branch of a node worth visiting?
    fn includes_lo(&self, n: NID) -> bool {
        n != NID::o()
    }
}

/// Node `n` branches on a real variable.
pub open spec fn is_var_node(n: NID) -> bool {
    n.vid_spec().v is Var
}

/// The index of the variable node `n` branches on.
pub open spec fn var_ix_of(n: NID) -> int {
    n.vid_spec().v->Var_0 as int
}

/// `c` may be a branch of `n`: a constant, or a node with branches on a lower variable.
pub open spec fn branch_ok<B: HiLoBase>(base: &B, n: NID, c: NID) -> bool {
    c.n & T != 0 || (base.branches(c) is Some && is_var_node(c) && var_ix_of(c) < var_ix_of(n))
}

/// Every node of the base that has branches is not a constant, branches on
/// one of the first `nvars` variables, and each of its branches is a
/// constant or a node with branches on a lower variable.
pub open spec fn walkable<B: HiLoBase>(base: &B, nvars: nat) -> bool {
    forall|n: NID| #[trigger] base.branches(n) is Some ==> {
        &&& n.n & T == 0
        &&& is_var_node(n)
        &&& 0 <= var_ix_of(n) < nvars
        &&& branch_ok(base, n, base.branches(n)->0.hi)
        &&& branch_ok(base, n, base.branches(n)->0.lo)
    }
}

/// Each step of `path` goes from a node to the branch that `scope` picks
/// for the node's variable.
pub open spec fn walked<B: HiLoBase>(base: &B, path: Seq<NID>, scope: Seq<bool>) -> bool {
    forall|k: int| 0 <= k < path.len() - 1 ==> {
        &&& (#[trigger] base.branches(path[k])) is Some
        &&& path[k + 1] == if scope[var_ix_of(path[k])] { base.branches(path[k])->0.hi } else { base.branches(path[k])->0.lo }
    }
}

/// At each step of `path`, `scope` takes the hi branch exactly when the
/// base, asked whether the lo branch is worth visiting, answers no.
pub open spec fn leftmost_steps<B: CursorPlan>(base: &B, path: Seq<NID>, scope: Seq<bool>) -> bool {
    forall|k: int| 0 <= k < path.len() - 1 ==>
        call_ensures(B::includes_lo, (base, (#[trigger] base.branches(path[k]))->0.lo), !scope[var_ix_of(path[k])])
}

/// Bits of the scope, skip and watch registers combined: a bit is set when
/// it is set in the scope, or skippable and not watched.
pub open spec fn ored(s: Seq<bool>, k: Seq<bool>, w: Seq<bool>) -> Seq<bool> {
    Seq::new(s.len(), |j: int| s[j] || (k[j] && !w[j]))
}

/// The free variables of a cube: the first `n` that are watched or not
/// skippable, with their values.
pub open spec fn cube_upto(scope: Seq<bool>, skip: Seq<bool>, watch: Seq<bool>, n: nat) -> Seq<(VID, bool)>
    decreases n,
{
    if n == 0 {
        seq![]
    } else {
        let c = cube_upto(scope, skip, watch, (n - 1) as nat);
        let i = (n - 1) as int;
        if watch[i] || !skip[i] { c.push((VID { v: VidEnum::Var(i as u32) }, scope[i])) } else { c }
    }
}

/// A cursor: the current node, the path taken to it, and the variable
/// assignments made along the way.
#[derive(Debug)]
pub struct Cursor {
    /// The number of input variables in context.
    pub nvars: usize,
    /// The current node.
    pub node: NID,
    /// Whether to invert the results.
    pub invert: bool,
    /// The nodes passed on the way to the current one.
    pub nstack: Vec<NID>,
    /// The inversion state at each of them.
    pub istack: Vec<bool>,
    /// The current variable assignments.
    pub scope: Reg,
    /// `can_skip[i]` set means variable `i` is a "don't care" that can be
    /// skipped (set on each step by whatever is being walked).
    pub can_skip: Reg,
    /// `watch[i]` set means the caller wants variable `i` walked regardless
    /// of `can_skip[i]`.
    pub watch: Reg,
}

impl Cursor {
    /// The stacks match and the three registers have a bit for each variable.
    pub open spec fn wf(&self) -> bool {
        &&& self.nstack@.len() == self.istack@.len()
        &&& self.scope.wf() && self.scope.nbits == self.nvars
        &&& self.can_skip.wf() && self.can_skip.nbits == self.nvars
        &&& self.watch.wf() && self.watch.nbits == self.nvars
    }

    /// A cursor at `node`, with nothing on the stacks and all registers clear.
    pub fn new(nvars: usize, node: NID) -> (r: Cursor)
        ensures
            r.wf(), r.nvars == nvars, r.node == node, !r.invert,
            r.nstack@.len() == 0,
            forall|i: int| 0 <= i < r.scope.bits().len() ==> !r.scope.bits()[i],
            forall|i: int| 0 <= i < r.can_skip.bits().len() ==> !r.can_skip.bits()[i],
            forall|i: int| 0 <= i < r.watch.bits().len() ==> !r.watch.bits()[i],
    {
        Cursor {
            nvars,
            node,
            invert: false,
            scope: Reg::new(nvars),
            can_skip: Reg::new(nvars),
            watch: Reg::new(nvars),
            nstack: Vec::new(),
            istack: Vec::new(),
        }
    }

    /// A new cursor that watches the variables set in `watch`.
    pub fn new_with_watch(nvars: usize, node: NID, watch: Reg) -> (r: Cursor)
        requires watch.wf(), watch.nbits == nvars,
        ensures
            r.wf(), r.nvars == nvars, r.node == node, !r.invert, r.nstack@.len() == 0, r.watch == watch,
            forall|i: int| 0 <= i < r.scope.bits().len() ==> !r.scope.bits()[i],
            forall|i: int| 0 <= i < r.can_skip.bits().len() ==> !r.can_skip.bits()[i],
    {
        let c = Cursor::new(nvars, node);
        Cursor { watch, ..c }
    }

    /// Push a new node onto the stack.
    fn push_node(&mut self, node: NID)
        ensures
            final(self).nstack@ == old(self).nstack@.push(old(self).node),
            final(self).istack@ == old(self).istack@.push(old(self).invert),
            final(self).node == node,
            final(self).invert == (node.n & INV != 0 && node.n & T == 0),
            final(self).nvars == old(self).nvars, final(self).scope == old(self).scope,
            final(self).can_skip == old(self).can_skip, final(self).watch == old(self).watch,
    {
        self.istack.push(self.invert);
        self.nstack.push(self.node);
        self.node = node;
        self.invert = node.is_inv() && !node.is_const();
    }

    /// Pop a node from the stack (it becomes the current node).
    fn pop_node(&mut self)
        requires old(self).nstack@.len() > 0, old(self).nstack@.len() == old(self).istack@.len(),
        ensures
            final(self).nstack@ == old(self).nstack@.drop_last(),
            final(self).istack@ == old(self).istack@.drop_last(),
            final(self).node == old(self).nstack@.last(),
            final(self).invert == old(self).istack@.last(),
            final(self).nvars == old(self).nvars, final(self).scope == old(self).scope,
            final(self).can_skip == old(self).can_skip, final(self).watch == old(self).watch,
    {
        self.invert = self.istack.pop().unwrap();
        self.node = self.nstack.pop().unwrap();
    }

    /// Take one step upward; returns the new current node.
    pub fn step_up(&mut self) -> (r: NID)
        requires old(self).wf(), old(self).nstack@.len() > 0,
        ensures
            final(self).wf(),
            final(self).nstack@ == old(self).nstack@.drop_last(),
            final(self).istack@ == old(self).istack@.drop_last(),
            final(self).node == old(self).nstack@.last(), r == final(self).node,
            final(self).invert == old(self).istack@.last(),
            final(self).nvars == old(self).nvars, final(self).scope == old(self).scope,
            final(self).can_skip == old(self).can_skip, final(self).watch == old(self).watch,
    {
        self.pop_node();
        self.node
    }

    /// Is the stack empty?
    pub fn at_top(&self) -> (r: bool)
        ensures r == (self.nstack@.len() == 0),
    {
        self.nstack.len() == 0
    }

    fn step_down<B: CursorPlan>(&mut self, base: &B, which: HiLoPart)
        requires old(self).wf(), base.branches(old(self).node) is Some,
        ensures
            final(self).wf(),
            final(self).nstack@ == old(self).nstack@.push(old(self).node),
            final(self).istack@ == old(self).istack@.push(old(self).invert),
            final(self).node == if which == HiLoPart::HiPart { base.branches(old(self).node)->0.hi } else { base.branches(old(self).node)->0.lo },
            final(self).nvars == old(self).nvars, final(self).scope == old(self).scope,
            final(self).can_skip == old(self).can_skip, final(self).watch == old(self).watch,
    {
        let hl = base.get_hilo(self.node).unwrap();
        self.push_node(hl.get_part(which));
    }

    /// Set the current node's variable to `val`, and step down the branch it picks.
    pub fn put_step<B: CursorPlan>(&mut self, base: &B, val: bool)
        requires
            old(self).wf(), base.branches(old(self).node) is Some,
            is_var_node(old(self).node), var_ix_of(old(self).node) < old(self).nvars,
        ensures
            final(self).wf(),
            final(self).scope.bits() == old(self).scope.bits().update(var_ix_of(old(self).node), val),
            final(self).nstack@ == old(self).nstack@.push(old(self).node),
            final(self).istack@ == old(self).istack@.push(old(self).invert),
            final(self).node == if val { base.branches(old(self).node)->0.hi } else { base.branches(old(self).node)->0.lo },
            final(self).nvars == old(self).nvars,
            final(self).can_skip == old(self).can_skip, final(self).watch == old(self).watch,
    {
        proof { lemma_capacity(self.nvars as int); }
        self.scope.var_put(self.node.vid(), val);
        if val {
            self.step_down(base, HiLoPart::HiPart)
        } else {
            self.step_down(base, HiLoPart::LoPart)
        }
    }

    /// The variables that can be skipped and are not watched, in ascending order.
    pub fn dontcares(&self) -> (r: Vec<usize>)
        requires self.wf(), self.can_skip.bits().len() <= usize::MAX,
        ensures
            forall|a: int, b: int| 0 <= a < b < r@.len() ==> r@[a] < r@[b],
            forall|i: int| 0 <= i < self.can_skip.bits().len() ==>
                (r@.contains(i as usize) <==> self.can_skip.bits()[i] && !self.watch.bits()[i]),
            forall|k: int| 0 <= k < r@.len() ==> (r@[k] as int) < self.can_skip.bits().len(),
    {
        let his = self.can_skip.hi_bits();
        let mut res: Vec<usize> = Vec::new();
        let mut k: usize = 0;
        while k < his.len()
            invariant
                self.wf(), k <= his@.len(),
                forall|a: int, b: int| 0 <= a < b < his@.len() ==> his@[a] < his@[b],
                forall|i: int| 0 <= i < self.can_skip.bits().len() ==> (self.can_skip.bits()[i] <==> his@.contains(i as usize)),
                forall|q: int| 0 <= q < his@.len() ==> (his@[q] as int) < self.can_skip.bits().len(),
                forall|a: int, b: int| 0 <= a < b < res@.len() ==> res@[a] < res@[b],
                forall|q: int| 0 <= q < res@.len() ==> exists|w: int| 0 <= w < k && his@[w] == #[trigger] res@[q],
                forall|w: int| 0 <= w < k ==> (res@.contains(#[trigger] his@[w]) <==> !self.watch.bits()[his@[w] as int]),
            decreases his@.len() - k,
        {
            let i = his[k];
            proof {
                lemma_capacity(self.nvars as int);
                assert(self.watch.data@.len() == self.can_skip.data@.len());
            }
            let ghost before = res@;
            if !self.watch.get(i) {
                res.push(i);
                proof {
                    assert forall|a: int, b: int| 0 <= a < b < res@.len() implies res@[a] < res@[b] by {
                        if b == res@.len() - 1 && a < b {
                            let w = choose|w: int| 0 <= w < k && his@[w] == #[trigger] before[a];
                            assert(his@[w] < his@[k as int]);
                        }
                    }
                    assert forall|q: int| 0 <= q < res@.len() implies exists|w: int| 0 <= w < k + 1 && his@[w] == #[trigger] res@[q] by {
                        if q < before.len() {
                            let w = choose|w: int| 0 <= w < k && his@[w] == #[trigger] before[q];
                            assert(his@[w] == res@[q]);
                        } else {
                            assert(his@[k as int] == res@[q]);
                        }
                    }
                    assert forall|w: int| 0 <= w < k + 1 implies (res@.contains(#[trigger] his@[w]) <==> !self.watch.bits()[his@[w] as int]) by {
                        if w < k {
                            if res@.contains(his@[w]) && !before.contains(his@[w]) {
                                assert(res@[before.len() as int] == his@[w]);
                                assert(his@[w] < his@[k as int]);
                            }
                            if before.contains(his@[w]) {
                                let t = choose|t: int| 0 <= t < before.len() && before[t] == his@[w];
                                assert(res@[t] == his@[w]);
                            }
                        } else {
                            assert(res@[before.len() as int] == his@[w]);
                        }
                    }
                }
            } else {
                proof {
                    assert forall|w: int| 0 <= w < k + 1 implies (res@.contains(#[trigger] his@[w]) <==> !self.watch.bits()[his@[w] as int]) by {
                        if w == k && res@.contains(his@[w]) {
                            let t = choose|t: int| 0 <= t < res@.len() && res@[t] == his@[w];
                            let u = choose|u: int| 0 <= u < k && his@[u] == #[trigger] res@[t];
                            assert(his@[u] < his@[k as int]);
                        }
                    }
                }
            }
            k = k + 1;
        }
        proof {
            assert forall|i: int| 0 <= i < self.can_skip.bits().len() implies
                (res@.contains(i as usize) <==> self.can_skip.bits()[i] && !self.watch.bits()[i]) by {
                if res@.contains(i as usize) {
                    let t = choose|t: int| 0 <= t < res@.len() && res@[t] == i as usize;
                    let w = choose|w: int| 0 <= w < his@.len() && his@[w] == #[trigger] res@[t];
                    assert(his@.contains(i as usize));
                }
                if self.can_skip.bits()[i] && !self.watch.bits()[i] {
                    let w = choose|w: int| 0 <= w < his@.len() && his@[w] == i as usize;
                    assert(res@.contains(his@[w]));
                }
            }
            assert forall|q: int| 0 <= q < res@.len() implies (res@[q] as int) < self.can_skip.bits().len() by {
                let w = choose|w: int| 0 <= w < his@.len() && his@[w] == #[trigger] res@[q];
            }
        }
        res
    }

    /// The assignments of the variables that are watched or not skippable, in order.
    pub fn cube(&self) -> (r: Vec<(VID, bool)>)
        requires self.wf(), self.nvars <= u32::MAX + 1,
        ensures r@ == cube_upto(self.scope.bits(), self.can_skip.bits(), self.watch.bits(), self.nvars as nat),
    {
        proof { lemma_capacity(self.nvars as int); }
        let mut res: Vec<(VID, bool)> = Vec::new();
        let mut i: usize = 0;
        while i < self.nvars
            invariant
                self.wf(), i <= self.nvars, self.nvars <= u32::MAX + 1,
                self.scope.bits().len() >= self.nvars, self.can_skip.bits().len() >= self.nvars,
                self.watch.bits().len() >= self.nvars,
                res@ == cube_upto(self.scope.bits(), self.can_skip.bits(), self.watch.bits(), i as nat),
            decreases self.nvars - i,
        {
            if self.watch.get(i) || !self.can_skip.get(i) {
                res.push((VID::var(i as u32), self.scope.get(i)));
            }
            i = i + 1;
        }
        res
    }

    /// Walk down to the leftmost included leaf below the current node,
    /// setting the scope on the way: at each node take the hi branch when
    /// the base does not include the lo one. It does not backtrack; at the
    /// bottom, call `ascend` to get back to the next branch point.
    pub fn descend<B: CursorPlan>(&mut self, base: &B)
        requires
            old(self).wf(), walkable(base, old(self).nvars as nat),
            old(self).node.n & T != 0 || (base.branches(old(self).node) is Some),
        ensures ({
            let path = final(self).nstack@.skip(old(self).nstack@.len() as int).push(final(self).node);
            &&& final(self).wf()
            &&& final(self).node.n & T != 0
            &&& final(self).nstack@.len() >= old(self).nstack@.len()
            &&& final(self).nstack@.take(old(self).nstack@.len() as int) == old(self).nstack@
            &&& final(self).istack@.take(old(self).istack@.len() as int) == old(self).istack@
            &&& path[0] == old(self).node
            &&& walked(base, path, final(self).scope.bits())
            &&& leftmost_steps(base, path, final(self).scope.bits())
            &&& forall|j: int| 0 <= j < final(self).scope.bits().len()
                    && (forall|k: int| 0 <= k < path.len() - 1 ==> j != var_ix_of(#[trigger] path[k]))
                    ==> final(self).scope.bits()[j] == old(self).scope.bits()[j]
            &&& final(self).nvars == old(self).nvars
            &&& final(self).can_skip == old(self).can_skip && final(self).watch == old(self).watch
        }),
    {
        let ghost n0 = old(self).nstack@.len() as int;
        let ghost mut p: Seq<NID> = seq![self.node];
        loop
            invariant
                self.wf(), walkable(base, self.nvars as nat), self.nvars == old(self).nvars,
                self.node.n & T != 0 || (base.branches(self.node) is Some),
                n0 == old(self).nstack@.len(), p.len() >= 1, p[0] == old(self).node, p.last() == self.node,
                self.nstack@ == old(self).nstack@ + p.drop_last(),
                self.istack@.take(n0) == old(self).istack@,
                self.scope.bits().len() == old(self).scope.bits().len(),
                walked(base, p, self.scope.bits()),
                leftmost_steps(base, p, self.scope.bits()),
                forall|k: int| 0 <= k < p.len() - 1 ==> is_var_node(#[trigger] p[k]),
                forall|a: int, b: int| 0 <= a < b < p.len() - 1 ==> var_ix_of(#[trigger] p[a]) > var_ix_of(#[trigger] p[b]),
                self.node.n & T == 0 ==> is_var_node(self.node)
                    && forall|k: int| 0 <= k < p.len() - 1 ==> var_ix_of(#[trigger] p[k]) > var_ix_of(self.node),
                forall|j: int| 0 <= j < self.scope.bits().len()
                    && (forall|k: int| 0 <= k < p.len() - 1 ==> j != var_ix_of(#[trigger] p[k]))
                    ==> self.scope.bits()[j] == old(self).scope.bits()[j],
                self.can_skip == old(self).can_skip, self.watch == old(self).watch,
            ensures
                self.node.n & T != 0,
                self.nstack@ == old(self).nstack@ + p.drop_last(), p.len() >= 1, p[0] == old(self).node,
                p.last() == self.node,
                self.istack@.take(n0) == old(self).istack@,
                walked(base, p, self.scope.bits()),
                leftmost_steps(base, p, self.scope.bits()),
                forall|j: int| 0 <= j < self.scope.bits().len()
                    && (forall|k: int| 0 <= k < p.len() - 1 ==> j != var_ix_of(#[trigger] p[k]))
                    ==> self.scope.bits()[j] == old(self).scope.bits()[j],
            decreases if self.node.n & T != 0 { 0 } else { var_ix_of(self.node) + 1 },
        {
            if self.node.is_const() {
                break;
            }
            let hl = base.get_hilo(self.node).unwrap();
            let choice = !base.includes_lo(hl.lo);
            let ghost s0 = *self;
            let ghost p0 = p;
            proof { lemma_capacity(self.nvars as int); }
            self.put_step(base, choice);
            proof {
                p = p0.push(self.node);
                assert(p.drop_last() =~= p0);
                assert(p0 =~= p0.drop_last().push(s0.node));
                assert(self.istack@.take(n0) =~= s0.istack@.take(n0));
                let v = var_ix_of(s0.node);
                assert forall|k: int| 0 <= k < p.len() - 1 implies {
                    &&& (#[trigger] base.branches(p[k])) is Some
                    &&& p[k + 1] == if self.scope.bits()[var_ix_of(p[k])] { base.branches(p[k])->0.hi } else { base.branches(p[k])->0.lo }
                } by {
                    if k < p0.len() - 1 {
                        assert(p[k] == p0[k] && p[k + 1] == p0[k + 1]);
                        assert(var_ix_of(p0[k]) > v);
                    }
                }
                assert forall|j: int| 0 <= j < self.scope.bits().len()
                    && (forall|k: int| 0 <= k < p.len() - 1 ==> j != var_ix_of(#[trigger] p[k]))
                    implies self.scope.bits()[j] == old(self).scope.bits()[j] by {
                    assert(p[p0.len() - 1] == s0.node);
                    assert forall|k: int| 0 <= k < p0.len() - 1 implies j != var_ix_of(#[trigger] p0[k]) by {
                        assert(p[k] == p0[k]);
                    }
                }
                assert forall|k: int| 0 <= k < p.len() - 1 implies
                    call_ensures(B::includes_lo, (base, (#[trigger] base.branches(p[k]))->0.lo), !self.scope.bits()[var_ix_of(p[k])]) by {
                    if k < p0.len() - 1 {
                        assert(p[k] == p0[k]);
                        assert(var_ix_of(p0[k]) > v);
                        assert(call_ensures(B::includes_lo, (base, base.branches(p0[k])->0.lo), !s0.scope.bits()[var_ix_of(p0[k])]));
                    } else {
                        assert(p[k] == s0.node);
                    }
                }
                if self.node.n & T == 0 {
                    assert forall|k: int| 0 <= k < p.len() - 1 implies var_ix_of(#[trigger] p[k]) > var_ix_of(self.node) by {
                        if k < p0.len() - 1 { assert(p[k] == p0[k]); }
                    }
                }
                assert forall|a: int, b: int| 0 <= a < b < p.len() - 1 implies var_ix_of(#[trigger] p[a]) > var_ix_of(#[trigger] p[b]) by {
                    assert(p[a] == p0[a]);
                    assert(p[b] == p0[b]);
                }
                assert forall|k: int| 0 <= k < p.len() - 1 implies is_var_node(#[trigger] p[k]) by {
                    assert(p[k] == p0[k]);
                }
            }
        }
        proof {
            assert(self.nstack@.skip(n0) =~= p.drop_last());
            assert(self.nstack@.take(n0) =~= old(self).nstack@);
            assert(self.nstack@.skip(n0).push(self.node) =~= p);
        }
    }

    /// The value the scope gives the current node's variable.
    pub fn var_get(&self) -> (r: bool)
        requires self.wf(), is_var_node(self.node), var_ix_of(self.node) < self.nvars,
        ensures r == self.scope.bits()[var_ix_of(self.node)],
    {
        proof { lemma_capacity(self.nvars as int); }
        self.scope.var_get(self.node.vid())
    }

    /// Starting at a node, climb the stack until reaching one whose variable
    /// the scope sets to lo (or the top).
    pub fn ascend(&mut self)
        requires
            old(self).wf(), is_var_node(old(self).node), var_ix_of(old(self).node) < old(self).nvars,
            forall|k: int| 0 <= k < old(self).nstack@.len() ==> is_var_node(#[trigger] old(self).nstack@[k])
                && var_ix_of(old(self).nstack@[k]) < old(self).nvars,
        ensures
            final(self).wf(),
            final(self).nstack@.len() <= old(self).nstack@.len(),
            final(self).nstack@ == old(self).nstack@.take(final(self).nstack@.len() as int),
            final(self).istack@ == old(self).istack@.take(final(self).istack@.len() as int),
            final(self).nstack@.len() == old(self).nstack@.len() || final(self).node == old(self).nstack@[final(self).nstack@.len() as int],
            final(self).nstack@.len() == old(self).nstack@.len() ==> final(self).node == old(self).node,
            final(self).nstack@.len() == 0 || !final(self).scope.bits()[var_ix_of(final(self).node)],
            // it climbs only past nodes whose variable is set
            final(self).nstack@.len() < old(self).nstack@.len() ==> old(self).scope.bits()[var_ix_of(old(self).node)],
            forall|k: int| final(self).nstack@.len() < k < old(self).nstack@.len()
                ==> old(self).scope.bits()[var_ix_of(#[trigger] old(self).nstack@[k])],
            final(self).nvars == old(self).nvars, final(self).scope == old(self).scope,
            final(self).can_skip == old(self).can_skip, final(self).watch == old(self).watch,
    {
        proof { lemma_capacity(self.nvars as int); }
        let mut bv = self.node.vid();
        while self.scope.var_get(bv) && self.nstack.len() > 0
            invariant
                self.wf(), self.nvars == old(self).nvars, self.scope == old(self).scope,
                self.can_skip == old(self).can_skip, self.watch == old(self).watch,
                self.scope.bits().len() >= self.nvars,
                bv == self.node.vid_spec(), is_var_node(self.node), var_ix_of(self.node) < self.nvars,
                self.nstack@.len() <= old(self).nstack@.len(), old(self).istack@.len() == old(self).nstack@.len(),
                self.nstack@ == old(self).nstack@.take(self.nstack@.len() as int),
                self.istack@ == old(self).istack@.take(self.istack@.len() as int),
                self.nstack@.len() == old(self).nstack@.len() || self.node == old(self).nstack@[self.nstack@.len() as int],
                self.nstack@.len() == old(self).nstack@.len() ==> self.node == old(self).node,
                forall|k: int| 0 <= k < old(self).nstack@.len() ==> is_var_node(#[trigger] old(self).nstack@[k])
                    && var_ix_of(old(self).nstack@[k]) < old(self).nvars,
                self.nstack@.len() < old(self).nstack@.len() ==> old(self).scope.bits()[var_ix_of(old(self).node)],
                forall|k: int| self.nstack@.len() < k < old(self).nstack@.len()
                    ==> old(self).scope.bits()[var_ix_of(#[trigger] old(self).nstack@[k])],
            decreases self.nstack@.len(),
        {
            let ghost s0 = *self;
            let n = self.step_up();
            proof {
                assert(s0.istack@.len() == s0.nstack@.len());
                assert(self.nstack@ =~= old(self).nstack@.take(self.nstack@.len() as int));
                assert(self.istack@ =~= s0.istack@.drop_last());
                assert(self.istack@ =~= old(self).istack@.take(self.istack@.len() as int));
                assert(s0.nstack@.last() == old(self).nstack@[self.nstack@.len() as int]);
            }
            bv = n.vid();
        }
    }

    /// Clear the scope bits of the variables below the current node's.
    pub fn clear_trailing_bits(&mut self)
        requires old(self).wf(), is_var_node(old(self).node), var_ix_of(old(self).node) <= old(self).nvars,
        ensures
            final(self).wf(),
            final(self).scope.bits() == Seq::new(old(self).scope.bits().len(),
                |j: int| if j < var_ix_of(old(self).node) { false } else { old(self).scope.bits()[j] }),
            final(self).node == old(self).node, final(self).invert == old(self).invert,
            final(self).nstack == old(self).nstack, final(self).istack == old(self).istack,
            final(self).nvars == old(self).nvars,
            final(self).can_skip == old(self).can_skip, final(self).watch == old(self).watch,
    {
        proof { lemma_capacity(self.nvars as int); }
        let bi = self.node.vid().var_ix();
        let mut i: usize = 0;
        while i < bi
            invariant
                i <= bi, bi == var_ix_of(self.node), bi <= self.nvars, self.nvars == old(self).nvars,
                self.scope.wf(), self.scope.nbits == self.nvars, self.scope.bits().len() >= self.nvars,
                self.node == old(self).node, self.invert == old(self).invert,
                self.nstack == old(self).nstack, self.istack == old(self).istack,
                self.can_skip == old(self).can_skip, self.watch == old(self).watch,
                self.scope.bits() == Seq::new(old(self).scope.bits().len(),
                    |j: int| if j < i { false } else { old(self).scope.bits()[j] }),
            decreases bi - i,
        {
            self.scope.put(i, false);
            proof {
                assert(self.scope.bits() =~= Seq::new(old(self).scope.bits().len(),
                    |j: int| if j < i + 1 { false } else { old(self).scope.bits()[j] }));
            }
            i = i + 1;
        }
    }
}


/// A bit of one cell combined with two others.
proof fn lemma_or_bits(x: usize, y: usize, z: usize, t: usize)
    requires t < usize::BITS,
    ensures
        (((x | (y & !z)) >> t) & 1 == 1) == (((x >> t) & 1 == 1) || (((y >> t) & 1 == 1) && !((z >> t) & 1 == 1))),
{
    assert(t < usize::BITS ==> ((((x | (y & !z)) >> t) & 1 == 1) == (((x >> t) & 1 == 1) || (((y >> t) & 1 == 1) && !((z >> t) & 1 == 1))))) by (bit_vector);
}

impl Cursor {
    /// Increment the scope, first setting the bits that can be skipped and
    /// are not watched (the "don't care" bits); returns where the carry
    /// stopped, or `None` on overflow. The stack is then climbed to the
    /// layer where the variable at that position would be.
    pub fn increment(&mut self) -> (r: Option<usize>)
        requires old(self).wf(), old(self).nvars >= 1,
        ensures ({
            let m = ored(old(self).scope.bits(), old(self).can_skip.bits(), old(self).watch.bits());
            let n = old(self).nvars as nat;
            &&& final(self).wf()
            &&& final(self).scope.bits().len() == m.len()
            &&& num(final(self).scope.bits(), n) == (num(m, n) + 1) % pow2(n)
            &&& (r is None <==> num(m, n) + 1 == pow2(n))
            &&& forall|j: int| n <= j < m.len() ==> #[trigger] final(self).scope.bits()[j] == m[j]
            &&& final(self).nstack@.len() <= old(self).nstack@.len()
            &&& final(self).nstack@ == old(self).nstack@.take(final(self).nstack@.len() as int)
            &&& final(self).istack@ == old(self).istack@.take(final(self).istack@.len() as int)
            &&& final(self).nstack@.len() == old(self).nstack@.len() ==> final(self).node == old(self).node && final(self).invert == old(self).invert
            &&& final(self).nstack@.len() < old(self).nstack@.len() ==> final(self).node == old(self).nstack@[final(self).nstack@.len() as int]
            &&& r is None ==> final(self).nstack@ == old(self).nstack@
            &&& r matches Some(z) ==> {
                    let vz = VID { v: VidEnum::Var(z as u32) };
                    &&& forall|k: int| final(self).nstack@.len() <= k < old(self).nstack@.len() ==>
                            !(depth_key(vz) < depth_key(#[trigger] old(self).nstack@[k].vid_spec()))
                    &&& final(self).nstack@.len() == 0 || depth_key(vz) < depth_key(final(self).nstack@.last().vid_spec())
                }
            &&& final(self).nvars == old(self).nvars
            &&& final(self).can_skip == old(self).can_skip && final(self).watch == old(self).watch
        }),
    {
        let ghost m = ored(self.scope.bits(), self.can_skip.bits(), self.watch.bits());
        let len = self.scope.data.len();
        let mut i: usize = 0;
        while i < len
            invariant
                self.wf(), len == self.scope.data@.len(), len == self.can_skip.data@.len(), len == self.watch.data@.len(),
                i <= len, self.nvars == old(self).nvars,
                self.can_skip == old(self).can_skip, self.watch == old(self).watch,
                self.nstack == old(self).nstack, self.istack == old(self).istack,
                self.node == old(self).node, self.invert == old(self).invert,
                forall|c: int| i <= c < len ==> #[trigger] self.scope.data@[c] == old(self).scope.data@[c],
                forall|c: int| 0 <= c < i ==> #[trigger] self.scope.data@[c]
                    == old(self).scope.data@[c] | (self.can_skip.data@[c] & !self.watch.data@[c]),
            decreases len - i,
        {
            let v = self.scope.data[i] | (self.can_skip.data[i] & !self.watch.data[i]);
            self.scope.data.set(i, v);
            i = i + 1;
        }
        proof {
            assert forall|b: int| 0 <= b < m.len() implies #[trigger] self.scope.bits()[b] == m[b] by {
                crate::reg::lemma_cell_index(b, len as int);
                let c = b / width();
                let t = (b % width()) as usize;
                lemma_or_bits(old(self).scope.data@[c], self.can_skip.data@[c], self.watch.data@[c], t);
            }
            assert(self.scope.bits() =~= m);
        }
        let ghost mid = self.scope.bits();
        let r = self.scope.increment();
        let ghost after = self.scope;
        match r {
            Some(zpos) => {
                let vz = VID::var(zpos as u32);
                while self.nstack.len() > 0 && !vz.is_below(&self.nstack[self.nstack.len() - 1].vid())
                    invariant
                        self.wf(), self.nvars == old(self).nvars,
                        self.can_skip == old(self).can_skip, self.watch == old(self).watch,
                        vz.v == VidEnum::Var(zpos as u32),
                        self.nstack@.len() <= old(self).nstack@.len(), old(self).istack@.len() == old(self).nstack@.len(),
                        self.nstack@ == old(self).nstack@.take(self.nstack@.len() as int),
                        self.istack@ == old(self).istack@.take(self.istack@.len() as int),
                        self.nstack@.len() == old(self).nstack@.len() ==> self.node == old(self).node && self.invert == old(self).invert,
                        self.nstack@.len() < old(self).nstack@.len() ==> self.node == old(self).nstack@[self.nstack@.len() as int],
                        forall|k: int| self.nstack@.len() <= k < old(self).nstack@.len() ==>
                            !(depth_key(vz) < depth_key(#[trigger] old(self).nstack@[k].vid_spec())),
                        self.scope == after,
                    ensures
                        self.nstack@.len() == 0 || depth_key(vz) < depth_key(self.nstack@.last().vid_spec()),
                        self.nstack@.len() <= old(self).nstack@.len(),
                        self.nstack@ == old(self).nstack@.take(self.nstack@.len() as int),
                        self.istack@ == old(self).istack@.take(self.istack@.len() as int),
                        self.nstack@.len() == old(self).nstack@.len() ==> self.node == old(self).node && self.invert == old(self).invert,
                        self.nstack@.len() < old(self).nstack@.len() ==> self.node == old(self).nstack@[self.nstack@.len() as int],
                        forall|k: int| self.nstack@.len() <= k < old(self).nstack@.len() ==>
                            !(depth_key(vz) < depth_key(#[trigger] old(self).nstack@[k].vid_spec())),
                    decreases self.nstack@.len(),
                {
                    let ghost s0 = *self;
                    self.pop_node();
                    proof {
                        assert(s0.istack@.len() == s0.nstack@.len());
                        assert(self.nstack@ =~= old(self).nstack@.take(self.nstack@.len() as int));
                        assert(self.istack@ =~= s0.istack@.drop_last());
                        assert(self.istack@ =~= old(self).istack@.take(self.istack@.len() as int));
                        assert(s0.nstack@.last() == old(self).nstack@[self.nstack@.len() as int]);
                    }
                }
            },
            None => {
                proof {
                    assert(self.nstack@ =~= old(self).nstack@.take(self.nstack@.len() as int));
                    assert(self.istack@ =~= old(self).istack@.take(self.istack@.len() as int));
                }
            },
        }
        r
    }
}

} // verus!
