//! Binary decision diagram nodes with 32-bit variable numbers, where lower
//! variable numbers sit higher in the diagram.
use vstd::prelude::*;
use std::collections::HashMap;
use crate::tags::Names;

verus! {

broadcast use vstd::std_specs::hash::group_hash_axioms;

/// Is the node inverted?
pub const INV: u64 = 0x8000_0000_0000_0000;
/// Is the node a variable?
pub const VAR: u64 = 0x4000_0000_0000_0000;
/// Constant nodes (the largest variable, so that O and I sit at the bottom).
pub const T: u64 = 0x2000_0000_0000_0000;
/// The variable number of the constant nodes.
pub const TV: u32 = 0x2000_0000;
/// The index bits.
pub const IDX_MASK: u64 = 0xFFFF_FFFF;

/// A node: its variable in bits 32 and up, its index in the low 32 bits.
#[derive(PartialEq, Eq, Structural, Hash, Clone, Copy, Debug)]
pub struct NID {
    pub n: u64,
}

/// A node as a triple: variable, then branch, else branch.
#[derive(PartialEq, Eq, Structural, Hash, Clone, Copy, Debug)]
pub struct BDDNode {
    pub v: u32,
    pub hi: NID,
    pub lo: NID,
}

/// The normal form of an `(f, g, h)` triple.
#[derive(PartialEq, Eq, Structural, Clone, Copy, Debug)]
pub enum Norm {
    Nid(NID),
    Tup(NID, NID, NID),
    Not(NID, NID, NID),
}

pub open spec fn o_spec() -> NID { NID { n: 0x2000_0000_0000_0000 } }
pub open spec fn i_spec() -> NID { NID { n: 0xA000_0000_0000_0000 } }
pub open spec fn not_spec(x: NID) -> NID { NID { n: x.n ^ INV } }
pub open spec fn var_spec(x: NID) -> u32 { ((x.n & 0x3FFF_FFFF_FFFF_FFFF) >> 32) as u32 }
pub open spec fn idx_spec(x: NID) -> u64 { x.n & IDX_MASK }

/// Where a node sits in the order used to pick the condition: variable, then index.
pub open spec fn key(x: NID) -> u64 { x.n & 0x3FFF_FFFF_FFFF_FFFF }

/// The constant false.
pub fn o() -> (r: NID)
    ensures r == o_spec(),
{
    NID { n: T }
}

/// The constant true.
pub fn i() -> (r: NID)
    ensures r == i_spec(),
{
    proof { lemma_fields(0, 0); }
    NID { n: T | INV }
}

/// Is `x` the node of a variable?
pub fn is_var(x: NID) -> (r: bool)
    ensures r == (x.n & VAR != 0),
{
    (x.n & VAR) != 0
}

/// Is `x` inverted?
pub fn is_inv(x: NID) -> (r: bool)
    ensures r == (x.n & INV != 0),
{
    (x.n & INV) != 0
}

/// Is `x` a constant?
pub fn is_const(x: NID) -> (r: bool)
    ensures r == (x.n & T != 0),
{
    (x.n & T) != 0
}

/// The index of `x`.
pub fn idx(x: NID) -> (r: usize)
    ensures r == idx_spec(x),
{
    proof { lemma_fields(x.n, 0); }
    (x.n & IDX_MASK) as usize
}

/// The variable of `x`.
pub fn var(x: NID) -> (r: u32)
    ensures r == var_spec(x),
{
    proof { lemma_fields(0, 0); }
    ((x.n & !(INV | VAR)) >> 32) as u32
}

/// The inverse of `x`.
pub fn not(x: NID) -> (r: NID)
    ensures r == not_spec(x),
{
    NID { n: x.n ^ INV }
}

/// The node of variable `v`.
pub fn nv(v: u32) -> (r: NID)
    ensures r.n == ((v as u64) << 32) | VAR, r == nv_spec(v),
{
    NID { n: ((v as u64) << 32) | VAR }
}

/// Node `i` on variable `v`.
pub fn nvi(v: u32, i: u32) -> (r: NID)
    ensures r.n == ((v as u64) << 32) | (i as u64),
{
    NID { n: ((v as u64) << 32) | (i as u64) }
}

proof fn lemma_fields(a: u64, b: u64)
    by (bit_vector)
    ensures
        a & 0xFFFF_FFFFu64 <= 0xFFFF_FFFFu64,
        (a ^ 0x8000_0000_0000_0000u64) & 0x3FFF_FFFF_FFFF_FFFFu64
            == a & 0x3FFF_FFFF_FFFF_FFFFu64,
        ((a ^ 0x8000_0000_0000_0000u64) & 0x8000_0000_0000_0000u64 != 0) == (a & 0x8000_0000_0000_0000u64 == 0),
        (a ^ 0x8000_0000_0000_0000u64) ^ 0x8000_0000_0000_0000u64 == a,
        a ^ 0x8000_0000_0000_0000u64 != a,
        (a ^ 0x8000_0000_0000_0000u64) & 0xFFFF_FFFFu64 == a & 0xFFFF_FFFFu64,
        0x2000_0000_0000_0000u64 | 0x8000_0000_0000_0000u64 == 0xA000_0000_0000_0000u64,
        !(0x8000_0000_0000_0000u64 | 0x4000_0000_0000_0000u64) == 0x3FFF_FFFF_FFFF_FFFFu64,
        0x2000_0000_0000_0000u64 & 0x8000_0000_0000_0000u64 == 0,
        0xA000_0000_0000_0000u64 & 0x8000_0000_0000_0000u64 != 0,
        0x2000_0000_0000_0000u64 ^ 0x8000_0000_0000_0000u64 == 0xA000_0000_0000_0000u64,
        0xA000_0000_0000_0000u64 ^ 0x8000_0000_0000_0000u64 == 0x2000_0000_0000_0000u64,
        a & 0x3FFF_FFFF_FFFF_FFFFu64 < 0x4000_0000_0000_0000u64,
        (a & 0x3FFF_FFFF_FFFF_FFFFu64 < b & 0x3FFF_FFFF_FFFF_FFFFu64)
            == ((((a & 0x3FFF_FFFF_FFFF_FFFFu64) >> 32u64) as u32) < (((b & 0x3FFF_FFFF_FFFF_FFFFu64) >> 32u64) as u32)
                || ((((a & 0x3FFF_FFFF_FFFF_FFFFu64) >> 32u64) as u32) == (((b & 0x3FFF_FFFF_FFFF_FFFFu64) >> 32u64) as u32)
                    && a & 0xFFFF_FFFFu64 < b & 0xFFFF_FFFFu64)),
{
}

// ---- normal form ----

/// A reading of nodes as booleans that respects inversion and the constants.
pub open spec fn reading(m: spec_fn(NID) -> bool) -> bool {
    &&& forall|n: NID| #[trigger] m(not_spec(n)) == !m(n)
    &&& m(o_spec()) == false
    &&& m(i_spec()) == true
}

pub open spec fn ite_val(m: spec_fn(NID) -> bool, f: NID, g: NID, h: NID) -> bool {
    if m(f) { m(g) } else { m(h) }
}

/// What a normal form means under a reading.
pub open spec fn norm_val(m: spec_fn(NID) -> bool, r: Norm) -> bool {
    match r {
        Norm::Nid(x) => m(x),
        Norm::Tup(f, g, h) => ite_val(m, f, g, h),
        Norm::Not(f, g, h) => !ite_val(m, f, g, h),
    }
}

/// A triple in normal form: condition and branch not inverted, condition not a constant.
pub open spec fn normal_triple(f: NID, g: NID, h: NID) -> bool {
    &&& f.n & INV == 0
    &&& g.n & INV == 0
    &&& f != o_spec() && f != i_spec()
}

/// The branches of a normal triple differ, and neither is the condition or its inverse.
pub open spec fn distinct_triple(f: NID, g: NID, h: NID) -> bool {
    &&& g != h
    &&& g != f && g != not_spec(f)
    &&& h != f && h != not_spec(f)
}

pub open spec fn is_oi(x: NID) -> bool {
    x == o_spec() || x == i_spec()
}

/// `x` is a constant, one of `f`, `g`, `h`, or the inverse of one of them.
pub open spec fn drawn(x: NID, f: NID, g: NID, h: NID) -> bool {
    is_oi(x) || x == f || x == g || x == h || x == not_spec(f) || x == not_spec(g) || x == not_spec(h)
}

/// Every slot of a normal form is drawn from the triple it came from.
pub open spec fn norm_drawn(r: Norm, f: NID, g: NID, h: NID) -> bool {
    match r {
        Norm::Nid(x) => drawn(x, f, g, h),
        Norm::Tup(x, y, z) => drawn(x, f, g, h) && drawn(y, f, g, h) && drawn(z, f, g, h),
        Norm::Not(x, y, z) => drawn(x, f, g, h) && drawn(y, f, g, h) && drawn(z, f, g, h),
    }
}

proof fn lemma_drawn_not(x: NID, f: NID, g: NID, h: NID)
    requires drawn(x, f, g, h),
    ensures drawn(not_spec(x), f, g, h),
{
    lemma_fields(x.n, 0);
    lemma_fields(f.n, 0);
    lemma_fields(g.n, 0);
    lemma_fields(h.n, 0);
}

proof fn lemma_drawn_trans(x: NID, f: NID, g: NID, h: NID, f0: NID, g0: NID, h0: NID)
    requires
        drawn(x, f, g, h),
        drawn(f, f0, g0, h0),
        drawn(g, f0, g0, h0),
        drawn(h, f0, g0, h0),
    ensures drawn(x, f0, g0, h0),
{
    lemma_drawn_not(f, f0, g0, h0);
    lemma_drawn_not(g, f0, g0, h0);
    lemma_drawn_not(h, f0, g0, h0);
}

pub open spec fn norm_measure(f: NID, g: NID, h: NID) -> (int, int, int) {
    (
        key(f) as int,
        (if is_oi(g) { 0int } else { 1int }) + (if is_oi(h) { 0int } else { 1int }),
        (if f.n & INV != 0 { 2int } else { 0int }) + (if g.n & INV != 0 { 1int } else { 0int }),
    )
}

pub open spec fn lex_less(a: (int, int, int), b: (int, int, int)) -> bool {
    a.0 < b.0 || (a.0 == b.0 && (a.1 < b.1 || (a.1 == b.1 && a.2 < b.2)))
}

proof fn lemma_node_facts(x: NID, y: NID)
    ensures
        key(not_spec(x)) == key(x),
        var_spec(not_spec(x)) == var_spec(x),
        idx_spec(not_spec(x)) == idx_spec(x),
        (not_spec(x).n & INV != 0) == (x.n & INV == 0),
        not_spec(not_spec(x)) == x,
        not_spec(x) != x,
        key(x) < INV,
        (key(x) < key(y)) == (var_spec(x) < var_spec(y) || (var_spec(x) == var_spec(y) && idx_spec(x) < idx_spec(y))),
        not_spec(o_spec()) == i_spec(),
        not_spec(i_spec()) == o_spec(),
        o_spec().n & INV == 0,
        i_spec().n & INV != 0,
        is_oi(not_spec(x)) == is_oi(x),
{
    lemma_fields(x.n, y.n);
}

/// A returned normal form means what the original triple means.
proof fn lemma_ret(f0: NID, g0: NID, h0: NID, f: NID, g: NID, h: NID, r: Norm)
    requires
        forall|m: spec_fn(NID) -> bool| reading(m) ==> #[trigger] ite_val(m, f, g, h) == ite_val(m, f0, g0, h0),
        forall|m: spec_fn(NID) -> bool| reading(m) ==> #[trigger] norm_val(m, r) == ite_val(m, f, g, h),
    ensures
        forall|m: spec_fn(NID) -> bool| reading(m) ==> #[trigger] norm_val(m, r) == ite_val(m, f0, g0, h0),
{
    assert forall|m: spec_fn(NID) -> bool| reading(m) implies #[trigger] norm_val(m, r) == ite_val(m, f0, g0, h0) by {
        assert(ite_val(m, f, g, h) == ite_val(m, f0, g0, h0));
        assert(norm_val(m, r) == ite_val(m, f, g, h));
    }
}

/// `x` comes before the condition with variable `fv` and index `fi`.
fn before_cond(x: NID, fv: u32, fi: usize) -> (r: bool)
    ensures r == (var_spec(x) < fv || (var_spec(x) == fv && idx_spec(x) < fi as u64)),
{
    let v = var(x);
    v < fv || (v == fv && idx(x) < fi)
}



// ---- values of nodes ----

pub open spec fn is_var_spec(x: NID) -> bool { x.n & VAR != 0 }
pub open spec fn is_inv_spec(x: NID) -> bool { x.n & INV != 0 }
pub open spec fn is_const_spec(x: NID) -> bool { x.n & T != 0 }

/// The value of `x` when each variable `v` has the value `env(v)`: a stored
/// node takes its branch by its variable, and inversion negates.
pub open spec fn eval(bits: Seq<BDDNode>, x: NID, env: spec_fn(u32) -> bool) -> bool
    decreases idx_spec(x),
{
    let base = if is_const_spec(x) {
        false
    } else if is_var_spec(x) {
        env(var_spec(x))
    } else if 0 < idx_spec(x) < bits.len() {
        let b = bits[idx_spec(x) as int];
        let c = if env(b.v) { b.hi } else { b.lo };
        if idx_spec(c) < idx_spec(x) { eval(bits, c, env) } else { false }
    } else {
        false
    };
    base != is_inv_spec(x)
}

/// `x` names something in `bits`: a constant, a variable, or a stored node.
pub open spec fn nid_ok(bits: Seq<BDDNode>, x: NID) -> bool {
    if is_const_spec(x) {
        is_oi(x)
    } else if is_var_spec(x) {
        idx_spec(x) == 0
    } else {
        0 < idx_spec(x) < bits.len() && bits[idx_spec(x) as int].v == var_spec(x)
    }
}

/// `x` is a constant or uses one of the first `nvars` variables.
pub open spec fn in_range(x: NID, nvars: int) -> bool {
    is_const_spec(x) || var_spec(x) < nvars
}

/// Stored node `i` branches on one of the first `nvars` variables to nodes
/// that were stored before it and sit below it.
pub open spec fn node_ok(bits: Seq<BDDNode>, nvars: int, i: int) -> bool {
    let b = bits[i];
    &&& b.v < nvars
    &&& nid_ok(bits, b.hi) && nid_ok(bits, b.lo)
    &&& in_range(b.hi, nvars) && in_range(b.lo, nvars)
    &&& var_spec(b.hi) > b.v && var_spec(b.lo) > b.v
    &&& idx_spec(b.hi) < i && idx_spec(b.lo) < i
}

/// The node list of a base: the constant node first, then ordered nodes.
pub open spec fn bits_ok(bits: Seq<BDDNode>, nvars: int) -> bool {
    &&& bits.len() >= 1
    &&& bits[0] == (BDDNode { v: TV, hi: o_spec(), lo: i_spec() })
    &&& nvars <= TV
    &&& forall|i: int| 1 <= i < bits.len() ==> #[trigger] node_ok(bits, nvars, i)
}

/// The triple of `x`: its variable and its two branches (inverted with `x`).
pub open spec fn tup_spec(bits: Seq<BDDNode>, x: NID) -> BDDNode {
    if is_var_spec(x) {
        if is_inv_spec(x) {
            BDDNode { v: var_spec(x), hi: o_spec(), lo: i_spec() }
        } else {
            BDDNode { v: var_spec(x), hi: i_spec(), lo: o_spec() }
        }
    } else {
        let b = bits[idx_spec(x) as int];
        if is_inv_spec(x) {
            BDDNode { v: b.v, hi: not_spec(b.hi), lo: not_spec(b.lo) }
        } else {
            b
        }
    }
}

/// `env` with variable `x` set to `b`.
pub open spec fn env_set(env: spec_fn(u32) -> bool, x: u32, b: bool) -> spec_fn(u32) -> bool {
    |u: u32| if u == x { b } else { env(u) }
}

proof fn lemma_flags(a: u64)
    by (bit_vector)
    ensures
        (a ^ 0x8000_0000_0000_0000u64) & 0x2000_0000_0000_0000u64 == a & 0x2000_0000_0000_0000u64,
        (a ^ 0x8000_0000_0000_0000u64) & 0x4000_0000_0000_0000u64 == a & 0x4000_0000_0000_0000u64,
        0x2000_0000_0000_0000u64 & 0x2000_0000_0000_0000u64 != 0,
        0xA000_0000_0000_0000u64 & 0x2000_0000_0000_0000u64 != 0,
        0x2000_0000_0000_0000u64 & 0x4000_0000_0000_0000u64 == 0,
        0xA000_0000_0000_0000u64 & 0x4000_0000_0000_0000u64 == 0,
        0x2000_0000_0000_0000u64 & 0xFFFF_FFFFu64 == 0,
        0xA000_0000_0000_0000u64 & 0xFFFF_FFFFu64 == 0,
        ((0x2000_0000_0000_0000u64 & 0x3FFF_FFFF_FFFF_FFFFu64) >> 32u64) as u32 == 0x2000_0000u32,
        ((0xA000_0000_0000_0000u64 & 0x3FFF_FFFF_FFFF_FFFFu64) >> 32u64) as u32 == 0x2000_0000u32,
        a & 0x2000_0000_0000_0000u64 == 0 ==> (((a & 0x3FFF_FFFF_FFFF_FFFFu64) >> 32u64) as u32) < 0x2000_0000u32,
{
}

/// Facts about the bits of a node and its inverse.
pub proof fn lemma_nid(x: NID)
    ensures
        is_const_spec(not_spec(x)) == is_const_spec(x),
        is_var_spec(not_spec(x)) == is_var_spec(x),
        is_inv_spec(not_spec(x)) == !is_inv_spec(x),
        idx_spec(not_spec(x)) == idx_spec(x),
        var_spec(not_spec(x)) == var_spec(x),
        not_spec(not_spec(x)) == x,
        is_oi(not_spec(x)) == is_oi(x),
        is_const_spec(o_spec()) && is_const_spec(i_spec()),
        !is_var_spec(o_spec()) && !is_var_spec(i_spec()),
        !is_inv_spec(o_spec()) && is_inv_spec(i_spec()),
        idx_spec(o_spec()) == 0 && idx_spec(i_spec()) == 0,
        var_spec(o_spec()) == TV && var_spec(i_spec()) == TV,
        not_spec(o_spec()) == i_spec() && not_spec(i_spec()) == o_spec(),
        !is_const_spec(x) ==> var_spec(x) < TV,
{
    lemma_fields(x.n, 0);
    lemma_flags(x.n);
}

/// Inversion negates the value.
pub proof fn lemma_eval_not(bits: Seq<BDDNode>, x: NID, env: spec_fn(u32) -> bool)
    ensures eval(bits, not_spec(x), env) == !eval(bits, x, env),
{
    lemma_nid(x);
}

/// Under any assignment, the values of nodes are a reading.
pub proof fn lemma_reading(bits: Seq<BDDNode>, env: spec_fn(u32) -> bool)
    ensures reading(|n: NID| eval(bits, n, env)),
{
    let m = |n: NID| eval(bits, n, env);
    assert forall|n: NID| #[trigger] m(not_spec(n)) == !m(n) by {
        lemma_eval_not(bits, n, env);
    }
    lemma_nid(o_spec());
}

/// A node keeps its value when nodes are added after it.
pub proof fn lemma_frame(b1: Seq<BDDNode>, b2: Seq<BDDNode>, x: NID, env: spec_fn(u32) -> bool)
    requires
        b1.len() <= b2.len(),
        b1 == b2.take(b1.len() as int),
        is_const_spec(x) || is_var_spec(x) || idx_spec(x) < b1.len(),
    ensures eval(b1, x, env) == eval(b2, x, env),
    decreases idx_spec(x),
{
    if !is_const_spec(x) && !is_var_spec(x) && 0 < idx_spec(x) < b1.len() {
        let b = b1[idx_spec(x) as int];
        assert(b2[idx_spec(x) as int] == b);
        let c = if env(b.v) { b.hi } else { b.lo };
        if idx_spec(c) < idx_spec(x) {
            lemma_frame(b1, b2, c, env);
        }
    }
}

/// Every value of a node is kept when nodes are added after it.
pub proof fn lemma_frame_all(b1: Seq<BDDNode>, b2: Seq<BDDNode>, x: NID)
    requires prefix(b1, b2), nid_ok(b1, x),
    ensures forall|env: spec_fn(u32) -> bool| #[trigger] eval(b2, x, env) == eval(b1, x, env),
{
    assert forall|env: spec_fn(u32) -> bool| #[trigger] eval(b2, x, env) == eval(b1, x, env) by {
        lemma_frame(b1, b2, x, env);
    }
}

/// A node of a well-formed list is well-formed in any longer list.
pub proof fn lemma_ok_frame(b1: Seq<BDDNode>, b2: Seq<BDDNode>, x: NID)
    requires
        b1.len() <= b2.len(),
        b1 == b2.take(b1.len() as int),
        nid_ok(b1, x),
    ensures nid_ok(b2, x),
{
    if !is_const_spec(x) && !is_var_spec(x) {
        assert(b2[idx_spec(x) as int] == b1[idx_spec(x) as int]);
    }
}

/// The value of a node depends only on the variables at or below its own.
pub proof fn lemma_support(bits: Seq<BDDNode>, nvars: int, x: NID, e1: spec_fn(u32) -> bool, e2: spec_fn(u32) -> bool)
    requires
        bits_ok(bits, nvars),
        nid_ok(bits, x),
        forall|u: u32| u >= var_spec(x) ==> #[trigger] e1(u) == e2(u),
    ensures eval(bits, x, e1) == eval(bits, x, e2),
    decreases idx_spec(x),
{
    lemma_nid(x);
    if !is_const_spec(x) && !is_var_spec(x) {
        let i = idx_spec(x) as int;
        assert(node_ok(bits, nvars, i));
        let b = bits[i];
        assert(e1(b.v) == e2(b.v));
        lemma_support(bits, nvars, b.hi, e1, e2);
        lemma_support(bits, nvars, b.lo, e1, e2);
    }
}

/// A node that is not a constant takes the branch of its triple that its
/// variable selects.
pub proof fn lemma_shannon(bits: Seq<BDDNode>, nvars: int, x: NID, env: spec_fn(u32) -> bool)
    requires
        bits_ok(bits, nvars),
        nid_ok(bits, x),
        !is_const_spec(x),
    ensures
        tup_spec(bits, x).v == var_spec(x),
        eval(bits, x, env) == if env(var_spec(x)) {
            eval(bits, tup_spec(bits, x).hi, env)
        } else {
            eval(bits, tup_spec(bits, x).lo, env)
        },
        nid_ok(bits, tup_spec(bits, x).hi),
        nid_ok(bits, tup_spec(bits, x).lo),
        var_spec(tup_spec(bits, x).hi) > var_spec(x),
        var_spec(tup_spec(bits, x).lo) > var_spec(x),
        !is_var_spec(x) ==> in_range(tup_spec(bits, x).hi, nvars) && in_range(tup_spec(bits, x).lo, nvars),
        is_var_spec(x) ==> is_oi(tup_spec(bits, x).hi) && is_oi(tup_spec(bits, x).lo),
{
    lemma_nid(x);
    lemma_nid(o_spec());
    if !is_var_spec(x) {
        let i = idx_spec(x) as int;
        assert(node_ok(bits, nvars, i));
        let b = bits[i];
        lemma_nid(b.hi);
        lemma_nid(b.lo);
        lemma_eval_not(bits, b.hi, env);
        lemma_eval_not(bits, b.lo, env);
    }
}


/// No stored node has two equal branches.
pub open spec fn reduced(bits: Seq<BDDNode>) -> bool {
    forall|k: int| 1 <= k < bits.len() ==> #[trigger] bits[k].hi != bits[k].lo
}

/// In a reduced list of nodes, a nid whose value is `c` under every
/// assignment is a constant.
proof fn lemma_const_value(bits: Seq<BDDNode>, nvars: int, x: NID, c: bool)
    requires
        bits_ok(bits, nvars), reduced(bits), nid_ok(bits, x),
        forall|env: spec_fn(u32) -> bool| #[trigger] eval(bits, x, env) == c,
    ensures is_const_spec(x),
    decreases idx_spec(x),
{
    if !is_const_spec(x) {
        lemma_nid(x);
        lemma_nid(o_spec());
        let t = tup_spec(bits, x);
        lemma_shannon(bits, nvars, x, |u: u32| false);
        assert forall|env: spec_fn(u32) -> bool| #[trigger] eval(bits, t.hi, env) == c by {
            let e1 = env_set(env, var_spec(x), true);
            lemma_shannon(bits, nvars, x, e1);
            assert forall|u: u32| u >= var_spec(t.hi) implies #[trigger] env(u) == e1(u) by {}
            lemma_support(bits, nvars, t.hi, env, e1);
            assert(eval(bits, x, e1) == c);
        }
        assert forall|env: spec_fn(u32) -> bool| #[trigger] eval(bits, t.lo, env) == c by {
            let e1 = env_set(env, var_spec(x), false);
            lemma_shannon(bits, nvars, x, e1);
            assert forall|u: u32| u >= var_spec(t.lo) implies #[trigger] env(u) == e1(u) by {}
            lemma_support(bits, nvars, t.lo, env, e1);
            assert(eval(bits, x, e1) == c);
        }
        if !is_var_spec(x) {
            let k = idx_spec(x) as int;
            assert(node_ok(bits, nvars, k));
            let b = bits[k];
            lemma_nid(b.hi);
            lemma_nid(b.lo);
            assert(b.hi != b.lo);
            if !is_const_spec(t.hi) {
                lemma_const_value(bits, nvars, t.hi, c);
            }
            if !is_const_spec(t.lo) {
                lemma_const_value(bits, nvars, t.lo, c);
            }
            assert(t.hi != t.lo) by {
                if is_inv_spec(x) {
                    assert(not_spec(not_spec(b.hi)) == b.hi);
                    assert(not_spec(not_spec(b.lo)) == b.lo);
                }
            }
        }
        let e0 = |u: u32| false;
        assert(eval(bits, t.hi, e0) == c);
        assert(eval(bits, t.lo, e0) == c);
        assert(is_oi(t.hi) && is_oi(t.lo));
    }
}

/// Inversion keeps a node valid and in range.
pub proof fn lemma_not_ok(bits: Seq<BDDNode>, nvars: int, x: NID)
    ensures
        nid_ok(bits, not_spec(x)) == nid_ok(bits, x),
        in_range(not_spec(x), nvars) == in_range(x, nvars),
{
    lemma_nid(x);
}

/// What a normal form draws from valid nodes is valid and no higher than they are.
proof fn lemma_drawn_ok(bits: Seq<BDDNode>, nvars: int, x: NID, f: NID, g: NID, h: NID)
    requires
        drawn(x, f, g, h),
        nid_ok(bits, f) && in_range(f, nvars),
        nid_ok(bits, g) && in_range(g, nvars),
        nid_ok(bits, h) && in_range(h, nvars),
    ensures
        nid_ok(bits, x), in_range(x, nvars),
        var_spec(x) >= min3(var_spec(f), var_spec(g), var_spec(h)),
        min3(var_spec(f), var_spec(g), var_spec(h)) <= TV,
{
    lemma_nid(f);
    lemma_nid(g);
    lemma_nid(h);
    lemma_nid(x);
    lemma_not_ok(bits, nvars, f);
    lemma_not_ok(bits, nvars, g);
    lemma_not_ok(bits, nvars, h);
}

// ---- the base ----

/// Node indices are the low 32 bits of a NID, so a base holds fewer nodes than this.
pub const MAX_NODES: usize = 0xFFFF_FFFF;

/// `b1` is the start of `b2`.
pub open spec fn prefix(b1: Seq<BDDNode>, b2: Seq<BDDNode>) -> bool {
    b1.len() <= b2.len() && b1 == b2.take(b1.len() as int)
}

pub proof fn lemma_prefix_trans(a: Seq<BDDNode>, b: Seq<BDDNode>, c: Seq<BDDNode>)
    requires prefix(a, b), prefix(b, c),
    ensures prefix(a, c),
{
    assert forall|i: int| 0 <= i < a.len() implies a[i] == c.take(a.len() as int)[i] by {
        assert(a[i] == b[i]);
        assert(b[i] == c[i]);
    }
    assert(a =~= c.take(a.len() as int));
}

/// The least of three variables.
pub open spec fn min3(a: u32, b: u32, c: u32) -> u32 {
    if a <= b && a <= c { a } else if b <= c { b } else { c }
}

/// `r` has, under every assignment, the value of "if `f` then `g` else `h`".
pub open spec fn ite_ok(bits: Seq<BDDNode>, r: NID, f: NID, g: NID, h: NID) -> bool {
    forall|env: spec_fn(u32) -> bool| #[trigger] eval(bits, r, env)
        == if eval(bits, f, env) { eval(bits, g, env) } else { eval(bits, h, env) }
}

/// `r` has the value of "if `f` then `g` else `h`" wherever variable `v` is `which`.
pub open spec fn branch_ok(bits: Seq<BDDNode>, r: NID, v: u32, which: bool, f: NID, g: NID, h: NID) -> bool {
    forall|env: spec_fn(u32) -> bool| env(v) == which ==> #[trigger] eval(bits, r, env)
        == if eval(bits, f, env) { eval(bits, g, env) } else { eval(bits, h, env) }
}

pub proof fn lemma_ite_ok_frame(b1: Seq<BDDNode>, b2: Seq<BDDNode>, r: NID, f: NID, g: NID, h: NID)
    requires
        prefix(b1, b2),
        nid_ok(b1, r), nid_ok(b1, f), nid_ok(b1, g), nid_ok(b1, h),
        ite_ok(b1, r, f, g, h),
    ensures ite_ok(b2, r, f, g, h),
{
    assert forall|env: spec_fn(u32) -> bool| #[trigger] eval(b2, r, env)
        == if eval(b2, f, env) { eval(b2, g, env) } else { eval(b2, h, env) } by {
        assert(eval(b1, r, env) == if eval(b1, f, env) { eval(b1, g, env) } else { eval(b1, h, env) });
        lemma_frame(b1, b2, r, env);
        lemma_frame(b1, b2, f, env);
        lemma_frame(b1, b2, g, env);
        lemma_frame(b1, b2, h, env);
    }
}

pub proof fn lemma_branch_ok_frame(b1: Seq<BDDNode>, b2: Seq<BDDNode>, r: NID, v: u32, which: bool, f: NID, g: NID, h: NID)
    requires
        prefix(b1, b2),
        nid_ok(b1, r), nid_ok(b1, f), nid_ok(b1, g), nid_ok(b1, h),
        branch_ok(b1, r, v, which, f, g, h),
    ensures branch_ok(b2, r, v, which, f, g, h),
{
    assert forall|env: spec_fn(u32) -> bool| env(v) == which implies #[trigger] eval(b2, r, env)
        == if eval(b2, f, env) { eval(b2, g, env) } else { eval(b2, h, env) } by {
        assert(eval(b1, r, env) == if eval(b1, f, env) { eval(b1, g, env) } else { eval(b1, h, env) });
        lemma_frame(b1, b2, r, env);
        lemma_frame(b1, b2, f, env);
        lemma_frame(b1, b2, g, env);
        lemma_frame(b1, b2, h, env);
    }
}

/// The memo key of a pair of nodes.
pub open spec fn pair_key(a: NID, b: NID) -> u128 {
    ((a.n as u128) << 64u128) | (b.n as u128)
}

proof fn lemma_pair_bits(a: u64, b: u64, c: u64, d: u64)
    by (bit_vector)
    ensures ((a as u128) << 64u128 | (b as u128)) == ((c as u128) << 64u128 | (d as u128)) ==> a == c && b == d,
{
}

pub proof fn lemma_pair_key(a: NID, b: NID, c: NID, d: NID)
    ensures pair_key(a, b) == pair_key(c, d) ==> a == c && b == d,
{
    lemma_pair_bits(a.n, b.n, c.n, d.n);
}

fn pair(a: NID, b: NID) -> (r: u128)
    ensures r == pair_key(a, b),
{
    ((a.n as u128) << 64u128) | (b.n as u128)
}

proof fn lemma_nvi_bits(v: u32, j: u32)
    by (bit_vector)
    requires v < 0x2000_0000u32,
    ensures
        (((v as u64) << 32u64) | (j as u64)) & 0x2000_0000_0000_0000u64 == 0,
        (((v as u64) << 32u64) | (j as u64)) & 0x4000_0000_0000_0000u64 == 0,
        (((v as u64) << 32u64) | (j as u64)) & 0x8000_0000_0000_0000u64 == 0,
        (((v as u64) << 32u64) | (j as u64)) & 0xFFFF_FFFFu64 == j as u64,
        (((((v as u64) << 32u64) | (j as u64)) & 0x3FFF_FFFF_FFFF_FFFFu64) >> 32u64) as u32 == v,
{
}

proof fn lemma_nv_bits(v: u32)
    by (bit_vector)
    requires v < 0x2000_0000u32,
    ensures
        (((v as u64) << 32u64) | 0x4000_0000_0000_0000u64) & 0x2000_0000_0000_0000u64 == 0,
        (((v as u64) << 32u64) | 0x4000_0000_0000_0000u64) & 0x4000_0000_0000_0000u64 != 0,
        (((v as u64) << 32u64) | 0x4000_0000_0000_0000u64) & 0x8000_0000_0000_0000u64 == 0,
        (((v as u64) << 32u64) | 0x4000_0000_0000_0000u64) & 0xFFFF_FFFFu64 == 0,
        (((((v as u64) << 32u64) | 0x4000_0000_0000_0000u64) & 0x3FFF_FFFF_FFFF_FFFFu64) >> 32u64) as u32 == v,
{
}

/// The node of variable `v`: a variable, not inverted, with variable `v`.
pub open spec fn nv_spec(v: u32) -> NID {
    NID { n: ((v as u64) << 32) | VAR }
}

pub proof fn lemma_nv(v: u32)
    requires v < TV,
    ensures
        is_var_spec(nv_spec(v)), !is_const_spec(nv_spec(v)), !is_inv_spec(nv_spec(v)),
        idx_spec(nv_spec(v)) == 0, var_spec(nv_spec(v)) == v,
{
    lemma_nv_bits(v);
}

/// A unique-table entry: node `n` is stored with variable `u` and branches `g`, `h`.
pub open spec fn vmemo_ok(bits: Seq<BDDNode>, u: int, g: NID, h: NID, n: NID) -> bool {
    &&& !is_const_spec(n) && !is_var_spec(n) && !is_inv_spec(n)
    &&& 0 < idx_spec(n) < bits.len()
    &&& var_spec(n) == u
    &&& bits[idx_spec(n) as int] == (BDDNode { v: u as u32, hi: g, lo: h })
}

/// Stored node `k` has two different branches, and the unique table of its
/// variable holds it under its branches.
pub open spec fn stored_ok(bits: Seq<BDDNode>, vmemo: Seq<HashMap<u128, NID>>, k: int) -> bool {
    let b = bits[k];
    &&& b.hi != b.lo
    &&& vmemo[b.v as int]@.contains_key(pair_key(b.hi, b.lo))
    &&& idx_spec(vmemo[b.v as int]@[pair_key(b.hi, b.lo)]) == k
}

/// A computed-table entry: `n` is "if `f` then `g` else `h`".
pub open spec fn xmemo_ok(bits: Seq<BDDNode>, nvars: int, f: NID, g: NID, h: NID, n: NID) -> bool {
    &&& nid_ok(bits, f) && nid_ok(bits, g) && nid_ok(bits, h)
    &&& nid_ok(bits, n) && in_range(n, nvars)
    &&& var_spec(n) >= min3(var_spec(f), var_spec(g), var_spec(h))
    &&& ite_ok(bits, n, f, g, h)
}

/// A store of binary decision diagrams over `nvars` input variables, where
/// variable 0 is at the top, with a unique table per variable and a table
/// of computed "if then else" triples per variable.
pub struct BDDBase {
    nvars: usize,
    bits: Vec<BDDNode>,
    /// Names given to nodes.
    pub tags: Names<NID>,
    vmemo: Vec<HashMap<u128, NID>>,
    xmemo: Vec<HashMap<u64, HashMap<u128, NID>>>,
}

impl BDDBase {
    /// The stored nodes; node 0 stands for the constants.
    pub closed spec fn nodes(&self) -> Seq<BDDNode> { self.bits@ }

    /// The names given to nodes.
    pub closed spec fn names(&self) -> Map<Seq<char>, NID> { self.tags.map() }

    /// The number of input variables.
    pub closed spec fn width(&self) -> int { self.nvars as int }

    /// The value of `x` under `env`.
    pub open spec fn value(&self, x: NID, env: spec_fn(u32) -> bool) -> bool {
        eval(self.nodes(), x, env)
    }

    /// `x` names a constant, a variable or a stored node.
    pub open spec fn valid(&self, x: NID) -> bool { nid_ok(self.nodes(), x) }

    /// `x` is valid and uses one of the base's variables.
    pub open spec fn usable(&self, x: NID) -> bool {
        self.valid(x) && in_range(x, self.width())
    }

    /// Another node can still be stored.
    pub open spec fn room(&self) -> bool { self.nodes().len() < MAX_NODES }

    /// `other` is this base with nodes added.
    pub closed spec fn grows(&self, other: &BDDBase) -> bool {
        &&& prefix(self.nodes(), other.nodes())
        &&& self.width() == other.width()
        &&& self.tags == other.tags
    }

    pub closed spec fn wf(&self) -> bool {
        &&& bits_ok(self.bits@, self.nvars as int)
        &&& self.vmemo@.len() == self.nvars
        &&& self.xmemo@.len() == self.nvars
        &&& self.tags.wf()
        &&& forall|u: int, g: NID, h: NID| 0 <= u < self.nvars
            && #[trigger] self.vmemo@[u]@.contains_key(pair_key(g, h))
            ==> vmemo_ok(self.bits@, u, g, h, self.vmemo@[u]@[pair_key(g, h)])
        &&& forall|u: int, f: NID, g: NID, h: NID| 0 <= u < self.nvars
            && self.xmemo@[u]@.contains_key(f.n)
            && #[trigger] self.xmemo@[u]@[f.n]@.contains_key(pair_key(g, h))
            ==> xmemo_ok(self.bits@, self.nvars as int, f, g, h, self.xmemo@[u]@[f.n]@[pair_key(g, h)])
        &&& forall|k: int| 1 <= k < self.bits@.len() ==> #[trigger] stored_ok(self.bits@, self.vmemo@, k)
    }

    /// What growing keeps.
    pub proof fn lemma_grows(&self, other: &BDDBase)
        requires self.grows(other),
        ensures
            prefix(self.nodes(), other.nodes()),
            self.width() == other.width(),
            self.names() == other.names(),
    {
    }

    /// The nodes of a well-formed base are well-formed.
    pub proof fn lemma_wf(&self)
        requires self.wf(),
        ensures bits_ok(self.nodes(), self.width()), self.width() <= TV,
    {
    }

    /// The stored nodes are reduced and shared: no stored node has two equal
    /// branches, and no two stored nodes have the same variable and branches.
    pub proof fn lemma_nodes_unique(&self, j: int, k: int)
        requires self.wf(), 1 <= j < self.nodes().len(), 1 <= k < self.nodes().len(),
        ensures
            self.nodes()[k].hi != self.nodes()[k].lo,
            self.nodes()[j] == self.nodes()[k] ==> j == k,
    {
        assert(stored_ok(self.bits@, self.vmemo@, j));
        assert(stored_ok(self.bits@, self.vmemo@, k));
    }

    /// Constants are canonical: a usable nid whose value is the same under
    /// every assignment is `O` (always false) or `I` (always true).
    pub proof fn lemma_constant_nodes(&self, x: NID, c: bool)
        requires
            self.wf(), self.valid(x),
            forall|env: spec_fn(u32) -> bool| #[trigger] self.value(x, env) == c,
        ensures x == if c { i_spec() } else { o_spec() },
    {
        assert(reduced(self.bits@)) by {
            assert forall|k: int| 1 <= k < self.bits@.len() implies #[trigger] self.bits@[k].hi != self.bits@[k].lo by {
                assert(stored_ok(self.bits@, self.vmemo@, k));
            }
        }
        assert forall|env: spec_fn(u32) -> bool| #[trigger] eval(self.bits@, x, env) == c by {
            assert(self.value(x, env) == c);
        }
        lemma_const_value(self.bits@, self.nvars as int, x, c);
        lemma_nid(o_spec());
        let e0 = |u: u32| false;
        assert(self.value(x, e0) == c);
    }

    /// An empty base over `nvars` variables.
    pub fn new(nvars: usize) -> (r: BDDBase)
        requires nvars <= TV,
        ensures
            r.wf(),
            r.width() == nvars,
            r.nodes() == seq![BDDNode { v: TV, hi: o_spec(), lo: i_spec() }],
            r.names() == Map::<Seq<char>, NID>::empty(),
    {
        let mut bits: Vec<BDDNode> = Vec::new();
        bits.push(BDDNode { v: TV, hi: o(), lo: i() });
        let mut vmemo: Vec<HashMap<u128, NID>> = Vec::new();
        let mut xmemo: Vec<HashMap<u64, HashMap<u128, NID>>> = Vec::new();
        let mut k: usize = 0;
        while k < nvars
            invariant
                k <= nvars,
                vmemo@.len() == k,
                xmemo@.len() == k,
                forall|u: int| 0 <= u < k ==> #[trigger] vmemo@[u]@ == Map::<u128, NID>::empty(),
                forall|u: int| 0 <= u < k ==> #[trigger] xmemo@[u]@ == Map::<u64, HashMap<u128, NID>>::empty(),
            decreases nvars - k,
        {
            vmemo.push(HashMap::new());
            xmemo.push(HashMap::new());
            k = k + 1;
        }
        let r = BDDBase { nvars, bits, tags: Names::new(), vmemo, xmemo };
        proof {
            assert(r.bits@ =~= seq![BDDNode { v: TV, hi: o_spec(), lo: i_spec() }]);
        }
        r
    }

    /// The number of input variables.
    pub fn nvars(&self) -> (r: usize)
        ensures r == self.width(),
    {
        self.nvars
    }

    /// Name node `n` with `s`.
    pub fn tag(&mut self, s: String, n: NID)
        requires old(self).wf(),
        ensures
            final(self).wf(),
            final(self).nodes() == old(self).nodes(),
            final(self).width() == old(self).width(),
            final(self).names() == old(self).names().insert(s@, n),
    {
        self.tags.tag(n, s);
    }

    /// The node named `s`, if any.
    pub fn get(&self, s: &String) -> (r: Option<NID>)
        requires self.wf(),
        ensures r == if self.names().contains_key(s@) { Some(self.names()[s@]) } else { None::<NID> },
    {
        self.tags.get(s.as_str())
    }

    /// The triple of `n`: its variable and its branches, inverted with `n`.
    pub fn bdd(&self, n: NID) -> (r: BDDNode)
        requires self.wf(), self.valid(n),
        ensures r == tup_spec(self.nodes(), n),
    {
        proof { lemma_nid(n); }
        if is_var(n) {
            if is_inv(n) {
                BDDNode { v: var(n), lo: i(), hi: o() }
            } else {
                BDDNode { v: var(n), lo: o(), hi: i() }
            }
        } else if is_inv(n) {
            let b = self.bits[idx(n)];
            BDDNode { v: b.v, hi: not(b.hi), lo: not(b.lo) }
        } else {
            self.bits[idx(n)]
        }
    }

    /// The triple of `n` as (variable, branch, else branch).
    pub fn tup(&self, n: NID) -> (r: (u32, NID, NID))
        requires self.wf(), self.valid(n),
        ensures
            r.0 == tup_spec(self.nodes(), n).v,
            r.1 == tup_spec(self.nodes(), n).hi,
            r.2 == tup_spec(self.nodes(), n).lo,
    {
        let b = self.bdd(n);
        (b.v, b.hi, b.lo)
    }

    /// Choose the normal form for the triple `(f, g, h)` ("if f then g else h").
    /// Algorithm based on "Efficient Implementation of a BDD Package" (Brace,
    /// Rudell, Bryant): constants and repeated slots are folded away, the
    /// condition is the topmost node, and of the four equivalent forms the one
    /// whose first two slots are not inverted is chosen.
    pub fn norm(&self, f0: NID, g0: NID, h0: NID) -> (r: Norm)
        ensures
            forall|m: spec_fn(NID) -> bool| reading(m) ==> #[trigger] norm_val(m, r) == ite_val(m, f0, g0, h0),
            r matches Norm::Tup(x, y, z) ==> normal_triple(x, y, z) && distinct_triple(x, y, z),
            r matches Norm::Not(x, y, z) ==> normal_triple(x, y, z) && distinct_triple(x, y, z),
            norm_drawn(r, f0, g0, h0),
        decreases norm_measure(f0, g0, h0).0, norm_measure(f0, g0, h0).1, norm_measure(f0, g0, h0).2,
    {
        let mut f = f0;
        let mut g = g0;
        let mut h = h0;
        loop
            invariant
                forall|m: spec_fn(NID) -> bool| reading(m) ==> #[trigger] ite_val(m, f, g, h) == ite_val(m, f0, g0, h0),
                norm_measure(f, g, h) == norm_measure(f0, g0, h0) || lex_less(norm_measure(f, g, h), norm_measure(f0, g0, h0)),
                drawn(f, f0, g0, h0), drawn(g, f0, g0, h0), drawn(h, f0, g0, h0),
            decreases norm_measure(f, g, h).0, norm_measure(f, g, h).1, norm_measure(f, g, h).2,
        {
            proof {
                lemma_node_facts(f, g);
                lemma_node_facts(g, f);
                lemma_node_facts(h, f);
            }
            let (pf, pg, ph) = (f, g, h);
            let (oo, ii) = (o(), i());
            if f == ii {
                let r = Norm::Nid(g);
                proof { lemma_ret(f0, g0, h0, f, g, h, r); }
                return r;
            }
            if f == oo {
                let r = Norm::Nid(h);
                proof { lemma_ret(f0, g0, h0, f, g, h, r); }
                return r;
            }
            if g == ii && h == oo {
                let r = Norm::Nid(f);
                proof { lemma_ret(f0, g0, h0, f, g, h, r); }
                return r;
            }
            if g == oo && h == ii {
                let r = Norm::Nid(not(f));
                proof { lemma_ret(f0, g0, h0, f, g, h, r); lemma_drawn_not(f, f0, g0, h0); }
                return r;
            }
            if h == oo && g == f {
                let r = Norm::Nid(f);
                proof { lemma_ret(f0, g0, h0, f, g, h, r); }
                return r;
            }
            if h == ii && g == f {
                let r = Norm::Nid(ii);
                proof { lemma_ret(f0, g0, h0, f, g, h, r); }
                return r;
            }
            let nf = not(f);
            if g == h {
                let r = Norm::Nid(g);
                proof { lemma_ret(f0, g0, h0, f, g, h, r); }
                return r;
            } else if g == f {
                g = ii;
            } else if g == nf {
                g = oo;
            } else if h == f {
                h = oo;
            } else if h == nf {
                h = ii;
            } else {
                let fv = var(f);
                let xf = idx(f);
                if g == ii && before_cond(h, fv, xf) {
                    f = h; g = ii; h = pf;
                } else if g == oo && before_cond(h, fv, xf) {
                    f = not(h); g = oo; h = nf;
                } else if h == oo && before_cond(g, fv, xf) {
                    f = g; g = pf; h = oo;
                } else if h == ii && before_cond(g, fv, xf) {
                    f = not(g); g = nf; h = ii;
                } else {
                    let ng = not(g);
                    if h == ng && before_cond(g, fv, xf) {
                        f = g; g = pf; h = nf;
                        } else if is_inv(f) {
                        f = nf; g = ph; h = pg;
                        } else if is_inv(g) {
                        let nh = not(h);
                        proof {
                            assert(lex_less(norm_measure(f, ng, nh), norm_measure(pf, pg, ph)));
                        }
                        let q = self.norm(f, ng, nh);
                        let r = match q {
                            Norm::Nid(x) => Norm::Nid(not(x)),
                            Norm::Not(x, y, z) => Norm::Tup(x, y, z),
                            Norm::Tup(x, y, z) => Norm::Not(x, y, z),
                        };
                        proof {
                            lemma_drawn_not(g, f0, g0, h0);
                            lemma_drawn_not(h, f0, g0, h0);
                            match q {
                                Norm::Nid(x) => {
                                    lemma_drawn_trans(x, f, ng, nh, f0, g0, h0);
                                    lemma_drawn_not(x, f0, g0, h0);
                                },
                                Norm::Tup(x, y, z) => {
                                    lemma_drawn_trans(x, f, ng, nh, f0, g0, h0);
                                    lemma_drawn_trans(y, f, ng, nh, f0, g0, h0);
                                    lemma_drawn_trans(z, f, ng, nh, f0, g0, h0);
                                },
                                Norm::Not(x, y, z) => {
                                    lemma_drawn_trans(x, f, ng, nh, f0, g0, h0);
                                    lemma_drawn_trans(y, f, ng, nh, f0, g0, h0);
                                    lemma_drawn_trans(z, f, ng, nh, f0, g0, h0);
                                },
                            }
                            assert forall|m: spec_fn(NID) -> bool| reading(m) implies #[trigger] norm_val(m, r) == ite_val(m, f0, g0, h0) by {
                                assert(ite_val(m, f, g, h) == ite_val(m, f0, g0, h0));
                                assert(m(not_spec(g)) == !m(g));
                                assert(m(not_spec(h)) == !m(h));
                                assert(norm_val(m, q) == ite_val(m, f, ng, nh));
                                match q {
                                    Norm::Nid(x) => { assert(m(not_spec(x)) == !m(x)); },
                                    _ => {},
                                }
                            }
                        }
                        return r;
                    } else {
                        let r = Norm::Tup(f, g, h);
                        proof { lemma_ret(f0, g0, h0, f, g, h, r); }
                        return r;
                    }
                }
            }
            proof {
                lemma_node_facts(pf, ph);
                lemma_node_facts(ph, pf);
                lemma_node_facts(pg, pf);
                lemma_drawn_not(pf, f0, g0, h0);
                lemma_drawn_not(pg, f0, g0, h0);
                lemma_drawn_not(ph, f0, g0, h0);
                assert(lex_less(norm_measure(f, g, h), norm_measure(pf, pg, ph)));
                assert forall|m: spec_fn(NID) -> bool| reading(m) implies #[trigger] ite_val(m, f, g, h) == ite_val(m, f0, g0, h0) by {
                    assert(ite_val(m, pf, pg, ph) == ite_val(m, f0, g0, h0));
                    assert(m(not_spec(pf)) == !m(pf));
                    assert(m(not_spec(pg)) == !m(pg));
                    assert(m(not_spec(ph)) == !m(ph));
                }
            }
        }
    }

    /// What the memo tables hold for the normal triple `(f, g, h)` with top
    /// variable `v`: the unique table of `f`'s variable when `f` is a
    /// variable, otherwise the computed table of `v`.
    pub closed spec fn norm_memo(&self, v: u32, f: NID, g: NID, h: NID) -> Option<NID> {
        if is_var_spec(f) {
            let m = self.vmemo@[var_spec(f) as int]@;
            if m.contains_key(pair_key(g, h)) { Some(m[pair_key(g, h)]) } else { None }
        } else {
            let m = self.xmemo@[v as int]@;
            if m.contains_key(f.n) && m[f.n]@.contains_key(pair_key(g, h)) {
                Some(m[f.n]@[pair_key(g, h)])
            } else {
                None
            }
        }
    }

    /// The memoized node for the normal triple `(f, g, h)` whose top variable is `v`, if any.
    fn get_norm_memo(&self, v: u32, f: NID, g: NID, h: NID) -> (r: Option<NID>)
        requires
            self.wf(),
            self.usable(f), self.usable(g), self.usable(h),
            normal_triple(f, g, h),
            v == min3(var_spec(f), var_spec(g), var_spec(h)),
            v < self.width(),
        ensures
            r == self.norm_memo(v, f, g, h),
            r matches Some(n) ==> self.usable(n) && var_spec(n) >= v && ite_ok(self.nodes(), n, f, g, h),
    {
        proof { lemma_nid(f); }
        let key = pair(g, h);
        if is_var(f) {
            let u = var(f);
            match self.vmemo[u as usize].get(&key) {
                Some(n) => {
                    let n = *n;
                    proof {
                        let bits = self.bits@;
                        assert(self.vmemo@[u as int]@.contains_key(pair_key(g, h)));
                        assert(vmemo_ok(bits, u as int, g, h, n));
                        let j = idx_spec(n) as int;
                        assert(node_ok(bits, self.nvars as int, j));
                        assert forall|env: spec_fn(u32) -> bool| #[trigger] eval(bits, n, env)
                            == if eval(bits, f, env) { eval(bits, g, env) } else { eval(bits, h, env) } by {
                        }
                    }
                    Some(n)
                },
                None => None,
            }
        } else {
            match self.xmemo[v as usize].get(&f.n) {
                Some(fm) => match fm.get(&key) {
                    Some(n) => {
                        proof {
                            assert(self.xmemo@[v as int]@.contains_key(f.n));
                            assert(self.xmemo@[v as int]@[f.n]@.contains_key(pair_key(g, h)));
                        }
                        Some(*n)
                    },
                    None => None,
                },
                None => None,
            }
        }
    }

    /// `x` with variable `v` set to `which`, where `v` is at or above `x`'s variable.
    fn top(&self, v: u32, x: NID, which: bool) -> (r: NID)
        requires
            self.wf(), self.usable(x),
            v <= var_spec(x), v < self.width(),
        ensures
            self.usable(r), var_spec(r) > v,
            forall|env: spec_fn(u32) -> bool| env(v) == which
                ==> #[trigger] eval(self.nodes(), r, env) == eval(self.nodes(), x, env),
    {
        proof { lemma_nid(x); lemma_nid(o_spec()); }
        if var(x) == v {
            let b = self.bdd(x);
            proof {
                assert forall|env: spec_fn(u32) -> bool| true implies
                    eval(self.nodes(), x, env) == if env(v) { eval(self.nodes(), b.hi, env) } else { eval(self.nodes(), b.lo, env) } by {
                    lemma_shannon(self.bits@, self.nvars as int, x, env);
                }
                lemma_shannon(self.bits@, self.nvars as int, x, |u: u32| true);
            }
            if which { b.hi } else { b.lo }
        } else {
            x
        }
    }

    /// One branch of the normal triple `(f, g, h)` whose top variable is `v`.
    fn branch(&mut self, v: u32, f: NID, g: NID, h: NID, which: bool) -> (r: NID)
        requires
            old(self).wf(),
            old(self).usable(f), old(self).usable(g), old(self).usable(h),
            v == min3(var_spec(f), var_spec(g), var_spec(h)),
            v < old(self).width(),
        ensures
            final(self).wf(),
            old(self).grows(&*final(self)),
            final(self).usable(r),
            var_spec(r) > v,
            final(self).room() ==> branch_ok(final(self).nodes(), r, v, which, f, g, h),
        decreases TV - v, 0int,
    {
        let ghost b0 = self.bits@;
        proof { lemma_nid(o_spec()); }
        let i = self.top(v, f, which);
        let t = self.top(v, g, which);
        let e = self.top(v, h, which);
        if is_const(i) {
            proof {
                assert(b0 =~= b0.take(b0.len() as int));
                lemma_nid(i);
                let r = if is_inv_spec(i) { t } else { e };
                assert forall|env: spec_fn(u32) -> bool| env(v) == which implies #[trigger] eval(b0, r, env)
                    == if eval(b0, f, env) { eval(b0, g, env) } else { eval(b0, h, env) } by {
                    assert(eval(b0, i, env) == eval(b0, f, env));
                    assert(eval(b0, t, env) == eval(b0, g, env));
                    assert(eval(b0, e, env) == eval(b0, h, env));
                    if is_inv_spec(i) { assert(i == i_spec()); } else { assert(i == o_spec()); }
                }
            }
            if is_inv(i) { t } else { e }
        } else {
            proof {
                lemma_nid(i);
                assert(min3(var_spec(i), var_spec(t), var_spec(e)) > v);
            }
            let r = self.ite(i, t, e);
            proof {
                let b1 = self.bits@;
                if self.room() {
                    assert forall|env: spec_fn(u32) -> bool| env(v) == which implies #[trigger] eval(b1, r, env)
                        == if eval(b1, f, env) { eval(b1, g, env) } else { eval(b1, h, env) } by {
                        lemma_frame(b0, b1, i, env);
                        lemma_frame(b0, b1, t, env);
                        lemma_frame(b0, b1, e, env);
                        lemma_frame(b0, b1, f, env);
                        lemma_frame(b0, b1, g, env);
                        lemma_frame(b0, b1, h, env);
                    }
                }
            }
            r
        }
    }

    /// "If `f` then `g` else `h`" for a normal triple, from the memo tables or
    /// by splitting on the top variable.
    #[verifier::rlimit(40)]
    fn ite_norm(&mut self, f: NID, g: NID, h: NID) -> (r: NID)
        requires
            old(self).wf(),
            old(self).usable(f), old(self).usable(g), old(self).usable(h),
            normal_triple(f, g, h),
        ensures
            final(self).wf(),
            old(self).grows(&*final(self)),
            final(self).usable(r),
            var_spec(r) >= min3(var_spec(f), var_spec(g), var_spec(h)),
            final(self).room() ==> ite_ok(final(self).nodes(), r, f, g, h),
        decreases TV - min3(var_spec(f), var_spec(g), var_spec(h)), 1int,
    {
        let ghost b0 = self.bits@;
        proof { lemma_nid(f); lemma_nid(g); lemma_nid(h); lemma_nid(o_spec()); }
        let (fv, gv, hv) = (var(f), var(g), var(h));
        let v = if fv <= gv && fv <= hv { fv } else if gv <= hv { gv } else { hv };
        match self.get_norm_memo(v, f, g, h) {
            Some(n) => {
                proof { assert(b0 =~= b0.take(b0.len() as int)); }
                n
            },
            None => {
                let hi = self.branch(v, f, g, h, true);
                let ghost b1 = self.bits@;
                let lo = self.branch(v, f, g, h, false);
                let ghost b2 = self.bits@;
                proof {
                    lemma_prefix_trans(b0, b1, b2);
                    lemma_ok_frame(b1, b2, hi);
                    lemma_ok_frame(b0, b2, f);
                    lemma_ok_frame(b0, b2, g);
                    lemma_ok_frame(b0, b2, h);
                    if b2.len() < MAX_NODES {
                        lemma_ok_frame(b0, b1, f);
                        lemma_ok_frame(b0, b1, g);
                        lemma_ok_frame(b0, b1, h);
                        lemma_branch_ok_frame(b1, b2, hi, v, true, f, g, h);
                    }
                }
                let new_nid = if hi == lo {
                    proof {
                        if b2.len() < MAX_NODES {
                            assert forall|env: spec_fn(u32) -> bool| #[trigger] eval(b2, hi, env)
                                == if eval(b2, f, env) { eval(b2, g, env) } else { eval(b2, h, env) } by {
                                if env(v) {
                                    assert(eval(b2, hi, env) == if eval(b2, f, env) { eval(b2, g, env) } else { eval(b2, h, env) });
                                } else {
                                    assert(eval(b2, lo, env) == if eval(b2, f, env) { eval(b2, g, env) } else { eval(b2, h, env) });
                                }
                            }
                        }
                    }
                    hi
                } else {
                    let key = pair(hi, lo);
                    match self.vmemo[v as usize].get(&key) {
                        Some(n) => {
                            let n = *n;
                            proof {
                                assert(self.vmemo@[v as int]@.contains_key(pair_key(hi, lo)));
                                assert(vmemo_ok(b2, v as int, hi, lo, n));
                                let j = idx_spec(n) as int;
                                assert(node_ok(b2, self.nvars as int, j));
                                if b2.len() < MAX_NODES {
                                    assert forall|env: spec_fn(u32) -> bool| #[trigger] eval(b2, n, env)
                                        == if eval(b2, f, env) { eval(b2, g, env) } else { eval(b2, h, env) } by {
                                        if env(v) {
                                            assert(eval(b2, n, env) == eval(b2, hi, env));
                                        } else {
                                            assert(eval(b2, n, env) == eval(b2, lo, env));
                                        }
                                    }
                                }
                            }
                            n
                        },
                        None => {
                            if self.bits.len() < MAX_NODES {
                                let j = self.bits.len() as u32;
                                let res = nvi(v, j);
                                proof { lemma_nvi_bits(v, j); }
                                let ghost vm2 = self.vmemo@;
                                self.vmemo[v as usize].insert(key, res);
                                self.bits.push(BDDNode { v, hi, lo });
                                proof {
                                    let b3 = self.bits@;
                                    let nv = self.nvars as int;
                                    assert(b2 =~= b3.take(b2.len() as int));
                                    lemma_ok_frame(b2, b3, hi);
                                    lemma_ok_frame(b2, b3, lo);
                                    assert(node_ok(b3, nv, j as int));
                                    assert forall|k: int| 1 <= k < b3.len() implies #[trigger] node_ok(b3, nv, k) by {
                                        if k < j {
                                            assert(node_ok(b2, nv, k));
                                            lemma_ok_frame(b2, b3, b2[k].hi);
                                            lemma_ok_frame(b2, b3, b2[k].lo);
                                        }
                                    }
                                    assert(!vm2[v as int]@.contains_key(key));
                                    assert(self.vmemo@[v as int]@ == vm2[v as int]@.insert(key, res));
                                    assert forall|k: int| 1 <= k < b3.len() implies #[trigger] stored_ok(b3, self.vmemo@, k) by {
                                        if k < j {
                                            assert(stored_ok(b2, vm2, k));
                                            assert(node_ok(b2, nv, k));
                                            assert(b3[k] == b2[k]);
                                            let u = b2[k].v as int;
                                            let kk = pair_key(b2[k].hi, b2[k].lo);
                                            assert(vm2[u]@.contains_key(kk));
                                            if u == v as int {
                                                assert(kk != key);
                                            } else {
                                                assert(self.vmemo@[u] == vm2[u]);
                                            }
                                        } else {
                                            lemma_nvi_bits(v, j);
                                            assert(b3[k] == BDDNode { v, hi, lo });
                                            assert(idx_spec(res) == j);
                                        }
                                    }
                                    assert forall|u: int, g1: NID, h1: NID| 0 <= u < nv
                                        && #[trigger] self.vmemo@[u]@.contains_key(pair_key(g1, h1))
                                        implies vmemo_ok(b3, u, g1, h1, self.vmemo@[u]@[pair_key(g1, h1)]) by {
                                        lemma_pair_key(g1, h1, hi, lo);
                                        if u == v && pair_key(g1, h1) == key {
                                        } else {
                                            assert(vm2[u]@.contains_key(pair_key(g1, h1)));
                                        }
                                    }
                                    assert forall|u: int, f1: NID, g1: NID, h1: NID| 0 <= u < nv
                                        && self.xmemo@[u]@.contains_key(f1.n)
                                        && #[trigger] self.xmemo@[u]@[f1.n]@.contains_key(pair_key(g1, h1))
                                        implies xmemo_ok(b3, nv, f1, g1, h1, self.xmemo@[u]@[f1.n]@[pair_key(g1, h1)]) by {
                                        let n1 = self.xmemo@[u]@[f1.n]@[pair_key(g1, h1)];
                                        lemma_ok_frame(b2, b3, f1);
                                        lemma_ok_frame(b2, b3, g1);
                                        lemma_ok_frame(b2, b3, h1);
                                        lemma_ok_frame(b2, b3, n1);
                                        lemma_ite_ok_frame(b2, b3, n1, f1, g1, h1);
                                    }
                                    if b3.len() < MAX_NODES {
                                        lemma_branch_ok_frame(b2, b3, hi, v, true, f, g, h);
                                        lemma_branch_ok_frame(b2, b3, lo, v, false, f, g, h);
                                        assert forall|env: spec_fn(u32) -> bool| #[trigger] eval(b3, res, env)
                                            == if eval(b3, f, env) { eval(b3, g, env) } else { eval(b3, h, env) } by {
                                            if env(v) {
                                                assert(eval(b3, res, env) == eval(b3, hi, env));
                                            } else {
                                                assert(eval(b3, res, env) == eval(b3, lo, env));
                                            }
                                        }
                                    }
                                }
                                res
                            } else {
                                o()
                            }
                        },
                    }
                };
                let ghost b4 = self.bits@;
                proof {
                    assert(b2 =~= b4.take(b2.len() as int));
                    lemma_prefix_trans(b0, b2, b4);
                    lemma_ok_frame(b0, b4, f);
                    lemma_ok_frame(b0, b4, g);
                    lemma_ok_frame(b0, b4, h);
                }
                if !is_var(f) && self.bits.len() < MAX_NODES {
                    let key = pair(g, h);
                    let mut fm = match self.xmemo[v as usize].remove(&f.n) {
                        Some(m) => m,
                        None => HashMap::new(),
                    };
                    let ghost fm0 = fm@;
                    fm.insert(key, new_nid);
                    self.xmemo[v as usize].insert(f.n, fm);
                    proof {
                        let nv = self.nvars as int;
                        assert forall|u: int, f1: NID, g1: NID, h1: NID| 0 <= u < nv
                            && self.xmemo@[u]@.contains_key(f1.n)
                            && #[trigger] self.xmemo@[u]@[f1.n]@.contains_key(pair_key(g1, h1))
                            implies xmemo_ok(b4, nv, f1, g1, h1, self.xmemo@[u]@[f1.n]@[pair_key(g1, h1)]) by {
                            lemma_pair_key(g1, h1, g, h);
                            if u == v && f1.n == f.n {
                                assert(f1 == f);
                                if pair_key(g1, h1) == key {
                                } else {
                                    assert(fm0.contains_key(pair_key(g1, h1)));
                                }
                            } else {
                            }
                        }
                    }
                }
                new_nid
            },
        }
    }

    /// All-purpose node constructor: "if `f` then `g` else `h`". The result
    /// is exact as long as the base has room for another node.
    pub fn ite(&mut self, f: NID, g: NID, h: NID) -> (r: NID)
        requires
            old(self).wf(),
            old(self).usable(f), old(self).usable(g), old(self).usable(h),
        ensures
            final(self).wf(),
            old(self).grows(&*final(self)),
            final(self).usable(r),
            var_spec(r) >= min3(var_spec(f), var_spec(g), var_spec(h)),
            final(self).room() ==> ite_ok(final(self).nodes(), r, f, g, h),
        decreases TV - min3(var_spec(f), var_spec(g), var_spec(h)), 2int,
    {
        let ghost b0 = self.bits@;
        let nm = self.norm(f, g, h);
        proof { lemma_nid(o_spec()); }
        match nm {
            Norm::Nid(x) => {
                proof {
                    lemma_drawn_ok(b0, self.nvars as int, x, f, g, h);
                    assert(b0 =~= b0.take(b0.len() as int));
                    assert forall|env: spec_fn(u32) -> bool| #[trigger] eval(b0, x, env)
                        == if eval(b0, f, env) { eval(b0, g, env) } else { eval(b0, h, env) } by {
                        lemma_reading(b0, env);
                        let m = |n: NID| eval(b0, n, env);
                        assert(norm_val(m, nm) == ite_val(m, f, g, h));
                    }
                }
                x
            },
            Norm::Tup(x, y, z) => {
                proof {
                    lemma_drawn_ok(b0, self.nvars as int, x, f, g, h);
                    lemma_drawn_ok(b0, self.nvars as int, y, f, g, h);
                    lemma_drawn_ok(b0, self.nvars as int, z, f, g, h);
                }
                let r = self.ite_norm(x, y, z);
                proof {
                    let b1 = self.bits@;
                    lemma_ok_frame(b0, b1, f);
                    lemma_ok_frame(b0, b1, g);
                    lemma_ok_frame(b0, b1, h);
                    if b1.len() < MAX_NODES {
                        assert forall|env: spec_fn(u32) -> bool| #[trigger] eval(b1, r, env)
                            == if eval(b1, f, env) { eval(b1, g, env) } else { eval(b1, h, env) } by {
                            lemma_reading(b1, env);
                            let m = |n: NID| eval(b1, n, env);
                            assert(norm_val(m, nm) == ite_val(m, f, g, h));
                            assert(eval(b1, r, env) == ite_val(m, x, y, z));
                        }
                    }
                }
                r
            },
            Norm::Not(x, y, z) => {
                proof {
                    lemma_drawn_ok(b0, self.nvars as int, x, f, g, h);
                    lemma_drawn_ok(b0, self.nvars as int, y, f, g, h);
                    lemma_drawn_ok(b0, self.nvars as int, z, f, g, h);
                }
                let q = self.ite_norm(x, y, z);
                let r = not(q);
                proof {
                    let b1 = self.bits@;
                    lemma_nid(q);
                    lemma_not_ok(b1, self.nvars as int, q);
                    lemma_ok_frame(b0, b1, f);
                    lemma_ok_frame(b0, b1, g);
                    lemma_ok_frame(b0, b1, h);
                    if b1.len() < MAX_NODES {
                        assert forall|env: spec_fn(u32) -> bool| #[trigger] eval(b1, r, env)
                            == if eval(b1, f, env) { eval(b1, g, env) } else { eval(b1, h, env) } by {
                            lemma_reading(b1, env);
                            lemma_eval_not(b1, q, env);
                            let m = |n: NID| eval(b1, n, env);
                            assert(norm_val(m, nm) == ite_val(m, f, g, h));
                            assert(eval(b1, q, env) == ite_val(m, x, y, z));
                        }
                    }
                }
                r
            },
        }
    }

    /// `y` with variable `x` set to `which`.
    fn when(&mut self, x: u32, y: NID, which: bool) -> (r: NID)
        requires
            old(self).wf(), old(self).valid(y), x < TV,
        ensures
            final(self).wf(),
            old(self).grows(&*final(self)),
            final(self).valid(r),
            in_range(y, old(self).width()) ==> in_range(r, old(self).width()),
            var_spec(r) >= var_spec(y),
            final(self).room() ==> forall|env: spec_fn(u32) -> bool|
                #[trigger] eval(final(self).nodes(), r, env) == eval(final(self).nodes(), y, env_set(env, x, which)),
            var_spec(y) > x || (is_var_spec(y) && var_spec(y) < x) ==> r == y && final(self).nodes() == old(self).nodes(),
            var_spec(y) == x ==> final(self).nodes() == old(self).nodes()
                && r == if which { tup_spec(old(self).nodes(), y).hi } else { tup_spec(old(self).nodes(), y).lo },
        decreases idx_spec(y),
    {
        let ghost b0 = self.bits@;
        proof { lemma_nid(y); lemma_nid(o_spec()); }
        let yv = var(y);
        if yv > x {
            proof {
                assert(b0 =~= b0.take(b0.len() as int));
                assert forall|env: spec_fn(u32) -> bool| #[trigger] eval(b0, y, env) == eval(b0, y, env_set(env, x, which)) by {
                    lemma_support(b0, self.nvars as int, y, env, env_set(env, x, which));
                }
            }
            y
        } else if yv == x {
            let b = self.bdd(y);
            let r = if which { b.hi } else { b.lo };
            proof {
                assert(b0 =~= b0.take(b0.len() as int));
                lemma_shannon(b0, self.nvars as int, y, |u: u32| true);
                assert forall|env: spec_fn(u32) -> bool| #[trigger] eval(b0, r, env) == eval(b0, y, env_set(env, x, which)) by {
                    let e2 = env_set(env, x, which);
                    lemma_shannon(b0, self.nvars as int, y, e2);
                    lemma_support(b0, self.nvars as int, r, env, e2);
                }
            }
            r
        } else if is_var(y) {
            // a lone variable above `x` does not depend on it
            proof {
                assert(b0 =~= b0.take(b0.len() as int));
                assert forall|env: spec_fn(u32) -> bool| #[trigger] eval(b0, y, env) == eval(b0, y, env_set(env, x, which)) by {
                }
            }
            y
        } else {
            let (v, yt, ye) = self.tup(y);
            proof {
                lemma_shannon(b0, self.nvars as int, y, |u: u32| true);
                assert(node_ok(b0, self.nvars as int, idx_spec(y) as int));
                lemma_nid(b0[idx_spec(y) as int].hi);
                lemma_nid(b0[idx_spec(y) as int].lo);
            }
            let th = self.when(x, yt, which);
            let ghost b1 = self.bits@;
            let el = self.when(x, ye, which);
            let ghost b2 = self.bits@;
            proof {
                lemma_prefix_trans(b0, b1, b2);
                lemma_ok_frame(b1, b2, th);
                lemma_nv(v);
            }
            let r = self.ite(nv(v), th, el);
            proof {
                let b3 = self.bits@;
                lemma_prefix_trans(b0, b2, b3);
                lemma_prefix_trans(b1, b2, b3);
                lemma_ok_frame(b0, b3, y);
                if b3.len() < MAX_NODES {
                    assert forall|env: spec_fn(u32) -> bool| #[trigger] eval(b3, r, env) == eval(b3, y, env_set(env, x, which)) by {
                        let e2 = env_set(env, x, which);
                        lemma_frame(b1, b3, th, env);
                        lemma_frame(b2, b3, el, env);
                        lemma_frame(b0, b1, yt, e2);
                        lemma_frame(b0, b2, ye, e2);
                        lemma_frame(b0, b3, yt, e2);
                        lemma_frame(b0, b3, ye, e2);
                        lemma_frame(b0, b3, y, e2);
                        lemma_shannon(b0, self.nvars as int, y, e2);
                        assert(eval(b3, r, env) == if eval(b3, nv_spec(v), env) { eval(b3, th, env) } else { eval(b3, el, env) });
                    }
                }
            }
            r
        }
    }

    /// `y` with variable `x` set to true.
    pub fn when_hi(&mut self, x: u32, y: NID) -> (r: NID)
        requires old(self).wf(), old(self).valid(y), x < TV,
        ensures
            final(self).wf(),
            old(self).grows(&*final(self)),
            final(self).valid(r),
            in_range(y, old(self).width()) ==> in_range(r, old(self).width()),
            var_spec(r) >= var_spec(y),
            final(self).room() ==> forall|env: spec_fn(u32) -> bool|
                #[trigger] final(self).value(r, env) == final(self).value(y, env_set(env, x, true)),
            var_spec(y) > x || (is_var_spec(y) && var_spec(y) < x) ==> r == y && final(self).nodes() == old(self).nodes(),
            var_spec(y) == x ==> r == tup_spec(old(self).nodes(), y).hi && final(self).nodes() == old(self).nodes(),
    {
        self.when(x, y, true)
    }

    /// `y` with variable `x` set to false.
    pub fn when_lo(&mut self, x: u32, y: NID) -> (r: NID)
        requires old(self).wf(), old(self).valid(y), x < TV,
        ensures
            final(self).wf(),
            old(self).grows(&*final(self)),
            final(self).valid(r),
            in_range(y, old(self).width()) ==> in_range(r, old(self).width()),
            var_spec(r) >= var_spec(y),
            final(self).room() ==> forall|env: spec_fn(u32) -> bool|
                #[trigger] final(self).value(r, env) == final(self).value(y, env_set(env, x, false)),
            var_spec(y) > x || (is_var_spec(y) && var_spec(y) < x) ==> r == y && final(self).nodes() == old(self).nodes(),
            var_spec(y) == x ==> r == tup_spec(old(self).nodes(), y).lo && final(self).nodes() == old(self).nodes(),
    {
        self.when(x, y, false)
    }

    /// Might `x` depend on variable `y`? When not, it does not.
    pub fn might_depend(&mut self, x: NID, y: u32) -> (r: bool)
        requires old(self).wf(), old(self).valid(x),
        ensures
            *final(self) == *old(self),
            r == if is_var_spec(x) { var_spec(x) == y } else { var_spec(x) <= y },
            !r ==> forall|env: spec_fn(u32) -> bool, b: bool|
                #[trigger] final(self).value(x, env_set(env, y, b)) == final(self).value(x, env),
    {
        proof {
            let b0 = self.bits@;
            lemma_nid(x);
            assert forall|env: spec_fn(u32) -> bool, b: bool|
                !(if is_var_spec(x) { var_spec(x) == y } else { var_spec(x) <= y })
                implies #[trigger] eval(b0, x, env_set(env, y, b)) == eval(b0, x, env) by {
                if !is_var_spec(x) {
                    lemma_support(b0, self.nvars as int, x, env_set(env, y, b), env);
                }
            }
        }
        if is_var(x) { var(x) == y } else { var(x) <= y }
    }

    /// `z` with variable `x` replaced by `y`.
    pub fn replace(&mut self, x: u32, y: NID, z: NID) -> (r: NID)
        requires
            old(self).wf(), old(self).usable(y), old(self).valid(z), x < TV,
        ensures
            final(self).wf(),
            old(self).grows(&*final(self)),
            final(self).valid(r),
            in_range(z, old(self).width()) ==> in_range(r, old(self).width()),
            final(self).room() ==> forall|env: spec_fn(u32) -> bool|
                #[trigger] final(self).value(r, env)
                    == final(self).value(z, env_set(env, x, final(self).value(y, env))),
        decreases idx_spec(z),
    {
        let ghost b0 = self.bits@;
        proof { lemma_nid(z); lemma_nid(o_spec()); }
        if self.might_depend(z, x) {
            let (zv, zt, ze) = self.tup(z);
            proof {
                lemma_shannon(b0, self.nvars as int, z, |u: u32| true);
            }
            if x == zv {
                let r = self.ite(y, zt, ze);
                proof {
                    let b1 = self.bits@;
                    lemma_ok_frame(b0, b1, z);
                    lemma_ok_frame(b0, b1, y);
                    if b1.len() < MAX_NODES {
                        assert forall|env: spec_fn(u32) -> bool| #[trigger] eval(b1, r, env)
                            == eval(b1, z, env_set(env, x, eval(b1, y, env))) by {
                            let e2 = env_set(env, x, eval(b1, y, env));
                            lemma_frame(b0, b1, z, e2);
                            lemma_frame(b0, b1, zt, e2);
                            lemma_frame(b0, b1, ze, e2);
                            lemma_frame(b0, b1, zt, env);
                            lemma_frame(b0, b1, ze, env);
                            lemma_shannon(b0, self.nvars as int, z, e2);
                            lemma_support(b0, self.nvars as int, zt, env, e2);
                            lemma_support(b0, self.nvars as int, ze, env, e2);
                        }
                    }
                }
                r
            } else {
                proof {
                    assert(!is_var_spec(z));
                    assert(node_ok(b0, self.nvars as int, idx_spec(z) as int));
                    lemma_nid(b0[idx_spec(z) as int].hi);
                    lemma_nid(b0[idx_spec(z) as int].lo);
                }
                let th = self.replace(x, y, zt);
                let ghost b1 = self.bits@;
                let ghost s1 = *self;
                let el = self.replace(x, y, ze);
                let ghost b2 = self.bits@;
                let ghost s2 = *self;
                proof {
                    lemma_prefix_trans(b0, b1, b2);
                    lemma_ok_frame(b1, b2, th);
                    lemma_nv(zv);
                }
                let r = self.ite(nv(zv), th, el);
                proof {
                    let b3 = self.bits@;
                    lemma_prefix_trans(b0, b2, b3);
                    lemma_prefix_trans(b1, b2, b3);
                    lemma_ok_frame(b0, b3, z);
                    lemma_ok_frame(b0, b3, y);
                    if b3.len() < MAX_NODES {
                        assert forall|env: spec_fn(u32) -> bool| #[trigger] eval(b3, r, env)
                            == eval(b3, z, env_set(env, x, eval(b3, y, env))) by {
                            let yb = eval(b3, y, env);
                            let e2 = env_set(env, x, yb);
                            lemma_frame(b0, b1, y, env);
                            lemma_frame(b0, b2, y, env);
                            lemma_frame(b0, b3, y, env);
                            assert(s1.value(th, env) == s1.value(zt, env_set(env, x, s1.value(y, env))));
                            assert(s2.value(el, env) == s2.value(ze, env_set(env, x, s2.value(y, env))));
                            lemma_frame(b1, b3, th, env);
                            lemma_frame(b2, b3, el, env);
                            lemma_frame(b0, b1, zt, e2);
                            lemma_frame(b0, b2, ze, e2);
                            lemma_frame(b0, b3, z, e2);
                            lemma_shannon(b0, self.nvars as int, z, e2);
                            assert(eval(b3, r, env) == if eval(b3, nv_spec(zv), env) { eval(b3, th, env) } else { eval(b3, el, env) });
                        }
                    }
                }
                r
            }
        } else {
            proof {
                assert(b0 =~= b0.take(b0.len() as int));
            }
            z
        }
    }

    /// `x` and `y`.
    pub fn and(&mut self, x: NID, y: NID) -> (r: NID)
        requires old(self).wf(), old(self).usable(x), old(self).usable(y),
        ensures
            final(self).wf(), old(self).grows(&*final(self)), final(self).usable(r),
            final(self).room() ==> forall|env: spec_fn(u32) -> bool|
                #[trigger] final(self).value(r, env) == (final(self).value(x, env) && final(self).value(y, env)),
    {
        proof { lemma_nid(o_spec()); }
        let r = self.ite(x, y, o());
        proof {
            let b = self.bits@;
            assert forall|env: spec_fn(u32) -> bool| self.room() implies
                #[trigger] eval(b, r, env) == (eval(b, x, env) && eval(b, y, env)) by {
                assert(eval(b, r, env) == if eval(b, x, env) { eval(b, y, env) } else { eval(b, o_spec(), env) });
            }
        }
        r
    }

    /// `x` exclusive-or `y`.
    pub fn xor(&mut self, x: NID, y: NID) -> (r: NID)
        requires old(self).wf(), old(self).usable(x), old(self).usable(y),
        ensures
            final(self).wf(), old(self).grows(&*final(self)), final(self).usable(r),
            final(self).room() ==> forall|env: spec_fn(u32) -> bool|
                #[trigger] final(self).value(r, env) == (final(self).value(x, env) != final(self).value(y, env)),
    {
        proof { lemma_not_ok(self.bits@, self.nvars as int, y); lemma_nid(y); }
        let r = self.ite(x, not(y), y);
        proof {
            let b = self.bits@;
            assert forall|env: spec_fn(u32) -> bool| self.room() implies
                #[trigger] eval(b, r, env) == (eval(b, x, env) != eval(b, y, env)) by {
                lemma_eval_not(b, y, env);
                assert(eval(b, r, env) == if eval(b, x, env) { eval(b, not_spec(y), env) } else { eval(b, y, env) });
            }
        }
        r
    }

    /// `x` or `y`.
    pub fn or(&mut self, x: NID, y: NID) -> (r: NID)
        requires old(self).wf(), old(self).usable(x), old(self).usable(y),
        ensures
            final(self).wf(), old(self).grows(&*final(self)), final(self).usable(r),
            final(self).room() ==> forall|env: spec_fn(u32) -> bool|
                #[trigger] final(self).value(r, env) == (final(self).value(x, env) || final(self).value(y, env)),
    {
        proof { lemma_nid(o_spec()); }
        let r = self.ite(x, i(), y);
        proof {
            let b = self.bits@;
            assert forall|env: spec_fn(u32) -> bool| self.room() implies
                #[trigger] eval(b, r, env) == (eval(b, x, env) || eval(b, y, env)) by {
                assert(eval(b, r, env) == if eval(b, x, env) { eval(b, i_spec(), env) } else { eval(b, y, env) });
            }
        }
        r
    }

    /// `x` and not `y`.
    pub fn gt(&mut self, x: NID, y: NID) -> (r: NID)
        requires old(self).wf(), old(self).usable(x), old(self).usable(y),
        ensures
            final(self).wf(), old(self).grows(&*final(self)), final(self).usable(r),
            final(self).room() ==> forall|env: spec_fn(u32) -> bool|
                #[trigger] final(self).value(r, env) == (final(self).value(x, env) && !final(self).value(y, env)),
    {
        proof { lemma_not_ok(self.bits@, self.nvars as int, y); lemma_nid(y); lemma_nid(o_spec()); }
        let r = self.ite(x, not(y), o());
        proof {
            let b = self.bits@;
            assert forall|env: spec_fn(u32) -> bool| self.room() implies
                #[trigger] eval(b, r, env) == (eval(b, x, env) && !eval(b, y, env)) by {
                lemma_eval_not(b, y, env);
                assert(eval(b, r, env) == if eval(b, x, env) { eval(b, not_spec(y), env) } else { eval(b, o_spec(), env) });
            }
        }
        r
    }

    /// Not `x` and `y`.
    pub fn lt(&mut self, x: NID, y: NID) -> (r: NID)
        requires old(self).wf(), old(self).usable(x), old(self).usable(y),
        ensures
            final(self).wf(), old(self).grows(&*final(self)), final(self).usable(r),
            final(self).room() ==> forall|env: spec_fn(u32) -> bool|
                #[trigger] final(self).value(r, env) == (!final(self).value(x, env) && final(self).value(y, env)),
    {
        proof { lemma_nid(o_spec()); }
        let r = self.ite(x, o(), y);
        proof {
            let b = self.bits@;
            assert forall|env: spec_fn(u32) -> bool| self.room() implies
                #[trigger] eval(b, r, env) == (!eval(b, x, env) && eval(b, y, env)) by {
                assert(eval(b, r, env) == if eval(b, x, env) { eval(b, o_spec(), env) } else { eval(b, y, env) });
            }
        }
        r
    }

    /// Swap input variables `x` and `y` within `n`: the new node reads `x`
    /// where `n` read `y`, and `y` where `n` read `x`.
    #[verifier::rlimit(60)]
    pub fn swap(&mut self, n: NID, x: u32, y: u32) -> (r: NID)
        requires
            old(self).wf(), old(self).usable(n),
            (x as int) < old(self).width(), (y as int) < old(self).width(),
        ensures
            final(self).wf(),
            old(self).grows(&*final(self)),
            final(self).usable(r),
            final(self).room() ==> forall|env: spec_fn(u32) -> bool| #[trigger] final(self).value(r, env)
                == final(self).value(n, env_set(env_set(env, x, env(y)), y, env(x))),
        decreases if y > x { 1int } else { 0int },
    {
        if y > x {
            let r = self.swap(n, y, x);
            proof {
                let b = self.bits@;
                if b.len() < MAX_NODES {
                    assert forall|env: spec_fn(u32) -> bool| #[trigger] eval(b, r, env)
                        == eval(b, n, env_set(env_set(env, x, env(y)), y, env(x))) by {
                        assert(self.value(r, env) == self.value(n, env_set(env_set(env, y, env(x)), x, env(y))));
                        assert(env_set(env_set(env, y, env(x)), x, env(y)) =~= env_set(env_set(env, x, env(y)), y, env(x)));
                    }
                }
            }
            return r;
        }
        let ghost s0 = *self;
        proof { lemma_nv(x); lemma_nv(y); }
        let xlo = self.when_lo(x, n);
        let ghost s1 = *self;
        let xhi = self.when_hi(x, n);
        let ghost s2 = *self;
        let xlo_ylo = self.when_lo(y, xlo);
        let ghost s3 = *self;
        let xlo_yhi = self.when_hi(y, xlo);
        let ghost s4 = *self;
        let xhi_ylo = self.when_lo(y, xhi);
        let ghost s5 = *self;
        let xhi_yhi = self.when_hi(y, xhi);
        let ghost s6 = *self;
        proof {
            s0.lemma_grows(&s1); s1.lemma_grows(&s2); s2.lemma_grows(&s3);
            s3.lemma_grows(&s4); s4.lemma_grows(&s5); s5.lemma_grows(&s6);
            lemma_prefix_trans(s2.nodes(), s3.nodes(), s4.nodes());
            lemma_prefix_trans(s2.nodes(), s4.nodes(), s5.nodes());
            lemma_prefix_trans(s2.nodes(), s5.nodes(), s6.nodes());
            lemma_prefix_trans(s3.nodes(), s4.nodes(), s5.nodes());
            lemma_prefix_trans(s3.nodes(), s5.nodes(), s6.nodes());
            lemma_prefix_trans(s4.nodes(), s5.nodes(), s6.nodes());
            lemma_ok_frame(s3.nodes(), s6.nodes(), xlo_ylo);
            lemma_ok_frame(s4.nodes(), s6.nodes(), xlo_yhi);
            lemma_ok_frame(s5.nodes(), s6.nodes(), xhi_ylo);
            lemma_ok_frame(s1.nodes(), s2.nodes(), xlo);
        }
        let lo = self.ite(nv(y), xhi_ylo, xlo_ylo);
        let ghost s7 = *self;
        proof {
            s6.lemma_grows(&s7);
            lemma_prefix_trans(s4.nodes(), s6.nodes(), s7.nodes());
            lemma_prefix_trans(s3.nodes(), s6.nodes(), s7.nodes());
            lemma_prefix_trans(s5.nodes(), s6.nodes(), s7.nodes());
            lemma_ok_frame(s4.nodes(), s7.nodes(), xlo_yhi);
            lemma_ok_frame(s6.nodes(), s7.nodes(), xhi_yhi);
        }
        let hi = self.ite(nv(y), xhi_yhi, xlo_yhi);
        let ghost s8 = *self;
        proof {
            s7.lemma_grows(&s8);
            lemma_ok_frame(s7.nodes(), s8.nodes(), lo);
        }
        let r = self.ite(nv(x), hi, lo);
        proof {
            let s9 = *self;
            s8.lemma_grows(&s9);
            let b9 = s9.nodes();
            lemma_prefix_trans(s7.nodes(), s8.nodes(), b9);
            lemma_prefix_trans(s6.nodes(), s7.nodes(), b9);
            lemma_prefix_trans(s5.nodes(), s6.nodes(), b9);
            lemma_prefix_trans(s4.nodes(), s5.nodes(), b9);
            lemma_prefix_trans(s3.nodes(), s4.nodes(), b9);
            lemma_prefix_trans(s2.nodes(), s3.nodes(), b9);
            lemma_prefix_trans(s1.nodes(), s2.nodes(), b9);
            lemma_prefix_trans(s0.nodes(), s1.nodes(), b9);
            lemma_prefix_trans(s0.nodes(), s1.nodes(), s2.nodes());
            lemma_prefix_trans(s1.nodes(), s2.nodes(), s3.nodes());
            lemma_prefix_trans(s1.nodes(), s3.nodes(), s4.nodes());
            lemma_prefix_trans(s4.nodes(), s7.nodes(), s8.nodes());
            lemma_prefix_trans(s6.nodes(), s7.nodes(), s8.nodes());
            if b9.len() < MAX_NODES {
                lemma_frame_all(s0.nodes(), b9, n);
                lemma_frame_all(s1.nodes(), b9, xlo);
                lemma_frame_all(s2.nodes(), b9, xhi);
                lemma_frame_all(s3.nodes(), b9, xlo_ylo);
                lemma_frame_all(s4.nodes(), b9, xlo_yhi);
                lemma_frame_all(s5.nodes(), b9, xhi_ylo);
                lemma_frame_all(s6.nodes(), b9, xhi_yhi);
                lemma_frame_all(s7.nodes(), b9, lo);
                lemma_frame_all(s8.nodes(), b9, hi);
                lemma_frame_all(s0.nodes(), s1.nodes(), n);
                lemma_frame_all(s0.nodes(), s2.nodes(), n);
                lemma_frame_all(s1.nodes(), s3.nodes(), xlo);
                lemma_frame_all(s1.nodes(), s4.nodes(), xlo);
                lemma_frame_all(s2.nodes(), s5.nodes(), xhi);
                lemma_frame_all(s2.nodes(), s6.nodes(), xhi);
                lemma_frame_all(s3.nodes(), s7.nodes(), xlo_ylo);
                lemma_frame_all(s5.nodes(), s7.nodes(), xhi_ylo);
                lemma_frame_all(s4.nodes(), s8.nodes(), xlo_yhi);
                lemma_frame_all(s6.nodes(), s8.nodes(), xhi_yhi);
                lemma_frame_all(s7.nodes(), s9.nodes(), lo);
                assert forall|env: spec_fn(u32) -> bool| #[trigger] eval(b9, r, env)
                    == eval(b9, n, env_set(env_set(env, x, env(y)), y, env(x))) by {
                    let a = env(x);
                    let b = env(y);
                    let goal = env_set(env_set(env, x, b), y, a);
                    assert(eval(b9, nv_spec(x), env) == a);
                    assert(eval(b9, nv_spec(y), env) == b);
                    assert(s9.value(r, env) == if a { s9.value(hi, env) } else { s9.value(lo, env) });
                    assert(s7.value(lo, env) == if b { s7.value(xhi_ylo, env) } else { s7.value(xlo_ylo, env) });
                    assert(s8.value(hi, env) == if b { s8.value(xhi_yhi, env) } else { s8.value(xlo_yhi, env) });
                    let ey0 = env_set(env, y, false);
                    let ey1 = env_set(env, y, true);
                    assert(s3.value(xlo_ylo, env) == s3.value(xlo, ey0));
                    assert(s4.value(xlo_yhi, env) == s4.value(xlo, ey1));
                    assert(s5.value(xhi_ylo, env) == s5.value(xhi, ey0));
                    assert(s6.value(xhi_yhi, env) == s6.value(xhi, ey1));
                    assert(s1.value(xlo, ey0) == s1.value(n, env_set(ey0, x, false)));
                    assert(s1.value(xlo, ey1) == s1.value(n, env_set(ey1, x, false)));
                    assert(s2.value(xhi, ey0) == s2.value(n, env_set(ey0, x, true)));
                    assert(s2.value(xhi, ey1) == s2.value(n, env_set(ey1, x, true)));
                    if a && b {
                        assert(env_set(ey1, x, true) =~= goal);
                    } else if a && !b {
                        assert(env_set(ey1, x, false) =~= goal);
                    } else if !a && b {
                        assert(env_set(ey0, x, true) =~= goal);
                    } else {
                        assert(env_set(ey0, x, false) =~= goal);
                    }
                }
            }
        }
        r
    }

    /// Is `n` the node of a variable?
    pub fn is_var(&self, n: NID) -> (r: bool)
        ensures r == is_var_spec(n),
    {
        is_var(n)
    }
}

} // verus!
