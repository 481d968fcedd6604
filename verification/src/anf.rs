//! Algebraic normal form: boolean polynomials (xor of ands of variables).
//!
//! Each node `(v, hi, lo)` stands for `(v AND hi) XOR lo`, where `hi` and
//! `lo` only use variables below `v`. The `lo` branch of a stored node is
//! never inverted, so the inversion flag of a nid is exactly the constant
//! term of its polynomial. Identical nodes are stored once.
use vstd::prelude::*;
use std::collections::HashMap;
use crate::nid::{NID, INV, VAR, T, IDX_MASK, nid_o, nid_i, negate, vid_to_bits_spec};
use crate::vid::{VID, VidEnum, VidOrdering, depth_key};
use crate::vhl::{Vhl, HiLo, HiLoBase};
use crate::nidtext::{plain_vid, vidx_nid};
use crate::bdd32::lemma_pair_key;
use crate::tags::Names;
use crate::simp;

verus! {

broadcast use vstd::std_specs::hash::group_hash_axioms;

/// The most nodes a base holds (a node's index must fit the index field).
pub const MAX_NODES: usize = 0xFFFF_FFFF;

/// A constant or a variable: a nid that names no stored node.
pub open spec fn is_leaf(x: NID) -> bool {
    x.n & T != 0 || x.n & VAR != 0
}

/// The index field of a nid.
pub open spec fn ix(x: NID) -> int {
    (x.n & IDX_MASK) as int
}

/// Is the nid inverted?
pub open spec fn is_inv(x: NID) -> bool {
    x.n & INV != 0
}

/// The nid without its inversion flag.
pub open spec fn raw(x: NID) -> NID {
    NID { n: x.n & !INV }
}

/// The nid with its inversion flag flipped.
pub open spec fn inv(x: NID) -> NID {
    NID { n: x.n ^ INV }
}

/// The depth of a nid's variable (0 for the constants).
pub open spec fn depth(x: NID) -> int {
    depth_key(x.vid_spec())
}

/// The larger of two depths.
pub open spec fn max_depth(x: NID, y: NID) -> int {
    if depth(x) >= depth(y) { depth(x) } else { depth(y) }
}

/// The value of a constant or a variable under `env`.
pub open spec fn leaf_value(x: NID, env: spec_fn(VID) -> bool) -> bool {
    (if x.n & T != 0 { false } else { env(x.vid_spec()) }) != is_inv(x)
}

/// The value of `x` under `env`: a stored node `(v, hi, lo)` is
/// `(env(v) AND hi) XOR lo`, and inversion negates.
pub open spec fn value(nodes: Seq<Vhl>, x: NID, env: spec_fn(VID) -> bool) -> bool
    decreases ix(x),
{
    if is_leaf(x) {
        leaf_value(x, env)
    } else if ix(x) < nodes.len() {
        let nd = nodes[ix(x)];
        let h = if is_leaf(nd.hi) { leaf_value(nd.hi, env) }
            else if ix(nd.hi) < ix(x) { value(nodes, nd.hi, env) } else { false };
        let l = if is_leaf(nd.lo) { leaf_value(nd.lo, env) }
            else if ix(nd.lo) < ix(x) { value(nodes, nd.lo, env) } else { false };
        ((env(nd.v) && h) != l) != is_inv(x)
    } else {
        is_inv(x)
    }
}

/// `x` names something in `nodes`: a constant, a plain variable, or a stored node.
pub open spec fn nid_ok(nodes: Seq<Vhl>, x: NID) -> bool {
    ||| x == nid_o() || x == nid_i()
    ||| x.n & VAR != 0 && plain_vid(x.vid_spec()) && raw(x) == NID::from_vid_spec(x.vid_spec())
    ||| !is_leaf(x) && ix(x) < nodes.len() && raw(x) == vidx_nid(nodes[ix(x)].v, ix(x) as u64)
}

/// Stored node `i` branches on a plain variable, to earlier nodes that use
/// only variables below it, with a lo branch that is not inverted.
pub open spec fn node_ok(nodes: Seq<Vhl>, i: int) -> bool {
    let nd = nodes[i];
    &&& plain_vid(nd.v)
    &&& i <= IDX_MASK
    &&& nid_ok(nodes, nd.hi) && nid_ok(nodes, nd.lo)
    &&& (is_leaf(nd.hi) || ix(nd.hi) < i) && (is_leaf(nd.lo) || ix(nd.lo) < i)
    &&& depth(nd.hi) < depth_key(nd.v) && depth(nd.lo) < depth_key(nd.v)
    &&& !is_inv(nd.lo)
}

/// Every stored node is well formed.
pub open spec fn nodes_ok(nodes: Seq<Vhl>) -> bool {
    forall|i: int| 0 <= i < nodes.len() ==> #[trigger] node_ok(nodes, i)
}

/// `b` extends `a`.
pub open spec fn prefix(a: Seq<Vhl>, b: Seq<Vhl>) -> bool {
    a.len() <= b.len() && a == b.take(a.len() as int)
}

/// The cache key of a pair of branches.
pub open spec fn pair_key(a: NID, b: NID) -> u128 {
    crate::bdd32::pair_key(crate::bdd32::NID { n: a.n }, crate::bdd32::NID { n: b.n })
}

/// A cache entry: `n` is the stored node with variable field `vb` and branch pair `pk`.
pub open spec fn entry_ok(nodes: Seq<Vhl>, vb: u64, pk: u128, n: NID) -> bool {
    &&& !is_leaf(n) && !is_inv(n)
    &&& ix(n) < nodes.len()
    &&& n == vidx_nid(nodes[ix(n)].v, ix(n) as u64)
    &&& vid_to_bits_spec(nodes[ix(n)].v) == vb
    &&& pair_key(nodes[ix(n)].hi, nodes[ix(n)].lo) == pk
}

/// The triple of a variable or a stored node, inverted with the nid.
pub open spec fn fetch_spec(nodes: Seq<Vhl>, n: NID) -> Vhl {
    if n.n & VAR != 0 {
        Vhl { v: n.vid_spec(), hi: nid_i(), lo: if is_inv(n) { nid_i() } else { nid_o() } }
    } else {
        let nd = nodes[ix(n)];
        if is_inv(n) { Vhl { v: nd.v, hi: nd.hi, lo: inv(nd.lo) } } else { nd }
    }
}

// ---- facts about the bits ----

proof fn lemma_const_bits()
    by (bit_vector)
    ensures
        (0x2000_0000_0000_0000u64 & !(0x8000_0000_0000_0000u64 | 0x4000_0000_0000_0000u64)) >> 32u64 == 0x2000_0000u64,
        (0xA000_0000_0000_0000u64 & !(0x8000_0000_0000_0000u64 | 0x4000_0000_0000_0000u64)) >> 32u64 == 0x2000_0000u64,
        0xA000_0000_0000_0000u64 & !0x8000_0000_0000_0000u64 == 0x2000_0000_0000_0000u64,
        0x2000_0000_0000_0000u64 & !0x8000_0000_0000_0000u64 == 0x2000_0000_0000_0000u64,
        0x2000_0000_0000_0000u64 & 0xFFFF_FFFFu64 == 0,
        0xA000_0000_0000_0000u64 & 0xFFFF_FFFFu64 == 0,
{
}

/// The constants: their flags, and their variable T at depth 0.
pub proof fn lemma_consts()
    ensures
        nid_o().n & T != 0, nid_i().n & T != 0,
        nid_o().n & VAR == 0, nid_i().n & VAR == 0,
        !is_inv(nid_o()), is_inv(nid_i()),
        inv(nid_o()) == nid_i(), inv(nid_i()) == nid_o(),
        raw(nid_o()) == nid_o(), raw(nid_i()) == nid_o(),
        nid_o().vid_spec() == (VID { v: VidEnum::T }), nid_i().vid_spec() == (VID { v: VidEnum::T }),
        depth(nid_o()) == 0, depth(nid_i()) == 0,
        ix(nid_o()) == 0, ix(nid_i()) == 0,
{
    crate::bits::lemma_constants();
    lemma_const_bits();
}

/// Inversion: flips the flag, keeps everything else.
pub proof fn lemma_inv(x: NID)
    ensures
        is_leaf(inv(x)) == is_leaf(x), ix(inv(x)) == ix(x), is_inv(inv(x)) == !is_inv(x),
        inv(x).vid_spec() == x.vid_spec(), depth(inv(x)) == depth(x),
        inv(inv(x)) == x, raw(inv(x)) == raw(x),
        inv(x).n & T == x.n & T, inv(x).n & VAR == x.n & VAR,
        raw(x).n & T == x.n & T, raw(x).n & VAR == x.n & VAR, ix(raw(x)) == ix(x), !is_inv(raw(x)),
        raw(x).vid_spec() == x.vid_spec(),
        !is_inv(x) ==> raw(x) == x,
        is_inv(x) ==> raw(x) == inv(x) && x == inv(raw(x)),
{
    crate::bits::lemma_word(x.n, 0);
    crate::nid::lemma_neg_fields(x);
    crate::nid::lemma_not_not(x);
    crate::bits::lemma_word(x.n & !INV, 0);
    crate::nid::lemma_neg_fields(raw(x));
    lemma_raw_bits(x.n);
    assert(raw(x).n & T == x.n & T && raw(x).n & VAR == x.n & VAR && ix(raw(x)) == ix(x) && !is_inv(raw(x))) by {
        lemma_raw_bits(x.n);
    }
    if is_inv(x) {
        assert(raw(x) == inv(x));
        assert(raw(x).vid_spec() == x.vid_spec());
    } else {
        assert(raw(x) == x);
    }
}

proof fn lemma_raw_bits(n: u64)
    by (bit_vector)
    ensures
        (n & !0x8000_0000_0000_0000u64) & 0x2000_0000_0000_0000u64 == n & 0x2000_0000_0000_0000u64,
        (n & !0x8000_0000_0000_0000u64) & 0x4000_0000_0000_0000u64 == n & 0x4000_0000_0000_0000u64,
        (n & !0x8000_0000_0000_0000u64) & 0xFFFF_FFFFu64 == n & 0xFFFF_FFFFu64,
        (n & !0x8000_0000_0000_0000u64) & 0x8000_0000_0000_0000u64 == 0,
        (n ^ 0x8000_0000_0000_0000u64) & !0x8000_0000_0000_0000u64 == n & !0x8000_0000_0000_0000u64,
{
}

/// The nid of a plain variable, and the nid of a stored node of a plain variable.
pub proof fn lemma_plain_nids(v: VID, i: u64)
    requires plain_vid(v), i <= IDX_MASK,
    ensures
        NID::from_vid_spec(v).n & VAR != 0, NID::from_vid_spec(v).n & T == 0,
        !is_inv(NID::from_vid_spec(v)), NID::from_vid_spec(v).vid_spec() == v,
        raw(NID::from_vid_spec(v)) == NID::from_vid_spec(v),
        !is_leaf(vidx_nid(v, i)), !is_inv(vidx_nid(v, i)), ix(vidx_nid(v, i)) == i,
        vidx_nid(v, i).vid_spec() == v, raw(vidx_nid(v, i)) == vidx_nid(v, i),
        vidx_nid(v, i).n == (vid_to_bits_spec(v) << 32) + i,
        ((vid_to_bits_spec(v) << 32) as int) + i <= u64::MAX,
        depth_key(v) >= 0x1_0000_0000,
{
    crate::nidtext::lemma_plain_bits(v);
    let b = vid_to_bits_spec(v);
    crate::nidtext::lemma_word_bits(b, i);
    crate::bits::lemma_constants();
    lemma_inv(NID::from_vid_spec(v));
    lemma_inv(vidx_nid(v, i));
}

/// Two plain variables with the same variable field are the same.
pub proof fn lemma_bits_inj(a: VID, b: VID)
    requires plain_vid(a), plain_vid(b), vid_to_bits_spec(a) == vid_to_bits_spec(b),
    ensures a == b,
{
    crate::nidtext::lemma_plain_bits(a);
    crate::nidtext::lemma_plain_bits(b);
}

/// Two variables at the same depth are the same.
pub proof fn lemma_depth_inj(a: VID, b: VID)
    requires depth_key(a) == depth_key(b),
    ensures a == b,
{
}

/// A nid of the base with the constant flag is a constant.
pub proof fn lemma_const_ok(nodes: Seq<Vhl>, x: NID)
    requires nid_ok(nodes, x), x.n & T != 0,
    ensures x == nid_o() || x == nid_i(),
{
    lemma_inv(x);
    if x.n & VAR != 0 && plain_vid(x.vid_spec()) {
        lemma_plain_nids(x.vid_spec(), 0);
    }
}

/// What the bits of a nid that is not a constant tell about it.
pub proof fn lemma_ok_shape(nodes: Seq<Vhl>, x: NID)
    requires nodes_ok(nodes), nid_ok(nodes, x), x.n & T == 0,
    ensures
        x.n & VAR != 0 ==> plain_vid(x.vid_spec()) && raw(x) == NID::from_vid_spec(x.vid_spec()),
        x.n & VAR == 0 ==> !is_leaf(x) && ix(x) < nodes.len() && raw(x) == vidx_nid(nodes[ix(x)].v, ix(x) as u64)
            && x.vid_spec() == nodes[ix(x)].v && node_ok(nodes, ix(x)),
        x != nid_o() && x != nid_i(),
        depth(x) >= 0x1_0000_0000,
{
    lemma_consts();
    lemma_inv(x);
    if x.n & VAR == 0 {
        let i = ix(x);
        assert(node_ok(nodes, i));
        let v = nodes[i].v;
        lemma_plain_nids(v, i as u64);
        assert(raw(x).vid_spec() == v);
    } else {
        lemma_plain_nids(x.vid_spec(), 0);
    }
}

// ---- facts about values ----

/// Inversion negates the value.
pub proof fn lemma_value_inv(nodes: Seq<Vhl>, x: NID, env: spec_fn(VID) -> bool)
    ensures value(nodes, inv(x), env) == !value(nodes, x, env),
{
    lemma_inv(x);
}

/// A nid keeps its value when nodes are added after it.
pub proof fn lemma_frame(a: Seq<Vhl>, b: Seq<Vhl>, x: NID, env: spec_fn(VID) -> bool)
    requires prefix(a, b), is_leaf(x) || ix(x) < a.len(),
    ensures value(a, x, env) == value(b, x, env),
    decreases ix(x),
{
    if !is_leaf(x) {
        let nd = a[ix(x)];
        assert(b[ix(x)] == nd);
        if !is_leaf(nd.hi) && ix(nd.hi) < ix(x) { lemma_frame(a, b, nd.hi, env); }
        if !is_leaf(nd.lo) && ix(nd.lo) < ix(x) { lemma_frame(a, b, nd.lo, env); }
    }
}

/// A nid of `a` is a nid of any extension of `a`, with the same values.
pub proof fn lemma_keep(a: Seq<Vhl>, b: Seq<Vhl>, x: NID)
    requires prefix(a, b), nid_ok(a, x),
    ensures
        nid_ok(b, x),
        forall|env: spec_fn(VID) -> bool| #[trigger] value(b, x, env) == value(a, x, env),
{
    lemma_consts();
    if !(x == nid_o() || x == nid_i()) && x.n & VAR == 0 {
        assert(b[ix(x)] == a[ix(x)]);
    }
    assert forall|env: spec_fn(VID) -> bool| #[trigger] value(b, x, env) == value(a, x, env) by {
        lemma_frame(a, b, x, env);
    }
}

/// Every node list extends itself.
pub proof fn lemma_prefix_refl(a: Seq<Vhl>)
    ensures prefix(a, a),
{
    assert(a =~= a.take(a.len() as int));
}

/// Extension is transitive.
pub proof fn lemma_prefix_trans(a: Seq<Vhl>, b: Seq<Vhl>, c: Seq<Vhl>)
    requires prefix(a, b), prefix(b, c),
    ensures prefix(a, c),
{
    assert(a =~= c.take(a.len() as int));
}

/// Well-formed nodes stay well formed when well-formed nodes are added.
proof fn lemma_nodes_push(nodes: Seq<Vhl>, nd: Vhl)
    requires
        nodes_ok(nodes),
        nodes.len() <= IDX_MASK,
        plain_vid(nd.v),
        nid_ok(nodes, nd.hi), nid_ok(nodes, nd.lo),
        depth(nd.hi) < depth_key(nd.v), depth(nd.lo) < depth_key(nd.v),
        !is_inv(nd.lo),
    ensures nodes_ok(nodes.push(nd)), prefix(nodes, nodes.push(nd)),
{
    let b = nodes.push(nd);
    assert(nodes =~= b.take(nodes.len() as int));
    lemma_keep(nodes, b, nd.hi);
    lemma_keep(nodes, b, nd.lo);
    assert forall|i: int| 0 <= i < b.len() implies #[trigger] node_ok(b, i) by {
        if i < nodes.len() {
            assert(node_ok(nodes, i));
            lemma_keep(nodes, b, nodes[i].hi);
            lemma_keep(nodes, b, nodes[i].lo);
        } else {
            lemma_consts();
            if nd.hi.n & T == 0 { lemma_ok_shape(nodes, nd.hi); } else { lemma_const_ok(nodes, nd.hi); }
            if nd.lo.n & T == 0 { lemma_ok_shape(nodes, nd.lo); } else { lemma_const_ok(nodes, nd.lo); }
        }
    }
}

/// The triple of a nid: its branches are nids of the base below it, and
/// its value is `(env(v) AND hi) XOR lo`.
pub proof fn lemma_fetch(nodes: Seq<Vhl>, n: NID)
    requires nodes_ok(nodes), nid_ok(nodes, n), n.n & T == 0,
    ensures ({
        let f = fetch_spec(nodes, n);
        &&& f.v == n.vid_spec() && plain_vid(f.v) && depth(n) == depth_key(f.v)
        &&& nid_ok(nodes, f.hi) && nid_ok(nodes, f.lo)
        &&& depth(f.hi) < depth(n) && depth(f.lo) < depth(n)
        &&& is_inv(f.lo) == is_inv(n)
        &&& n.n & VAR == 0 ==> (is_leaf(f.hi) || ix(f.hi) < ix(n)) && (is_leaf(f.lo) || ix(f.lo) < ix(n))
        &&& forall|env: spec_fn(VID) -> bool| #[trigger] value(nodes, n, env)
                == ((env(f.v) && value(nodes, f.hi, env)) != value(nodes, f.lo, env))
    }),
{
    lemma_consts();
    lemma_ok_shape(nodes, n);
    lemma_inv(n);
    let f = fetch_spec(nodes, n);
    if n.n & VAR != 0 {
        let v = n.vid_spec();
        crate::nidtext::lemma_plain_bits(v);
        lemma_plain_nids(v, 0);
        assert(depth(n) == depth_key(v));
    } else {
        let i = ix(n);
        assert(node_ok(nodes, i));
        let nd = nodes[i];
        lemma_plain_nids(nd.v, i as u64);
        lemma_inv(nd.lo);
        if nd.lo.n & T == 0 { lemma_ok_shape(nodes, nd.lo); } else { lemma_const_ok(nodes, nd.lo); }
        if nd.hi.n & T == 0 { lemma_ok_shape(nodes, nd.hi); } else { lemma_const_ok(nodes, nd.hi); }
        assert forall|env: spec_fn(VID) -> bool| #[trigger] value(nodes, n, env)
            == ((env(f.v) && value(nodes, f.hi, env)) != value(nodes, f.lo, env)) by {
            lemma_value_inv(nodes, nd.lo, env);
        }
    }
}

/// The value of a nid depends only on the variables at or below its own depth.
pub proof fn lemma_support(nodes: Seq<Vhl>, x: NID, e1: spec_fn(VID) -> bool, e2: spec_fn(VID) -> bool)
    requires
        nodes_ok(nodes), nid_ok(nodes, x),
        forall|w: VID| depth_key(w) <= depth(x) ==> e1(w) == e2(w),
    ensures value(nodes, x, e1) == value(nodes, x, e2),
    decreases ix(x), (if is_leaf(x) { 0int } else { 1int }),
{
    lemma_consts();
    if x.n & T == 0 {
        lemma_fetch(nodes, x);
        let f = fetch_spec(nodes, x);
        if x.n & VAR == 0 {
            assert(value(nodes, x, e1) == ((e1(f.v) && value(nodes, f.hi, e1)) != value(nodes, f.lo, e1)));
            assert(value(nodes, x, e2) == ((e2(f.v) && value(nodes, f.hi, e2)) != value(nodes, f.lo, e2)));
            if !is_leaf(f.hi) { lemma_support(nodes, f.hi, e1, e2); }
            if !is_leaf(f.lo) { lemma_support(nodes, f.lo, e1, e2); }
        }
    }
}

/// `env` with variable `v` set to `b`.
pub open spec fn env_set(env: spec_fn(VID) -> bool, v: VID, b: bool) -> spec_fn(VID) -> bool {
    |w: VID| if w == v { b } else { env(w) }
}

/// Inverting or clearing the flag of a nid of the base gives a nid of the base.
pub proof fn lemma_ok_inv(nodes: Seq<Vhl>, x: NID)
    requires nid_ok(nodes, x),
    ensures nid_ok(nodes, inv(x)), nid_ok(nodes, raw(x)),
{
    lemma_consts();
    lemma_inv(x);
    lemma_inv(raw(x));
    lemma_inv(inv(x));
}

/// The ordering measure of a pair of nids: how many of them sit at the
/// larger depth, a stored node counting twice.
pub open spec fn at_top(x: NID, y: NID) -> int {
    (if depth(x) == max_depth(x, y) { if is_leaf(x) { 1int } else { 2int } } else { 0int })
    + (if depth(y) == max_depth(x, y) { if is_leaf(y) { 1int } else { 2int } } else { 0int })
}

/// How many of two nids are inverted.
pub open spec fn n_inv(x: NID, y: NID) -> int {
    (if is_inv(x) { 1int } else { 0int }) + (if is_inv(y) { 1int } else { 0int })
}

/// A base of boolean polynomials.
pub struct ANFBase {
    nodes: Vec<Vhl>,
    cache: HashMap<u64, HashMap<u128, NID>>,
    tags: Names<NID>,
}

impl ANFBase {
    /// The stored nodes.
    pub closed spec fn nodes(&self) -> Seq<Vhl> { self.nodes@ }

    /// The names given to nodes.
    pub closed spec fn names(&self) -> Map<Seq<char>, NID> { self.tags.map() }

    /// The invariant: well-formed nodes, and a cache whose entries are stored nodes.
    pub closed spec fn wf(&self) -> bool {
        &&& nodes_ok(self.nodes@)
        &&& self.nodes@.len() <= MAX_NODES
        &&& self.tags.wf()
        &&& forall|vb: u64, pk: u128| self.cache@.contains_key(vb) && #[trigger] self.cache@[vb]@.contains_key(pk)
                ==> entry_ok(self.nodes@, vb, pk, self.cache@[vb]@[pk])
    }

    /// The cache holds node `n` for the triple `(v, hi, lo)`.
    pub closed spec fn holds(&self, v: VID, hi: NID, lo: NID, n: NID) -> bool {
        &&& self.cache@.contains_key(vid_to_bits_spec(v))
        &&& self.cache@[vid_to_bits_spec(v)]@.contains_key(pair_key(hi, lo))
        &&& self.cache@[vid_to_bits_spec(v)]@[pair_key(hi, lo)] == n
    }

    /// `self` extends `old`: the same nodes and more, and the same names.
    pub open spec fn grows(&self, old: &ANFBase) -> bool {
        prefix(old.nodes(), self.nodes()) && self.names() == old.names()
    }

    /// The value of `x` under `env`.
    #[verifier::inline]
    pub open spec fn value(&self, x: NID, env: spec_fn(VID) -> bool) -> bool {
        value(self.nodes(), x, env)
    }

    /// Can `x` be handed to this base?
    #[verifier::inline]
    pub open spec fn valid(&self, x: NID) -> bool {
        nid_ok(self.nodes(), x)
    }

    /// Is there room for another node?
    #[verifier::inline]
    pub open spec fn room(&self) -> bool {
        self.nodes().len() < MAX_NODES
    }

    /// What the invariant says of the nodes.
    pub proof fn lemma_wf(&self)
        requires self.wf(),
        ensures nodes_ok(self.nodes()), self.nodes().len() <= MAX_NODES,
    {
    }

    /// An empty base.
    pub fn new() -> (r: ANFBase)
        ensures r.wf(), r.nodes() == Seq::<Vhl>::empty(), r.names() == Map::<Seq<char>, NID>::empty(),
    {
        ANFBase { nodes: Vec::new(), cache: HashMap::new(), tags: Names::new() }
    }

    /// Name node `n` with `s`; returns `n`.
    pub fn tag(&mut self, n: NID, s: String) -> (r: NID)
        requires old(self).wf(),
        ensures
            r == n, final(self).wf(), final(self).nodes() == old(self).nodes(),
            final(self).names() == old(self).names().insert(s@, n),
    {
        self.tags.tag(n, s)
    }

    /// The node with the given name, if there is one.
    pub fn get(&self, s: &str) -> (r: Option<NID>)
        requires self.wf(),
        ensures r == if self.names().contains_key(s@) { Some(self.names()[s@]) } else { None::<NID> },
    {
        self.tags.get(s)
    }

    /// The triple of a variable or a stored node: a variable `v` is
    /// `(v AND I) XOR O` (`XOR I` when inverted), and an inverted node has
    /// its lo branch inverted.
    pub fn fetch(&self, n: NID) -> (r: Vhl)
        requires self.wf(), self.valid(n), n.n & T == 0,
        ensures r == fetch_spec(self.nodes(), n),
    {
        if n.is_vid() {
            Vhl { v: n.vid(), hi: NID::i(), lo: if n.is_inv() { NID::i() } else { NID::o() } }
        } else {
            proof { lemma_ok_shape(self.nodes@, n); }
            let mut anf = self.nodes[n.idx()];
            if n.is_inv() { anf.lo = negate(anf.lo) }
            anf
        }
    }

    /// The node `(v AND hi) XOR lo`, stored once; `I, O` gives the variable itself.
    /// (When the base is full and the node is new, the result is O.)
    pub(crate) fn vhl(&mut self, v: VID, hi0: NID, lo0: NID) -> (r: NID)
        requires
            old(self).wf(), plain_vid(v), old(self).valid(hi0), old(self).valid(lo0),
            depth(hi0) < depth_key(v), depth(lo0) < depth_key(v), !is_inv(lo0),
        ensures
            final(self).wf(), final(self).grows(&*old(self)), final(self).valid(r),
            !is_inv(r), depth(r) <= depth_key(v),
            final(self).room() ==> forall|env: spec_fn(VID) -> bool| #[trigger] final(self).value(r, env)
                == ((env(v) && final(self).value(hi0, env)) != final(self).value(lo0, env)),
            hi0 == nid_i() && lo0 == nid_o() ==> r == NID::from_vid_spec(v),
            !(hi0 == nid_i() && lo0 == nid_o()) ==> {
                &&& forall|n: NID| #[trigger] old(self).holds(v, hi0, lo0, n) ==> r == n
                &&& final(self).room() ==> final(self).holds(v, hi0, lo0, r)
            },
    {
        let ghost n0 = self.nodes@;
        proof {
            lemma_consts();
            crate::nidtext::lemma_plain_bits(v);
            lemma_plain_nids(v, 0);
            lemma_inv(lo0);
        }
        if hi0 == NID::i() && lo0 == NID::o() {
            let r = NID::from_vid(v);
            proof {
                assert(prefix(n0, n0)) by { assert(n0 =~= n0.take(n0.len() as int)); }
            }
            return r;
        }
        let hi = hi0;
        let lo = lo0.raw();
        let vb = crate::nid::vid_to_bits(v);
        let pk: u128 = ((hi.n as u128) << 64u128) | (lo.n as u128);
        let found = match self.cache.get(&vb) {
            Some(m) => match m.get(&pk) {
                Some(n) => Some(*n),
                None => None,
            },
            None => None,
        };
        let res = match found {
            Some(n) => {
                proof {
                    assert(entry_ok(n0, vb, pk, n));
                    let j = ix(n);
                    assert(node_ok(n0, j));
                    lemma_bits_inj(n0[j].v, v);
                    lemma_pair_key(crate::bdd32::NID { n: n0[j].hi.n }, crate::bdd32::NID { n: n0[j].lo.n },
                        crate::bdd32::NID { n: hi.n }, crate::bdd32::NID { n: lo.n });
                    lemma_plain_nids(v, j as u64);
                    lemma_fetch(n0, n);
                    assert(prefix(n0, n0)) by { assert(n0 =~= n0.take(n0.len() as int)); }
                }
                n
            },
            None => {
                if self.nodes.len() >= MAX_NODES {
                    proof {
                        assert(prefix(n0, n0)) by { assert(n0 =~= n0.take(n0.len() as int)); }
                    }
                    return NID::o();
                }
                let idx = self.nodes.len();
                proof { lemma_plain_nids(v, idx as u64); }
                let nid = NID::from_vid_idx(v, idx);
                let ghost c0 = self.cache@;
                let mut inner = match self.cache.remove(&vb) {
                    Some(m) => m,
                    None => HashMap::new(),
                };
                inner.insert(pk, nid);
                self.cache.insert(vb, inner);
                let nd = Vhl { v, hi, lo };
                self.nodes.push(nd);
                proof {
                    lemma_nodes_push(n0, nd);
                    let n1 = self.nodes@;
                    assert(n1 == n0.push(nd));
                    assert(n1[idx as int] == nd);
                    assert forall|vb1: u64, pk1: u128| self.cache@.contains_key(vb1) && #[trigger] self.cache@[vb1]@.contains_key(pk1)
                        implies entry_ok(n1, vb1, pk1, self.cache@[vb1]@[pk1]) by {
                        if vb1 == vb && pk1 == pk {
                            assert(self.cache@[vb1]@[pk1] == nid);
                        } else {
                            let m = self.cache@[vb1]@[pk1];
                            assert(c0.contains_key(vb1) && c0[vb1]@.contains_key(pk1) && c0[vb1]@[pk1] == m);
                            assert(entry_ok(n0, vb1, pk1, m));
                            assert(n1[ix(m)] == n0[ix(m)]);
                        }
                    }
                    assert(nid_ok(n1, nid));
                    lemma_fetch(n1, nid);
                    lemma_keep(n0, n1, hi);
                    lemma_keep(n0, n1, lo);
                }
                nid
            },
        };
        if lo.is_inv() { negate(res) } else { res }
    }
}


impl ANFBase {
    /// `x XOR y`.
    pub fn xor(&mut self, x: NID, y: NID) -> (r: NID)
        requires old(self).wf(), old(self).valid(x), old(self).valid(y),
        ensures
            final(self).wf(), final(self).grows(&*old(self)), final(self).valid(r),
            depth(r) <= max_depth(x, y),
            is_inv(r) == (is_inv(x) != is_inv(y)),
            final(self).room() ==> forall|env: spec_fn(VID) -> bool| #[trigger] final(self).value(r, env)
                == (final(self).value(x, env) != final(self).value(y, env)),
        decreases max_depth(x, y), (if depth(x) < depth(y) { 3int } else { 1int }),
    {
        let ghost s0 = self.nodes@;
        proof {
            lemma_consts();
            lemma_inv(x);
            lemma_inv(y);
            lemma_ok_inv(s0, x);
            lemma_ok_inv(s0, y);
            assert(prefix(s0, s0)) by { assert(s0 =~= s0.take(s0.len() as int)); }
            assert forall|env: spec_fn(VID) -> bool| #[trigger] value(s0, inv(y), env) == !value(s0, y, env)
                && value(s0, inv(x), env) == !value(s0, x, env) by {
                lemma_value_inv(s0, x, env);
                lemma_value_inv(s0, y, env);
            }
        }
        match simp::xor(x, y) {
            Some(n) => {
                proof {
                    assert forall|env: spec_fn(VID) -> bool| #[trigger] value(s0, n, env)
                        == (value(s0, x, env) != value(s0, y, env)) by {
                        lemma_value_inv(s0, x, env);
                        lemma_value_inv(s0, y, env);
                    }
                }
                n
            },
            None => {
                let a = x.raw();
                let b = y.raw();
                proof {
                    if x.n & T != 0 { lemma_const_ok(s0, x); }
                    if y.n & T != 0 { lemma_const_ok(s0, y); }
                }
                let res = self.calc_xor(a, b);
                proof {
                    let s1 = self.nodes@;
                    lemma_keep(s0, s1, x);
                    lemma_keep(s0, s1, y);
                    lemma_keep(s0, s1, a);
                    lemma_keep(s0, s1, b);
                    lemma_ok_inv(s1, res);
                    lemma_inv(res);
                    assert forall|env: spec_fn(VID) -> bool| #[trigger] value(s1, inv(res), env) == !value(s1, res, env)
                        && value(s1, a, env) == (value(s1, x, env) != is_inv(x))
                        && value(s1, b, env) == (value(s1, y, env) != is_inv(y)) by {
                        lemma_value_inv(s1, res, env);
                        lemma_value_inv(s1, a, env);
                        lemma_value_inv(s1, b, env);
                    }
                    if nid_ok(s1, res) && prefix(s0, s1) && s1.len() < MAX_NODES {
                        assert forall|env: spec_fn(VID) -> bool| #[trigger] value(s1, res, env)
                            == (value(s1, a, env) != value(s1, b, env)) by {}
                    }
                }
                if x.is_inv() == y.is_inv() { res } else { negate(res) }
            },
        }
    }

    /// `x XOR y` for two nids that are neither constants nor inverted.
    fn calc_xor(&mut self, x: NID, y: NID) -> (r: NID)
        requires
            old(self).wf(), old(self).valid(x), old(self).valid(y),
            x.n & T == 0, y.n & T == 0, !is_inv(x), !is_inv(y),
        ensures
            final(self).wf(), final(self).grows(&*old(self)), final(self).valid(r),
            depth(r) <= max_depth(x, y), !is_inv(r),
            final(self).room() ==> forall|env: spec_fn(VID) -> bool| #[trigger] final(self).value(r, env)
                == (final(self).value(x, env) != final(self).value(y, env)),
        decreases max_depth(x, y), (if depth(x) < depth(y) { 2int } else { 0int }),
    {
        let ghost s0 = self.nodes@;
        proof {
            lemma_fetch(s0, x);
            lemma_fetch(s0, y);
        }
        let xv = x.vid();
        let yv = y.vid();
        match xv.cmp_depth(&yv) {
            VidOrdering::Above => {
                let f = self.fetch(x);
                let lo = self.xor(f.lo, y);
                let ghost s1 = self.nodes@;
                proof { lemma_keep(s0, s1, f.hi); }
                let r = self.vhl(f.v, f.hi, lo);
                proof {
                    let s2 = self.nodes@;
                    lemma_prefix_trans(s0, s1, s2);
                    lemma_keep(s0, s2, x);
                    lemma_keep(s0, s2, y);
                    lemma_keep(s0, s2, f.hi);
                    lemma_keep(s0, s2, f.lo);
                    lemma_keep(s1, s2, lo);
                    lemma_keep(s0, s1, f.lo);
                    lemma_keep(s0, s1, y);
                    if s2.len() < MAX_NODES {
                        assert forall|env: spec_fn(VID) -> bool| #[trigger] value(s2, r, env)
                            == (value(s2, x, env) != value(s2, y, env)) by {
                            assert(value(s1, lo, env) == (value(s1, f.lo, env) != value(s1, y, env)));
                            assert(value(s0, x, env) == ((env(f.v) && value(s0, f.hi, env)) != value(s0, f.lo, env)));
                        }
                    }
                }
                r
            },
            VidOrdering::Below => {
                self.xor(y, x)
            },
            VidOrdering::Level => {
                proof { lemma_depth_inj(xv, yv); }
                let fx = self.fetch(x);
                let fy = self.fetch(y);
                let hi = self.xor(fx.hi, fy.hi);
                let ghost s1 = self.nodes@;
                proof {
                    lemma_keep(s0, s1, fx.lo);
                    lemma_keep(s0, s1, fy.lo);
                }
                let lo = self.xor(fx.lo, fy.lo);
                let ghost s2 = self.nodes@;
                proof { lemma_keep(s1, s2, hi); }
                let r = self.vhl(fx.v, hi, lo);
                proof {
                    let s3 = self.nodes@;
                    lemma_prefix_trans(s0, s1, s2);
                    lemma_prefix_trans(s0, s2, s3);
                    lemma_prefix_trans(s1, s2, s3);
                    lemma_keep(s0, s3, x);
                    lemma_keep(s0, s3, y);
                    lemma_keep(s0, s3, fx.hi);
                    lemma_keep(s0, s3, fx.lo);
                    lemma_keep(s0, s3, fy.hi);
                    lemma_keep(s0, s3, fy.lo);
                    lemma_keep(s1, s3, hi);
                    lemma_keep(s2, s3, lo);
                    lemma_keep(s0, s1, fx.hi);
                    lemma_keep(s0, s1, fy.hi);
                    lemma_keep(s0, s2, fx.lo);
                    lemma_keep(s0, s2, fy.lo);
                    if s3.len() < MAX_NODES {
                        assert forall|env: spec_fn(VID) -> bool| #[trigger] value(s3, r, env)
                            == (value(s3, x, env) != value(s3, y, env)) by {
                            assert(value(s1, hi, env) == (value(s1, fx.hi, env) != value(s1, fy.hi, env)));
                            assert(value(s2, lo, env) == (value(s2, fx.lo, env) != value(s2, fy.lo, env)));
                            assert(value(s0, x, env) == ((env(fx.v) && value(s0, fx.hi, env)) != value(s0, fx.lo, env)));
                            assert(value(s0, y, env) == ((env(fy.v) && value(s0, fy.hi, env)) != value(s0, fy.lo, env)));
                        }
                    }
                }
                r
            },
        }
    }
}


impl ANFBase {
    /// `x AND y`.
    pub fn and(&mut self, x: NID, y: NID) -> (r: NID)
        requires old(self).wf(), old(self).valid(x), old(self).valid(y),
        ensures
            final(self).wf(), final(self).grows(&*old(self)), final(self).valid(r),
            depth(r) <= max_depth(x, y),
            is_inv(r) == (is_inv(x) && is_inv(y)),
            final(self).room() ==> forall|env: spec_fn(VID) -> bool| #[trigger] final(self).value(r, env)
                == (final(self).value(x, env) && final(self).value(y, env)),
        decreases max_depth(x, y), at_top(x, y), 4 * n_inv(x, y) + (if depth(x) < depth(y) { 3int } else { 1int }),
    {
        let ghost s0 = self.nodes@;
        proof {
            lemma_consts();
            lemma_inv(x);
            lemma_inv(y);
            lemma_ok_inv(s0, x);
            lemma_ok_inv(s0, y);
            assert(prefix(s0, s0)) by { assert(s0 =~= s0.take(s0.len() as int)); }
        }
        match simp::and(x, y) {
            Some(n) => {
                proof {
                    assert forall|env: spec_fn(VID) -> bool| #[trigger] value(s0, n, env)
                        == (value(s0, x, env) && value(s0, y, env)) by {
                        lemma_value_inv(s0, x, env);
                        lemma_value_inv(s0, y, env);
                    }
                }
                n
            },
            None => {
                let a = x.raw();
                let b = y.raw();
                proof {
                    if x.n & T != 0 { lemma_const_ok(s0, x); }
                    if y.n & T != 0 { lemma_const_ok(s0, y); }
                    assert forall|env: spec_fn(VID) -> bool| #[trigger] value(s0, a, env)
                        == (value(s0, x, env) != is_inv(x)) && value(s0, b, env) == (value(s0, y, env) != is_inv(y)) by {
                        lemma_value_inv(s0, a, env);
                        lemma_value_inv(s0, b, env);
                    }
                }
                if x.is_inv() {
                    if y.is_inv() {
                        let ab = self.and(a, b);
                        let ghost s1 = self.nodes@;
                        proof { lemma_keep(s0, s1, b); lemma_keep(s0, s1, a); }
                        let t1 = self.xor(ab, b);
                        let ghost s2 = self.nodes@;
                        proof { lemma_prefix_trans(s0, s1, s2); lemma_keep(s0, s2, a); }
                        let t2 = self.xor(a, t1);
                        let ghost s3 = self.nodes@;
                        proof { lemma_prefix_trans(s0, s2, s3); lemma_keep(s0, s3, nid_i()); }
                        let r = self.xor(NID::i(), t2);
                        proof {
                            let s4 = self.nodes@;
                            lemma_prefix_trans(s0, s3, s4);
                            lemma_prefix_trans(s1, s2, s3);
                            lemma_prefix_trans(s1, s3, s4);
                            lemma_prefix_trans(s2, s3, s4);
                            lemma_keep(s0, s4, x); lemma_keep(s0, s4, y); lemma_keep(s0, s4, a); lemma_keep(s0, s4, b);
                            lemma_keep(s0, s1, x); lemma_keep(s0, s1, y);
                            lemma_keep(s0, s2, b);
                            lemma_keep(s1, s4, ab); lemma_keep(s2, s4, t1); lemma_keep(s3, s4, t2);
                            lemma_keep(s1, s2, ab); lemma_keep(s2, s3, t1);
                            lemma_keep(s0, s3, a);
                            if s4.len() < MAX_NODES {
                                assert forall|env: spec_fn(VID) -> bool| #[trigger] value(s4, r, env)
                                    == (value(s4, x, env) && value(s4, y, env)) by {
                                    assert(value(s1, ab, env) == (value(s1, a, env) && value(s1, b, env)));
                                    assert(value(s2, t1, env) == (value(s2, ab, env) != value(s2, b, env)));
                                    assert(value(s3, t2, env) == (value(s3, a, env) != value(s3, t1, env)));
                                    assert(value(s4, r, env) == (value(s4, nid_i(), env) != value(s4, t2, env)));
                                    assert(value(s0, a, env) == (value(s0, x, env) != is_inv(x)));
                                    assert(value(s0, b, env) == (value(s0, y, env) != is_inv(y)));
                                }
                            }
                        }
                        r
                    } else {
                        let ab = self.and(a, b);
                        let ghost s1 = self.nodes@;
                        proof { lemma_keep(s0, s1, b); }
                        let r = self.xor(ab, b);
                        proof {
                            let s2 = self.nodes@;
                            lemma_prefix_trans(s0, s1, s2);
                            lemma_keep(s0, s2, x); lemma_keep(s0, s2, y); lemma_keep(s0, s2, a); lemma_keep(s0, s2, b);
                            lemma_keep(s0, s1, a);
                            lemma_keep(s1, s2, ab);
                            if s2.len() < MAX_NODES {
                                assert forall|env: spec_fn(VID) -> bool| #[trigger] value(s2, r, env)
                                    == (value(s2, x, env) && value(s2, y, env)) by {
                                    assert(value(s1, ab, env) == (value(s1, a, env) && value(s1, b, env)));
                                    assert(value(s0, a, env) == (value(s0, x, env) != is_inv(x)));
                                    assert(value(s0, b, env) == (value(s0, y, env) != is_inv(y)));
                                }
                            }
                        }
                        r
                    }
                } else if y.is_inv() {
                    let ab = self.and(a, b);
                    let ghost s1 = self.nodes@;
                    proof { lemma_keep(s0, s1, a); }
                    let r = self.xor(ab, a);
                    proof {
                        let s2 = self.nodes@;
                        lemma_prefix_trans(s0, s1, s2);
                        lemma_keep(s0, s2, x); lemma_keep(s0, s2, y); lemma_keep(s0, s2, a); lemma_keep(s0, s2, b);
                        lemma_keep(s0, s1, b);
                        lemma_keep(s1, s2, ab);
                        if s2.len() < MAX_NODES {
                            assert forall|env: spec_fn(VID) -> bool| #[trigger] value(s2, r, env)
                                == (value(s2, x, env) && value(s2, y, env)) by {
                                assert(value(s1, ab, env) == (value(s1, a, env) && value(s1, b, env)));
                                assert(value(s0, a, env) == (value(s0, x, env) != is_inv(x)));
                                assert(value(s0, b, env) == (value(s0, y, env) != is_inv(y)));
                            }
                        }
                    }
                    r
                } else {
                    self.calc_and(x, y)
                }
            },
        }
    }

    /// `x AND y` for two nids that are neither constants nor inverted.
    fn calc_and(&mut self, x: NID, y: NID) -> (r: NID)
        requires
            old(self).wf(), old(self).valid(x), old(self).valid(y),
            x.n & T == 0, y.n & T == 0, !is_inv(x), !is_inv(y),
        ensures
            final(self).wf(), final(self).grows(&*old(self)), final(self).valid(r),
            depth(r) <= max_depth(x, y), !is_inv(r),
            final(self).room() ==> forall|env: spec_fn(VID) -> bool| #[trigger] final(self).value(r, env)
                == (final(self).value(x, env) && final(self).value(y, env)),
        decreases max_depth(x, y), at_top(x, y), (if depth(x) < depth(y) { 2int } else { 0int }),
    {
        let ghost s0 = self.nodes@;
        proof {
            lemma_consts();
            lemma_fetch(s0, x);
            lemma_fetch(s0, y);
        }
        let xv = x.vid();
        let yv = y.vid();
        match xv.cmp_depth(&yv) {
            VidOrdering::Above => {
                if x.is_vid() {
                    let r = self.vhl(xv, y, NID::o());
                    proof {
                        let s1 = self.nodes@;
                        lemma_keep(s0, s1, x);
                        lemma_keep(s0, s1, y);
                        lemma_keep(s0, s1, nid_o());
                        if s1.len() < MAX_NODES {
                            assert forall|env: spec_fn(VID) -> bool| #[trigger] value(s1, r, env)
                                == (value(s1, x, env) && value(s1, y, env)) by {
                                assert(value(s0, x, env) == ((env(xv) && value(s0, nid_i(), env)) != value(s0, nid_o(), env)));
                            }
                        }
                    }
                    r
                } else {
                    let f = self.fetch(x);
                    let hi = self.and(f.hi, y);
                    let ghost s1 = self.nodes@;
                    proof { lemma_keep(s0, s1, f.lo); lemma_keep(s0, s1, y); }
                    let lo = self.and(f.lo, y);
                    let ghost s2 = self.nodes@;
                    proof { lemma_keep(s1, s2, hi); }
                    let r = self.vhl(f.v, hi, lo);
                    proof {
                        let s3 = self.nodes@;
                        lemma_prefix_trans(s0, s1, s2);
                        lemma_prefix_trans(s0, s2, s3);
                        lemma_prefix_trans(s1, s2, s3);
                        lemma_keep(s0, s3, x); lemma_keep(s0, s3, y);
                        lemma_keep(s0, s3, f.hi); lemma_keep(s0, s3, f.lo);
                        lemma_keep(s0, s1, f.hi);
                        lemma_keep(s0, s2, f.lo); lemma_keep(s0, s2, y);
                        lemma_keep(s1, s3, hi); lemma_keep(s2, s3, lo);
                        if s3.len() < MAX_NODES {
                            assert forall|env: spec_fn(VID) -> bool| #[trigger] value(s3, r, env)
                                == (value(s3, x, env) && value(s3, y, env)) by {
                                assert(value(s1, hi, env) == (value(s1, f.hi, env) && value(s1, y, env)));
                                assert(value(s2, lo, env) == (value(s2, f.lo, env) && value(s2, y, env)));
                                assert(value(s0, x, env) == ((env(f.v) && value(s0, f.hi, env)) != value(s0, f.lo, env)));
                            }
                        }
                    }
                    r
                }
            },
            VidOrdering::Below => {
                self.and(y, x)
            },
            VidOrdering::Level => {
                proof { lemma_depth_inj(xv, yv); }
                let fx = self.fetch(x);
                let fy = self.fetch(y);
                let (a, b, c) = (fx.v, fx.hi, fx.lo);
                let (q, r) = (fy.hi, fy.lo);
                let cr = self.and(c, r);
                let ghost s1 = self.nodes@;
                proof { lemma_keep(s0, s1, c); lemma_keep(s0, s1, q); lemma_keep(s0, s1, r); }
                let cq = self.and(c, q);
                let ghost s2 = self.nodes@;
                proof { lemma_prefix_trans(s0, s1, s2); lemma_keep(s0, s2, q); lemma_keep(s0, s2, r); }
                let qxr = self.xor(q, r);
                let ghost s3 = self.nodes@;
                proof { lemma_prefix_trans(s0, s2, s3); lemma_keep(s0, s3, b); }
                let n = NID::from_vid(a);
                proof { lemma_plain_nids(a, 0); }
                let bq = self.and(b, qxr);
                let ghost s4 = self.nodes@;
                proof { lemma_prefix_trans(s2, s3, s4); lemma_keep(s2, s4, cq); }
                let t = self.xor(bq, cq);
                let ghost s5 = self.nodes@;
                let nt = self.and(n, t);
                let ghost s6 = self.nodes@;
                proof {
                    lemma_prefix_trans(s1, s2, s3);
                    lemma_prefix_trans(s1, s3, s4);
                    lemma_prefix_trans(s1, s4, s5);
                    lemma_prefix_trans(s1, s5, s6);
                    lemma_keep(s1, s6, cr);
                }
                let res = self.xor(nt, cr);
                proof {
                    let s7 = self.nodes@;
                    lemma_prefix_trans(s0, s3, s4);
                    lemma_prefix_trans(s0, s4, s5);
                    lemma_prefix_trans(s0, s5, s6);
                    lemma_prefix_trans(s0, s6, s7);
                    lemma_prefix_trans(s1, s6, s7);
                    lemma_prefix_trans(s2, s4, s5);
                    lemma_prefix_trans(s3, s4, s5);
                    lemma_prefix_trans(s4, s5, s6);
                    lemma_prefix_trans(s5, s6, s7);
                    lemma_prefix_trans(s2, s5, s7);
                    lemma_prefix_trans(s3, s5, s7);
                    lemma_prefix_trans(s4, s6, s7);
                    lemma_keep(s0, s7, x); lemma_keep(s0, s7, y);
                    lemma_keep(s0, s1, b); lemma_keep(s0, s2, c);
                    lemma_keep(s0, s3, q); lemma_keep(s0, s3, r);
                    lemma_keep(s1, s7, cr); lemma_keep(s2, s7, cq); lemma_keep(s3, s7, qxr);
                    lemma_keep(s4, s7, bq); lemma_keep(s5, s7, t); lemma_keep(s6, s7, nt);
                    lemma_keep(s2, s5, cq); lemma_keep(s3, s4, qxr); lemma_keep(s4, s5, bq);
                    lemma_keep(s5, s6, t); lemma_keep(s1, s6, cr);
                    lemma_keep(s0, s7, b); lemma_keep(s0, s7, c); lemma_keep(s0, s7, q); lemma_keep(s0, s7, r);
                    lemma_keep(s0, s4, b);
                    if s7.len() < MAX_NODES {
                        assert forall|env: spec_fn(VID) -> bool| #[trigger] value(s7, res, env)
                            == (value(s7, x, env) && value(s7, y, env)) by {
                            assert(value(s1, cr, env) == (value(s1, c, env) && value(s1, r, env)));
                            assert(value(s2, cq, env) == (value(s2, c, env) && value(s2, q, env)));
                            assert(value(s3, qxr, env) == (value(s3, q, env) != value(s3, r, env)));
                            assert(value(s4, bq, env) == (value(s4, b, env) && value(s4, qxr, env)));
                            assert(value(s5, t, env) == (value(s5, bq, env) != value(s5, cq, env)));
                            assert(value(s6, nt, env) == (value(s6, n, env) && value(s6, t, env)));
                            assert(value(s7, res, env) == (value(s7, nt, env) != value(s7, cr, env)));
                            assert(value(s6, n, env) == env(a));
                            assert(value(s0, x, env) == ((env(a) && value(s0, b, env)) != value(s0, c, env)));
                            assert(value(s0, y, env) == ((env(a) && value(s0, q, env)) != value(s0, r, env)));
                        }
                    }
                }
                res
            },
        }
    }

    /// `x OR y`.
    pub fn or(&mut self, x: NID, y: NID) -> (r: NID)
        requires old(self).wf(), old(self).valid(x), old(self).valid(y),
        ensures
            final(self).wf(), final(self).grows(&*old(self)), final(self).valid(r),
            depth(r) <= max_depth(x, y),
            is_inv(r) == (is_inv(x) || is_inv(y)),
            final(self).room() ==> forall|env: spec_fn(VID) -> bool| #[trigger] final(self).value(r, env)
                == (final(self).value(x, env) || final(self).value(y, env)),
    {
        let ghost s0 = self.nodes@;
        proof {
            lemma_consts();
            lemma_inv(x);
            lemma_inv(y);
            assert(prefix(s0, s0)) by { assert(s0 =~= s0.take(s0.len() as int)); }
        }
        match simp::or(x, y) {
            Some(n) => {
                proof {
                    lemma_ok_inv(s0, x);
                    assert forall|env: spec_fn(VID) -> bool| #[trigger] value(s0, n, env)
                        == (value(s0, x, env) || value(s0, y, env)) by {
                        lemma_value_inv(s0, x, env);
                        lemma_value_inv(s0, y, env);
                    }
                }
                n
            },
            None => {
                let xy = self.and(x, y);
                let ghost s1 = self.nodes@;
                proof { lemma_keep(s0, s1, x); lemma_keep(s0, s1, y); }
                let xxy = self.xor(x, y);
                let ghost s2 = self.nodes@;
                proof { lemma_keep(s1, s2, xy); }
                let r = self.xor(xy, xxy);
                proof {
                    let s3 = self.nodes@;
                    lemma_prefix_trans(s0, s1, s2);
                    lemma_prefix_trans(s0, s2, s3);
                    lemma_prefix_trans(s1, s2, s3);
                    lemma_keep(s0, s3, x); lemma_keep(s0, s3, y);
                    lemma_keep(s0, s2, x); lemma_keep(s0, s2, y);
                    lemma_keep(s1, s3, xy); lemma_keep(s2, s3, xxy);
                    if s3.len() < MAX_NODES {
                        assert forall|env: spec_fn(VID) -> bool| #[trigger] value(s3, r, env)
                            == (value(s3, x, env) || value(s3, y, env)) by {
                            assert(value(s1, xy, env) == (value(s1, x, env) && value(s1, y, env)));
                            assert(value(s2, xxy, env) == (value(s2, x, env) != value(s2, y, env)));
                        }
                    }
                }
                r
            },
        }
    }
}


impl ANFBase {
    /// Substitute node `n` for variable `v` in `ctx`.
    pub fn sub(&mut self, v: VID, n: NID, ctx: NID) -> (r: NID)
        requires old(self).wf(), old(self).valid(n), old(self).valid(ctx),
        ensures
            final(self).wf(), final(self).grows(&*old(self)), final(self).valid(r),
            final(self).room() ==> forall|env: spec_fn(VID) -> bool| #[trigger] final(self).value(r, env)
                == final(self).value(ctx, env_set(env, v, final(self).value(n, env))),
        decreases depth(ctx),
    {
        let ghost s0 = self.nodes@;
        proof {
            lemma_consts();
            assert(prefix(s0, s0)) by { assert(s0 =~= s0.take(s0.len() as int)); }
        }
        let cv = ctx.vid();
        if ctx.might_depend_on(v) {
            proof { lemma_fetch(s0, ctx); }
            let x = self.fetch(ctx);
            let hi = x.hi;
            let lo = x.lo;
            if v == cv {
                let nh = self.and(n, hi);
                let ghost s1 = self.nodes@;
                proof { lemma_keep(s0, s1, lo); }
                let r = self.xor(nh, lo);
                proof {
                    let s2 = self.nodes@;
                    lemma_prefix_trans(s0, s1, s2);
                    lemma_keep(s0, s2, n); lemma_keep(s0, s2, ctx); lemma_keep(s0, s2, hi); lemma_keep(s0, s2, lo);
                    lemma_keep(s0, s1, n); lemma_keep(s0, s1, hi);
                    lemma_keep(s1, s2, nh);
                    if s2.len() < MAX_NODES {
                        assert forall|env: spec_fn(VID) -> bool| #[trigger] value(s2, r, env)
                            == value(s2, ctx, env_set(env, v, value(s2, n, env))) by {
                            let e2 = env_set(env, v, value(s2, n, env));
                            lemma_support(s0, hi, env, e2);
                            lemma_support(s0, lo, env, e2);
                            assert(value(s1, nh, env) == (value(s1, n, env) && value(s1, hi, env)));
                            assert(value(s0, ctx, e2) == ((e2(cv) && value(s0, hi, e2)) != value(s0, lo, e2)));
                        }
                    }
                }
                r
            } else {
                let rhi = self.sub(v, n, hi);
                let ghost s1 = self.nodes@;
                proof { lemma_keep(s0, s1, lo); lemma_keep(s0, s1, n); }
                let rlo = self.sub(v, n, lo);
                let ghost s2 = self.nodes@;
                proof { crate::nidtext::lemma_plain_bits(cv); lemma_plain_nids(cv, 0); lemma_keep(s1, s2, rhi); }
                let top = NID::from_vid(cv);
                let th = self.and(top, rhi);
                let ghost s3 = self.nodes@;
                proof { lemma_keep(s2, s3, rlo); }
                let r = self.xor(th, rlo);
                proof {
                    let s4 = self.nodes@;
                    lemma_prefix_trans(s0, s1, s2);
                    lemma_prefix_trans(s0, s2, s3);
                    lemma_prefix_trans(s0, s3, s4);
                    lemma_prefix_trans(s1, s2, s3);
                    lemma_prefix_trans(s1, s3, s4);
                    lemma_prefix_trans(s2, s3, s4);
                    lemma_keep(s0, s4, n); lemma_keep(s0, s4, ctx); lemma_keep(s0, s4, hi); lemma_keep(s0, s4, lo);
                    lemma_keep(s0, s1, hi); lemma_keep(s0, s2, n); lemma_keep(s0, s2, lo);
                    lemma_keep(s1, s4, rhi); lemma_keep(s2, s4, rlo); lemma_keep(s3, s4, th);
                    lemma_keep(s1, s3, rhi); lemma_keep(s2, s3, rlo);
                    if s4.len() < MAX_NODES {
                        assert forall|env: spec_fn(VID) -> bool| #[trigger] value(s4, r, env)
                            == value(s4, ctx, env_set(env, v, value(s4, n, env))) by {
                            let e2 = env_set(env, v, value(s4, n, env));
                            assert(value(s1, rhi, env) == value(s1, hi, env_set(env, v, value(s1, n, env))));
                            assert(value(s2, rlo, env) == value(s2, lo, env_set(env, v, value(s2, n, env))));
                            assert(value(s3, th, env) == (value(s3, top, env) && value(s3, rhi, env)));
                            assert(value(s3, top, env) == env(cv));
                            assert(value(s0, ctx, e2) == ((e2(cv) && value(s0, hi, e2)) != value(s0, lo, e2)));
                        }
                    }
                }
                r
            }
        } else {
            proof {
                if ctx.n & T == 0 {
                    lemma_ok_shape(s0, ctx);
                    assert forall|env: spec_fn(VID) -> bool| #[trigger] value(s0, ctx, env)
                        == value(s0, ctx, env_set(env, v, value(s0, n, env))) by {
                        let e2 = env_set(env, v, value(s0, n, env));
                        if ctx.n & VAR == 0 {
                            assert(depth(ctx) < depth_key(v)) by {
                                if depth(ctx) == depth_key(v) { lemma_depth_inj(cv, v); }
                            }
                            lemma_support(s0, ctx, env, e2);
                        }
                    }
                }
            }
            ctx
        }
    }
}

impl HiLoBase for ANFBase {
    /// The branches of a variable or of a nid whose index names a stored
    /// node, as `fetch` gives them (none for the constants or an index
    /// past the stored nodes).
    open spec fn branches(&self, n: NID) -> Option<HiLo> {
        if n.n & T != 0 {
            None
        } else if n.n & VAR != 0 || ix(n) < self.nodes().len() {
            Some(HiLo { hi: fetch_spec(self.nodes(), n).hi, lo: fetch_spec(self.nodes(), n).lo })
        } else {
            None
        }
    }

    fn get_hilo(&self, n: NID) -> (r: Option<HiLo>) {
        if n.is_const() {
            None
        } else if n.is_vid() {
            Some(HiLo { hi: NID::i(), lo: if n.is_inv() { NID::i() } else { NID::o() } })
        } else if n.idx() < self.nodes.len() {
            let nd = self.nodes[n.idx()];
            Some(HiLo { hi: nd.hi, lo: if n.is_inv() { negate(nd.lo) } else { nd.lo } })
        } else {
            None
        }
    }
}

} // verus!
