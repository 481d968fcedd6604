//! Abstract syntax trees (simple logic combinators).
use vstd::prelude::*;
use crate::nid::{NID, F, T, VAR, INV, IDX_MASK, NOVAR, vid_bits_spec, nid_o, nid_i};
use crate::vid::VID;
use crate::ops::{self, Ops};
use crate::tags::Names;
use crate::base::{Base, Simplify, Call};
use crate::simp;
use crate::nidtext::nid_text;
use crate::vid::vid_text;
use std::collections::HashSet;

verus! {

broadcast use vstd::std_specs::hash::group_hash_axioms;

/// Most nodes a base can hold (node indices are 32 bits).
pub const CAP: usize = 0xFFFF_FFFF;

/// Is `n` a node with no variable (an index into a base)?
pub open spec fn is_ixn_spec(n: NID) -> bool {
    n.n & (F | T | VAR) == 0 && vid_bits_spec(n.n) == NOVAR
}

pub open spec fn idx_of(n: NID) -> nat {
    (n.n & IDX_MASK) as nat
}

/// The nid of node `i` of a base.
pub open spec fn ixn_spec(i: nat) -> NID {
    NID { n: ((NOVAR << 32) + i) as u64 }
}

/// `n` may appear in a base of `len` nodes: a constant, a variable, a
/// table, or one of the first `len` nodes.
pub open spec fn ref_ok(n: NID, len: nat) -> bool {
    n.n & T != 0 || n.n & VAR != 0 || n.n & F == F || (is_ixn_spec(n) && idx_of(n) < len)
}

/// Every item of `o` may appear in a base of `len` nodes.
pub open spec fn node_ok(o: Ops, len: nat) -> bool {
    forall|k: int| 0 <= k < o.items().len() ==> #[trigger] ref_ok(o.items()[k], len)
}

pub proof fn lemma_ixn(i: u64)
    requires i <= 0xFFFF_FFFF,
    ensures
        is_ixn_spec(ixn_spec(i as nat)),
        idx_of(ixn_spec(i as nat)) == i,
        ixn_spec(i as nat).n & INV == 0,
        ixn_spec(i as nat).n & T == 0,
        ixn_spec(i as nat).n & VAR == 0,
        ixn_spec(i as nat).n & F != F,
{
    crate::bits::lemma_constants();
    assert(i <= 0xFFFF_FFFFu64 ==> ({
        let n = (0x0400_0000_0000_0000u64 + i) as u64;
        &&& n & (0x0800_0000_0000_0000u64 | 0x2000_0000_0000_0000u64 | 0x4000_0000_0000_0000u64) == 0
        &&& (n & !(0x8000_0000_0000_0000u64 | 0x4000_0000_0000_0000u64)) >> 32u64 == 0x0400_0000u64
        &&& n & 0xFFFF_FFFFu64 == i
        &&& n & 0x8000_0000_0000_0000u64 == 0
        &&& n & 0x2000_0000_0000_0000u64 == 0
        &&& n & 0x4000_0000_0000_0000u64 == 0
        &&& n & 0x0800_0000_0000_0000u64 != 0x0800_0000_0000_0000u64
    })) by (bit_vector);
}

/// Inverting a nid keeps it an index node (or not), with the same index.
pub proof fn lemma_ixn_not(n: NID)
    ensures
        is_ixn_spec(simp::not_spec(n)) == is_ixn_spec(n),
        idx_of(simp::not_spec(n)) == idx_of(n),
        ref_ok(simp::not_spec(n), 0) == ref_ok(n, 0),
        forall|len: nat| ref_ok(simp::not_spec(n), len) == ref_ok(n, len),
{
    crate::nid::lemma_neg_fields(n);
    let a = n.n;
    assert((a ^ 0x8000_0000_0000_0000u64) & (0x0800_0000_0000_0000u64 | 0x2000_0000_0000_0000u64 | 0x4000_0000_0000_0000u64)
        == a & (0x0800_0000_0000_0000u64 | 0x2000_0000_0000_0000u64 | 0x4000_0000_0000_0000u64)) by (bit_vector);
}

/// An index node has none of the table, constant and variable flags.
pub proof fn lemma_ixn_bits(n: NID)
    ensures is_ixn_spec(n) ==> n.n & F != F && n.n & T == 0 && n.n & VAR == 0,
{
    let a = n.n;
    assert(a & (0x0800_0000_0000_0000u64 | 0x2000_0000_0000_0000u64 | 0x4000_0000_0000_0000u64) == 0 ==>
        a & 0x0800_0000_0000_0000u64 != 0x0800_0000_0000_0000u64 && a & 0x2000_0000_0000_0000u64 == 0
        && a & 0x4000_0000_0000_0000u64 == 0) by (bit_vector);
}

/// The list of items of an expression, copied.
pub fn copy_ops(o: &Ops) -> (r: Ops)
    ensures r.items() == o.items(),
{
    ops::rpn(o.to_rpn().as_slice())
}

fn same_items(a: &Vec<NID>, b: &Vec<NID>) -> (r: bool)
    ensures r == (a@ == b@),
{
    if a.len() != b.len() { return false; }
    let mut i: usize = 0;
    while i < a.len()
        invariant i <= a@.len() == b@.len(), forall|j: int| 0 <= j < i ==> a@[j] == b@[j],
        decreases a@.len() - i,
    {
        if a[i] != b[i] { return false; }
        i = i + 1;
    }
    assert(a@ =~= b@);
    true
}

// ---- the expression cache: expressions (by their items) to nids ----

/// The map that a list of expressions and a list of nids make (a later entry
/// for the same expression wins).
pub open spec fn ops_map(keys: Seq<Ops>, vals: Seq<NID>) -> Map<Seq<NID>, NID>
    decreases keys.len(),
{
    if keys.len() == 0 {
        Map::empty()
    } else {
        ops_map(keys.drop_last(), vals).insert(keys.last().items(), vals[keys.len() - 1])
    }
}

proof fn lemma_ops_map_absent(keys: Seq<Ops>, vals: Seq<NID>, k: Seq<NID>)
    requires forall|i: int| 0 <= i < keys.len() ==> keys[i].items() != k,
    ensures !ops_map(keys, vals).contains_key(k),
    decreases keys.len(),
{
    if keys.len() > 0 {
        lemma_ops_map_absent(keys.drop_last(), vals, k);
    }
}

proof fn lemma_ops_map_at(keys: Seq<Ops>, vals: Seq<NID>, i: int)
    requires
        0 <= i < keys.len(),
        forall|a: int, b: int| 0 <= a < b < keys.len() ==> keys[a].items() != keys[b].items(),
    ensures
        ops_map(keys, vals).contains_key(keys[i].items()),
        ops_map(keys, vals)[keys[i].items()] == vals[i],
    decreases keys.len(),
{
    if i < keys.len() - 1 {
        lemma_ops_map_at(keys.drop_last(), vals, i);
    }
}

proof fn lemma_ops_map_same(keys: Seq<Ops>, a: Seq<NID>, b: Seq<NID>)
    requires forall|j: int| 0 <= j < keys.len() ==> a[j] == b[j],
    ensures ops_map(keys, a) == ops_map(keys, b),
    decreases keys.len(),
{
    if keys.len() > 0 {
        lemma_ops_map_same(keys.drop_last(), a, b);
    }
}

proof fn lemma_ops_map_update(keys: Seq<Ops>, vals: Seq<NID>, i: int, v: NID)
    requires
        0 <= i < keys.len() <= vals.len(),
        forall|a: int, b: int| 0 <= a < b < keys.len() ==> keys[a].items() != keys[b].items(),
    ensures ops_map(keys, vals.update(i, v)) == ops_map(keys, vals).insert(keys[i].items(), v),
    decreases keys.len(),
{
    let n = keys.len();
    if i == n - 1 {
        lemma_ops_map_absent(keys.drop_last(), vals, keys[i].items());
        lemma_ops_map_absent(keys.drop_last(), vals.update(i, v), keys[i].items());
        lemma_ops_map_same(keys.drop_last(), vals, vals.update(i, v));
        assert(ops_map(keys, vals.update(i, v)) =~= ops_map(keys, vals).insert(keys[i].items(), v));
    } else {
        lemma_ops_map_update(keys.drop_last(), vals, i, v);
        assert(ops_map(keys, vals.update(i, v)) =~= ops_map(keys, vals).insert(keys[i].items(), v));
    }
}

/// A cache from expressions to the nids made for them.
pub struct OpsMap {
    keys: Vec<Ops>,
    vals: Vec<NID>,
}

impl OpsMap {
    pub closed spec fn wf(&self) -> bool {
        &&& self.keys@.len() == self.vals@.len()
        &&& forall|a: int, b: int| 0 <= a < b < self.keys@.len() ==> self.keys@[a].items() != self.keys@[b].items()
    }

    pub closed spec fn map(&self) -> Map<Seq<NID>, NID> {
        ops_map(self.keys@, self.vals@)
    }

    pub fn new() -> (r: OpsMap)
        ensures r.wf(), r.map() == Map::<Seq<NID>, NID>::empty(),
    {
        OpsMap { keys: Vec::new(), vals: Vec::new() }
    }

    fn position(&self, o: &Ops) -> (r: Option<usize>)
        requires self.wf(),
        ensures
            match r {
                Some(i) => (i as int) < self.keys@.len() && self.keys@[i as int].items() == o.items(),
                None => forall|i: int| 0 <= i < self.keys@.len() ==> self.keys@[i].items() != o.items(),
            },
    {
        let mut i: usize = 0;
        while i < self.keys.len()
            invariant i <= self.keys@.len(), forall|j: int| 0 <= j < i ==> self.keys@[j].items() != o.items(),
            decreases self.keys@.len() - i,
        {
            if same_items(self.keys[i].to_rpn(), o.to_rpn()) {
                return Some(i);
            }
            i = i + 1;
        }
        None
    }

    /// The nid cached for the expression, if any.
    pub fn get(&self, o: &Ops) -> (r: Option<NID>)
        requires self.wf(),
        ensures r == if self.map().contains_key(o.items()) { Some(self.map()[o.items()]) } else { None::<NID> },
    {
        match self.position(o) {
            Some(i) => {
                proof { lemma_ops_map_at(self.keys@, self.vals@, i as int); }
                Some(self.vals[i])
            },
            None => {
                proof { lemma_ops_map_absent(self.keys@, self.vals@, o.items()); }
                None
            },
        }
    }

    /// Cache `n` for the expression (replacing any earlier entry).
    pub fn insert(&mut self, o: Ops, n: NID)
        requires old(self).wf(),
        ensures final(self).wf(), final(self).map() == old(self).map().insert(o.items(), n),
    {
        match self.position(&o) {
            Some(i) => {
                proof { lemma_ops_map_update(self.keys@, self.vals@, i as int, n); }
                self.vals.set(i, n);
            },
            None => {
                let ghost (ok, ov) = (self.keys@, self.vals@);
                self.keys.push(o);
                self.vals.push(n);
                proof {
                    assert(self.keys@.drop_last() =~= ok);
                    lemma_ops_map_same(ok, ov, self.vals@);
                }
            },
        }
    }
}

// ---- the base ----

/// An expression base that does not use extra simplification rules.
pub struct RawASTBase {
    /// All known nodes.
    pub bits: Vec<Ops>,
    /// Names given to nodes.
    pub tags: Names<NID>,
    /// Expression cache.
    pub hash: OpsMap,
    /// The calls made on this base through its `Base` operations.
    pub log: Ghost<Seq<Call>>,
}

/// The number of nodes that working out node `n` item by item may make:
/// one for each node reached through the items, counted once per path.
pub open spec fn tsize(bits: Seq<Ops>, n: NID) -> nat
    decreases idx_of(n), 1nat, 0nat,
{
    if is_ixn_spec(n) && idx_of(n) < bits.len() {
        1 + items_tsize(bits, bits[idx_of(n) as int].items(), idx_of(n), bits[idx_of(n) as int].items().len())
    } else {
        0
    }
}

/// `tsize` summed over the first `k` items (those below node `bound`).
pub open spec fn items_tsize(bits: Seq<Ops>, items: Seq<NID>, bound: nat, k: nat) -> nat
    decreases bound, 0nat, k,
{
    if k == 0 {
        0
    } else {
        let x = items[k - 1];
        items_tsize(bits, items, bound, (k - 1) as nat)
            + if x.n & F != F && is_ixn_spec(x) && idx_of(x) < bound { tsize(bits, x) } else { 0 }
    }
}

proof fn lemma_tsize_stable(b1: Seq<Ops>, b2: Seq<Ops>, n: NID)
    requires
        b1.len() <= b2.len(),
        forall|i: int| 0 <= i < b1.len() ==> b2[i] == b1[i],
        is_ixn_spec(n) ==> idx_of(n) < b1.len(),
    ensures tsize(b2, n) == tsize(b1, n),
    decreases idx_of(n), 1nat, 0nat,
{
    if is_ixn_spec(n) {
        let i = idx_of(n);
        lemma_items_tsize_stable(b1, b2, b1[i as int].items(), i, b1[i as int].items().len());
    }
}

proof fn lemma_items_tsize_stable(b1: Seq<Ops>, b2: Seq<Ops>, items: Seq<NID>, bound: nat, k: nat)
    requires
        b1.len() <= b2.len(), bound <= b1.len(), k <= items.len(),
        forall|i: int| 0 <= i < b1.len() ==> b2[i] == b1[i],
    ensures items_tsize(b2, items, bound, k) == items_tsize(b1, items, bound, k),
    decreases bound, 0nat, k,
{
    if k > 0 {
        lemma_items_tsize_stable(b1, b2, items, bound, (k - 1) as nat);
        let x = items[k - 1];
        if x.n & F != F && is_ixn_spec(x) && idx_of(x) < bound {
            lemma_tsize_stable(b1, b2, x);
        }
    }
}

impl RawASTBase {
    /// The base is well formed: each node refers only to nodes before it,
    /// and the cache only to nodes of the base.
    pub open spec fn wf(&self) -> bool {
        &&& self.bits@.len() <= CAP
        &&& self.tags.wf()
        &&& self.hash.wf()
        &&& forall|i: int| 0 <= i < self.bits@.len() ==> node_ok(#[trigger] self.bits@[i], i as nat)
        &&& forall|k: Seq<NID>| #[trigger] self.hash.map().contains_key(k) ==> ref_ok(self.hash.map()[k], self.bits@.len())
        &&& forall|k: Seq<NID>| #[trigger] self.hash.map().contains_key(k) ==> is_ixn_spec(self.hash.map()[k])
                && idx_of(self.hash.map()[k]) < self.bits@.len() && self.bits@[idx_of(self.hash.map()[k]) as int].items() == k
        &&& forall|k: Seq<char>| #[trigger] self.tags.map().contains_key(k) ==> ref_ok(self.tags.map()[k], self.bits@.len())
    }

    /// The expression cache, as a map.
    pub open spec fn cache(&self) -> Map<Seq<NID>, NID> {
        self.hash.map()
    }

    /// An empty base.
    pub fn empty() -> (r: RawASTBase)
        ensures
            r.wf(), r.bits@.len() == 0, r.tags.map() == Map::<Seq<char>, NID>::empty(),
            r.cache() == Map::<Seq<NID>, NID>::empty(), r.log@ == Seq::<Call>::empty(),
    {
        let t = Names::new();
        assert(t.map() == Map::<Seq<char>, NID>::empty());
        RawASTBase { bits: Vec::new(), tags: t, hash: OpsMap::new(), log: Ghost(Seq::empty()) }
    }

    /// The number of nodes.
    pub fn len(&self) -> (r: usize)
        ensures r == self.bits@.len(),
    {
        self.bits.len()
    }

    /// Does the base have no nodes?
    pub fn is_empty(&self) -> (r: bool)
        ensures r == (self.bits@.len() == 0),
    {
        self.bits.len() == 0
    }

    /// Add the expression as a new node (and cache it); returns its nid.
    pub fn push_raw_ops(&mut self, ops: Ops) -> (r: NID)
        requires old(self).wf(), node_ok(ops, old(self).bits@.len()), old(self).bits@.len() < CAP,
        ensures
            final(self).log == old(self).log,
            final(self).wf(),
            r == ixn_spec(old(self).bits@.len()),
            final(self).bits@ == old(self).bits@.push(ops),
            final(self).bits@.len() > 0,
            final(self).cache() == old(self).cache().insert(ops.items(), r),
            final(self).tags == old(self).tags,
    {
        let ix = self.bits.len();
        let nid = NID::ixn(ix);
        proof { lemma_ixn(ix as u64); }
        let key = copy_ops(&ops);
        self.bits.push(ops);
        self.hash.insert(key, nid);
        proof {
            assert forall|i: int| 0 <= i < self.bits@.len() implies node_ok(#[trigger] self.bits@[i], i as nat) by {
                if i < ix {
                    assert(self.bits@[i] == old(self).bits@[i]);
                    assert forall|k: int| 0 <= k < self.bits@[i].items().len() implies #[trigger] ref_ok(self.bits@[i].items()[k], i as nat) by {
                        assert(node_ok(old(self).bits@[i], i as nat));
                    }
                }
            }
            assert forall|k: Seq<NID>| #[trigger] self.hash.map().contains_key(k) implies ref_ok(self.hash.map()[k], self.bits@.len()) by {
                if k != ops.items() {
                    assert(old(self).hash.map().contains_key(k));
                }
            }
            assert forall|k: Seq<char>| #[trigger] self.tags.map().contains_key(k) implies ref_ok(self.tags.map()[k], self.bits@.len()) by {
                assert(old(self).tags.map().contains_key(k));
            }
        }
        nid
    }

    /// The node for the expression: the cached one, or a new one.
    fn nid(&mut self, ops: Ops) -> (r: NID)
        requires old(self).wf(), node_ok(ops, old(self).bits@.len()), old(self).bits@.len() < CAP,
        ensures
            final(self).log == old(self).log,
            final(self).wf(),
            made(*old(self), *final(self), ops.items(), r),
    {
        match self.hash.get(&ops) {
            Some(n) => n,
            None => {
                let ghost items = ops.items();
                let r = self.push_raw_ops(ops);
                assert(self.bits@.drop_last() =~= old(self).bits@);
                r
            },
        }
    }

    /// The expression of node `n`.
    pub fn get_ops(&self, n: NID) -> (r: &Ops)
        requires is_ixn_spec(n), idx_of(n) < self.bits@.len(),
        ensures *r == self.bits@[idx_of(n) as int],
    {
        &self.bits[n.idx()]
    }
}


/// `r` is the node for an expression with the given items: the cached one
/// (nothing changes), or a new last node (which is then cached).
pub open spec fn made(b0: RawASTBase, b1: RawASTBase, items: Seq<NID>, r: NID) -> bool {
    &&& b1.tags == b0.tags
    &&& b0.cache().contains_key(items) ==> r == b0.cache()[items] && b1.bits@ == b0.bits@ && b1.cache() == b0.cache()
    &&& !b0.cache().contains_key(items) ==> {
            &&& r == ixn_spec(b0.bits@.len())
            &&& b1.bits@.len() == b0.bits@.len() + 1
            &&& b1.bits@.drop_last() == b0.bits@
            &&& b1.bits@.last().items() == items
            &&& b1.cache() == b0.cache().insert(items, r)
        }
}

/// `b1` keeps the nodes of `b0` and may add more.
pub open spec fn grows(b0: RawASTBase, b1: RawASTBase) -> bool {
    &&& b0.bits@.len() <= b1.bits@.len()
    &&& forall|i: int| 0 <= i < b0.bits@.len() ==> #[trigger] b1.bits@[i] == b0.bits@[i]
}

proof fn lemma_made_grows(b0: RawASTBase, b1: RawASTBase, items: Seq<NID>, r: NID)
    requires made(b0, b1, items, r), b0.wf(), b1.wf(), b0.bits@.len() < CAP,
    ensures grows(b0, b1), b1.bits@.len() <= b0.bits@.len() + 1, ref_ok(r, b1.bits@.len()),
{
    if b0.cache().contains_key(items) {
    } else {
        lemma_ixn(b0.bits@.len() as u64);
        assert forall|i: int| 0 <= i < b0.bits@.len() implies #[trigger] b1.bits@[i] == b0.bits@[i] by {
            assert(b1.bits@.drop_last()[i] == b1.bits@[i]);
        }
    }
}

proof fn lemma_ref_grows(n: NID, a: nat, b: nat)
    requires ref_ok(n, a), a <= b,
    ensures ref_ok(n, b),
{
}

impl RawASTBase {
    /// AND of two nodes (constants folded; otherwise the node for `lo & hi`).
    pub fn and(&mut self, x: NID, y: NID) -> (r: NID)
        requires
            old(self).wf(), ref_ok(x, old(self).bits@.len()), ref_ok(y, old(self).bits@.len()),
            old(self).bits@.len() < CAP,
        ensures
            final(self).log == old(self).log,
            final(self).wf(),
            grows(*old(self), *final(self)), final(self).bits@.len() <= old(self).bits@.len() + 1,
            ref_ok(r, final(self).bits@.len()),
            simp::and_spec(x, y) matches Some(n) ==> r == n && *final(self) == *old(self),
            simp::and_spec(x, y) is None ==> made(*old(self), *final(self),
                if x.n < y.n { seq![x, y, ops::AND_spec()] } else { seq![y, x, ops::AND_spec()] }, r),
    {
        proof { crate::bits::lemma_constants(); }
        match simp::and(x, y) {
            Some(n) => n,
            None => {
                let (lo, hi) = if x.n < y.n { (x, y) } else { (y, x) };
                let o = ops::and(lo, hi);
                proof { crate::nid::lemma_fun_fields(111, 2, 1); }
                let r = self.nid(o);
                proof { lemma_made_grows(*old(self), *self, o.items(), r); }
                r
            },
        }
    }

    /// XOR of two nodes.
    pub fn xor(&mut self, x: NID, y: NID) -> (r: NID)
        requires
            old(self).wf(), ref_ok(x, old(self).bits@.len()), ref_ok(y, old(self).bits@.len()),
            old(self).bits@.len() < CAP,
        ensures
            final(self).log == old(self).log,
            final(self).wf(),
            grows(*old(self), *final(self)), final(self).bits@.len() <= old(self).bits@.len() + 1,
            ref_ok(r, final(self).bits@.len()),
            simp::xor_spec(x, y) matches Some(n) ==> r == n && *final(self) == *old(self),
            simp::xor_spec(x, y) is None ==> made(*old(self), *final(self),
                if x.n < y.n { seq![x, y, ops::XOR_spec()] } else { seq![y, x, ops::XOR_spec()] }, r),
    {
        proof {
            crate::bits::lemma_constants();
            lemma_ixn_not(x);
            lemma_ixn_not(y);
        }
        match simp::xor(x, y) {
            Some(n) => n,
            None => {
                let (lo, hi) = if x.n < y.n { (x, y) } else { (y, x) };
                let o = ops::xor(lo, hi);
                proof { crate::nid::lemma_fun_fields(111, 2, 6); }
                let r = self.nid(o);
                proof { lemma_made_grows(*old(self), *self, o.items(), r); }
                r
            },
        }
    }

    /// OR of two nodes. When both are inverted, this is the inverse of the
    /// AND of their inverses.
    pub fn or(&mut self, x: NID, y: NID) -> (r: NID)
        requires
            old(self).wf(), ref_ok(x, old(self).bits@.len()), ref_ok(y, old(self).bits@.len()),
            old(self).bits@.len() < CAP,
        ensures
            final(self).log == old(self).log,
            final(self).wf(),
            grows(*old(self), *final(self)), final(self).bits@.len() <= old(self).bits@.len() + 1,
            ref_ok(r, final(self).bits@.len()),
            simp::or_spec(x, y) matches Some(n) ==> r == n && *final(self) == *old(self),
            simp::or_spec(x, y) is None && x.n & INV != 0 && y.n & INV != 0 ==> made(*old(self), *final(self),
                if x.n < y.n { seq![simp::not_spec(x), simp::not_spec(y), ops::AND_spec()] }
                else { seq![simp::not_spec(y), simp::not_spec(x), ops::AND_spec()] }, simp::not_spec(r)),
            simp::or_spec(x, y) is None && !(x.n & INV != 0 && y.n & INV != 0) ==> made(*old(self), *final(self),
                if x.n < y.n { seq![x, y, ops::VEL_spec()] } else { seq![y, x, ops::VEL_spec()] }, r),
    {
        proof { crate::bits::lemma_constants(); }
        match simp::or(x, y) {
            Some(n) => n,
            None => {
                if x.is_inv() && y.is_inv() {
                    let (nx, ny) = (crate::nid::negate(x), crate::nid::negate(y));
                    proof {
                        crate::nid::lemma_neg_fields(x);
                        crate::nid::lemma_neg_fields(y);
                        lemma_ixn_not(x);
                        lemma_ixn_not(y);
                        crate::bits::lemma_word(x.n, 0);
                        crate::bits::lemma_word(y.n, 0);
                        assert(simp::and_spec(nx, ny) is None) by {
                            crate::nid::lemma_not_not(x);
                            crate::nid::lemma_not_not(y);
                            crate::bits::lemma_constants();
                        }
                        let (a, b, c, d) = (nx.n, ny.n, x.n, y.n);
                        assert((a < b) == (c < d)) by (bit_vector)
                            requires a == c ^ 0x8000_0000_0000_0000u64, b == d ^ 0x8000_0000_0000_0000u64,
                                c & 0x8000_0000_0000_0000u64 != 0, d & 0x8000_0000_0000_0000u64 != 0;
                    }
                    let a = self.and(nx, ny);
                    proof {
                        crate::nid::lemma_not_not(a);
                        lemma_ixn_not(a);
                    }
                    crate::nid::negate(a)
                } else {
                    let (lo, hi) = if x.n < y.n { (x, y) } else { (y, x) };
                    let o = ops::vel(lo, hi);
                    proof { crate::nid::lemma_fun_fields(111, 2, 7); }
                    let r = self.nid(o);
                    proof { lemma_made_grows(*old(self), *self, o.items(), r); }
                    r
                }
            },
        }
    }

    /// If-then-else of three nodes.
    pub fn ite(&mut self, i: NID, t: NID, e: NID) -> (r: NID)
        requires
            old(self).wf(), ref_ok(i, old(self).bits@.len()), ref_ok(t, old(self).bits@.len()),
            ref_ok(e, old(self).bits@.len()), old(self).bits@.len() < CAP,
        ensures
            final(self).log == old(self).log,
            final(self).wf(),
            grows(*old(self), *final(self)), final(self).bits@.len() <= old(self).bits@.len() + 1,
            ref_ok(r, final(self).bits@.len()),
            simp::ite_spec(i, t, e) matches Some(n) ==> r == n && *final(self) == *old(self),
            simp::ite_spec(i, t, e) is None ==> made(*old(self), *final(self), seq![i, t, e, ops::ITE_spec()], r),
    {
        proof {
            crate::bits::lemma_constants();
            lemma_ixn_not(i);
        }
        match simp::ite(i, t, e) {
            Some(n) => n,
            None => {
                let o = ops::ite(i, t, e);
                proof { crate::nid::lemma_fun_fields(6106, 3, 0b0001_1011); }
                let r = self.nid(o);
                proof { lemma_made_grows(*old(self), *self, o.items(), r); }
                r
            },
        }
    }
}


/// In the nodes `bits`, `y` is `x` with variable `v` replaced by `val`: a
/// literal of `v` becomes `val`, other literals stay, and a node becomes a
/// node whose items are its items with each one (but the function tables)
/// rewritten in the same way.
pub open spec fn restricts(bits: Seq<Ops>, v: VID, val: NID, x: NID, y: NID) -> bool
    decreases idx_of(x), 1nat, 0nat,
{
    if x.n & VAR != 0 && x.vid_spec() == v {
        y == val
    } else if x.n & VAR != 0 || x.n & T != 0 {
        y == x
    } else if is_ixn_spec(x) && idx_of(x) < bits.len() {
        &&& is_ixn_spec(y) && idx_of(y) < bits.len()
        &&& bits[idx_of(y) as int].items().len() == bits[idx_of(x) as int].items().len()
        &&& items_restrict(bits, v, val, bits[idx_of(x) as int].items(), bits[idx_of(y) as int].items(),
                idx_of(x), bits[idx_of(x) as int].items().len())
    } else {
        false
    }
}

/// The first `k` items `ys` are the items `xs` (of a node below `bound`) rewritten.
pub open spec fn items_restrict(bits: Seq<Ops>, v: VID, val: NID, xs: Seq<NID>, ys: Seq<NID>, bound: nat, k: nat) -> bool
    decreases bound, 0nat, k,
{
    if k == 0 {
        true
    } else {
        items_restrict(bits, v, val, xs, ys, bound, (k - 1) as nat) && item_restricts(bits, v, val, bound, xs[k - 1], ys[k - 1])
    }
}

/// The item `y` is the item `x` (of a node below `bound`) rewritten: a function
/// table stays, the rest as `restricts` says.
pub open spec fn item_restricts(bits: Seq<Ops>, v: VID, val: NID, bound: nat, x: NID, y: NID) -> bool
    decreases bound, 0nat, 0nat,
{
    if x.n & F == F {
        y == x
    } else if x.n & VAR != 0 && x.vid_spec() == v {
        y == val
    } else if x.n & VAR != 0 || x.n & T != 0 {
        y == x
    } else if idx_of(x) < bound {
        restricts(bits, v, val, x, y)
    } else {
        false
    }
}

proof fn lemma_items_restrict_same(bits: Seq<Ops>, v: VID, val: NID, xs: Seq<NID>, ys: Seq<NID>, zs: Seq<NID>, bound: nat, k: nat)
    requires
        items_restrict(bits, v, val, xs, ys, bound, k), k <= ys.len(), k <= zs.len(),
        forall|i: int| 0 <= i < k ==> zs[i] == ys[i],
    ensures items_restrict(bits, v, val, xs, zs, bound, k),
    decreases k,
{
    if k > 0 {
        lemma_items_restrict_same(bits, v, val, xs, ys, zs, bound, (k - 1) as nat);
    }
}

proof fn lemma_restricts_grows(b1: Seq<Ops>, b2: Seq<Ops>, v: VID, val: NID, x: NID, y: NID)
    requires
        b1.len() <= b2.len(), forall|i: int| 0 <= i < b1.len() ==> b2[i] == b1[i],
        restricts(b1, v, val, x, y),
    ensures restricts(b2, v, val, x, y),
    decreases idx_of(x), 1nat, 0nat,
{
    if !(x.n & VAR != 0) && !(x.n & T != 0) && is_ixn_spec(x) && idx_of(x) < b1.len() {
        let xs = b1[idx_of(x) as int].items();
        assert(b2[idx_of(x) as int] == b1[idx_of(x) as int]);
        assert(b2[idx_of(y) as int] == b1[idx_of(y) as int]);
        lemma_items_restrict_grows(b1, b2, v, val, xs, b1[idx_of(y) as int].items(), idx_of(x), xs.len());
    }
}

proof fn lemma_items_restrict_grows(b1: Seq<Ops>, b2: Seq<Ops>, v: VID, val: NID, xs: Seq<NID>, ys: Seq<NID>, bound: nat, k: nat)
    requires
        b1.len() <= b2.len(), forall|i: int| 0 <= i < b1.len() ==> b2[i] == b1[i],
        items_restrict(b1, v, val, xs, ys, bound, k),
    ensures items_restrict(b2, v, val, xs, ys, bound, k),
    decreases bound, 0nat, k,
{
    if k > 0 {
        lemma_items_restrict_grows(b1, b2, v, val, xs, ys, bound, (k - 1) as nat);
        lemma_item_restricts_grows(b1, b2, v, val, bound, xs[k - 1], ys[k - 1]);
    }
}

proof fn lemma_item_restricts_grows(b1: Seq<Ops>, b2: Seq<Ops>, v: VID, val: NID, bound: nat, x: NID, y: NID)
    requires
        b1.len() <= b2.len(), forall|i: int| 0 <= i < b1.len() ==> b2[i] == b1[i],
        item_restricts(b1, v, val, bound, x, y),
    ensures item_restricts(b2, v, val, bound, x, y),
    decreases bound, 0nat, 0nat,
{
    if x.n & F != F && !(x.n & VAR != 0) && !(x.n & T != 0) && idx_of(x) < bound {
        lemma_restricts_grows(b1, b2, v, val, x, y);
    }
}

/// In the nodes `bits`, `x` does not mention variable `v`: it is not a
/// literal of `v`, and no item (but the function tables) of a node it is
/// made of does.
pub open spec fn free_of(bits: Seq<Ops>, v: VID, x: NID) -> bool
    decreases idx_of(x), 1nat, 0nat,
{
    if x.n & VAR != 0 {
        x.vid_spec() != v
    } else if x.n & T != 0 {
        true
    } else if is_ixn_spec(x) && idx_of(x) < bits.len() {
        items_free(bits, v, bits[idx_of(x) as int].items(), idx_of(x), bits[idx_of(x) as int].items().len())
    } else {
        false
    }
}

/// None of the first `k` items `xs` (of a node below `bound`) mentions `v`.
pub open spec fn items_free(bits: Seq<Ops>, v: VID, xs: Seq<NID>, bound: nat, k: nat) -> bool
    decreases bound, 0nat, k,
{
    if k == 0 { true } else { items_free(bits, v, xs, bound, (k - 1) as nat) && item_free(bits, v, bound, xs[k - 1]) }
}

/// The item `x` (of a node below `bound`) does not mention `v`.
pub open spec fn item_free(bits: Seq<Ops>, v: VID, bound: nat, x: NID) -> bool
    decreases bound, 0nat, 0nat,
{
    if x.n & F == F {
        true
    } else if x.n & VAR != 0 {
        x.vid_spec() != v
    } else if x.n & T != 0 {
        true
    } else if idx_of(x) < bound {
        free_of(bits, v, x)
    } else {
        false
    }
}

/// Replacing a variable by a constant removes it: in well-formed nodes, what
/// `when` makes from any node with `v` set to `O` or `I` no longer mentions `v`.
pub proof fn lemma_restricts_frees(bits: Seq<Ops>, v: VID, val: NID, x: NID, y: NID)
    requires
        forall|i: int| 0 <= i < bits.len() ==> node_ok(#[trigger] bits[i], i as nat),
        val.n & T != 0, val.n & VAR == 0,
        restricts(bits, v, val, x, y),
    ensures free_of(bits, v, y),
    decreases idx_of(x), 1nat, 0nat,
{
    if !(x.n & VAR != 0) && !(x.n & T != 0) && is_ixn_spec(x) && idx_of(x) < bits.len() {
        let xs = bits[idx_of(x) as int].items();
        let ys = bits[idx_of(y) as int].items();
        assert(node_ok(bits[idx_of(y) as int], idx_of(y)));
        lemma_items_restrict_frees(bits, v, val, xs, ys, idx_of(x), idx_of(y), xs.len());
        lemma_ixn_bits(y);
    }
}

proof fn lemma_items_restrict_frees(bits: Seq<Ops>, v: VID, val: NID, xs: Seq<NID>, ys: Seq<NID>, bound: nat, ybound: nat, k: nat)
    requires
        forall|i: int| 0 <= i < bits.len() ==> node_ok(#[trigger] bits[i], i as nat),
        val.n & T != 0, val.n & VAR == 0,
        items_restrict(bits, v, val, xs, ys, bound, k), k <= ys.len(),
        forall|q: int| 0 <= q < ys.len() ==> ref_ok(#[trigger] ys[q], ybound),
    ensures items_free(bits, v, ys, ybound, k),
    decreases bound, 0nat, k,
{
    if k > 0 {
        lemma_items_restrict_frees(bits, v, val, xs, ys, bound, ybound, (k - 1) as nat);
        let x = xs[k - 1];
        let y = ys[k - 1];
        assert(ref_ok(y, ybound));
        lemma_ixn_bits(y);
        assert(item_restricts(bits, v, val, bound, x, y));
        if x.n & F != F && !(x.n & VAR != 0) && !(x.n & T != 0) && idx_of(x) < bound {
            lemma_restricts_frees(bits, v, val, x, y);
            assert(is_ixn_spec(y));
            assert(idx_of(y) < ybound);
        }
        assert(item_free(bits, v, ybound, y));
    }
}

/// `when` can be asked about `n`: a literal or an index node.
pub open spec fn when_ok(n: NID) -> bool {
    n.n & VAR != 0 || n.n & T != 0 || is_ixn_spec(n)
}

proof fn lemma_items_tsize_mono(bits: Seq<Ops>, items: Seq<NID>, bound: nat, j: nat, k: nat)
    requires j <= k,
    ensures items_tsize(bits, items, bound, j) <= items_tsize(bits, items, bound, k),
    decreases k,
{
    if j < k {
        lemma_items_tsize_mono(bits, items, bound, j, (k - 1) as nat);
    }
}

impl RawASTBase {
    /// Node `nid` with `val` put in place of variable `v`.
    fn when(&mut self, v: VID, val: NID, nid: NID) -> (r: NID)
        requires
            old(self).wf(), ref_ok(val, old(self).bits@.len()), ref_ok(nid, old(self).bits@.len()), when_ok(nid),
            old(self).bits@.len() + tsize(old(self).bits@, nid) <= CAP,
        ensures
            final(self).log == old(self).log,
            final(self).wf(), grows(*old(self), *final(self)), final(self).tags == old(self).tags,
            final(self).bits@.len() <= old(self).bits@.len() + tsize(old(self).bits@, nid),
            ref_ok(r, final(self).bits@.len()),
            nid.n & VAR != 0 && nid.vid_spec() == v ==> r == val && *final(self) == *old(self),
            !(nid.n & VAR != 0 && nid.vid_spec() == v) && (nid.n & VAR != 0 || nid.n & T != 0)
                ==> r == nid && *final(self) == *old(self),
            restricts(final(self).bits@, v, val, nid, r),
        decreases if is_ixn_spec(nid) { idx_of(nid) + 1 } else { 0 },
    {
        if nid.is_vid() && nid.vid() == v {
            return val;
        }
        if nid.is_lit() {
            return nid;
        }
        proof { lemma_ixn_bits(nid); }
        let ghost b0 = *self;
        let ghost i0 = idx_of(nid);
        let ghost items = self.bits@[i0 as int].items();
        proof { assert(node_ok(self.bits@[i0 as int], i0)); }
        let ops = copy_ops(self.get_ops(nid));
        let xs = ops.to_rpn();
        let mut rpn: Vec<NID> = Vec::new();
        let mut k: usize = 0;
        while k < xs.len()
            invariant
                xs@ == items, k <= items.len(), rpn@.len() == k,
                is_ixn_spec(nid), i0 == idx_of(nid),
                b0.wf(), i0 < b0.bits@.len(), items == b0.bits@[i0 as int].items(), node_ok(b0.bits@[i0 as int], i0),
                b0.bits@.len() + tsize(b0.bits@, nid) <= CAP,
                tsize(b0.bits@, nid) == 1 + items_tsize(b0.bits@, items, i0, items.len()),
                self.wf(), grows(b0, *self), self.tags == b0.tags, self.log == b0.log,
                self.bits@.len() <= b0.bits@.len() + items_tsize(b0.bits@, items, i0, k as nat),
                ref_ok(val, b0.bits@.len()),
                forall|j: int| 0 <= j < k ==> ref_ok(#[trigger] rpn@[j], self.bits@.len()),
                items_restrict(self.bits@, v, val, items, rpn@, i0, k as nat),
            decreases items.len() - k,
        {
            let x = xs[k];
            proof {
                assert(ref_ok(items[k as int], i0));
                lemma_ixn_bits(x);
                lemma_items_tsize_mono(b0.bits@, items, i0, (k + 1) as nat, items.len());
            }
            let y = if x.is_fun() {
                x
            } else {
                proof {
                    lemma_tsize_stable(b0.bits@, self.bits@, x);
                    lemma_ref_grows(val, b0.bits@.len(), self.bits@.len());
                }
                let ghost b1 = *self;
                let y = self.when(v, val, x);
                proof {
                    assert forall|j: int| 0 <= j < k implies ref_ok(#[trigger] rpn@[j], self.bits@.len()) by {
                        lemma_ref_grows(rpn@[j], b1.bits@.len(), self.bits@.len());
                    }
                    lemma_items_restrict_grows(b1.bits@, self.bits@, v, val, items, rpn@, i0, k as nat);
                }
                y
            };
            let ghost r0 = rpn@;
            rpn.push(y);
            proof {
                lemma_items_restrict_same(self.bits@, v, val, items, r0, rpn@, i0, k as nat);
                assert(item_restricts(self.bits@, v, val, i0, items[k as int], y));
            }
            k = k + 1;
        }
        let o = ops::rpn(rpn.as_slice());
        proof {
            assert(items_tsize(b0.bits@, items, i0, items.len()) == items_tsize(b0.bits@, items, i0, k as nat));
        }
        let ghost b2 = *self;
        let r = self.nid(o);
        proof {
            lemma_made_grows(b2, *self, o.items(), r);
            lemma_items_restrict_grows(b2.bits@, self.bits@, v, val, items, rpn@, i0, items.len());
            if !b2.cache().contains_key(o.items()) {
                lemma_ixn(b2.bits@.len() as u64);
                assert(self.bits@[b2.bits@.len() as int] == self.bits@.last());
            }
            assert(self.bits@[i0 as int] == b0.bits@[i0 as int]);
            assert(self.bits@[idx_of(r) as int].items() == rpn@);
        }
        r
    }
}


/// The base can be asked `when` about `n`, at the given cost in new nodes.
pub open spec fn ast_when_cost(b: RawASTBase, n: NID) -> nat {
    if when_ok(n) { tsize(b.bits@, n) } else { CAP as nat + 1 }
}

impl Base for RawASTBase {
    open spec fn inv(&self) -> bool { self.wf() }
    open spec fn valid(&self, n: NID) -> bool { ref_ok(n, self.bits@.len()) }
    open spec fn spare(&self) -> nat { (CAP - self.bits@.len()) as nat }
    open spec fn when_cost(&self, n: NID) -> nat { ast_when_cost(*self, n) }
    /// Substitution is not available in this base.
    open spec fn sub_ready(&self) -> bool { false }
    open spec fn names(&self) -> Map<Seq<char>, NID> { self.tags.map() }
    open spec fn calls(&self) -> Seq<Call> { self.log@ }

    proof fn lemma_consts_valid(&self) {
        crate::bits::lemma_constants();
    }

    proof fn lemma_not_valid(&self, n: NID) {
        lemma_ixn_not(n);
    }

    proof fn lemma_vhl_sub(&self, n: NID) {
    }

    fn new() -> (r: Self) {
        RawASTBase::empty()
    }

    fn when_hi(&mut self, v: VID, n: NID) -> (r: NID)
        ensures
            n.n & VAR != 0 && n.vid_spec() == v ==> r == crate::nid::nid_i() && *final(self) == *old(self),
            !(n.n & VAR != 0 && n.vid_spec() == v) && (n.n & VAR != 0 || n.n & T != 0)
                ==> r == n && *final(self) == *old(self),
            grows(*old(self), *final(self)), final(self).tags == old(self).tags,
            restricts(final(self).bits@, v, crate::nid::nid_i(), n, r),
            free_of(final(self).bits@, v, r),
    {
        let i = NID::i();
        proof { crate::bits::lemma_constants(); }
        let r = self.when(v, i, n);
        proof {
            lemma_restricts_frees(self.bits@, v, i, n, r);
            assert forall|m: NID| old(self).valid(m) implies #[trigger] self.valid(m) by {
                lemma_ref_grows(m, old(self).bits@.len(), self.bits@.len());
            }
        }
        r
    }

    fn when_lo(&mut self, v: VID, n: NID) -> (r: NID)
        ensures
            n.n & VAR != 0 && n.vid_spec() == v ==> r == crate::nid::nid_o() && *final(self) == *old(self),
            !(n.n & VAR != 0 && n.vid_spec() == v) && (n.n & VAR != 0 || n.n & T != 0)
                ==> r == n && *final(self) == *old(self),
            grows(*old(self), *final(self)), final(self).tags == old(self).tags,
            restricts(final(self).bits@, v, crate::nid::nid_o(), n, r),
            free_of(final(self).bits@, v, r),
    {
        let o = NID::o();
        proof { crate::bits::lemma_constants(); }
        let r = self.when(v, o, n);
        proof {
            lemma_restricts_frees(self.bits@, v, o, n, r);
            assert forall|m: NID| old(self).valid(m) implies #[trigger] self.valid(m) by {
                lemma_ref_grows(m, old(self).bits@.len(), self.bits@.len());
            }
        }
        r
    }

    fn and(&mut self, x: NID, y: NID) -> (r: NID) {
        let r = RawASTBase::and(self, x, y);
        proof { self.log@ = self.log@.push(Call::And(x, y, r)); }
        proof { self.lemma_after_op(*old(self), r, 1); }
        r
    }

    fn xor(&mut self, x: NID, y: NID) -> (r: NID) {
        let r = RawASTBase::xor(self, x, y);
        proof { self.log@ = self.log@.push(Call::Xor(x, y, r)); }
        proof {
            self.lemma_after_op(*old(self), r, 1);
            crate::bits::lemma_constants();
        }
        r
    }

    fn or(&mut self, x: NID, y: NID) -> (r: NID) {
        let r = RawASTBase::or(self, x, y);
        proof { self.log@ = self.log@.push(Call::Or(x, y, r)); }
        proof { self.lemma_after_op(*old(self), r, 1); }
        r
    }

    fn ite(&mut self, i: NID, t: NID, e: NID) -> (r: NID)
        ensures
            simp::ite_spec(i, t, e) is None ==> made(*old(self), *final(self), seq![i, t, e, ops::ITE_spec()], r),
            simp::ite_spec(i, t, e) matches Some(n) ==> final(self).bits == old(self).bits
                && final(self).tags == old(self).tags && final(self).hash == old(self).hash,
    {
        let r = RawASTBase::ite(self, i, t, e);
        proof { self.log@ = self.log@.push(Call::Ite(i, t, e, r)); }
        proof { self.lemma_after_op(*old(self), r, 1); }
        r
    }

    fn def(&mut self, s: String, v: VID) -> (r: NID) {
        let r = self.tags.def(s, v);
        proof {
            let b = crate::nid::vid_to_bits_spec(v);
            assert(((b << 32) | 0x4000_0000_0000_0000u64) & 0x4000_0000_0000_0000u64 != 0) by (bit_vector);
            assert forall|k: Seq<char>| #[trigger] self.tags.map().contains_key(k) implies ref_ok(self.tags.map()[k], self.bits@.len()) by {
                if self.tags.map()[k] != r {
                    assert(old(self).tags.map().contains_key(k));
                }
            }
        }
        r
    }

    fn tag(&mut self, n: NID, s: String) -> (r: NID) {
        let r = self.tags.tag(n, s);
        proof {
            assert forall|k: Seq<char>| #[trigger] self.tags.map().contains_key(k) implies ref_ok(self.tags.map()[k], self.bits@.len()) by {
                if self.tags.map()[k] != r {
                    assert(old(self).tags.map().contains_key(k));
                }
            }
        }
        r
    }

    fn get(&self, s: &str) -> (r: Option<NID>) {
        self.tags.get(s)
    }

    fn sub(&mut self, v: VID, n: NID, ctx: NID) -> (r: NID) {
        ctx
    }
}

impl RawASTBase {
    proof fn lemma_after_op(&self, b0: RawASTBase, r: NID, k: nat)
        requires
            b0.wf(), self.wf(), k == 1,
            grows(b0, *self), self.bits@.len() <= b0.bits@.len() + k,
            ref_ok(r, self.bits@.len()),
        ensures
            self.valid(r),
            self.spare() + k >= b0.spare(),
            forall|m: NID| b0.valid(m) ==> #[trigger] self.valid(m),
    {
        assert forall|m: NID| b0.valid(m) implies #[trigger] self.valid(m) by {
            lemma_ref_grows(m, b0.bits@.len(), self.bits@.len());
        }
    }
}

/// An expression base with the constant-folding rules of `Simplify`.
pub struct ASTBase {
    base: Simplify<RawASTBase>,
}

impl ASTBase {
    /// The underlying raw base.
    pub closed spec fn raw(&self) -> RawASTBase {
        self.base.base
    }

    /// Wrap a raw base.
    pub fn from_raw(raw: RawASTBase) -> (r: ASTBase)
        ensures r.raw() == raw,
    {
        ASTBase { base: Simplify { base: raw, log: Ghost(Seq::empty()) } }
    }

    /// A new, empty base.
    pub fn new() -> (r: ASTBase)
        ensures r.raw().wf(), r.raw().bits@.len() == 0, r.raw().cache() == Map::<Seq<NID>, NID>::empty(),
    {
        ASTBase::from_raw(RawASTBase::empty())
    }

    /// A new, empty base.
    pub fn empty() -> (r: ASTBase)
        ensures r.raw().wf(), r.raw().bits@.len() == 0, r.raw().cache() == Map::<Seq<NID>, NID>::empty(),
    {
        ASTBase { base: Simplify { base: RawASTBase::empty(), log: Ghost(Seq::empty()) } }
    }

    /// The underlying raw base.
    pub fn raw_ast(&self) -> (r: &RawASTBase)
        ensures *r == self.raw(),
    {
        &self.base.base
    }

    /// The underlying raw base, for changing.
    pub fn raw_ast_mut(&mut self) -> (r: &mut RawASTBase)
        ensures *r == old(self).raw(), final(self).raw() == *final(r),
    {
        &mut self.base.base
    }
}

impl Default for ASTBase {
    fn default() -> (r: ASTBase)
        ensures r.raw().wf(), r.raw().bits@.len() == 0, r.raw().cache() == Map::<Seq<NID>, NID>::empty(),
    {
        ASTBase::new()
    }
}

impl Base for ASTBase {
    closed spec fn inv(&self) -> bool { self.base.inv() }
    closed spec fn valid(&self, n: NID) -> bool { self.base.valid(n) }
    closed spec fn spare(&self) -> nat { self.base.spare() }
    closed spec fn when_cost(&self, n: NID) -> nat { self.base.when_cost(n) }
    closed spec fn sub_ready(&self) -> bool { self.base.sub_ready() }
    closed spec fn names(&self) -> Map<Seq<char>, NID> { self.base.names() }
    closed spec fn calls(&self) -> Seq<Call> { self.base.calls() }

    proof fn lemma_consts_valid(&self) {
        self.base.lemma_consts_valid();
    }

    proof fn lemma_not_valid(&self, n: NID) {
        self.base.lemma_not_valid(n);
    }

    proof fn lemma_vhl_sub(&self, n: NID) {
        self.base.lemma_vhl_sub(n);
    }

    fn new() -> (r: Self) {
        ASTBase { base: Simplify::<RawASTBase>::new() }
    }

    fn when_hi(&mut self, v: VID, n: NID) -> (r: NID)
        ensures restricts(final(self).raw().bits@, v, crate::nid::nid_i(), n, r),
    {
        self.base.base.when_hi(v, n)
    }

    fn when_lo(&mut self, v: VID, n: NID) -> (r: NID)
        ensures restricts(final(self).raw().bits@, v, crate::nid::nid_o(), n, r),
    {
        self.base.base.when_lo(v, n)
    }

    fn and(&mut self, x: NID, y: NID) -> (r: NID) {
        self.base.and(x, y)
    }

    fn xor(&mut self, x: NID, y: NID) -> (r: NID) {
        self.base.xor(x, y)
    }

    fn or(&mut self, x: NID, y: NID) -> (r: NID) {
        self.base.or(x, y)
    }

    fn ite(&mut self, i: NID, t: NID, e: NID) -> (r: NID) {
        self.base.ite(i, t, e)
    }

    fn def(&mut self, s: String, v: VID) -> (r: NID) {
        self.base.def(s, v)
    }

    fn tag(&mut self, n: NID, s: String) -> (r: NID) {
        self.base.tag(n, s)
    }

    fn get(&self, s: &str) -> (r: Option<NID>) {
        self.base.get(s)
    }

    fn sub(&mut self, v: VID, n: NID, ctx: NID) -> (r: NID) {
        self.base.sub(v, n, ctx)
    }
}


// ---- costs and references ----

/// The cost of an item given the costs of the nodes before it: tables are
/// skipped (0), constants cost 0, variables 1, a node its own cost.
pub open spec fn item_cost(costs: Seq<u64>, x: NID) -> u64 {
    if x.n & F == F { 0 }
    else if x.n & T != 0 { 0 }
    else if x.n & VAR != 0 { 1 }
    else if is_ixn_spec(x) && idx_of(x) < costs.len() { costs[idx_of(x) as int] }
    else { 0 }
}

/// The largest cost among the first `k` items.
pub open spec fn max_cost(costs: Seq<u64>, items: Seq<NID>, k: nat) -> u64
    decreases k,
{
    if k == 0 {
        0
    } else {
        let a = max_cost(costs, items, (k - 1) as nat);
        let b = item_cost(costs, items[k - 1]);
        if a >= b { a } else { b }
    }
}

/// The items of each node.
pub open spec fn items_of(bits: Seq<Ops>) -> Seq<Seq<NID>> {
    bits.map_values(|o: Ops| o.items())
}

/// The costs of the first `n` nodes: each is one more than the largest cost
/// among its items.
pub open spec fn cost_vec(items: Seq<Seq<NID>>, n: nat) -> Seq<u64>
    decreases n,
{
    if n == 0 {
        seq![]
    } else {
        let c = cost_vec(items, (n - 1) as nat);
        c.push((1 + max_cost(c, items[n - 1], items[n - 1].len())) as u64)
    }
}

pub proof fn lemma_max_cost_bound(costs: Seq<u64>, items: Seq<NID>, k: nat, b: u64)
    requires forall|j: int| 0 <= j < costs.len() ==> costs[j] <= b, b >= 1,
    ensures max_cost(costs, items, k) <= b,
    decreases k,
{
    if k > 0 {
        lemma_max_cost_bound(costs, items, (k - 1) as nat, b);
    }
}

impl RawASTBase {
    /// The cost of each node: constants cost 0, variables 1, and a node one
    /// more than the largest cost among its inputs.
    pub fn node_costs(&self) -> (r: Vec<u64>)
        requires self.wf(),
        ensures r@ == cost_vec(items_of(self.bits@), self.bits@.len()),
    {
        let ghost its = items_of(self.bits@);
        let mut costs: Vec<u64> = Vec::new();
        let mut i: usize = 0;
        while i < self.bits.len()
            invariant
                i <= self.bits@.len() <= CAP, its == items_of(self.bits@),
                costs@ == cost_vec(its, i as nat), costs@.len() == i,
                forall|j: int| 0 <= j < i ==> costs@[j] <= j + 2,
            decreases self.bits@.len() - i,
        {
            let items = self.bits[i].to_rpn();
            let mut cost: u64 = 0;
            let mut k: usize = 0;
            while k < items.len()
                invariant
                    k <= items@.len(), items@ == self.bits@[i as int].items(), costs@.len() == i,
                    i < self.bits@.len() <= CAP,
                    cost == max_cost(costs@, items@, k as nat),
                    forall|j: int| 0 <= j < i ==> costs@[j] <= j + 2,
                decreases items@.len() - k,
            {
                let op = items[k];
                let op_cost: u64 = if op.is_fun() { 0 }
                    else if op.is_const() { 0 }
                    else if op.is_vid() { 1 }
                    else if op.is_ixn() && op.idx() < costs.len() { costs[op.idx()] }
                    else { 0 };
                if op_cost > cost { cost = op_cost; }
                k = k + 1;
            }
            proof {
                lemma_max_cost_bound(costs@, items@, items@.len(), (i + 1) as u64);
                assert(its[i as int] == items@);
            }
            costs.push(cost + 1);
            i = i + 1;
        }
        costs
    }
}

/// The references of node `n` (whose items are `items`) to node `j`: `n`
/// once for each of the items `m-1` down to `k` that is node `j` (an index
/// node, inverted or not; variables and constants refer to no node).
pub open spec fn refs_down(items: Seq<NID>, j: nat, n: NID, m: nat, k: nat) -> Seq<NID>
    decreases m - k,
{
    if k >= m {
        Seq::empty()
    } else {
        refs_down(items, j, n, m, k + 1) + if is_ixn_spec(items[k as int]) && idx_of(items[k as int]) == j { seq![n] } else { Seq::empty() }
    }
}

/// All items of a node but the last (its function).
pub open spec fn n_inputs(items: Seq<NID>) -> nat {
    if items.len() >= 1 { (items.len() - 1) as nat } else { 0 }
}

/// For node `j`: the nodes among the first `upto` that refer to it, in order.
pub open spec fn refs_to(bits: Seq<Ops>, j: nat, upto: nat) -> Seq<NID>
    decreases upto,
{
    if upto == 0 {
        Seq::empty()
    } else {
        let items = bits[upto - 1].items();
        refs_to(bits, j, (upto - 1) as nat) + refs_down(items, j, ixn_spec((upto - 1) as nat), n_inputs(items), 0)
    }
}

/// Every input of every node that is an index node names one of the nodes.
pub open spec fn refs_in_range(bits: Seq<Ops>) -> bool {
    forall|i: int, k: int| 0 <= i < bits.len() && 0 <= k < bits[i].items().len() - 1
        && is_ixn_spec(#[trigger] bits[i].items()[k]) ==> idx_of(bits[i].items()[k]) < bits.len()
}

impl RawASTBase {
    /// For each node, the nodes that refer to it directly: one entry for each
    /// input of theirs that is that node (variables and constants count for
    /// no node).
    pub fn reftable(&self) -> (r: Vec<Vec<NID>>)
        requires self.wf(), refs_in_range(self.bits@),
        ensures
            r@.len() == self.bits@.len(),
            forall|j: int| 0 <= j < r@.len() ==> (#[trigger] r@[j])@ == refs_to(self.bits@, j as nat, self.bits@.len()),
    {
        let len = self.bits.len();
        let mut res: Vec<Vec<NID>> = Vec::new();
        let mut j: usize = 0;
        while j < len
            invariant j <= len == self.bits@.len(), res@.len() == j,
                forall|q: int| 0 <= q < j ==> (#[trigger] res@[q])@ == Seq::<NID>::empty(),
            decreases len - j,
        {
            res.push(Vec::new());
            j = j + 1;
        }
        let mut i: usize = 0;
        while i < len
            invariant
                i <= len == self.bits@.len() <= CAP, res@.len() == len, refs_in_range(self.bits@),
                forall|q: int| 0 <= q < len ==> (#[trigger] res@[q])@ == refs_to(self.bits@, q as nat, i as nat),
            decreases len - i,
        {
            let n = NID::ixn(i);
            proof { lemma_ixn(i as u64); }
            let items = self.bits[i].to_rpn();
            let m = if items.len() >= 1 { items.len() - 1 } else { 0 };
            let mut k: usize = m;
            while k > 0
                invariant
                    k <= m, items@ == self.bits@[i as int].items(), m == n_inputs(items@),
                    i < len == self.bits@.len(), res@.len() == len, refs_in_range(self.bits@), n == ixn_spec(i as nat),
                    forall|q: int| 0 <= q < len ==> (#[trigger] res@[q])@
                        == refs_to(self.bits@, q as nat, i as nat) + refs_down(items@, q as nat, n, m as nat, k as nat),
                decreases k,
            {
                let x = items[k - 1];
                if !x.is_ixn() {
                    k = k - 1;
                    proof {
                        assert forall|p: int| 0 <= p < len implies (#[trigger] res@[p])@
                            == refs_to(self.bits@, p as nat, i as nat) + refs_down(items@, p as nat, n, m as nat, k as nat) by {
                            assert(refs_down(items@, p as nat, n, m as nat, k as nat) =~= refs_down(items@, p as nat, n, m as nat, k as nat + 1));
                        }
                    }
                    continue;
                }
                let q = x.idx();
                proof { assert(idx_of(self.bits@[i as int].items()[k - 1]) < self.bits@.len()); }
                let mut row = res[q].clone();
                assert(row@ == res@[q as int]@);
                row.push(n);
                let ghost before = res@;
                res.set(q, row);
                k = k - 1;
                proof {
                    assert forall|p: int| 0 <= p < len implies (#[trigger] res@[p])@
                        == refs_to(self.bits@, p as nat, i as nat) + refs_down(items@, p as nat, n, m as nat, k as nat) by {
                        assert(refs_down(items@, p as nat, n, m as nat, k as nat)
                            == refs_down(items@, p as nat, n, m as nat, k as nat + 1)
                                + if idx_of(items@[k as int]) == p { seq![n] } else { Seq::empty() });
                        if p == q {
                            assert(res@[p]@ =~= before[p]@.push(n));
                        } else {
                            assert(refs_down(items@, p as nat, n, m as nat, k as nat) =~= refs_down(items@, p as nat, n, m as nat, k as nat + 1));
                        }
                    }
                }
            }
            proof {
                assert forall|p: int| 0 <= p < len implies (#[trigger] res@[p])@ == refs_to(self.bits@, p as nat, i as nat + 1) by {
                    assert(self.bits@[i as int].items() == items@);
                }
            }
            i = i + 1;
        }
        res
    }
}


// ---- dependencies ----

/// Node `j` is node `n` or one of the nodes it depends on.
pub open spec fn reaches(bits: Seq<Ops>, n: NID, j: nat) -> bool
    decreases idx_of(n), 1nat, 0nat,
{
    if is_ixn_spec(n) && idx_of(n) < bits.len() {
        idx_of(n) == j || reaches_items(bits, bits[idx_of(n) as int].items(), idx_of(n), bits[idx_of(n) as int].items().len(), j)
    } else {
        false
    }
}

/// Some of the first `k` items (those below node `bound`) reaches node `j`.
pub open spec fn reaches_items(bits: Seq<Ops>, items: Seq<NID>, bound: nat, k: nat, j: nat) -> bool
    decreases bound, 0nat, k,
{
    if k == 0 {
        false
    } else {
        let x = items[k - 1];
        reaches_items(bits, items, bound, (k - 1) as nat, j) || (is_ixn_spec(x) && idx_of(x) < bound && reaches(bits, x, j))
    }
}

proof fn lemma_reaches_items_mono(bits: Seq<Ops>, items: Seq<NID>, bound: nat, k: nat, m: nat, j: nat)
    requires k <= m, reaches_items(bits, items, bound, k, j),
    ensures reaches_items(bits, items, bound, m, j),
    decreases m,
{
    if k < m {
        lemma_reaches_items_mono(bits, items, bound, k, (m - 1) as nat, j);
    }
}

proof fn lemma_reaches_items_split(bits: Seq<Ops>, items: Seq<NID>, bound: nat, k: nat, j: nat)
    requires reaches_items(bits, items, bound, k, j), k <= items.len(),
    ensures exists|q: int| 0 <= q < k && is_ixn_spec(#[trigger] items[q]) && idx_of(items[q]) < bound && reaches(bits, items[q], j),
    decreases k,
{
    let x = items[k - 1];
    if is_ixn_spec(x) && idx_of(x) < bound && reaches(bits, x, j) {
    } else {
        lemma_reaches_items_split(bits, items, bound, (k - 1) as nat, j);
        let q = choose|q: int| 0 <= q < k - 1 && is_ixn_spec(#[trigger] items[q]) && idx_of(items[q]) < bound && reaches(bits, items[q], j);
        assert(0 <= q < k);
    }
}

proof fn lemma_reaches_item(bits: Seq<Ops>, items: Seq<NID>, bound: nat, q: int, j: nat)
    requires 0 <= q < items.len(), is_ixn_spec(items[q]), idx_of(items[q]) < bound, reaches(bits, items[q], j),
    ensures reaches_items(bits, items, bound, items.len(), j),
{
    lemma_reaches_items_mono(bits, items, bound, (q + 1) as nat, items.len(), j);
}

/// What a node reaches lies at or below it.
pub proof fn lemma_reaches_below(bits: Seq<Ops>, n: NID, j: nat)
    requires reaches(bits, n, j),
    ensures is_ixn_spec(n), j <= idx_of(n), idx_of(n) < bits.len(),
    decreases idx_of(n),
{
    if idx_of(n) != j {
        let items = bits[idx_of(n) as int].items();
        lemma_reaches_items_split(bits, items, idx_of(n), items.len(), j);
        let q = choose|q: int| 0 <= q < items.len() && is_ixn_spec(#[trigger] items[q]) && idx_of(items[q]) < idx_of(n) && reaches(bits, items[q], j);
        lemma_reaches_below(bits, items[q], j);
    }
}

/// The nodes that `n` reaches are closed under dependency.
pub proof fn lemma_reaches_closed(bits: Seq<Ops>, n: NID, j: nat, k: int)
    requires
        forall|i: int| 0 <= i < bits.len() ==> node_ok(#[trigger] bits[i], i as nat),
        reaches(bits, n, j), 0 <= k < bits[j as int].items().len(), is_ixn_spec(bits[j as int].items()[k]),
    ensures reaches(bits, n, idx_of(bits[j as int].items()[k])),
    decreases idx_of(n),
{
    lemma_reaches_below(bits, n, j);
    let x = bits[j as int].items()[k];
    assert(node_ok(bits[j as int], j));
    assert(ref_ok(x, j));
    lemma_ixn_bits(x);
    let items = bits[idx_of(n) as int].items();
    if idx_of(n) == j {
        assert(reaches(bits, x, idx_of(x)));
        lemma_reaches_item(bits, items, idx_of(n), k, idx_of(x));
    } else {
        lemma_reaches_items_split(bits, items, idx_of(n), items.len(), j);
        let q = choose|q: int| 0 <= q < items.len() && is_ixn_spec(#[trigger] items[q]) && idx_of(items[q]) < idx_of(n) && reaches(bits, items[q], j);
        lemma_reaches_closed(bits, items[q], j, k);
        lemma_reaches_item(bits, items, idx_of(n), q, idx_of(x));
    }
}

/// Every marked node below `b` has its dependencies marked.
pub open spec fn closed_below(bits: Seq<Ops>, seen: Seq<bool>, b: nat) -> bool {
    forall|i: int, k: int| 0 <= i < b && i < seen.len() && seen[i] && 0 <= k < bits[i].items().len()
        && is_ixn_spec(#[trigger] bits[i].items()[k]) ==> seen[idx_of(bits[i].items()[k]) as int]
}

/// A marked node whose marks are closed below it has all it reaches marked.
proof fn lemma_closed_reaches(bits: Seq<Ops>, seen: Seq<bool>, n: NID, j: nat)
    requires
        forall|i: int| 0 <= i < bits.len() ==> node_ok(#[trigger] bits[i], i as nat),
        seen.len() == bits.len(),
        is_ixn_spec(n), idx_of(n) < bits.len(), seen[idx_of(n) as int],
        closed_below(bits, seen, idx_of(n) + 1),
        reaches(bits, n, j),
    ensures seen[j as int],
    decreases idx_of(n),
{
    if idx_of(n) != j {
        let items = bits[idx_of(n) as int].items();
        lemma_reaches_items_split(bits, items, idx_of(n), items.len(), j);
        let q = choose|q: int| 0 <= q < items.len() && is_ixn_spec(#[trigger] items[q]) && idx_of(items[q]) < idx_of(n) && reaches(bits, items[q], j);
        assert(seen[idx_of(items[q]) as int]);
        lemma_closed_reaches(bits, seen, items[q], j);
    }
}

impl RawASTBase {
    /// Mark `keep` and every node it depends on (part of garbage collection).
    pub(crate) fn markdeps(&self, keep: NID, seen: &mut Vec<bool>)
        requires
            self.wf(), old(seen)@.len() == self.bits@.len(),
            is_ixn_spec(keep) ==> idx_of(keep) < self.bits@.len(),
            closed_below(self.bits@, old(seen)@, if is_ixn_spec(keep) { idx_of(keep) + 1 } else { 0 }),
        ensures
            final(seen)@.len() == old(seen)@.len(),
            forall|j: int| 0 <= j < final(seen)@.len() ==> #[trigger] final(seen)@[j] == (old(seen)@[j] || reaches(self.bits@, keep, j as nat)),
        decreases if is_ixn_spec(keep) { idx_of(keep) + 1 } else { 0 },
    {
        if !keep.is_ixn() {
            return;
        }
        let i = keep.idx();
        if seen[i] {
            proof {
                assert forall|j: int| 0 <= j < seen@.len() implies #[trigger] seen@[j] == (old(seen)@[j] || reaches(self.bits@, keep, j as nat)) by {
                    if reaches(self.bits@, keep, j as nat) {
                        lemma_closed_reaches(self.bits@, seen@, keep, j as nat);
                    }
                }
            }
            return;
        }
        seen.set(i, true);
        let items = self.bits[i].to_rpn();
        let ghost s0 = old(seen)@;
        let mut k: usize = 0;
        while k < items.len()
            invariant
                self.wf(), items@ == self.bits@[i as int].items(), k <= items@.len(),
                is_ixn_spec(keep), i == idx_of(keep), i < self.bits@.len(), s0.len() == self.bits@.len(),
                seen@.len() == self.bits@.len(),
                closed_below(self.bits@, s0, i as nat + 1),
                forall|j: int| 0 <= j < seen@.len() ==> #[trigger] seen@[j]
                    == (s0[j] || j == i || reaches_items(self.bits@, items@, i as nat, k as nat, j as nat)),
            decreases items@.len() - k,
        {
            let x = items[k];
            proof {
                assert(node_ok(self.bits@[i as int], i as nat));
                assert(ref_ok(items@[k as int], i as nat));
                lemma_ixn_bits(x);
                assert forall|a: int, b: int| 0 <= a < (if is_ixn_spec(x) { idx_of(x) + 1 } else { 0 }) && a < seen@.len() && seen@[a]
                    && 0 <= b < self.bits@[a].items().len() && is_ixn_spec(#[trigger] self.bits@[a].items()[b])
                    implies seen@[idx_of(self.bits@[a].items()[b]) as int] by {
                    let y = self.bits@[a].items()[b];
                    assert(node_ok(self.bits@[a], a as nat));
                    assert(ref_ok(y, a as nat));
                    lemma_ixn_bits(y);
                    if s0[a] {
                    } else {
                        assert(a != i);
                        lemma_reaches_items_split(self.bits@, items@, i as nat, k as nat, a as nat);
                        let q = choose|q: int| 0 <= q < k && is_ixn_spec(#[trigger] items@[q]) && idx_of(items@[q]) < i && reaches(self.bits@, items@[q], a as nat);
                        lemma_reaches_closed(self.bits@, items@[q], a as nat, b);
                        lemma_reaches_item(self.bits@, items@.take(k as int), i as nat, q, idx_of(y));
                        assert(items@.take(k as int)[q] == items@[q]);
                        assert(reaches_items(self.bits@, items@, i as nat, k as nat, idx_of(y))) by {
                            lemma_reaches_items_take(self.bits@, items@, i as nat, k as nat, idx_of(y));
                        }
                    }
                }
            }
            let ghost s1 = seen@;
            self.markdeps(x, seen);
            proof {
                assert forall|j: int| 0 <= j < seen@.len() implies #[trigger] seen@[j]
                    == (s0[j] || j == i || reaches_items(self.bits@, items@, i as nat, (k + 1) as nat, j as nat)) by {
                    assert(seen@[j] == (s1[j] || reaches(self.bits@, x, j as nat)));
                }
            }
            k = k + 1;
        }
        proof {
            assert forall|j: int| 0 <= j < seen@.len() implies #[trigger] seen@[j] == (old(seen)@[j] || reaches(self.bits@, keep, j as nat)) by {
            }
        }
    }
}

proof fn lemma_reaches_items_take(bits: Seq<Ops>, items: Seq<NID>, bound: nat, k: nat, j: nat)
    requires k <= items.len(),
    ensures reaches_items(bits, items.take(k as int), bound, k, j) == reaches_items(bits, items, bound, k, j),
    decreases k,
{
    if k > 0 {
        lemma_reaches_items_take_prefix(bits, items, bound, k, (k - 1) as nat, j);
    }
}

proof fn lemma_reaches_items_take_prefix(bits: Seq<Ops>, items: Seq<NID>, bound: nat, k: nat, m: nat, j: nat)
    requires m <= k <= items.len(),
    ensures reaches_items(bits, items.take(k as int), bound, m, j) == reaches_items(bits, items, bound, m, j),
    decreases m,
{
    if m > 0 {
        lemma_reaches_items_take_prefix(bits, items, bound, k, (m - 1) as nat, j);
        assert(items.take(k as int)[m - 1] == items[m - 1]);
    }
    if m == k && k > 0 {
    }
}


// ---- walking and drawing ----

/// The bits of `n` without the inversion flag.
pub open spec fn raw_key(n: NID) -> u64 {
    n.n & !INV
}

/// A node of the base sits one above its index; everything else at 0.
pub open spec fn walk_measure(bits: Seq<Ops>, n: NID) -> nat {
    if is_ixn_spec(n) && idx_of(n) < bits.len() { idx_of(n) + 1 } else { 0 }
}

/// Walking from `n` depth first, each raw node once and tables skipped,
/// when the raw nodes in `seen` were visited before: the nodes visited, in
/// order (a node before what it refers to), and the raw nodes seen after.
pub open spec fn visit(bits: Seq<Ops>, n: NID, seen: Set<u64>) -> (Seq<NID>, Set<u64>)
    decreases walk_measure(bits, n), 1nat, 0nat,
{
    if seen.contains(raw_key(n)) {
        (Seq::empty(), seen)
    } else if n.n & VAR != 0 || n.n & T != 0 || !(is_ixn_spec(n) && idx_of(n) < bits.len()) {
        (seq![n], seen.insert(raw_key(n)))
    } else {
        let r = visit_items(bits, bits[idx_of(n) as int].items(), idx_of(n), 0, seen.insert(raw_key(n)));
        (seq![n] + r.0, r.1)
    }
}

/// The walk continued through items `k..` of a node with index `bound`.
pub open spec fn visit_items(bits: Seq<Ops>, items: Seq<NID>, bound: nat, k: nat, seen: Set<u64>) -> (Seq<NID>, Set<u64>)
    decreases bound + 1, 0nat, items.len() - k,
{
    if k >= items.len() {
        (Seq::empty(), seen)
    } else {
        let x = items[k as int];
        let a = if x.n & F != F && walk_measure(bits, x) <= bound { visit(bits, x, seen) } else { (Seq::empty(), seen) };
        let b = visit_items(bits, items, bound, k + 1, a.1);
        (a.0 + b.0, b.1)
    }
}

/// Everything a walk visits is a literal or a node of the base.
pub proof fn lemma_visit_ok(bits: Seq<Ops>, n: NID, seen: Set<u64>)
    requires
        forall|i: int| 0 <= i < bits.len() ==> node_ok(#[trigger] bits[i], i as nat),
        ref_ok(n, bits.len()), n.n & F != F,
    ensures forall|i: int| 0 <= i < visit(bits, n, seen).0.len() ==>
        (#[trigger] visit(bits, n, seen).0[i]).n & F != F && ref_ok(visit(bits, n, seen).0[i], bits.len()),
    decreases walk_measure(bits, n), 1nat, 0nat,
{
    if !seen.contains(raw_key(n)) && !(n.n & VAR != 0 || n.n & T != 0 || !(is_ixn_spec(n) && idx_of(n) < bits.len())) {
        let items = bits[idx_of(n) as int].items();
        assert(node_ok(bits[idx_of(n) as int], idx_of(n)));
        lemma_visit_items_ok(bits, items, idx_of(n), 0, seen.insert(raw_key(n)));
        let r = visit_items(bits, items, idx_of(n), 0, seen.insert(raw_key(n)));
        assert forall|i: int| 0 <= i < visit(bits, n, seen).0.len() implies
            (#[trigger] visit(bits, n, seen).0[i]).n & F != F && ref_ok(visit(bits, n, seen).0[i], bits.len()) by {
            if i > 0 {
                assert(visit(bits, n, seen).0[i] == r.0[i - 1]);
            }
        }
    }
}

proof fn lemma_visit_items_ok(bits: Seq<Ops>, items: Seq<NID>, bound: nat, k: nat, seen: Set<u64>)
    requires
        forall|i: int| 0 <= i < bits.len() ==> node_ok(#[trigger] bits[i], i as nat),
        bound < bits.len(),
        forall|q: int| 0 <= q < items.len() ==> #[trigger] ref_ok(items[q], bound),
    ensures forall|i: int| 0 <= i < visit_items(bits, items, bound, k, seen).0.len() ==>
        (#[trigger] visit_items(bits, items, bound, k, seen).0[i]).n & F != F
        && ref_ok(visit_items(bits, items, bound, k, seen).0[i], bits.len()),
    decreases bound + 1, 0nat, items.len() - k,
{
    if k < items.len() {
        let x = items[k as int];
        let a = if x.n & F != F && walk_measure(bits, x) <= bound { visit(bits, x, seen) } else { (Seq::empty(), seen) };
        if x.n & F != F && walk_measure(bits, x) <= bound {
            assert(ref_ok(x, bound));
            lemma_visit_ok(bits, x, seen);
        }
        lemma_visit_items_ok(bits, items, bound, k + 1, a.1);
        let b = visit_items(bits, items, bound, k + 1, a.1);
        assert forall|i: int| 0 <= i < (a.0 + b.0).len() implies
            (#[trigger] (a.0 + b.0)[i]).n & F != F && ref_ok((a.0 + b.0)[i], bits.len()) by {
            if i >= a.0.len() {
                assert((a.0 + b.0)[i] == b.0[i - a.0.len()]);
            }
        }
    }
}

/// The drawing of a node of a walk can be made: a node of the base is a
/// binary and, exclusive or, or inclusive or.
pub open spec fn dot_op_ok(items: Seq<NID>) -> bool {
    &&& items.len() >= 2
    &&& items.last() == ops::AND_spec() || items.last() == ops::XOR_spec() || items.last() == ops::VEL_spec()
}

/// Node `m` can be drawn: a constant, a variable, or a node of the base
/// that is a binary and, exclusive or, or inclusive or.
pub open spec fn node_dot_ok(bits: Seq<Ops>, m: NID) -> bool {
    m == nid_o() || m == nid_i() || m.n & VAR != 0
        || (is_ixn_spec(m) && idx_of(m) < bits.len() && dot_op_ok(bits[idx_of(m) as int].items()))
}

pub open spec fn dot_ok(bits: Seq<Ops>, nodes: Seq<NID>) -> bool {
    forall|i: int| 0 <= i < nodes.len() ==> #[trigger] node_dot_ok(bits, nodes[i])
}

/// The nid `n` without inversion.
pub open spec fn raw_nid(n: NID) -> NID {
    NID { n: raw_key(n) }
}

/// The edge from item `x` up to node `n`, dashed when `x` is inverted.
pub open spec fn dot_edge(x: NID, n: NID) -> Seq<char> {
    (if x.n & INV != 0 { "edge[style=dashed];\n"@ } else { "edge[style=solid];\n"@ })
        + " \""@ + nid_text(raw_nid(x)) + "\"->\""@ + nid_text(raw_nid(n)) + "\";\n"@
}

/// The lines that draw node `n`.
pub open spec fn dot_line(bits: Seq<Ops>, n: NID) -> Seq<char> {
    if n == nid_o() {
        " \""@ + nid_text(n) + "\"[label=⊥];\n"@
    } else if n == nid_i() {
        " \""@ + nid_text(n) + "\"[label=⊤];\n"@
    } else if n.n & VAR != 0 {
        "\""@ + nid_text(raw_nid(n)) + "\"[fillcolor=\"#bbbbbb\",label=\""@ + vid_text(n.vid_spec()) + "\"];\n"@
    } else {
        let items = bits[idx_of(n) as int].items();
        let sym = if items.last() == ops::AND_spec() { "∧"@ } else if items.last() == ops::XOR_spec() { "≠"@ } else { "∨"@ };
        "  \""@ + nid_text(raw_nid(n)) + "\"[label="@ + sym + "];\n"@ + dot_edge(items[0], n) + dot_edge(items[1], n)
    }
}

/// The lines that draw the given nodes, in order.
pub open spec fn dot_lines(bits: Seq<Ops>, nodes: Seq<NID>) -> Seq<char>
    decreases nodes.len(),
{
    if nodes.len() == 0 { Seq::empty() } else { dot_lines(bits, nodes.drop_last()) + dot_line(bits, nodes.last()) }
}

/// The start of a drawing.
pub open spec fn dot_head() -> Seq<char> {
    "digraph bdd {\n  bgcolor=\"#3399cc\"; pad=0.225\n  rankdir=BT;\n  node[shape=circle, style=filled, fillcolor=\"#dddddd\", fontname=calibri];\n  edge[style=solid]\n"@
}

/// A GraphViz drawing of the nodes that a walk from `n` visits.
pub open spec fn dot_text(bits: Seq<Ops>, n: NID) -> Seq<char> {
    dot_head() + dot_lines(bits, visit(bits, n, Set::empty()).0) + "}\n"@
}

fn push_edge(s: &mut String, x: NID, n: NID)
    ensures final(s)@ == old(s)@ + dot_edge(x, n),
{
    if x.is_inv() { s.append("edge[style=dashed];\n"); } else { s.append("edge[style=solid];\n"); }
    s.append(" \"");
    s.append(x.raw().to_string().as_str());
    s.append("\"->\"");
    s.append(n.raw().to_string().as_str());
    s.append("\";\n");
    proof {
        assert(s@ =~= old(s)@ + dot_edge(x, n));
    }
}

impl RawASTBase {
    /// The nodes reachable from `n`, each raw node once, depth first (a node
    /// before the nodes it refers to; tables are not visited).
    pub fn walk(&self, n: NID) -> (r: Vec<NID>)
        requires self.wf(), ref_ok(n, self.bits@.len()), n.n & F != F,
        ensures r@ == visit(self.bits@, n, Set::empty()).0,
    {
        let mut seen: HashSet<u64> = HashSet::new();
        let mut out: Vec<NID> = Vec::new();
        self.step(n, &mut out, &mut seen);
        proof { assert(out@ =~= visit(self.bits@, n, Set::empty()).0); }
        out
    }

    /// Visit `n` unless its raw node was seen, then what it refers to.
    fn step(&self, n: NID, out: &mut Vec<NID>, seen: &mut HashSet<u64>)
        requires self.wf(), ref_ok(n, self.bits@.len()), n.n & F != F,
        ensures
            final(out)@ == old(out)@ + visit(self.bits@, n, old(seen)@).0,
            final(seen)@ == visit(self.bits@, n, old(seen)@).1,
        decreases walk_measure(self.bits@, n), 1nat, 0nat,
    {
        let key = n.raw().n;
        proof { lemma_ixn_bits(n); }
        if !seen.contains(&key) {
            seen.insert(key);
            out.push(n);
            if !n.is_lit() {
                let items = self.get_ops(n).to_rpn();
                let ghost j = idx_of(n);
                let ghost bits = self.bits@;
                let ghost target = visit(bits, n, old(seen)@);
                proof {
                    assert(node_ok(bits[j as int], j));
                    assert(old(out)@ + target.0 =~= out@ + visit_items(bits, items@, j, 0, seen@).0);
                }
                let mut k: usize = 0;
                while k < items.len()
                    invariant
                        self.wf(), bits == self.bits@,
                        j < bits.len(), items@ == bits[j as int].items(),
                        walk_measure(bits, n) == j + 1,
                        node_ok(bits[j as int], j),
                        k <= items@.len(),
                        old(out)@ + target.0 == out@ + visit_items(bits, items@, j, k as nat, seen@).0,
                        target.1 == visit_items(bits, items@, j, k as nat, seen@).1,
                    decreases items@.len() - k,
                {
                    let x = items[k];
                    let ghost out0 = out@;
                    let ghost seen0 = seen@;
                    proof {
                        assert(ref_ok(x, j));
                        lemma_ixn_bits(x);
                        assert(x.n & F != F ==> walk_measure(bits, x) <= j);
                    }
                    if !x.is_fun() {
                        self.step(x, out, seen);
                        proof {
                            let a = visit(bits, x, seen0);
                            let b = visit_items(bits, items@, j, (k + 1) as nat, a.1);
                            assert(out@ + b.0 =~= out0 + (a.0 + b.0));
                        }
                    } else {
                        proof {
                            assert(out@ + visit_items(bits, items@, j, (k + 1) as nat, seen@).0
                                =~= out0 + (Seq::<NID>::empty() + visit_items(bits, items@, j, (k + 1) as nat, seen0).0));
                        }
                    }
                    k = k + 1;
                }
                proof { assert(out@ =~= out@ + Seq::<NID>::empty()); }
            } else {
                proof { assert(out@ =~= old(out)@ + seq![n]); }
            }
        } else {
            proof { assert(out@ =~= old(out)@ + Seq::<NID>::empty()); }
        }
    }

    fn push_dot_line(&self, s: &mut String, n: NID)
        requires self.wf(), node_dot_ok(self.bits@, n),
        ensures final(s)@ == old(s)@ + dot_line(self.bits@, n),
    {
        proof { lemma_ixn_bits(n); crate::bits::lemma_constants(); }
        if n.n == 0x2000_0000_0000_0000 {
            s.append(" \"");
            s.append(n.to_string().as_str());
            s.append("\"[label=⊥];\n");
            proof { assert(s@ =~= old(s)@ + dot_line(self.bits@, n)); }
        } else if n.n == 0xA000_0000_0000_0000 {
            s.append(" \"");
            s.append(n.to_string().as_str());
            s.append("\"[label=⊤];\n");
            proof { assert(s@ =~= old(s)@ + dot_line(self.bits@, n)); }
        } else if n.is_vid() {
            s.append("\"");
            s.append(n.raw().to_string().as_str());
            s.append("\"[fillcolor=\"#bbbbbb\",label=\"");
            s.append(n.vid().to_string().as_str());
            s.append("\"];\n");
            proof { assert(s@ =~= old(s)@ + dot_line(self.bits@, n)); }
        } else {
            let items = self.get_ops(n).to_rpn();
            let last = items[items.len() - 1];
            s.append("  \"");
            s.append(n.raw().to_string().as_str());
            s.append("\"[label=");
            if last == ops::AND().to_nid() {
                s.append("∧");
            } else if last == ops::XOR().to_nid() {
                s.append("≠");
            } else {
                s.append("∨");
            }
            s.append("];\n");
            push_edge(s, items[0], n);
            push_edge(s, items[1], n);
            proof { assert(s@ =~= old(s)@ + dot_line(self.bits@, n)); }
        }
    }

    /// A GraphViz drawing of the expression `n`: one line per node that a
    /// walk from `n` visits, and the edges to its two inputs.
    pub fn dot(&self, n: NID) -> (r: String)
        requires
            self.wf(), ref_ok(n, self.bits@.len()), n.n & F != F,
            dot_ok(self.bits@, visit(self.bits@, n, Set::empty()).0),
        ensures r@ == dot_text(self.bits@, n),
    {
        let nodes = self.walk(n);
        let mut s = String::new();
        s.append("digraph bdd {\n  bgcolor=\"#3399cc\"; pad=0.225\n  rankdir=BT;\n  node[shape=circle, style=filled, fillcolor=\"#dddddd\", fontname=calibri];\n  edge[style=solid]\n");
        let mut k: usize = 0;
        while k < nodes.len()
            invariant
                self.wf(), k <= nodes@.len(),
                nodes@ == visit(self.bits@, n, Set::empty()).0,
                dot_ok(self.bits@, nodes@),
                s@ == dot_head() + dot_lines(self.bits@, nodes@.take(k as int)),
            decreases nodes@.len() - k,
        {
            let m = nodes[k];
            proof { assert(node_dot_ok(self.bits@, nodes@[k as int])); }
            self.push_dot_line(&mut s, m);
            proof {
                assert(nodes@.take(k as int + 1).drop_last() =~= nodes@.take(k as int));
                assert(s@ =~= dot_head() + dot_lines(self.bits@, nodes@.take(k as int + 1)));
            }
            k = k + 1;
        }
        s.append("}\n");
        proof { assert(nodes@.take(k as int) =~= nodes@); }
        s
    }
}

} // verus!
