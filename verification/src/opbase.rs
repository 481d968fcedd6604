//! A self-contained base of boolean operations over numbered nodes: each node
//! is an operation on earlier nodes, with simplification rules, caching,
//! substitution and garbage collection.
use vstd::prelude::*;
use std::collections::HashMap;

verus! {

broadcast use vstd::std_specs::hash::group_hash_axioms;

/// A variable index.
pub type VID = usize;
/// A node index.
pub type NID = usize;

/// The node index that a renumbered node gets for a reference to a node that
/// was dropped.
pub const GONE: NID = 0x8000_0000_0000_0000u64 as NID;

/// An operation: a constant, an input variable, or a function of earlier nodes.
#[derive(Copy, Clone, Hash, PartialEq, Eq, Debug, PartialOrd, Ord, Structural)]
pub enum Op {
    O,
    I,
    Var(VID),
    Not(NID),
    And(NID, NID),
    Or(NID, NID),
    Xor(NID, NID),
    /// choice: if the first then the second else the third
    Ch(NID, NID, NID),
    /// majority of three
    Mj(NID, NID, NID),
}

// ---- the order of operations (the order in which `derive` compares them) ----

/// The position of an operation's kind in the declaration.
pub open spec fn rank(o: Op) -> nat {
    match o {
        Op::O => 0,
        Op::I => 1,
        Op::Var(_) => 2,
        Op::Not(_) => 3,
        Op::And(_, _) => 4,
        Op::Or(_, _) => 5,
        Op::Xor(_, _) => 6,
        Op::Ch(_, _, _) => 7,
        Op::Mj(_, _, _) => 8,
    }
}

/// The fields of an operation, padded with zeros.
pub open spec fn fields(o: Op) -> (usize, usize, usize) {
    match o {
        Op::O => (0, 0, 0),
        Op::I => (0, 0, 0),
        Op::Var(v) => (v, 0, 0),
        Op::Not(x) => (x, 0, 0),
        Op::And(x, y) => (x, y, 0),
        Op::Or(x, y) => (x, y, 0),
        Op::Xor(x, y) => (x, y, 0),
        Op::Ch(x, y, z) => (x, y, z),
        Op::Mj(x, y, z) => (x, y, z),
    }
}

/// `a` comes before `b`: by kind, then field by field.
pub open spec fn op_lt(a: Op, b: Op) -> bool {
    let (a0, a1, a2) = fields(a);
    let (b0, b1, b2) = fields(b);
    rank(a) < rank(b) || (rank(a) == rank(b) && (a0 < b0 || (a0 == b0 && (a1 < b1 || (a1 == b1 && a2 < b2)))))
}

fn rank_of(o: &Op) -> (r: u8)
    ensures r == rank(*o),
{
    match o {
        Op::O => 0,
        Op::I => 1,
        Op::Var(_) => 2,
        Op::Not(_) => 3,
        Op::And(_, _) => 4,
        Op::Or(_, _) => 5,
        Op::Xor(_, _) => 6,
        Op::Ch(_, _, _) => 7,
        Op::Mj(_, _, _) => 8,
    }
}

fn fields_of(o: &Op) -> (r: (usize, usize, usize))
    ensures r == fields(*o),
{
    match o {
        Op::O => (0, 0, 0),
        Op::I => (0, 0, 0),
        Op::Var(v) => (*v, 0, 0),
        Op::Not(x) => (*x, 0, 0),
        Op::And(x, y) => (*x, *y, 0),
        Op::Or(x, y) => (*x, *y, 0),
        Op::Xor(x, y) => (*x, *y, 0),
        Op::Ch(x, y, z) => (*x, *y, *z),
        Op::Mj(x, y, z) => (*x, *y, *z),
    }
}

fn op_less(a: &Op, b: &Op) -> (r: bool)
    ensures r == op_lt(*a, *b),
{
    let (ra, rb) = (rank_of(a), rank_of(b));
    let (a0, a1, a2) = fields_of(a);
    let (b0, b1, b2) = fields_of(b);
    ra < rb || (ra == rb && (a0 < b0 || (a0 == b0 && (a1 < b1 || (a1 == b1 && a2 < b2)))))
}

// ---- meaning ----

/// Each node that `o` refers to is below `n`.
pub open spec fn refs_below(o: Op, n: nat) -> bool {
    match o {
        Op::O => true,
        Op::I => true,
        Op::Var(_) => true,
        Op::Not(x) => x < n,
        Op::And(x, y) => x < n && y < n,
        Op::Or(x, y) => x < n && y < n,
        Op::Xor(x, y) => x < n && y < n,
        Op::Ch(x, y, z) => x < n && y < n && z < n,
        Op::Mj(x, y, z) => x < n && y < n && z < n,
    }
}

/// The value of node `n` when each variable `v` has the value `env(v)`.
pub open spec fn sem(bits: Seq<Op>, n: nat, env: spec_fn(VID) -> bool) -> bool
    decreases n,
{
    if n >= bits.len() {
        false
    } else {
        match bits[n as int] {
            Op::O => false,
            Op::I => true,
            Op::Var(v) => env(v),
            Op::Not(x) => if x < n { !sem(bits, x as nat, env) } else { false },
            Op::And(x, y) => if x < n && y < n { sem(bits, x as nat, env) && sem(bits, y as nat, env) } else { false },
            Op::Or(x, y) => if x < n && y < n { sem(bits, x as nat, env) || sem(bits, y as nat, env) } else { false },
            Op::Xor(x, y) => if x < n && y < n { sem(bits, x as nat, env) != sem(bits, y as nat, env) } else { false },
            Op::Ch(x, y, z) => if x < n && y < n && z < n {
                if sem(bits, x as nat, env) { sem(bits, y as nat, env) } else { sem(bits, z as nat, env) }
            } else { false },
            Op::Mj(x, y, z) => if x < n && y < n && z < n {
                let (a, b, c) = (sem(bits, x as nat, env), sem(bits, y as nat, env), sem(bits, z as nat, env));
                (a && b) || (a && c) || (b && c)
            } else { false },
        }
    }
}

/// Adding nodes at the end keeps the value of the nodes already there.
pub proof fn lemma_sem_stable(b1: Seq<Op>, b2: Seq<Op>, n: nat, env: spec_fn(VID) -> bool)
    requires n < b1.len() <= b2.len(), forall|i: int| 0 <= i < b1.len() ==> b2[i] == b1[i],
    ensures sem(b2, n, env) == sem(b1, n, env),
    decreases n,
{
    match b1[n as int] {
        Op::O => {},
        Op::I => {},
        Op::Var(_) => {},
        Op::Not(x) => { if x < n { lemma_sem_stable(b1, b2, x as nat, env); } },
        Op::And(x, y) => { if x < n && y < n { lemma_sem_stable(b1, b2, x as nat, env); lemma_sem_stable(b1, b2, y as nat, env); } },
        Op::Or(x, y) => { if x < n && y < n { lemma_sem_stable(b1, b2, x as nat, env); lemma_sem_stable(b1, b2, y as nat, env); } },
        Op::Xor(x, y) => { if x < n && y < n { lemma_sem_stable(b1, b2, x as nat, env); lemma_sem_stable(b1, b2, y as nat, env); } },
        Op::Ch(x, y, z) => { if x < n && y < n && z < n {
            lemma_sem_stable(b1, b2, x as nat, env); lemma_sem_stable(b1, b2, y as nat, env); lemma_sem_stable(b1, b2, z as nat, env); } },
        Op::Mj(x, y, z) => { if x < n && y < n && z < n {
            lemma_sem_stable(b1, b2, x as nat, env); lemma_sem_stable(b1, b2, y as nat, env); lemma_sem_stable(b1, b2, z as nat, env); } },
    }
}

/// The two constants are the first two nodes, and no other node is a constant.
pub open spec fn consts_unique(bits: Seq<Op>) -> bool {
    forall|i: int| 2 <= i < bits.len() ==> !(#[trigger] bits[i] is O) && !(bits[i] is I)
}

// ---- small tables ----

/// Names given to nodes, one node per name.
pub struct NameTable {
    keys: Vec<String>,
    vals: Vec<NID>,
}

impl NameTable {
    pub closed spec fn wf(&self) -> bool {
        &&& self.keys@.len() == self.vals@.len()
        &&& forall|a: int, b: int| 0 <= a < b < self.keys@.len() ==> self.keys@[a]@ != self.keys@[b]@
    }

    /// The names and their nodes.
    pub closed spec fn map(&self) -> Map<Seq<char>, NID> {
        Map::new(|k: Seq<char>| exists|i: int| 0 <= i < self.keys@.len() && self.keys@[i]@ == k,
            |k: Seq<char>| self.vals@[choose|i: int| 0 <= i < self.keys@.len() && self.keys@[i]@ == k])
    }

    /// An empty table.
    pub fn new() -> (r: NameTable)
        ensures r.wf(), r.map() == Map::<Seq<char>, NID>::empty(),
    {
        let r = NameTable { keys: Vec::new(), vals: Vec::new() };
        assert(r.map() =~= Map::<Seq<char>, NID>::empty());
        r
    }

    /// Name `n` with `s` (replacing any node of that name).
    pub fn insert(&mut self, s: String, n: NID)
        requires old(self).wf(),
        ensures final(self).wf(), final(self).map() == old(self).map().insert(s@, n),
    {
        let mut i: usize = 0;
        while i < self.keys.len()
            invariant self.wf(), *self == *old(self), i <= self.keys@.len(),
                forall|j: int| 0 <= j < i ==> self.keys@[j]@ != s@,
            decreases self.keys@.len() - i,
        {
            if self.keys[i] == s {
                self.vals.set(i, n);
                proof {
                    assert forall|k: Seq<char>| true implies (self.map().contains_key(k) == old(self).map().insert(s@, n).contains_key(k)) by {}
                    assert forall|k: Seq<char>| #[trigger] self.map().contains_key(k) implies self.map()[k] == old(self).map().insert(s@, n)[k] by {
                        let w = choose|w: int| 0 <= w < self.keys@.len() && self.keys@[w]@ == k;
                        let w0 = choose|w: int| 0 <= w < old(self).keys@.len() && old(self).keys@[w]@ == k;
                        assert(w == w0);
                        if k == s@ { assert(w == i); }
                    }
                    assert(self.map() =~= old(self).map().insert(s@, n));
                }
                return;
            }
            i = i + 1;
        }
        self.keys.push(s);
        self.vals.push(n);
        proof {
            let len = old(self).keys@.len() as int;
            assert forall|k: Seq<char>| #[trigger] self.map().contains_key(k) implies self.map()[k] == old(self).map().insert(s@, n)[k] by {
                let w = choose|w: int| 0 <= w < self.keys@.len() && self.keys@[w]@ == k;
                if k == s@ {
                    assert(w == len);
                } else {
                    assert(old(self).keys@[w]@ == k);
                    let w0 = choose|w: int| 0 <= w < old(self).keys@.len() && old(self).keys@[w]@ == k;
                    assert(w == w0);
                }
            }
            assert forall|k: Seq<char>| old(self).map().insert(s@, n).contains_key(k) implies #[trigger] self.map().contains_key(k) by {
                if k == s@ {
                    assert(self.keys@[len]@ == k);
                } else {
                    let w0 = choose|w: int| 0 <= w < old(self).keys@.len() && old(self).keys@[w]@ == k;
                    assert(self.keys@[w0]@ == k);
                }
            }
            assert(self.map() =~= old(self).map().insert(s@, n));
        }
    }

    /// The node named `s`, if any.
    pub fn get(&self, s: &String) -> (r: Option<NID>)
        requires self.wf(),
        ensures r == if self.map().contains_key(s@) { Some(self.map()[s@]) } else { None::<NID> },
    {
        let mut i: usize = 0;
        while i < self.keys.len()
            invariant self.wf(), i <= self.keys@.len(),
                forall|j: int| 0 <= j < i ==> self.keys@[j]@ != s@,
            decreases self.keys@.len() - i,
        {
            if self.keys[i] == *s {
                proof {
                    assert(self.map().contains_key(s@));
                    let w = choose|w: int| 0 <= w < self.keys@.len() && self.keys@[w]@ == s@;
                    assert(w == i);
                }
                return Some(self.vals[i]);
            }
            i = i + 1;
        }
        None
    }

    /// The names and nodes, as two lists.
    fn entries(&self) -> (r: (&Vec<String>, &Vec<NID>))
        requires self.wf(),
        ensures
            r.0@ == self.keys@, r.1@ == self.vals@, r.0@.len() == r.1@.len(),
            forall|a: int, b: int| 0 <= a < b < r.0@.len() ==> r.0@[a]@ != r.0@[b]@,
            forall|k: Seq<char>| #[trigger] self.map().contains_key(k) <==> exists|i: int| 0 <= i < r.0@.len() && r.0@[i]@ == k,
            forall|i: int| 0 <= i < r.0@.len() ==> #[trigger] self.map()[r.0@[i]@] == r.1@[i],
    {
        proof {
            assert forall|i: int| 0 <= i < self.keys@.len() implies #[trigger] self.map()[self.keys@[i]@] == self.vals@[i] by {
                let k = self.keys@[i]@;
                assert(self.map().contains_key(k));
                let w = choose|w: int| 0 <= w < self.keys@.len() && self.keys@[w]@ == k;
                assert(w == i);
            }
        }
        (&self.keys, &self.vals)
    }
}

/// The expression cache: operations to their nodes.
struct OpTable {
    keys: Vec<Op>,
    vals: Vec<NID>,
}

impl OpTable {
    closed spec fn wf(&self) -> bool {
        &&& self.keys@.len() == self.vals@.len()
        &&& forall|a: int, b: int| 0 <= a < b < self.keys@.len() ==> self.keys@[a] != self.keys@[b]
    }

    closed spec fn map(&self) -> Map<Op, NID> {
        Map::new(|o: Op| self.keys@.contains(o), |o: Op| self.vals@[self.keys@.index_of(o)])
    }

    fn new() -> (r: OpTable)
        ensures r.wf(), r.map() == Map::<Op, NID>::empty(),
    {
        let r = OpTable { keys: Vec::new(), vals: Vec::new() };
        assert(r.map() =~= Map::<Op, NID>::empty());
        r
    }

    fn get(&self, o: &Op) -> (r: Option<NID>)
        requires self.wf(),
        ensures r == if self.map().contains_key(*o) { Some(self.map()[*o]) } else { None::<NID> },
    {
        let mut i: usize = 0;
        while i < self.keys.len()
            invariant self.wf(), i <= self.keys@.len(), forall|j: int| 0 <= j < i ==> self.keys@[j] != *o,
            decreases self.keys@.len() - i,
        {
            if self.keys[i] == *o {
                proof {
                    assert(self.keys@.contains(*o));
                    let w = self.keys@.index_of(*o);
                    assert(self.keys@[w] == *o);
                    assert(w == i);
                }
                return Some(self.vals[i]);
            }
            i = i + 1;
        }
        None
    }

    /// Add an entry for an operation that has none.
    fn insert_new(&mut self, o: Op, n: NID)
        requires old(self).wf(), !old(self).map().contains_key(o),
        ensures final(self).wf(), final(self).map() == old(self).map().insert(o, n),
    {
        self.keys.push(o);
        self.vals.push(n);
        proof {
            let len = old(self).keys@.len() as int;
            assert(self.keys@[len] == o);
            assert forall|p: Op| #[trigger] self.keys@.contains(p) <==> old(self).keys@.contains(p) || p == o by {
                if self.keys@.contains(p) && p != o {
                    let w = choose|w: int| 0 <= w < self.keys@.len() && self.keys@[w] == p;
                    assert(old(self).keys@[w] == p);
                }
                if old(self).keys@.contains(p) {
                    let w = choose|w: int| 0 <= w < old(self).keys@.len() && old(self).keys@[w] == p;
                    assert(self.keys@[w] == p);
                }
            }
            assert forall|p: Op| #[trigger] self.map().contains_key(p) implies self.map()[p] == old(self).map().insert(o, n)[p] by {
                let w = self.keys@.index_of(p);
                if p == o {
                    assert(w == len);
                } else {
                    let w0 = old(self).keys@.index_of(p);
                    assert(self.keys@[w0] == p);
                    assert(w == w0);
                }
            }
            assert(self.map() =~= old(self).map().insert(o, n));
        }
    }
}


// ---- the base ----

/// The operations of a base of numbered nodes. Outside the base one deals
/// only with node numbers; inside, nodes may be stored any way.
pub trait TBase: Sized {
    /// The base is well formed.
    spec fn ok(&self) -> bool;

    /// The number of nodes.
    spec fn size(&self) -> nat;

    /// The number of substitutions made with `sid`.
    spec fn n_subs(&self) -> nat;

    /// `sub` can work out node `x` (its nodes are constants, variables,
    /// negations, ANDs and XORs).
    spec fn sub_ok(&self, x: NID) -> bool;

    fn o(&self) -> (r: NID)
        requires self.ok(),
        ensures (r as nat) < self.size();

    fn i(&self) -> (r: NID)
        requires self.ok(),
        ensures (r as nat) < self.size();

    /// The node of input variable `v`.
    fn var(&mut self, v: VID) -> (r: NID)
        requires old(self).ok(), v < usize::MAX,
        ensures final(self).ok(), (r as nat) < final(self).size(), final(self).size() >= old(self).size(),
            final(self).n_subs() == old(self).n_subs();

    /// A new input variable, named `s` followed by `i`.
    fn def(&mut self, s: String, i: u32) -> (r: NID)
        requires old(self).ok(),
        ensures final(self).ok(), (r as nat) < final(self).size(), final(self).size() >= old(self).size(),
            final(self).n_subs() == old(self).n_subs();

    /// Name node `n` with `s`; returns `n`.
    fn tag(&mut self, n: NID, s: String) -> (r: NID)
        requires old(self).ok(), (n as nat) < old(self).size(),
        ensures final(self).ok(), r == n, final(self).size() == old(self).size(),
            final(self).n_subs() == old(self).n_subs();

    fn not(&mut self, x: NID) -> (r: NID)
        requires old(self).ok(), (x as nat) < old(self).size(),
        ensures final(self).ok(), (r as nat) < final(self).size(), final(self).size() >= old(self).size(),
            final(self).n_subs() == old(self).n_subs();

    fn and(&mut self, x: NID, y: NID) -> (r: NID)
        requires old(self).ok(), (x as nat) < old(self).size(), (y as nat) < old(self).size(),
        ensures final(self).ok(), (r as nat) < final(self).size(), final(self).size() >= old(self).size(),
            final(self).n_subs() == old(self).n_subs();

    fn xor(&mut self, x: NID, y: NID) -> (r: NID)
        requires old(self).ok(), (x as nat) < old(self).size(), (y as nat) < old(self).size(),
        ensures final(self).ok(), (r as nat) < final(self).size(), final(self).size() >= old(self).size(),
            final(self).n_subs() == old(self).n_subs();

    fn or(&mut self, x: NID, y: NID) -> (r: NID)
        requires old(self).ok(), (x as nat) < old(self).size(), (y as nat) < old(self).size(),
        ensures final(self).ok(), (r as nat) < final(self).size(), final(self).size() >= old(self).size(),
            final(self).n_subs() == old(self).n_subs();

    fn mj(&mut self, x: NID, y: NID, z: NID) -> (r: NID)
        requires old(self).ok(), (x as nat) < old(self).size(), (y as nat) < old(self).size(), (z as nat) < old(self).size(),
        ensures final(self).ok(), (r as nat) < final(self).size(), final(self).size() >= old(self).size(),
            final(self).n_subs() == old(self).n_subs();

    fn ch(&mut self, x: NID, y: NID, z: NID) -> (r: NID)
        requires old(self).ok(), (x as nat) < old(self).size(), (y as nat) < old(self).size(), (z as nat) < old(self).size(),
        ensures final(self).ok(), (r as nat) < final(self).size(), final(self).size() >= old(self).size(),
            final(self).n_subs() == old(self).n_subs();

    /// Node `nid` with node `val` put in place of variable `v`.
    fn when(&mut self, v: VID, val: NID, nid: NID) -> (r: NID)
        requires old(self).ok(), (val as nat) < old(self).size(), (nid as nat) < old(self).size(),
        ensures final(self).ok(), (r as nat) < final(self).size(), final(self).size() >= old(self).size(),
            final(self).n_subs() == old(self).n_subs();

    /// Record a substitution (variables to nodes); returns its number.
    fn sid(&mut self, kv: HashMap<VID, NID>) -> (r: usize)
        requires old(self).ok(), forall|v: VID| #[trigger] kv@.contains_key(v) ==> (kv@[v] as nat) < old(self).size(),
        ensures final(self).ok(), final(self).size() == old(self).size(), r == old(self).n_subs(),
            final(self).n_subs() == old(self).n_subs() + 1;

    /// Node `x` with the substitution numbered `s` applied (many inputs at once).
    fn sub(&mut self, x: NID, s: usize) -> (r: NID)
        requires old(self).ok(), (x as nat) < old(self).size(), (s as nat) < old(self).n_subs(), old(self).sub_ok(x),
        ensures final(self).ok(), (r as nat) < final(self).size(), final(self).size() >= old(self).size(),
            final(self).n_subs() == old(self).n_subs();

    /// The node for an operation on existing nodes.
    fn nid(&mut self, op: Op) -> (r: NID)
        requires old(self).ok(), refs_below(op, old(self).size()),
        ensures final(self).ok(), (r as nat) < final(self).size(), final(self).size() >= old(self).size(),
            final(self).n_subs() == old(self).n_subs();
}

/// A base that stores its nodes in a list.
pub struct Base {
    /// All known nodes.
    pub bits: Vec<Op>,
    /// Names given to nodes.
    pub tags: NameTable,
    hash: OpTable,
    vars: Vec<NID>,
    subs: Vec<HashMap<VID, NID>>,
    subc: Vec<HashMap<NID, NID>>,
}

/// `b2` keeps the nodes of `b1` and may add more.
pub open spec fn extends(b1: Seq<Op>, b2: Seq<Op>) -> bool {
    &&& b1.len() <= b2.len()
    &&& forall|i: int| 0 <= i < b1.len() ==> #[trigger] b2[i] == b1[i]
}

impl Base {
    /// Well formed: the constants come first, each node refers to nodes
    /// before it, and the variable index, caches and names agree with the nodes.
    pub closed spec fn wf(&self) -> bool {
        let len = self.bits@.len();
        &&& len >= 2
        &&& self.bits@[0] == Op::O
        &&& self.bits@[1] == Op::I
        &&& forall|i: int| 0 <= i < len ==> refs_below(#[trigger] self.bits@[i], i as nat)
        &&& self.vars@.len() + 2 <= len
        &&& forall|v: int| 0 <= v < self.vars@.len() ==>
                (#[trigger] self.vars@[v] as int) < len && self.bits@[self.vars@[v] as int] == Op::Var(v as usize)
        &&& self.hash.wf()
        &&& forall|o: Op| #[trigger] self.hash.map().contains_key(o) ==>
                (self.hash.map()[o] as int) < len && self.bits@[self.hash.map()[o] as int] == o
        &&& self.tags.wf()
        &&& forall|k: Seq<char>| #[trigger] self.tags.map().contains_key(k) ==> (self.tags.map()[k] as int) < len
        &&& self.subs@.len() == self.subc@.len()
        &&& forall|s: int, v: VID| 0 <= s < self.subs@.len() && #[trigger] self.subs@[s]@.contains_key(v) ==>
                (self.subs@[s]@[v] as int) < len
        &&& forall|s: int, x: NID| 0 <= s < self.subc@.len() && #[trigger] self.subc@[s]@.contains_key(x) ==>
                (x as int) < len && (self.subc@[s]@[x] as int) < len
    }

    /// The nodes.
    pub closed spec fn nodes(&self) -> Seq<Op> {
        self.bits@
    }

    /// The names given to nodes.
    pub closed spec fn names(&self) -> Map<Seq<char>, NID> {
        self.tags.map()
    }

    /// The substitution tables and their caches.
    pub closed spec fn sub_tables(&self) -> (Seq<HashMap<VID, NID>>, Seq<HashMap<NID, NID>>) {
        (self.subs@, self.subc@)
    }

    /// Substitution number `s`: variables to nodes.
    pub closed spec fn sub_map(&self, s: int) -> Map<VID, NID> {
        self.subs@[s]@
    }

    /// The cached results of substitution number `s` are right.
    pub closed spec fn sub_cache_sound(&self, s: int) -> bool {
        cache_sound(self.bits@, self.subs@[s]@, self.subc@[s]@)
    }

    /// The number of substitutions recorded.
    pub closed spec fn subs_len(&self) -> nat {
        self.subs@.len()
    }

    /// The number of variables known.
    pub closed spec fn n_vars(&self) -> nat {
        self.vars@.len()
    }

    fn with_bits(bits: Vec<Op>, tags: NameTable) -> (r: Base)
        requires
            bits@.len() >= 2, bits@[0] == Op::O, bits@[1] == Op::I,
            forall|i: int| 0 <= i < bits@.len() ==> refs_below(#[trigger] bits@[i], i as nat),
            tags.wf(), forall|k: Seq<char>| #[trigger] tags.map().contains_key(k) ==> (tags.map()[k] as int) < bits@.len(),
        ensures r.wf(), r.nodes() == bits@, r.tags == tags, r.n_vars() == 0, r.subs_len() == 0,
    {
        Base { bits, tags, hash: OpTable::new(), vars: Vec::new(), subs: Vec::new(), subc: Vec::new() }
    }

    /// A base holding only the two constants.
    pub fn empty() -> (r: Base)
        ensures r.wf(), r.nodes() == seq![Op::O, Op::I], r.n_vars() == 0, r.subs_len() == 0,
            r.names() == Map::<Seq<char>, NID>::empty(),
    {
        let mut bits: Vec<Op> = Vec::new();
        bits.push(Op::O);
        bits.push(Op::I);
        assert(bits@ =~= seq![Op::O, Op::I]);
        Base::with_bits(bits, NameTable::new())
    }

    /// The number of nodes.
    pub fn len(&self) -> (r: usize)
        ensures r == self.nodes().len(),
    {
        self.bits.len()
    }

    /// The operation of node `n`.
    pub fn get(&self, n: NID) -> (r: Op)
        requires (n as int) < self.nodes().len(),
        ensures r == self.nodes()[n as int],
    {
        self.bits[n]
    }
}

impl std::ops::Index<NID> for Base {
    type Output = Op;

    fn index(&self, index: NID) -> (r: &Op)
        ensures *r == self.nodes()[index as int],
    {
        &self.bits[index]
    }
}

impl vstd::std_specs::core::IndexSpecImpl<NID> for Base {
    closed spec fn index_req(&self, index: &NID) -> bool {
        (*index as int) < self.bits@.len()
    }
}


/// Node `n` and the nodes it depends on are constants, variables, negations,
/// ANDs and XORs.
pub open spec fn simple_cone(bits: Seq<Op>, n: nat) -> bool
    decreases n,
{
    if n >= bits.len() {
        false
    } else {
        match bits[n as int] {
            Op::O => true,
            Op::I => true,
            Op::Var(_) => true,
            Op::Not(x) => x < n && simple_cone(bits, x as nat),
            Op::And(x, y) => x < n && y < n && simple_cone(bits, x as nat) && simple_cone(bits, y as nat),
            Op::Xor(x, y) => x < n && y < n && simple_cone(bits, x as nat) && simple_cone(bits, y as nat),
            _ => false,
        }
    }
}

/// `env` with variable `v` set to `b`.
pub open spec fn with_var(env: spec_fn(VID) -> bool, v: VID, b: bool) -> spec_fn(VID) -> bool {
    |u: VID| if u == v { b } else { env(u) }
}

/// The result of an operation: `b1` extends `b0`, and `r` is one of its nodes.
pub open spec fn grown(b0: Base, b1: Base, r: NID) -> bool {
    &&& b1.wf()
    &&& extends(b0.nodes(), b1.nodes())
    &&& (r as int) < b1.nodes().len()
    &&& b1.names() == b0.names()
    &&& b1.n_vars() == b0.n_vars()
    &&& b1.subs_len() == b0.subs_len()
}

impl Base {
    /// Node `x` keeps its value in a base that extends this one.
    proof fn lemma_keeps(&self, b1: Base, x: NID)
        requires extends(self.nodes(), b1.nodes()), (x as int) < self.nodes().len(),
        ensures forall|env: spec_fn(VID) -> bool| #[trigger] sem(b1.nodes(), x as nat, env) == sem(self.nodes(), x as nat, env),
    {
        assert forall|env: spec_fn(VID) -> bool| #[trigger] sem(b1.nodes(), x as nat, env) == sem(self.nodes(), x as nat, env) by {
            lemma_sem_stable(self.nodes(), b1.nodes(), x as nat, env);
        }
    }

    /// The node for `op`: the cached one, or a new last node.
    fn make(&mut self, op: Op) -> (r: NID)
        requires old(self).wf(), refs_below(op, old(self).nodes().len()),
        ensures
            grown(*old(self), *final(self), r),
            final(self).sub_tables() == old(self).sub_tables(),
            final(self).nodes()[r as int] == op,
            !(op is O) && !(op is I) ==> (consts_unique(old(self).nodes()) ==> consts_unique(final(self).nodes())),
            made_op(old(self).nodes(), final(self).nodes(), op, r),
    {
        match self.hash.get(&op) {
            Some(n) => n,
            None => {
                let n = self.bits.len();
                self.bits.push(op);
                self.hash.insert_new(op, n);
                proof {
                    assert forall|i: int| 0 <= i < self.bits@.len() implies refs_below(#[trigger] self.bits@[i], i as nat) by {
                        if i < n { assert(old(self).bits@[i] == self.bits@[i]); }
                    }
                    assert forall|o: Op| #[trigger] self.hash.map().contains_key(o) implies
                        (self.hash.map()[o] as int) < self.bits@.len() && self.bits@[self.hash.map()[o] as int] == o by {
                        if o != op { assert(old(self).hash.map().contains_key(o)); }
                    }
                    assert forall|s: int, x: NID| 0 <= s < self.subc@.len() && #[trigger] self.subc@[s]@.contains_key(x) implies
                        (x as int) < self.bits@.len() && (self.subc@[s]@[x] as int) < self.bits@.len() by {
                        assert(old(self).subc@[s]@.contains_key(x));
                    }
                }
                n
            },
        }
    }
}


/// `env` with each variable that substitution `m` maps set to the value of its node.
pub open spec fn sub_env(bits: Seq<Op>, m: Map<VID, NID>, env: spec_fn(VID) -> bool) -> spec_fn(VID) -> bool {
    |v: VID| if m.contains_key(v) { sem(bits, m[v] as nat, env) } else { env(v) }
}

/// Every cached result of substitution `m` has the value of the substituted node.
pub open spec fn cache_sound(bits: Seq<Op>, m: Map<VID, NID>, cache: Map<NID, NID>) -> bool {
    forall|x: NID, env: spec_fn(VID) -> bool| cache.contains_key(x) ==>
        #[trigger] sem(bits, cache[x] as nat, env) == sem(bits, x as nat, sub_env(bits, m, env))
}

/// Substituting in an extended list of nodes gives the same values.
proof fn lemma_sub_env_stable(b1: Seq<Op>, b2: Seq<Op>, m: Map<VID, NID>, env: spec_fn(VID) -> bool)
    requires extends(b1, b2), forall|v: VID| #[trigger] m.contains_key(v) ==> (m[v] as int) < b1.len(),
    ensures sub_env(b2, m, env) == sub_env(b1, m, env),
{
    assert forall|v: VID| #[trigger] sub_env(b2, m, env)(v) == sub_env(b1, m, env)(v) by {
        if m.contains_key(v) { lemma_sem_stable(b1, b2, m[v] as nat, env); }
    }
    assert(sub_env(b2, m, env) =~= sub_env(b1, m, env));
}

/// A sound cache stays sound when nodes are added.
proof fn lemma_cache_stable(b1: Seq<Op>, b2: Seq<Op>, m: Map<VID, NID>, cache: Map<NID, NID>)
    requires
        extends(b1, b2), cache_sound(b1, m, cache),
        forall|v: VID| #[trigger] m.contains_key(v) ==> (m[v] as int) < b1.len(),
        forall|x: NID| #[trigger] cache.contains_key(x) ==> (x as int) < b1.len() && (cache[x] as int) < b1.len(),
    ensures cache_sound(b2, m, cache),
{
    assert forall|x: NID, env: spec_fn(VID) -> bool| cache.contains_key(x) implies
        #[trigger] sem(b2, cache[x] as nat, env) == sem(b2, x as nat, sub_env(b2, m, env)) by {
        lemma_sub_env_stable(b1, b2, m, env);
        lemma_sem_stable(b1, b2, cache[x] as nat, env);
        lemma_sem_stable(b1, b2, x as nat, sub_env(b1, m, env));
        assert(sem(b1, cache[x] as nat, env) == sem(b1, x as nat, sub_env(b1, m, env)));
    }
}


/// `r` is the node for `op`: an existing one (nothing added), or a new last
/// node; a new one whenever no node holds `op` yet.
pub open spec fn made_op(b0: Seq<Op>, b1: Seq<Op>, op: Op, r: NID) -> bool {
    &&& b1[r as int] == op
    &&& b1 == b0 || (b1 == b0.push(op) && r == b0.len())
    &&& (forall|j: int| 0 <= j < b0.len() ==> b0[j] != op) ==> b1 == b0.push(op) && r == b0.len()
}

/// What `vm` gives for each variable (a mask function that `vm` computes).
pub open spec fn base_mask<VM: Fn(&Base, VID) -> u64>(vm: VM, b: &Base) -> spec_fn(VID) -> u64 {
    |v: VID| choose|m: u64| vm.ensures((b, v), m)
}

impl TBase for Base {
    open spec fn ok(&self) -> bool { self.wf() }
    open spec fn size(&self) -> nat { self.nodes().len() }
    open spec fn n_subs(&self) -> nat { self.subs_len() }
    open spec fn sub_ok(&self, x: NID) -> bool { simple_cone(self.nodes(), x as nat) }

    fn o(&self) -> (r: NID)
        ensures r == 0,
    {
        0
    }

    fn i(&self) -> (r: NID)
        ensures r == 1,
    {
        1
    }

    fn var(&mut self, v: VID) -> (r: NID)
        ensures
            extends(old(self).nodes(), final(self).nodes()),
            final(self).nodes()[r as int] == Op::Var(v),
            final(self).n_vars() == if v < old(self).n_vars() { old(self).n_vars() } else { (v + 1) as nat },
            v < old(self).n_vars() ==> final(self).nodes() == old(self).nodes(),
            v >= old(self).n_vars() ==> r == old(self).nodes().len() + (v - old(self).n_vars()),
            final(self).names() == old(self).names(),
            consts_unique(old(self).nodes()) ==> consts_unique(final(self).nodes()),
    {
        let known = self.vars.len();
        if v >= known {
            let mut i = known;
            while i < v + 1
                invariant
                    self.wf(), known <= i <= v + 1, v < usize::MAX, self.vars@.len() == i,
                    self.bits@.len() == old(self).bits@.len() + (i - known),
                    known == old(self).vars@.len(),
                    extends(old(self).bits@, self.bits@),
                    forall|w: int| known <= w < i ==> #[trigger] self.vars@[w] == old(self).bits@.len() + (w - known),
                    forall|j: int| old(self).bits@.len() <= j < self.bits@.len() ==> #[trigger] self.bits@[j] is Var,
                    self.tags == old(self).tags, self.subs@.len() == old(self).subs@.len(),
                decreases v + 1 - i,
            {
                let n = self.bits.len();
                let ghost b0 = *self;
                self.vars.push(n);
                self.bits.push(Op::Var(i));
                proof {
                    assert forall|j: int| 0 <= j < self.bits@.len() implies refs_below(#[trigger] self.bits@[j], j as nat) by {
                        if j < n { assert(b0.bits@[j] == self.bits@[j]); }
                    }
                    assert forall|w: int| 0 <= w < self.vars@.len() implies
                        (#[trigger] self.vars@[w] as int) < self.bits@.len() && self.bits@[self.vars@[w] as int] == Op::Var(w as usize) by {
                        if w < i { assert(b0.vars@[w] == self.vars@[w]); }
                    }
                    assert forall|o: Op| #[trigger] self.hash.map().contains_key(o) implies
                        (self.hash.map()[o] as int) < self.bits@.len() && self.bits@[self.hash.map()[o] as int] == o by {
                        assert(b0.hash.map().contains_key(o));
                    }
                    assert forall|s: int, x: NID| 0 <= s < self.subc@.len() && #[trigger] self.subc@[s]@.contains_key(x) implies
                        (x as int) < self.bits@.len() && (self.subc@[s]@[x] as int) < self.bits@.len() by {
                        assert(b0.subc@[s]@.contains_key(x));
                    }
                }
                i = i + 1;
            }
        }
        let r = self.vars[v];
        proof {
            if v >= known {
                assert(self.bits@[(old(self).bits@.len() + (v - known)) as int] is Var);
            }
        }
        r
    }

    fn def(&mut self, s: String, i: u32) -> (r: NID)
        ensures
            extends(old(self).nodes(), final(self).nodes()),
            final(self).nodes()[r as int] == Op::Var(old(self).n_vars() as usize),
            final(self).n_vars() == old(self).n_vars() + 1,
            final(self).names() == old(self).names().insert(s@ + crate::notation::dec_text(i as nat), r),
            consts_unique(old(self).nodes()) ==> consts_unique(final(self).nodes()),
    {
        let next = self.vars.len();
        let _len = self.bits.len();
        let nid = self.var(next);
        let mut name = s;
        crate::notation::push_dec(&mut name, i as u64);
        self.tag(nid, name)
    }

    fn tag(&mut self, n: NID, s: String) -> (r: NID)
        ensures
            final(self).nodes() == old(self).nodes(), final(self).n_vars() == old(self).n_vars(),
            final(self).names() == old(self).names().insert(s@, n),
    {
        self.tags.insert(s, n);
        proof {
            assert forall|k: Seq<char>| #[trigger] self.tags.map().contains_key(k) implies (self.tags.map()[k] as int) < self.bits@.len() by {
                if k != s@ { assert(old(self).tags.map().contains_key(k)); }
            }
        }
        n
    }

    fn not(&mut self, x: NID) -> (r: NID)
        ensures
            grown(*old(self), *final(self), r),
            old(self).nodes()[x as int] is O ==> r == 1 && final(self).nodes() == old(self).nodes(),
            old(self).nodes()[x as int] is I ==> r == 0 && final(self).nodes() == old(self).nodes(),
            old(self).nodes()[x as int] matches Op::Not(n) ==> r == n && final(self).nodes() == old(self).nodes(),
            !(old(self).nodes()[x as int] is O) && !(old(self).nodes()[x as int] is I) && !(old(self).nodes()[x as int] is Not)
                ==> made_op(old(self).nodes(), final(self).nodes(), Op::Not(x), r),
            final(self).sub_tables() == old(self).sub_tables(),
            consts_unique(old(self).nodes()) ==> consts_unique(final(self).nodes()),
            forall|env: spec_fn(VID) -> bool| #[trigger] sem(final(self).nodes(), r as nat, env) == !sem(old(self).nodes(), x as nat, env),
    {
        proof { assert(refs_below(self.bits@[x as int], x as nat)); }
        match self.bits[x] {
            Op::O => {
                proof { assert forall|env: spec_fn(VID) -> bool| #[trigger] sem(self.bits@, 1, env) == !sem(self.bits@, x as nat, env) by {} }
                1
            },
            Op::I => {
                proof { assert forall|env: spec_fn(VID) -> bool| #[trigger] sem(self.bits@, 0, env) == !sem(self.bits@, x as nat, env) by {} }
                0
            },
            Op::Not(n) => {
                proof { assert forall|env: spec_fn(VID) -> bool| #[trigger] sem(self.bits@, n as nat, env) == !sem(self.bits@, x as nat, env) by {} }
                n
            },
            _ => {
                let r = self.make(Op::Not(x));
                proof {
                    old(self).lemma_keeps(*self, x);
                    assert(refs_below(self.bits@[r as int], r as nat));
                    assert forall|env: spec_fn(VID) -> bool| #[trigger] sem(self.bits@, r as nat, env) == !sem(old(self).bits@, x as nat, env) by {
                        assert(sem(self.bits@, x as nat, env) == sem(old(self).bits@, x as nat, env));
                    }
                }
                r
            },
        }
    }

    fn and(&mut self, x: NID, y: NID) -> (r: NID)
        ensures
            grown(*old(self), *final(self), r),
            x == y ==> r == x && final(self).nodes() == old(self).nodes(),
            ({
                let (lo, hi) = if x < y { (x, y) } else { (y, x) };
                let b = old(self).nodes();
                x != y && !(b[x as int] is O) && !(b[x as int] is I) && !(b[y as int] is O) && !(b[y as int] is I)
                    && b[hi as int] != Op::Not(lo)
                    ==> made_op(b, final(self).nodes(), Op::And(lo, hi), r)
            }),
            final(self).sub_tables() == old(self).sub_tables(),
            consts_unique(old(self).nodes()) ==> consts_unique(final(self).nodes()),
            consts_unique(old(self).nodes()) ==> forall|env: spec_fn(VID) -> bool| #[trigger] sem(final(self).nodes(), r as nat, env)
                == (sem(old(self).nodes(), x as nat, env) && sem(old(self).nodes(), y as nat, env)),
    {
        if x == y {
            return x;
        }
        let (lo, hi) = if x < y { (x, y) } else { (y, x) };
        let (a, b) = (self.bits[x], self.bits[y]);
        let (p, q) = if op_less(&a, &b) { (a, b) } else { (b, a) };
        proof {
            assert(refs_below(self.bits@[x as int], x as nat));
            assert(refs_below(self.bits@[y as int], y as nat));
            if consts_unique(self.bits@) {
                if x >= 2 { assert(!(self.bits@[x as int] is O) && !(self.bits@[x as int] is I)); }
                if y >= 2 { assert(!(self.bits@[y as int] is O) && !(self.bits@[y as int] is I)); }
            }
        }
        match (p, q) {
            (Op::O, _) => {
                proof {
                    assert forall|env: spec_fn(VID) -> bool| #[trigger] sem(self.bits@, 0, env)
                        == (sem(self.bits@, x as nat, env) && sem(self.bits@, y as nat, env)) by {}
                }
                0
            },
            (Op::I, _) => {
                proof {
                    assert forall|env: spec_fn(VID) -> bool| consts_unique(self.bits@) implies #[trigger] sem(self.bits@, hi as nat, env)
                        == (sem(self.bits@, x as nat, env) && sem(self.bits@, y as nat, env)) by {}
                }
                hi
            },
            (Op::Not(n), _) if n == hi => {
                proof { assert(false); }
                0
            },
            (_, Op::Not(n)) if n == lo => {
                proof {
                    assert forall|env: spec_fn(VID) -> bool| #[trigger] sem(self.bits@, 0, env)
                        == (sem(self.bits@, x as nat, env) && sem(self.bits@, y as nat, env)) by {
                        if b == q { assert(sem(self.bits@, y as nat, env) == !sem(self.bits@, x as nat, env)); }
                        else { assert(sem(self.bits@, x as nat, env) == !sem(self.bits@, y as nat, env)); }
                    }
                }
                0
            },
            _ => {
                let r = self.make(Op::And(lo, hi));
                proof {
                    old(self).lemma_keeps(*self, x);
                    old(self).lemma_keeps(*self, y);
                    assert(refs_below(self.bits@[r as int], r as nat));
                    assert forall|env: spec_fn(VID) -> bool| #[trigger] sem(self.bits@, r as nat, env)
                        == (sem(old(self).bits@, x as nat, env) && sem(old(self).bits@, y as nat, env)) by {
                        assert(sem(self.bits@, x as nat, env) == sem(old(self).bits@, x as nat, env));
                        assert(sem(self.bits@, y as nat, env) == sem(old(self).bits@, y as nat, env));
                    }
                }
                r
            },
        }
    }

    fn xor(&mut self, x: NID, y: NID) -> (r: NID)
        ensures
            grown(*old(self), *final(self), r),
            final(self).sub_tables() == old(self).sub_tables(),
            consts_unique(old(self).nodes()) ==> consts_unique(final(self).nodes()),
            forall|env: spec_fn(VID) -> bool| #[trigger] sem(final(self).nodes(), r as nat, env)
                == (sem(old(self).nodes(), x as nat, env) != sem(old(self).nodes(), y as nat, env)),
    {
        if x == y {
            return 0;
        }
        let (lo, hi) = if x < y { (x, y) } else { (y, x) };
        proof {
            assert(refs_below(self.bits@[lo as int], lo as nat));
            assert(refs_below(self.bits@[hi as int], hi as nat));
        }
        match (self.bits[lo], self.bits[hi]) {
            (Op::O, _) => {
                proof {
                    assert forall|env: spec_fn(VID) -> bool| #[trigger] sem(self.bits@, hi as nat, env)
                        == (sem(self.bits@, x as nat, env) != sem(self.bits@, y as nat, env)) by {}
                }
                hi
            },
            (Op::I, _) => {
                let r = self.not(hi);
                proof {
                    old(self).lemma_keeps(*self, x);
                    old(self).lemma_keeps(*self, y);
                    assert forall|env: spec_fn(VID) -> bool| #[trigger] sem(self.bits@, r as nat, env)
                        == (sem(old(self).bits@, x as nat, env) != sem(old(self).bits@, y as nat, env)) by {
                        assert(sem(old(self).bits@, lo as nat, env));
                    }
                }
                r
            },
            (Op::Var(_), Op::Not(n)) if n == lo => {
                proof {
                    assert forall|env: spec_fn(VID) -> bool| #[trigger] sem(self.bits@, 1, env)
                        == (sem(self.bits@, x as nat, env) != sem(self.bits@, y as nat, env)) by {
                        assert(sem(self.bits@, hi as nat, env) == !sem(self.bits@, lo as nat, env));
                    }
                }
                1
            },
            _ => {
                let r = self.make(Op::Xor(lo, hi));
                proof {
                    old(self).lemma_keeps(*self, x);
                    old(self).lemma_keeps(*self, y);
                    assert(refs_below(self.bits@[r as int], r as nat));
                    assert forall|env: spec_fn(VID) -> bool| #[trigger] sem(self.bits@, r as nat, env)
                        == (sem(old(self).bits@, x as nat, env) != sem(old(self).bits@, y as nat, env)) by {
                        assert(sem(self.bits@, x as nat, env) == sem(old(self).bits@, x as nat, env));
                        assert(sem(self.bits@, y as nat, env) == sem(old(self).bits@, y as nat, env));
                    }
                }
                r
            },
        }
    }

    fn or(&mut self, x: NID, y: NID) -> (r: NID)
        ensures
            grown(*old(self), *final(self), r),
            consts_unique(old(self).nodes()) ==> consts_unique(final(self).nodes()),
            consts_unique(old(self).nodes()) ==> forall|env: spec_fn(VID) -> bool| #[trigger] sem(final(self).nodes(), r as nat, env)
                == (sem(old(self).nodes(), x as nat, env) || sem(old(self).nodes(), y as nat, env)),
    {
        if x == y {
            return x;
        }
        let (lo, hi) = if x < y { (x, y) } else { (y, x) };
        proof {
            assert(refs_below(self.bits@[lo as int], lo as nat));
            assert(refs_below(self.bits@[hi as int], hi as nat));
        }
        match (self.bits[lo], self.bits[hi]) {
            (Op::O, _) => {
                proof {
                    assert forall|env: spec_fn(VID) -> bool| #[trigger] sem(self.bits@, hi as nat, env)
                        == (sem(self.bits@, x as nat, env) || sem(self.bits@, y as nat, env)) by {}
                }
                hi
            },
            (Op::I, _) => {
                proof {
                    assert forall|env: spec_fn(VID) -> bool| #[trigger] sem(self.bits@, 1, env)
                        == (sem(self.bits@, x as nat, env) || sem(self.bits@, y as nat, env)) by {
                        assert(sem(self.bits@, lo as nat, env));
                    }
                }
                1
            },
            (Op::Var(_), Op::Not(n)) if n == lo => {
                proof {
                    assert forall|env: spec_fn(VID) -> bool| #[trigger] sem(self.bits@, 1, env)
                        == (sem(self.bits@, x as nat, env) || sem(self.bits@, y as nat, env)) by {
                        assert(sem(self.bits@, hi as nat, env) == !sem(self.bits@, lo as nat, env));
                    }
                }
                1
            },
            (Op::Not(m), Op::Not(n)) => {
                let ghost b0 = *self;
                let a = self.and(m, n);
                let ghost b1 = *self;
                let r = self.not(a);
                proof {
                    b0.lemma_keeps(*self, x);
                    b0.lemma_keeps(*self, y);
                    assert forall|env: spec_fn(VID) -> bool| consts_unique(b0.bits@) implies #[trigger] sem(self.bits@, r as nat, env)
                        == (sem(b0.bits@, x as nat, env) || sem(b0.bits@, y as nat, env)) by {
                        assert(sem(b0.bits@, lo as nat, env) == !sem(b0.bits@, m as nat, env));
                        assert(sem(b0.bits@, hi as nat, env) == !sem(b0.bits@, n as nat, env));
                        assert(sem(b1.bits@, a as nat, env) == (sem(b0.bits@, m as nat, env) && sem(b0.bits@, n as nat, env)));
                    }
                }
                r
            },
            _ => {
                let r = self.make(Op::Or(lo, hi));
                proof {
                    old(self).lemma_keeps(*self, x);
                    old(self).lemma_keeps(*self, y);
                    assert(refs_below(self.bits@[r as int], r as nat));
                    assert forall|env: spec_fn(VID) -> bool| #[trigger] sem(self.bits@, r as nat, env)
                        == (sem(old(self).bits@, x as nat, env) || sem(old(self).bits@, y as nat, env)) by {
                        assert(sem(self.bits@, x as nat, env) == sem(old(self).bits@, x as nat, env));
                        assert(sem(self.bits@, y as nat, env) == sem(old(self).bits@, y as nat, env));
                    }
                }
                r
            },
        }
    }

    fn mj(&mut self, x: NID, y: NID, z: NID) -> (r: NID)
        ensures
            grown(*old(self), *final(self), r),
            consts_unique(old(self).nodes()) ==> consts_unique(final(self).nodes()),
            forall|env: spec_fn(VID) -> bool| #[trigger] sem(final(self).nodes(), r as nat, env) == ({
                let (a, b, c) = (sem(old(self).nodes(), x as nat, env), sem(old(self).nodes(), y as nat, env), sem(old(self).nodes(), z as nat, env));
                (a && b) || (a && c) || (b && c)
            }),
    {
        let r = self.make(Op::Mj(x, y, z));
        proof {
            old(self).lemma_keeps(*self, x);
            old(self).lemma_keeps(*self, y);
            old(self).lemma_keeps(*self, z);
            assert(refs_below(self.bits@[r as int], r as nat));
            assert forall|env: spec_fn(VID) -> bool| #[trigger] sem(self.bits@, r as nat, env) == ({
                let (a, b, c) = (sem(old(self).bits@, x as nat, env), sem(old(self).bits@, y as nat, env), sem(old(self).bits@, z as nat, env));
                (a && b) || (a && c) || (b && c)
            }) by {
                assert(sem(self.bits@, x as nat, env) == sem(old(self).bits@, x as nat, env));
                assert(sem(self.bits@, y as nat, env) == sem(old(self).bits@, y as nat, env));
                assert(sem(self.bits@, z as nat, env) == sem(old(self).bits@, z as nat, env));
            }
        }
        r
    }

    /// The choice operation is not built: this always gives the node of O.
    fn ch(&mut self, x: NID, y: NID, z: NID) -> (r: NID)
        ensures r == 0, *final(self) == *old(self),
    {
        0
    }

    fn when(&mut self, v: VID, val: NID, nid: NID) -> (r: NID)
        ensures
            grown(*old(self), *final(self), r),
            consts_unique(old(self).nodes()) ==> consts_unique(final(self).nodes()),
            v >= old(self).n_vars() ==> r == nid && *final(self) == *old(self),
            consts_unique(old(self).nodes()) && simple_cone(old(self).nodes(), nid as nat) && v < old(self).n_vars() ==>
                forall|env: spec_fn(VID) -> bool| #[trigger] sem(final(self).nodes(), r as nat, env)
                    == sem(old(self).nodes(), nid as nat, with_var(env, v, sem(old(self).nodes(), val as nat, env))),
        decreases nid,
    {
        if v >= self.vars.len() {
            return nid;
        }
        let ghost b0 = *self;
        let ghost law = consts_unique(b0.bits@) && simple_cone(b0.bits@, nid as nat);
        proof { assert(refs_below(self.bits@[nid as int], nid as nat)); }
        match self.bits[nid] {
            Op::Var(x) if x == v => {
                proof {
                    assert forall|env: spec_fn(VID) -> bool| #[trigger] sem(self.bits@, val as nat, env)
                        == sem(b0.bits@, nid as nat, with_var(env, v, sem(b0.bits@, val as nat, env))) by {}
                }
                val
            },
            Op::O | Op::I | Op::Var(_) => {
                proof {
                    assert forall|env: spec_fn(VID) -> bool| #[trigger] sem(self.bits@, nid as nat, env)
                        == sem(b0.bits@, nid as nat, with_var(env, v, sem(b0.bits@, val as nat, env))) by {}
                }
                nid
            },
            Op::Not(x) => {
                let x1 = self.when(v, val, x);
                let ghost b1 = *self;
                let r = self.not(x1);
                proof {
                    b0.lemma_keeps(*self, val);
                    assert forall|env: spec_fn(VID) -> bool| law implies #[trigger] sem(self.bits@, r as nat, env)
                        == sem(b0.bits@, nid as nat, with_var(env, v, sem(b0.bits@, val as nat, env))) by {
                        let w = with_var(env, v, sem(b0.bits@, val as nat, env));
                        assert(sem(self.bits@, r as nat, env) == !sem(b1.bits@, x1 as nat, env));
                        assert(sem(b1.bits@, x1 as nat, env) == sem(b0.bits@, x as nat, w));
                    }
                }
                r
            },
            Op::And(x, y) => {
                let x1 = self.when(v, val, x);
                let ghost b1 = *self;
                proof { if law { lemma_simple_cone_stable(b0.bits@, b1.bits@, y as nat); } }
                let y1 = self.when(v, val, y);
                let ghost b2 = *self;
                let r = self.and(x1, y1);
                proof {
                    b0.lemma_keeps(b1, val);
                    b0.lemma_keeps(b1, y);
                    b1.lemma_keeps(b2, x1);
                    assert forall|env: spec_fn(VID) -> bool| law implies #[trigger] sem(self.bits@, r as nat, env)
                        == sem(b0.bits@, nid as nat, with_var(env, v, sem(b0.bits@, val as nat, env))) by {
                        let w = with_var(env, v, sem(b0.bits@, val as nat, env));
                        assert(sem(b1.bits@, val as nat, env) == sem(b0.bits@, val as nat, env));
                        assert(sem(self.bits@, r as nat, env) == (sem(b2.bits@, x1 as nat, env) && sem(b2.bits@, y1 as nat, env)));
                        assert(sem(b2.bits@, x1 as nat, env) == sem(b1.bits@, x1 as nat, env));
                        assert(sem(b1.bits@, x1 as nat, env) == sem(b0.bits@, x as nat, w));
                        assert(sem(b2.bits@, y1 as nat, env) == sem(b1.bits@, y as nat, w));
                        assert(sem(b1.bits@, y as nat, w) == sem(b0.bits@, y as nat, w));
                    }
                }
                r
            },
            Op::Xor(x, y) => {
                let x1 = self.when(v, val, x);
                let ghost b1 = *self;
                proof { if law { lemma_simple_cone_stable(b0.bits@, b1.bits@, y as nat); } }
                let y1 = self.when(v, val, y);
                let ghost b2 = *self;
                let r = self.xor(x1, y1);
                proof {
                    b0.lemma_keeps(b1, val);
                    b0.lemma_keeps(b1, y);
                    b1.lemma_keeps(b2, x1);
                    assert forall|env: spec_fn(VID) -> bool| law implies #[trigger] sem(self.bits@, r as nat, env)
                        == sem(b0.bits@, nid as nat, with_var(env, v, sem(b0.bits@, val as nat, env))) by {
                        let w = with_var(env, v, sem(b0.bits@, val as nat, env));
                        assert(sem(b1.bits@, val as nat, env) == sem(b0.bits@, val as nat, env));
                        assert(sem(self.bits@, r as nat, env) == (sem(b2.bits@, x1 as nat, env) != sem(b2.bits@, y1 as nat, env)));
                        assert(sem(b2.bits@, x1 as nat, env) == sem(b1.bits@, x1 as nat, env));
                        assert(sem(b1.bits@, x1 as nat, env) == sem(b0.bits@, x as nat, w));
                        assert(sem(b2.bits@, y1 as nat, env) == sem(b1.bits@, y as nat, w));
                        assert(sem(b1.bits@, y as nat, w) == sem(b0.bits@, y as nat, w));
                    }
                }
                r
            },
            _ => nid,
        }
    }

    fn sid(&mut self, kv: HashMap<VID, NID>) -> (r: usize)
        ensures
            final(self).nodes() == old(self).nodes(), final(self).names() == old(self).names(),
            final(self).n_vars() == old(self).n_vars(),
            final(self).sub_map(r as int) == kv@, final(self).sub_cache_sound(r as int),
    {
        let res = self.subs.len();
        self.subs.push(kv);
        self.subc.push(HashMap::new());
        proof {
            assert forall|s: int, v: VID| 0 <= s < self.subs@.len() && #[trigger] self.subs@[s]@.contains_key(v) implies
                (self.subs@[s]@[v] as int) < self.bits@.len() by {
                if s < res { assert(old(self).subs@[s] == self.subs@[s]); }
            }
            assert forall|s: int, x: NID| 0 <= s < self.subc@.len() && #[trigger] self.subc@[s]@.contains_key(x) implies
                (x as int) < self.bits@.len() && (self.subc@[s]@[x] as int) < self.bits@.len() by {
                if s < res { assert(old(self).subc@[s] == self.subc@[s]); }
            }
        }
        res
    }

    fn sub(&mut self, x: NID, s: usize) -> (r: NID)
        ensures
            grown(*old(self), *final(self), r),
            consts_unique(old(self).nodes()) ==> consts_unique(final(self).nodes()),
            final(self).sub_tables().0 == old(self).sub_tables().0,
            final(self).sub_tables().1.len() == old(self).sub_tables().1.len(),
            forall|t: int| 0 <= t < old(self).sub_tables().1.len() && t != s ==> #[trigger] final(self).sub_tables().1[t] == old(self).sub_tables().1[t],
            old(self).sub_cache_sound(s as int) && consts_unique(old(self).nodes()) ==> {
                &&& final(self).sub_cache_sound(s as int)
                &&& forall|env: spec_fn(VID) -> bool| #[trigger] sem(final(self).nodes(), r as nat, env)
                        == sem(old(self).nodes(), x as nat, sub_env(old(self).nodes(), old(self).sub_map(s as int), env))
            },
        decreases x,
    {
        match self.subc[s].get(&x) {
            Some(n) => { return *n; },
            None => {},
        }
        let ghost b0 = *self;
        let ghost m = self.subs@[s as int]@;
        let ghost cond = old(self).sub_cache_sound(s as int) && consts_unique(old(self).nodes());
        let n = match self.bits[x] {
            Op::O | Op::I => x,
            Op::Var(v) => match self.subs[s].get(&v) {
                Some(y) => *y,
                None => x,
            },
            Op::Not(a) => {
                proof { assert(refs_below(self.bits@[x as int], x as nat)); }
                let x1 = self.sub(a, s);
                let ghost ba = *self;
                let r = self.not(x1);
                proof {
                    if cond {
                        lemma_cache_stable(ba.bits@, self.bits@, m, self.subc@[s as int]@);
                        assert forall|env: spec_fn(VID) -> bool| #[trigger] sem(self.bits@, r as nat, env)
                            == sem(b0.bits@, x as nat, sub_env(b0.bits@, m, env)) by {
                            assert(sem(ba.bits@, x1 as nat, env) == sem(b0.bits@, a as nat, sub_env(b0.bits@, m, env)));
                        }
                    }
                }
                r
            },
            Op::And(a, b) => {
                proof { assert(refs_below(self.bits@[x as int], x as nat)); }
                let x1 = self.sub(a, s);
                let ghost ba = *self;
                proof { lemma_simple_cone_stable(b0.nodes(), self.nodes(), b as nat); }
                let y1 = self.sub(b, s);
                let ghost bb = *self;
                let r = self.and(x1, y1);
                proof {
                    if cond {
                        lemma_cache_stable(bb.bits@, self.bits@, m, self.subc@[s as int]@);
                        assert forall|env: spec_fn(VID) -> bool| #[trigger] sem(self.bits@, r as nat, env)
                            == sem(b0.bits@, x as nat, sub_env(b0.bits@, m, env)) by {
                            let e0 = sub_env(b0.bits@, m, env);
                            lemma_sub_env_stable(b0.bits@, ba.bits@, m, env);
                            lemma_sem_stable(ba.bits@, bb.bits@, x1 as nat, env);
                            lemma_sem_stable(b0.bits@, ba.bits@, b as nat, e0);
                            assert(sem(ba.bits@, x1 as nat, env) == sem(b0.bits@, a as nat, e0));
                            assert(sem(bb.bits@, y1 as nat, env) == sem(ba.bits@, b as nat, sub_env(ba.bits@, m, env)));
                        }
                    }
                }
                r
            },
            Op::Xor(a, b) => {
                proof { assert(refs_below(self.bits@[x as int], x as nat)); }
                let x1 = self.sub(a, s);
                let ghost ba = *self;
                proof { lemma_simple_cone_stable(b0.nodes(), self.nodes(), b as nat); }
                let y1 = self.sub(b, s);
                let ghost bb = *self;
                let r = self.xor(x1, y1);
                proof {
                    if cond {
                        lemma_cache_stable(bb.bits@, self.bits@, m, self.subc@[s as int]@);
                        assert forall|env: spec_fn(VID) -> bool| #[trigger] sem(self.bits@, r as nat, env)
                            == sem(b0.bits@, x as nat, sub_env(b0.bits@, m, env)) by {
                            let e0 = sub_env(b0.bits@, m, env);
                            lemma_sub_env_stable(b0.bits@, ba.bits@, m, env);
                            lemma_sem_stable(ba.bits@, bb.bits@, x1 as nat, env);
                            lemma_sem_stable(b0.bits@, ba.bits@, b as nat, e0);
                            assert(sem(ba.bits@, x1 as nat, env) == sem(b0.bits@, a as nat, e0));
                            assert(sem(bb.bits@, y1 as nat, env) == sem(ba.bits@, b as nat, sub_env(ba.bits@, m, env)));
                        }
                    }
                }
                r
            },
            _ => x,
        };
        let ghost b1 = *self;
        self.subc[s].insert(x, n);
        proof {
            assert forall|t: int, z: NID| 0 <= t < self.subc@.len() && #[trigger] self.subc@[t]@.contains_key(z) implies
                (z as int) < self.bits@.len() && (self.subc@[t]@[z] as int) < self.bits@.len() by {
                if t != s || z != x { assert(b1.subc@[t]@.contains_key(z)); }
            }
            if cond {
                assert(forall|env: spec_fn(VID) -> bool| #[trigger] sem(b1.bits@, n as nat, env)
                    == sem(b0.bits@, x as nat, sub_env(b0.bits@, m, env)));
                assert forall|z: NID, env: spec_fn(VID) -> bool| self.subc@[s as int]@.contains_key(z) implies
                    #[trigger] sem(self.bits@, self.subc@[s as int]@[z] as nat, env)
                        == sem(self.bits@, z as nat, sub_env(self.bits@, m, env)) by {
                    if z == x {
                        lemma_sub_env_stable(b0.bits@, b1.bits@, m, env);
                        lemma_sem_stable(b0.bits@, b1.bits@, x as nat, sub_env(b0.bits@, m, env));
                    } else {
                        assert(b1.subc@[s as int]@.contains_key(z));
                    }
                }
            }
        }
        n
    }

    fn nid(&mut self, op: Op) -> (r: NID)
        ensures
            grown(*old(self), *final(self), r),
            final(self).nodes()[r as int] == op,
            !(op is O) && !(op is I) ==> (consts_unique(old(self).nodes()) ==> consts_unique(final(self).nodes())),
            made_op(old(self).nodes(), final(self).nodes(), op, r),
    {
        self.make(op)
    }
}

/// A node whose dependencies are simple stays so in a base that extends the nodes.
pub proof fn lemma_simple_cone_stable(b1: Seq<Op>, b2: Seq<Op>, n: nat)
    requires extends(b1, b2), n < b1.len(), simple_cone(b1, n),
    ensures simple_cone(b2, n),
    decreases n,
{
    match b1[n as int] {
        Op::Not(x) => { lemma_simple_cone_stable(b1, b2, x as nat); },
        Op::And(x, y) => { lemma_simple_cone_stable(b1, b2, x as nat); lemma_simple_cone_stable(b1, b2, y as nat); },
        Op::Xor(x, y) => { lemma_simple_cone_stable(b1, b2, x as nat); lemma_simple_cone_stable(b1, b2, y as nat); },
        _ => {},
    }
}


// ---- references, dependencies and repacking ----

/// The nodes that `o` refers to, in order.
pub open spec fn op_refs(o: Op) -> Seq<NID> {
    match o {
        Op::O => seq![],
        Op::I => seq![],
        Op::Var(_) => seq![],
        Op::Not(x) => seq![x],
        Op::And(x, y) => seq![x, y],
        Op::Or(x, y) => seq![x, y],
        Op::Xor(x, y) => seq![x, y],
        Op::Ch(x, y, z) => seq![x, y, z],
        Op::Mj(x, y, z) => seq![x, y, z],
    }
}

fn op_refs_of(o: &Op) -> (r: Vec<NID>)
    ensures r@ == op_refs(*o),
{
    let mut r: Vec<NID> = Vec::new();
    match o {
        Op::O | Op::I | Op::Var(_) => {},
        Op::Not(x) => { r.push(*x); },
        Op::And(x, y) | Op::Or(x, y) | Op::Xor(x, y) => { r.push(*x); r.push(*y); },
        Op::Ch(x, y, z) | Op::Mj(x, y, z) => { r.push(*x); r.push(*y); r.push(*z); },
    }
    proof { assert(r@ =~= op_refs(*o)); }
    r
}

proof fn lemma_refs_below(o: Op, n: nat)
    ensures refs_below(o, n) <==> forall|k: int| 0 <= k < op_refs(o).len() ==> (#[trigger] op_refs(o)[k] as nat) < n,
{
    match o {
        Op::Not(x) => { if !refs_below(o, n) { assert((op_refs(o)[0] as nat) >= n); } },
        Op::And(x, y) | Op::Or(x, y) | Op::Xor(x, y) => {
            if !refs_below(o, n) { if x >= n { assert(op_refs(o)[0] == x); } else { assert(op_refs(o)[1] == y); } }
        },
        Op::Ch(x, y, z) | Op::Mj(x, y, z) => {
            if !refs_below(o, n) {
                if x >= n { assert(op_refs(o)[0] == x); } else if y >= n { assert(op_refs(o)[1] == y); } else { assert(op_refs(o)[2] == z); }
            }
        },
        _ => {},
    }
}

/// `n` once for each of the first `k` references in `refs` that are to node `j`.
pub open spec fn hits(refs: Seq<NID>, k: nat, j: nat, n: NID) -> Seq<NID>
    decreases k,
{
    if k == 0 { seq![] } else { hits(refs, (k - 1) as nat, j, n) + if refs[k - 1] == j { seq![n] } else { seq![] } }
}

/// The nodes below `upto` that refer to node `j`, once per reference, in order.
pub open spec fn refs_to(bits: Seq<Op>, j: nat, upto: nat) -> Seq<NID>
    decreases upto,
{
    if upto == 0 {
        seq![]
    } else {
        let rs = op_refs(bits[upto - 1]);
        refs_to(bits, j, (upto - 1) as nat) + hits(rs, rs.len(), j, (upto - 1) as NID)
    }
}

/// Node `n` depends on node `j` (or is `j`).
pub open spec fn reaches(bits: Seq<Op>, n: nat, j: nat) -> bool
    decreases n, 1nat, 0nat,
{
    if n >= bits.len() {
        false
    } else {
        n == j || reaches_refs(bits, op_refs(bits[n as int]), n, op_refs(bits[n as int]).len(), j)
    }
}

/// One of the first `k` references (those below `bound`) depends on node `j`.
pub open spec fn reaches_refs(bits: Seq<Op>, refs: Seq<NID>, bound: nat, k: nat, j: nat) -> bool
    decreases bound, 0nat, k,
{
    if k == 0 {
        false
    } else {
        reaches_refs(bits, refs, bound, (k - 1) as nat, j) || ((refs[k - 1] as nat) < bound && reaches(bits, refs[k - 1] as nat, j))
    }
}

proof fn lemma_reaches_refs_split(bits: Seq<Op>, refs: Seq<NID>, bound: nat, k: nat, j: nat)
    requires reaches_refs(bits, refs, bound, k, j), k <= refs.len(),
    ensures exists|q: int| 0 <= q < k && (#[trigger] refs[q] as nat) < bound && reaches(bits, refs[q] as nat, j),
    decreases k,
{
    if !((refs[k - 1] as nat) < bound && reaches(bits, refs[k - 1] as nat, j)) {
        lemma_reaches_refs_split(bits, refs, bound, (k - 1) as nat, j);
        let q = choose|q: int| 0 <= q < k - 1 && (#[trigger] refs[q] as nat) < bound && reaches(bits, refs[q] as nat, j);
        assert(0 <= q < k);
    }
}

proof fn lemma_reaches_refs_at(bits: Seq<Op>, refs: Seq<NID>, bound: nat, q: int, k: nat, j: nat)
    requires 0 <= q < k <= refs.len(), (refs[q] as nat) < bound, reaches(bits, refs[q] as nat, j),
    ensures reaches_refs(bits, refs, bound, k, j),
    decreases k,
{
    if q < k - 1 {
        lemma_reaches_refs_at(bits, refs, bound, q, (k - 1) as nat, j);
    }
}

proof fn lemma_reaches_below(bits: Seq<Op>, n: nat, j: nat)
    requires reaches(bits, n, j),
    ensures j <= n, n < bits.len(),
    decreases n,
{
    if n != j {
        let rs = op_refs(bits[n as int]);
        lemma_reaches_refs_split(bits, rs, n, rs.len(), j);
        let q = choose|q: int| 0 <= q < rs.len() && (#[trigger] rs[q] as nat) < n && reaches(bits, rs[q] as nat, j);
        lemma_reaches_below(bits, rs[q] as nat, j);
    }
}

/// What a node depends on is closed under reference.
proof fn lemma_reaches_closed(bits: Seq<Op>, n: nat, j: nat, k: int)
    requires
        forall|i: int| 0 <= i < bits.len() ==> refs_below(#[trigger] bits[i], i as nat),
        reaches(bits, n, j), 0 <= k < op_refs(bits[j as int]).len(),
    ensures reaches(bits, n, op_refs(bits[j as int])[k] as nat),
    decreases n,
{
    lemma_reaches_below(bits, n, j);
    let x = op_refs(bits[j as int])[k];
    lemma_refs_below(bits[j as int], j);
    assert(refs_below(bits[j as int], j));
    assert((x as nat) < j);
    let rs = op_refs(bits[n as int]);
    if n == j {
        assert(reaches(bits, x as nat, x as nat));
        lemma_reaches_refs_at(bits, rs, n, k, rs.len(), x as nat);
    } else {
        lemma_reaches_refs_split(bits, rs, n, rs.len(), j);
        let q = choose|q: int| 0 <= q < rs.len() && (#[trigger] rs[q] as nat) < n && reaches(bits, rs[q] as nat, j);
        lemma_reaches_closed(bits, rs[q] as nat, j, k);
        lemma_reaches_refs_at(bits, rs, n, q, rs.len(), x as nat);
    }
}

/// Every marked node below `b` has the nodes it refers to marked.
pub open spec fn marks_closed(bits: Seq<Op>, seen: Seq<bool>, b: nat) -> bool {
    forall|i: int, k: int| 0 <= i < b && i < seen.len() && seen[i] && 0 <= k < op_refs(bits[i]).len()
        ==> seen[#[trigger] op_refs(bits[i])[k] as int]
}

proof fn lemma_marks_reach(bits: Seq<Op>, seen: Seq<bool>, n: nat, j: nat)
    requires
        forall|i: int| 0 <= i < bits.len() ==> refs_below(#[trigger] bits[i], i as nat),
        seen.len() == bits.len(), n < bits.len(), seen[n as int],
        marks_closed(bits, seen, n + 1), reaches(bits, n, j),
    ensures seen[j as int],
    decreases n,
{
    if n != j {
        let rs = op_refs(bits[n as int]);
        lemma_reaches_refs_split(bits, rs, n, rs.len(), j);
        let q = choose|q: int| 0 <= q < rs.len() && (#[trigger] rs[q] as nat) < n && reaches(bits, rs[q] as nat, j);
        assert(seen[rs[q] as int]);
        lemma_marks_reach(bits, seen, rs[q] as nat, j);
    }
}

proof fn lemma_reaches_refs_take(bits: Seq<Op>, refs: Seq<NID>, bound: nat, k: nat, m: nat, j: nat)
    requires m <= k <= refs.len(),
    ensures reaches_refs(bits, refs.take(k as int), bound, m, j) == reaches_refs(bits, refs, bound, m, j),
    decreases m,
{
    if m > 0 {
        lemma_reaches_refs_take(bits, refs, bound, k, (m - 1) as nat, j);
        assert(refs.take(k as int)[m - 1] == refs[m - 1]);
    }
}

impl Base {
    /// For each node, the nodes that refer to it (once per reference, in order).
    pub fn reftable(&self) -> (r: Vec<Vec<NID>>)
        requires self.wf(),
        ensures
            r@.len() == self.nodes().len(),
            forall|j: int| 0 <= j < r@.len() ==> (#[trigger] r@[j])@ == refs_to(self.nodes(), j as nat, self.nodes().len()),
    {
        let len = self.bits.len();
        let mut res: Vec<Vec<NID>> = Vec::new();
        let mut j: usize = 0;
        while j < len
            invariant j <= len, len == self.bits@.len(), res@.len() == j, forall|i: int| 0 <= i < j ==> (#[trigger] res@[i])@ == Seq::<NID>::empty(),
            decreases len - j,
        {
            res.push(Vec::new());
            j = j + 1;
        }
        let mut n: usize = 0;
        while n < len
            invariant
                self.wf(), n <= len, len == self.bits@.len(), res@.len() == len,
                forall|i: int| 0 <= i < len ==> (#[trigger] res@[i])@ == refs_to(self.bits@, i as nat, n as nat),
            decreases len - n,
        {
            let rs = op_refs_of(&self.bits[n]);
            proof {
                lemma_refs_below(self.bits@[n as int], n as nat);
                assert(refs_below(self.bits@[n as int], n as nat));
            }
            let mut k: usize = 0;
            while k < rs.len()
                invariant
                    n < len, len == self.bits@.len(), res@.len() == len, k <= rs@.len(), rs@ == op_refs(self.bits@[n as int]),
                    forall|q: int| 0 <= q < rs@.len() ==> (#[trigger] rs@[q] as nat) < n,
                    forall|i: int| 0 <= i < len ==> (#[trigger] res@[i])@ == refs_to(self.bits@, i as nat, n as nat) + hits(rs@, k as nat, i as nat, n),
                decreases rs@.len() - k,
            {
                let x = rs[k];
                let ghost before = res@;
                res[x].push(n);
                proof {
                    assert forall|i: int| 0 <= i < len implies (#[trigger] res@[i])@
                        == refs_to(self.bits@, i as nat, n as nat) + hits(rs@, (k + 1) as nat, i as nat, n) by {
                        if i == x as int {
                            assert(res@[i]@ == before[i]@.push(n));
                        } else {
                            assert(res@[i] == before[i]);
                        }
                    }
                }
                k = k + 1;
            }
            n = n + 1;
        }
        res
    }

    /// Mark `keep` and every node it depends on.
    fn markdeps(&self, keep: NID, seen: &mut Vec<bool>)
        requires
            self.wf(), old(seen)@.len() == self.bits@.len(), (keep as int) < self.bits@.len(),
            marks_closed(self.bits@, old(seen)@, keep as nat + 1),
        ensures
            final(seen)@.len() == old(seen)@.len(),
            forall|j: int| 0 <= j < final(seen)@.len() ==> #[trigger] final(seen)@[j] == (old(seen)@[j] || reaches(self.bits@, keep as nat, j as nat)),
        decreases keep,
    {
        if seen[keep] {
            proof {
                assert forall|j: int| 0 <= j < seen@.len() implies #[trigger] seen@[j] == (old(seen)@[j] || reaches(self.bits@, keep as nat, j as nat)) by {
                    if reaches(self.bits@, keep as nat, j as nat) {
                        lemma_marks_reach(self.bits@, seen@, keep as nat, j as nat);
                    }
                }
            }
            return;
        }
        seen.set(keep, true);
        let rs = op_refs_of(&self.bits[keep]);
        proof {
            lemma_refs_below(self.bits@[keep as int], keep as nat);
            assert(refs_below(self.bits@[keep as int], keep as nat));
        }
        let ghost s0 = old(seen)@;
        let mut k: usize = 0;
        while k < rs.len()
            invariant
                self.wf(), rs@ == op_refs(self.bits@[keep as int]), k <= rs@.len(),
                (keep as int) < self.bits@.len(), s0.len() == self.bits@.len(), seen@.len() == self.bits@.len(),
                forall|q: int| 0 <= q < rs@.len() ==> (#[trigger] rs@[q] as nat) < keep,
                marks_closed(self.bits@, s0, keep as nat + 1),
                forall|j: int| 0 <= j < seen@.len() ==> #[trigger] seen@[j]
                    == (s0[j] || j == keep || reaches_refs(self.bits@, rs@, keep as nat, k as nat, j as nat)),
            decreases rs@.len() - k,
        {
            let x = rs[k];
            proof {
                assert forall|a: int, b: int| 0 <= a < x as nat + 1 && a < seen@.len() && seen@[a] && 0 <= b < op_refs(self.bits@[a]).len()
                    implies seen@[#[trigger] op_refs(self.bits@[a])[b] as int] by {
                    let y = op_refs(self.bits@[a])[b];
                    lemma_refs_below(self.bits@[a], a as nat);
                    assert(refs_below(self.bits@[a], a as nat));
                    if !s0[a] {
                        assert(a != keep);
                        lemma_reaches_refs_split(self.bits@, rs@, keep as nat, k as nat, a as nat);
                        let q = choose|q: int| 0 <= q < k && (#[trigger] rs@[q] as nat) < keep && reaches(self.bits@, rs@[q] as nat, a as nat);
                        lemma_reaches_closed(self.bits@, rs@[q] as nat, a as nat, b);
                        lemma_reaches_refs_at(self.bits@, rs@, keep as nat, q, k as nat, y as nat);
                    }
                }
            }
            let ghost s1 = seen@;
            self.markdeps(x, seen);
            proof {
                assert forall|j: int| 0 <= j < seen@.len() implies #[trigger] seen@[j]
                    == (s0[j] || j == keep || reaches_refs(self.bits@, rs@, keep as nat, (k + 1) as nat, j as nat)) by {
                    assert(seen@[j] == (s1[j] || reaches(self.bits@, x as nat, j as nat)));
                }
            }
            k = k + 1;
        }
    }
}


/// The position of the last occurrence of node `j` among the first `k` items of `pv`.
pub open spec fn last_pos(pv: Seq<NID>, k: nat, j: nat) -> Option<int>
    decreases k,
{
    if k == 0 { None } else if pv[k - 1] == j { Some(k - 1) } else { last_pos(pv, (k - 1) as nat, j) }
}

/// Node `j` occurs in `pv`.
pub open spec fn kept_in(pv: Seq<NID>, j: nat) -> bool {
    last_pos(pv, pv.len(), j) is Some
}

/// The new number of node `j`: the position of its last occurrence in `pv`,
/// or `GONE` where `pv` does not hold it.
pub open spec fn new_nid(pv: Seq<NID>, j: nat) -> NID {
    match last_pos(pv, pv.len(), j) { Some(p) => p as NID, None => GONE }
}

/// `o` with its references renumbered.
pub open spec fn renum_op(o: Op, pv: Seq<NID>) -> Op {
    match o {
        Op::O => Op::O,
        Op::I => Op::I,
        Op::Var(v) => Op::Var(v),
        Op::Not(x) => Op::Not(new_nid(pv, x as nat)),
        Op::And(x, y) => Op::And(new_nid(pv, x as nat), new_nid(pv, y as nat)),
        Op::Or(x, y) => Op::Or(new_nid(pv, x as nat), new_nid(pv, y as nat)),
        Op::Xor(x, y) => Op::Xor(new_nid(pv, x as nat), new_nid(pv, y as nat)),
        Op::Ch(x, y, z) => Op::Ch(new_nid(pv, x as nat), new_nid(pv, y as nat), new_nid(pv, z as nat)),
        Op::Mj(x, y, z) => Op::Mj(new_nid(pv, x as nat), new_nid(pv, y as nat), new_nid(pv, z as nat)),
    }
}

/// The nodes of `pv`, in that order, renumbered.
pub open spec fn permuted_nodes(bits: Seq<Op>, pv: Seq<NID>) -> Seq<Op> {
    pv.map_values(|old: NID| renum_op(bits[old as int], pv))
}

/// The names of kept nodes, renumbered.
pub open spec fn permuted_names(m: Map<Seq<char>, NID>, pv: Seq<NID>) -> Map<Seq<char>, NID> {
    Map::new(|k: Seq<char>| m.contains_key(k) && kept_in(pv, m[k] as nat), |k: Seq<char>| new_nid(pv, m[k] as nat))
}

/// `pv` keeps the constants first, holds no node twice, and puts each node
/// after the nodes it refers to.
pub open spec fn orderly_picks(bits: Seq<Op>, pv: Seq<NID>) -> bool {
    &&& pv.len() >= 2 && pv[0] == 0 && pv[1] == 1
    &&& forall|a: int, b: int| 0 <= a < b < pv.len() ==> pv[a] != pv[b]
    &&& forall|k: int, q: int| 0 <= k < pv.len() && 0 <= q < op_refs(bits[pv[k] as int]).len()
            ==> (new_nid(pv, #[trigger] op_refs(bits[pv[k] as int])[q] as nat) as int) < k
}

proof fn lemma_last_pos(pv: Seq<NID>, k: nat, j: nat)
    requires k <= pv.len(),
    ensures
        last_pos(pv, k, j) matches Some(p) ==> 0 <= p < k && pv[p] == j,
        last_pos(pv, k, j) is None ==> forall|i: int| 0 <= i < k ==> pv[i] != j,
        (forall|a: int, b: int| 0 <= a < b < pv.len() ==> pv[a] != pv[b]) ==> forall|i: int| 0 <= i < k && pv[i] == j ==> last_pos(pv, k, j) == Some(i),
    decreases k,
{
    if k > 0 {
        lemma_last_pos(pv, (k - 1) as nat, j);
    }
}

proof fn lemma_renum_refs(o: Op, pv: Seq<NID>, n: nat)
    requires forall|q: int| 0 <= q < op_refs(o).len() ==> (new_nid(pv, #[trigger] op_refs(o)[q] as nat) as nat) < n,
    ensures refs_below(renum_op(o, pv), n),
{
    match o {
        Op::Not(x) => { assert(op_refs(o)[0] == x); },
        Op::And(x, y) | Op::Or(x, y) | Op::Xor(x, y) => { assert(op_refs(o)[0] == x); assert(op_refs(o)[1] == y); },
        Op::Ch(x, y, z) | Op::Mj(x, y, z) => { assert(op_refs(o)[0] == x); assert(op_refs(o)[1] == y); assert(op_refs(o)[2] == z); },
        _ => {},
    }
}

/// The new number in `table` of node `x`, or `GONE` where it has none.
fn renumbered(table: &Vec<Option<usize>>, x: NID) -> (r: NID)
    requires (x as int) < table@.len(),
    ensures r == match table@[x as int] { Some(p) => p, None => GONE },
{
    match table[x] {
        Some(p) => p,
        None => GONE,
    }
}

impl Base {
    /// A copy of the base with the nodes of `oldnids`, in that order: node
    /// `oldnids[k]` becomes node `k` (a node given twice takes its last
    /// position), references are renumbered to match (a reference to a node
    /// left out becomes `GONE`), names of dropped nodes are dropped, and the
    /// caches and variable index start empty. The copy is well
    /// formed when `oldnids` starts with the two constants, holds no node
    /// twice, and puts each node after the nodes it refers to.
    pub fn permute(&self, oldnids: Vec<NID>) -> (r: Base)
        requires
            self.wf(),
            forall|k: int| 0 <= k < oldnids@.len() ==> (#[trigger] oldnids@[k] as int) < self.nodes().len(),
        ensures
            r.nodes() == permuted_nodes(self.nodes(), oldnids@),
            r.names() == permuted_names(self.names(), oldnids@),
            r.n_vars() == 0, r.subs_len() == 0,
            orderly_picks(self.nodes(), oldnids@) ==> r.wf(),
    {
        let len = self.bits.len();
        let mut table: Vec<Option<usize>> = Vec::new();
        let mut j: usize = 0;
        while j < len
            invariant j <= len, len == self.bits@.len(), table@.len() == j, forall|i: int| 0 <= i < j ==> table@[i] is None,
            decreases len - j,
        {
            table.push(None);
            j = j + 1;
        }
        let mut i: usize = 0;
        while i < oldnids.len()
            invariant
                i <= oldnids@.len(), table@.len() == len, len == self.bits@.len(),
                forall|k: int| 0 <= k < oldnids@.len() ==> (#[trigger] oldnids@[k] as int) < len,
                forall|x: int| 0 <= x < len ==> #[trigger] table@[x] == match last_pos(oldnids@, i as nat, x as nat) {
                    Some(p) => Some(p as usize), None => None::<usize> },
            decreases oldnids@.len() - i,
        {
            table.set(oldnids[i], Some(i));
            i = i + 1;
        }
        let ghost pv = oldnids@;
        let mut bits: Vec<Op> = Vec::new();
        let mut k: usize = 0;
        while k < oldnids.len()
            invariant
                self.wf(), pv == oldnids@, k <= pv.len(), bits@.len() == k, table@.len() == len, len == self.bits@.len(),
                forall|q: int| 0 <= q < pv.len() ==> (#[trigger] pv[q] as int) < len,
                forall|x: int| 0 <= x < len ==> #[trigger] table@[x] == match last_pos(pv, pv.len(), x as nat) {
                    Some(p) => Some(p as usize), None => None::<usize> },
                forall|q: int| 0 <= q < k ==> #[trigger] bits@[q] == renum_op(self.bits@[pv[q] as int], pv),
            decreases pv.len() - k,
        {
            let o = self.bits[oldnids[k]];
            proof {
                lemma_refs_below(o, oldnids[k as int] as nat);
                assert(refs_below(self.bits@[pv[k as int] as int], pv[k as int] as nat));
            }
            let n = match o {
                Op::O => Op::O,
                Op::I => Op::I,
                Op::Var(v) => Op::Var(v),
                Op::Not(x) => Op::Not(renumbered(&table, x)),
                Op::And(x, y) => Op::And(renumbered(&table, x), renumbered(&table, y)),
                Op::Or(x, y) => Op::Or(renumbered(&table, x), renumbered(&table, y)),
                Op::Xor(x, y) => Op::Xor(renumbered(&table, x), renumbered(&table, y)),
                Op::Ch(x, y, z) => Op::Ch(renumbered(&table, x), renumbered(&table, y), renumbered(&table, z)),
                Op::Mj(x, y, z) => Op::Mj(renumbered(&table, x), renumbered(&table, y), renumbered(&table, z)),
            };
            bits.push(n);
            k = k + 1;
        }
        proof {
            assert(bits@ =~= permuted_nodes(self.bits@, pv));
        }
        let (keys, vals) = self.tags.entries();
        let mut tags = NameTable::new();
        let mut t: usize = 0;
        while t < keys.len()
            invariant
                self.wf(), pv == oldnids@, table@.len() == len, len == self.bits@.len(), t <= keys@.len(),
                keys@ == self.tags.keys@, vals@ == self.tags.vals@, keys@.len() == vals@.len(),
                forall|a: int, b: int| 0 <= a < b < keys@.len() ==> keys@[a]@ != keys@[b]@,
                forall|kk: Seq<char>| #[trigger] self.tags.map().contains_key(kk) <==> exists|w: int| 0 <= w < keys@.len() && keys@[w]@ == kk,
                forall|w: int| 0 <= w < keys@.len() ==> #[trigger] self.tags.map()[keys@[w]@] == vals@[w],
                forall|x: int| 0 <= x < len ==> #[trigger] table@[x] == match last_pos(pv, pv.len(), x as nat) {
                    Some(p) => Some(p as usize), None => None::<usize> },
                tags.wf(),
                forall|kk: Seq<char>| #[trigger] tags.map().contains_key(kk) <==> exists|w: int| 0 <= w < t && keys@[w]@ == kk
                    && kept_in(pv, vals@[w] as nat),
                forall|w: int| 0 <= w < t && kept_in(pv, vals@[w] as nat) ==> #[trigger] tags.map()[keys@[w]@] == new_nid(pv, vals@[w] as nat),
            decreases keys@.len() - t,
        {
            let val = vals[t];
            proof {
                assert(self.tags.map().contains_key(keys@[t as int]@));
                assert((self.tags.map()[keys@[t as int]@] as int) < len);
            }
            match table[val] {
                Some(p) => {
                    let ghost before = tags.map();
                    tags.insert(keys[t].clone(), p);
                    proof {
                        assert forall|kk: Seq<char>| #[trigger] tags.map().contains_key(kk) <==> exists|w: int| 0 <= w < t + 1 && keys@[w]@ == kk
                            && kept_in(pv, vals@[w] as nat) by {
                            if kk == keys@[t as int]@ { assert(0 <= t < t + 1 && keys@[t as int]@ == kk && kept_in(pv, vals@[t as int] as nat)); }
                        }
                        assert forall|w: int| 0 <= w < t + 1 && kept_in(pv, vals@[w] as nat) implies #[trigger] tags.map()[keys@[w]@] == new_nid(pv, vals@[w] as nat) by {
                            if w < t { assert(keys@[w]@ != keys@[t as int]@); }
                        }
                    }
                },
                None => {
                    proof {
                        assert forall|kk: Seq<char>| #[trigger] tags.map().contains_key(kk) <==> exists|w: int| 0 <= w < t + 1 && keys@[w]@ == kk
                            && kept_in(pv, vals@[w] as nat) by {
                            if exists|w: int| 0 <= w < t + 1 && keys@[w]@ == kk && kept_in(pv, vals@[w] as nat) {
                                let w = choose|w: int| 0 <= w < t + 1 && keys@[w]@ == kk && kept_in(pv, vals@[w] as nat);
                                assert(w != t);
                            }
                        }
                    }
                },
            }
            t = t + 1;
        }
        let r = Base { bits, tags, hash: OpTable::new(), vars: Vec::new(), subs: Vec::new(), subc: Vec::new() };
        proof {
            assert forall|kk: Seq<char>| #[trigger] permuted_names(self.tags.map(), pv).contains_key(kk) <==> r.tags.map().contains_key(kk) by {
                if permuted_names(self.tags.map(), pv).contains_key(kk) {
                    let w = choose|w: int| 0 <= w < keys@.len() && keys@[w]@ == kk;
                    assert(self.tags.map()[keys@[w]@] == vals@[w]);
                }
                if r.tags.map().contains_key(kk) {
                    let w = choose|w: int| 0 <= w < keys@.len() && keys@[w]@ == kk && kept_in(pv, vals@[w] as nat);
                    assert(self.tags.map()[keys@[w]@] == vals@[w]);
                }
            }
            assert forall|kk: Seq<char>| #[trigger] r.tags.map().contains_key(kk) implies r.tags.map()[kk] == permuted_names(self.tags.map(), pv)[kk] by {
                let w = choose|w: int| 0 <= w < keys@.len() && keys@[w]@ == kk && kept_in(pv, vals@[w] as nat);
                assert(self.tags.map()[keys@[w]@] == vals@[w]);
            }
            assert(r.tags.map() =~= permuted_names(self.tags.map(), pv));
            if orderly_picks(self.bits@, pv) {
                assert forall|q: int| 0 <= q < r.bits@.len() implies refs_below(#[trigger] r.bits@[q], q as nat) by {
                    let o = self.bits@[pv[q] as int];
                    assert forall|z: int| 0 <= z < op_refs(o).len() implies (new_nid(pv, #[trigger] op_refs(o)[z] as nat) as nat) < q by {}
                    lemma_renum_refs(o, pv, q as nat);
                }
                assert forall|kk: Seq<char>| #[trigger] r.tags.map().contains_key(kk) implies (r.tags.map()[kk] as int) < r.bits@.len() by {
                    let w = choose|w: int| 0 <= w < keys@.len() && keys@[w]@ == kk && kept_in(pv, vals@[w] as nat);
                    lemma_last_pos(pv, pv.len(), vals@[w] as nat);
                }
                assert(r.bits@[0] == Op::O);
                assert(r.bits@[1] == Op::I);
            }
        }
        r
    }
}


/// Some node of `keep` depends on node `j`.
pub open spec fn needed(bits: Seq<Op>, keep: Seq<NID>, j: nat) -> bool {
    exists|q: int| 0 <= q < keep.len() && reaches(bits, #[trigger] keep[q] as nat, j)
}

/// The nodes below `n` that some node of `keep` depends on, in ascending order.
pub open spec fn needed_upto(bits: Seq<Op>, keep: Seq<NID>, n: nat) -> Seq<NID>
    decreases n,
{
    if n == 0 {
        seq![]
    } else {
        let s = needed_upto(bits, keep, (n - 1) as nat);
        if needed(bits, keep, (n - 1) as nat) { s.push((n - 1) as NID) } else { s }
    }
}

proof fn lemma_needed_upto(bits: Seq<Op>, keep: Seq<NID>, n: nat)
    requires n <= usize::MAX,
    ensures ({
        let s = needed_upto(bits, keep, n);
        &&& s.len() <= n
        &&& forall|k: int| 0 <= k < s.len() ==> (#[trigger] s[k] as nat) < n && needed(bits, keep, s[k] as nat)
        &&& forall|a: int, b: int| 0 <= a < b < s.len() ==> s[a] < s[b]
        &&& forall|j: nat| j < n && #[trigger] needed(bits, keep, j) ==> exists|k: int| 0 <= k < s.len() && s[k] == j
    }),
    decreases n,
{
    if n > 0 {
        lemma_needed_upto(bits, keep, (n - 1) as nat);
        let p = needed_upto(bits, keep, (n - 1) as nat);
        let s = needed_upto(bits, keep, n);
        assert forall|j: nat| j < n && #[trigger] needed(bits, keep, j) implies exists|k: int| 0 <= k < s.len() && s[k] == j by {
            if j < n - 1 {
                let w = choose|w: int| 0 <= w < p.len() && p[w] == j;
                assert(s[w] == j);
            } else {
                assert(s[s.len() - 1] == j);
            }
        }
    }
}

impl Base {
    /// A copy of the base with only the nodes needed to define the nodes of
    /// `keep`, in their old relative order (see `permute`), and the new
    /// numbers of `keep`. The copy is well formed when both constants are
    /// among the nodes needed.
    pub fn repack(&self, keep: Vec<NID>) -> (r: (Base, Vec<NID>))
        requires
            self.wf(),
            forall|q: int| 0 <= q < keep@.len() ==> (#[trigger] keep@[q] as int) < self.nodes().len(),
        ensures ({
            let pv = needed_upto(self.nodes(), keep@, self.nodes().len());
            &&& r.0.nodes() == permuted_nodes(self.nodes(), pv)
            &&& r.0.names() == permuted_names(self.names(), pv)
            &&& r.0.n_vars() == 0 && r.0.subs_len() == 0
            &&& r.1@ == keep@.map_values(|x: NID| new_nid(pv, x as nat))
            &&& needed(self.nodes(), keep@, 0) && needed(self.nodes(), keep@, 1) ==> r.0.wf()
        }),
    {
        let n = self.bits.len();
        let mut deps: Vec<bool> = Vec::new();
        let mut i: usize = 0;
        while i < n
            invariant i <= n, n == self.bits@.len(), deps@.len() == i, forall|j: int| 0 <= j < i ==> !deps@[j],
            decreases n - i,
        {
            deps.push(false);
            i = i + 1;
        }
        let mut q: usize = 0;
        while q < keep.len()
            invariant
                self.wf(), n == self.bits@.len(), deps@.len() == n, q <= keep@.len(),
                forall|p: int| 0 <= p < keep@.len() ==> (#[trigger] keep@[p] as int) < n,
                forall|j: int| 0 <= j < deps@.len() ==> #[trigger] deps@[j] == exists|p: int| 0 <= p < q && reaches(self.bits@, #[trigger] keep@[p] as nat, j as nat),
            decreases keep@.len() - q,
        {
            proof {
                assert forall|a: int, b: int| 0 <= a < keep@[q as int] as nat + 1 && a < deps@.len() && deps@[a] && 0 <= b < op_refs(self.bits@[a]).len()
                    implies deps@[#[trigger] op_refs(self.bits@[a])[b] as int] by {
                    let p = choose|p: int| 0 <= p < q && reaches(self.bits@, #[trigger] keep@[p] as nat, a as nat);
                    lemma_reaches_closed(self.bits@, keep@[p] as nat, a as nat, b);
                    lemma_reaches_below(self.bits@, keep@[p] as nat, op_refs(self.bits@[a])[b] as nat);
                }
            }
            let ghost d0 = deps@;
            self.markdeps(keep[q], &mut deps);
            proof {
                assert forall|j: int| 0 <= j < deps@.len() implies #[trigger] deps@[j] == exists|p: int| 0 <= p < q + 1 && reaches(self.bits@, #[trigger] keep@[p] as nat, j as nat) by {
                    if reaches(self.bits@, keep@[q as int] as nat, j as nat) {
                        assert(0 <= q < q + 1 && reaches(self.bits@, keep@[q as int] as nat, j as nat));
                    }
                    if exists|p: int| 0 <= p < q + 1 && reaches(self.bits@, #[trigger] keep@[p] as nat, j as nat) {
                        let p = choose|p: int| 0 <= p < q + 1 && reaches(self.bits@, #[trigger] keep@[p] as nat, j as nat);
                        if p < q { assert(d0[j]); }
                    }
                }
            }
            q = q + 1;
        }
        let mut newnids: Vec<NID> = Vec::new();
        let mut oldnids: Vec<NID> = Vec::new();
        let mut i: usize = 0;
        while i < n
            invariant
                i <= n, n == self.bits@.len(), deps@.len() == n, newnids@.len() == i,
                forall|j: int| 0 <= j < deps@.len() ==> #[trigger] deps@[j] == needed(self.bits@, keep@, j as nat),
                oldnids@ == needed_upto(self.bits@, keep@, i as nat),
                forall|j: int| 0 <= j < i && deps@[j] ==> oldnids@[#[trigger] newnids@[j] as int] == j && (newnids@[j] as int) < oldnids@.len(),
            decreases n - i,
        {
            if deps[i] {
                newnids.push(oldnids.len());
                oldnids.push(i);
            } else {
                newnids.push(0);
            }
            i = i + 1;
        }
        let ghost pv = oldnids@;
        proof {
            lemma_needed_upto(self.bits@, keep@, n as nat);
            assert forall|a: int, b: int| 0 <= a < b < pv.len() implies pv[a] != pv[b] by {}
            assert forall|k: int, z: int| 0 <= k < pv.len() && 0 <= z < op_refs(self.bits@[pv[k] as int]).len()
                implies kept_in(pv, #[trigger] op_refs(self.bits@[pv[k] as int])[z] as nat)
                    && (new_nid(pv, op_refs(self.bits@[pv[k] as int])[z] as nat) as int) < k by {
                let j = pv[k] as nat;
                let x = op_refs(self.bits@[j as int])[z];
                lemma_refs_below(self.bits@[j as int], j);
                assert(refs_below(self.bits@[j as int], j));
                let w = choose|w: int| 0 <= w < keep@.len() && reaches(self.bits@, #[trigger] keep@[w] as nat, j);
                lemma_reaches_closed(self.bits@, keep@[w] as nat, j, z);
                assert(needed(self.bits@, keep@, x as nat));
                let t = choose|t: int| 0 <= t < pv.len() && pv[t] == x;
                lemma_last_pos(pv, pv.len(), x as nat);
            }
            if needed(self.bits@, keep@, 0) && needed(self.bits@, keep@, 1) {
                let t0 = choose|t: int| 0 <= t < pv.len() && pv[t] == 0;
                let t1 = choose|t: int| 0 <= t < pv.len() && pv[t] == 1;
                if t0 > 0 { assert(pv[0] < pv[t0]); }
                assert(t0 == 0);
                if t1 > 1 { assert(pv[0] < pv[1] && pv[1] < pv[t1]); }
                assert(t1 == 1);
            }
        }
        let base = self.permute(oldnids);
        let mut out: Vec<NID> = Vec::new();
        let mut q: usize = 0;
        while q < keep.len()
            invariant
                n == self.bits@.len(), q <= keep@.len(), out@.len() == q, newnids@.len() == n,
                pv == needed_upto(self.bits@, keep@, n as nat),
                forall|a: int, b: int| 0 <= a < b < pv.len() ==> pv[a] != pv[b],
                forall|p: int| 0 <= p < keep@.len() ==> (#[trigger] keep@[p] as int) < n,
                forall|j: int| 0 <= j < n && needed(self.bits@, keep@, j as nat) ==> pv[#[trigger] newnids@[j] as int] == j && (newnids@[j] as int) < pv.len(),
                forall|p: int| 0 <= p < q ==> out@[p] == new_nid(pv, #[trigger] keep@[p] as nat),
            decreases keep@.len() - q,
        {
            let x = keep[q];
            proof {
                assert(reaches(self.bits@, x as nat, x as nat));
                assert(needed(self.bits@, keep@, x as nat));
                lemma_last_pos(pv, pv.len(), x as nat);
            }
            out.push(newnids[x]);
            q = q + 1;
        }
        proof {
            assert(out@ =~= keep@.map_values(|x: NID| new_nid(pv, x as nat)));
        }
        (base, out)
    }
}


/// The mask and cost of node `x` together with node `y`: the union of their
/// masks, and one more than the larger of their costs.
pub open spec fn mc_pair(p: Seq<(u64, u32)>, x: NID, y: NID) -> (u64, u32) {
    let m = p[x as int].0 | p[y as int].0;
    (m, (if p[x as int].1 >= p[y as int].1 { p[x as int].1 } else { p[y as int].1 } + 1) as u32)
}

/// The mask and cost of a node with operation `o`, given those of the nodes before it.
pub open spec fn mc_of(o: Op, p: Seq<(u64, u32)>, vm: spec_fn(VID) -> u64) -> (u64, u32) {
    match o {
        Op::O => (0, 0),
        Op::I => (0, 0),
        Op::Var(v) => (vm(v), 1),
        Op::Not(x) => mc_pair(p, x, 0),
        Op::And(x, y) => mc_pair(p, x, y),
        Op::Xor(x, y) => mc_pair(p, x, y),
        Op::Or(x, y) => mc_pair(p, x, y),
        _ => (0xFFFF_FFFF_FFFF_FFFF, 0),
    }
}

/// The masks and costs of the first `n` nodes.
pub open spec fn mc_vec(bits: Seq<Op>, vm: spec_fn(VID) -> u64, n: nat) -> Seq<(u64, u32)>
    decreases n,
{
    if n == 0 {
        seq![]
    } else {
        let p = mc_vec(bits, vm, (n - 1) as nat);
        p.push(mc_of(bits[n - 1], p, vm))
    }
}

impl Base {
    /// Given a function that maps each input variable to a 64-bit mask, the
    /// mask of each node (the union of the masks of its inputs, so each node
    /// is colored by the inputs it depends on) and its cost: constants cost
    /// 0, inputs 1, and other nodes one more than the costlier of their
    /// inputs. Choice and majority nodes get a full mask and cost 0. `vmask`
    /// stands for what `vm` returns.
    pub fn masks_and_costs<VM: Fn(&Base, VID) -> u64>(&self, vm: VM) -> (r: (Vec<u64>, Vec<u32>))
        requires
            self.wf(), self.nodes().len() <= u32::MAX,
            forall|v: VID| #[trigger] vm.requires((self, v)),
            forall|v: VID, m1: u64, m2: u64| #![trigger vm.ensures((self, v), m1), vm.ensures((self, v), m2)]
                vm.ensures((self, v), m1) && vm.ensures((self, v), m2) ==> m1 == m2,
        ensures
            r.0@.len() == self.nodes().len(), r.1@.len() == self.nodes().len(),
            forall|i: int| 0 <= i < self.nodes().len() ==>
                (r.0@[i], r.1@[i]) == #[trigger] mc_vec(self.nodes(), base_mask(vm, self), self.nodes().len())[i],
    {
        let ghost vmask = base_mask(vm, self);
        proof {
            assert forall|v: VID, m: u64| #[trigger] vm.ensures((self, v), m) implies m == vmask(v) by {
                assert(vm.ensures((self, v), vmask(v)));
            }
        }
        let mut masks: Vec<u64> = Vec::new();
        let mut costs: Vec<u32> = Vec::new();
        let ghost mut p: Seq<(u64, u32)> = seq![];
        let mut i: usize = 0;
        while i < self.bits.len()
            invariant
                self.wf(), i <= self.bits@.len() <= u32::MAX,
                p == mc_vec(self.bits@, vmask, i as nat), p.len() == i, masks@.len() == i, costs@.len() == i,
                forall|j: int| 0 <= j < i ==> masks@[j] == p[j].0 && costs@[j] == p[j].1 && p[j].1 <= j,
                forall|v: VID| #[trigger] vm.requires((self, v)),
                forall|v: VID, m: u64| #[trigger] vm.ensures((self, v), m) ==> m == vmask(v),
            decreases self.bits@.len() - i,
        {
            proof { assert(refs_below(self.bits@[i as int], i as nat)); }
            let (mask, cost): (u64, u32) = match self.bits[i] {
                Op::O | Op::I => (0, 0),
                Op::Var(v) => (vm(self, v), 1),
                Op::Not(x) => {
                    let m = masks[x] | masks[0];
                    (m, (if costs[x] >= costs[0] { costs[x] } else { costs[0] }) + 1)
                },
                Op::And(x, y) | Op::Xor(x, y) | Op::Or(x, y) => {
                    let m = masks[x] | masks[y];
                    (m, (if costs[x] >= costs[y] { costs[x] } else { costs[y] }) + 1)
                },
                _ => (0xFFFF_FFFF_FFFF_FFFF, 0),
            };
            proof {
                assert(self.bits@[0] == Op::O);
                p = p.push((mask, cost));
            }
            masks.push(mask);
            costs.push(cost);
            i = i + 1;
        }
        (masks, costs)
    }
}

} // verus!
