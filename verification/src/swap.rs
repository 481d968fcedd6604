//! Index-based node identifiers for the swap solver, where a node's
//! variable is looked up by its index rather than read from the identifier.
use vstd::prelude::*;
use crate::nid::{NID, NidFun, negate, INV, VAR, T, F, NOVAR, IDX_MASK};
use crate::nidfun::pow2;
use crate::vid::{VID, VidEnum};

verus! {

/// An index into a table of nodes; a negative index is the inversion of
/// the node at `!x`.
#[derive(PartialEq, Eq, Structural, Hash, Clone, Copy, Debug)]
pub struct XID {
    pub x: i64,
}

/// The constant false.
pub fn xid_o() -> (r: XID)
    ensures r.val() == 0,
{
    XID { x: 0 }
}

/// The constant true (the inversion of false).
pub fn xid_i() -> (r: XID)
    ensures r.val() == -1,
{
    XID { x: -1 }
}

/// The nid of an index-based node: the index in the index field, no variable.
pub open spec fn ixn_bits(i: u32) -> u64 {
    ((NOVAR << 32) + (i as u64)) as u64
}

impl XID {
    /// The index value.
    pub open spec fn val(&self) -> i64 { self.x }

    /// The index with the inversion removed.
    pub open spec fn raw_val(&self) -> i64 {
        if self.val() >= 0 { self.val() } else { !self.val() }
    }

    pub open spec fn is_inv_spec(&self) -> bool { self.val() < 0 }

    pub open spec fn is_const_spec(&self) -> bool { self.val() == 0 || self.val() == -1 }

    /// The nid standing for an index-based node.
    pub open spec fn nid_spec(&self) -> NID {
        if self.is_inv_spec() {
            NID { n: ixn_bits((!self.val()) as u32) ^ INV }
        } else {
            NID { n: ixn_bits(self.val() as u32) }
        }
    }

    /// The index-based node of a nid that is not tied to a variable.
    pub open spec fn from_nid_spec(x: NID) -> i64 {
        if x.n & INV != 0 { !((x.n & IDX_MASK) as i64) } else { (x.n & IDX_MASK) as i64 }
    }

    /// Position in the node table.
    pub fn ix(&self) -> (r: usize)
        ensures r == self.raw_val() as usize,
    {
        self.raw().x as usize
    }

    /// The node without inversion.
    pub fn raw(&self) -> (r: XID)
        ensures r.val() == self.raw_val(), r.val() >= 0,
    {
        let v = self.x;
        proof { assert(v < 0 ==> !v >= 0) by (bit_vector); }
        if self.x >= 0 { *self } else { XID { x: !self.x } }
    }

    /// Is the node inverted?
    pub fn is_inv(&self) -> (r: bool)
        ensures r == self.is_inv_spec(),
    {
        self.x < 0
    }

    /// Is the node one of the two constants?
    pub fn is_const(&self) -> (r: bool)
        ensures r == self.is_const_spec(),
    {
        self.x == 0 || self.x == -1
    }

    /// The index-based node for a nid that is neither a literal nor tied to a variable.
    pub fn from_nid(x: NID) -> (r: XID)
        requires
            x.n & VAR == 0 && x.n & T == 0,
            (x.vid_spec().v is NoV),
        ensures r.val() == Self::from_nid_spec(x),
    {
        let i = x.idx() as i64;
        if x.is_inv() { XID { x: !i } } else { XID { x: i } }
    }

    /// The nid standing for this node.
    pub fn to_nid(&self) -> (r: NID)
        ensures r == self.nid_spec(),
    {
        proof { lemma_ixn(0); }
        if self.is_inv() {
            let j = (!self.x) as u32;
            proof { lemma_ixn(j); }
            negate(NID::from_vid_idx(VID::nov(), j as usize))
        } else {
            let j = self.x as u32;
            proof { lemma_ixn(j); }
            NID::from_vid_idx(VID::nov(), j as usize)
        }
    }

    /// The truth value of a constant.
    pub fn to_bool(&self) -> (r: bool)
        requires self.is_const_spec(),
        ensures r == (self.val() == -1),
    {
        self.x == -1
    }

    /// The inversion of this node.
    pub fn inv(&self) -> (r: XID)
        ensures r.val() == !self.val(),
    {
        XID { x: !self.x }
    }
}

impl std::ops::Not for XID {
    type Output = XID;

    fn not(self) -> (r: XID)
        ensures r.val() == !self.val(),
    {
        self.inv()
    }
}

impl vstd::std_specs::ops::NotSpecImpl for XID {
    open spec fn obeys_not_spec() -> bool { true }
    open spec fn not_req(self) -> bool { true }
    open spec fn not_spec(self) -> XID { XID { x: !self.x } }
}

proof fn lemma_ixn_bits(i: u32)
    by (bit_vector)
    ensures
        (0x0400_0000u64 << 32u64) + (i as u64) == (0x0400_0000u64 << 32u64) | (i as u64),
        ((0x0400_0000u64 << 32u64) | (i as u64)) & 0x4000_0000_0000_0000u64 == 0,
        ((0x0400_0000u64 << 32u64) | (i as u64)) & 0x2000_0000_0000_0000u64 == 0,
        ((0x0400_0000u64 << 32u64) | (i as u64)) & 0x0800_0000_0000_0000u64 == 0,
        ((0x0400_0000u64 << 32u64) | (i as u64)) & 0x8000_0000_0000_0000u64 == 0,
        ((0x0400_0000u64 << 32u64) | (i as u64)) & 0xFFFF_FFFFu64 == i as u64,
        (((0x0400_0000u64 << 32u64) | (i as u64)) & !(0x8000_0000_0000_0000u64 | 0x4000_0000_0000_0000u64)) >> 32u64 == 0x0400_0000u64,
        (((0x0400_0000u64 << 32u64) | (i as u64)) ^ 0x8000_0000_0000_0000u64) & 0x4000_0000_0000_0000u64 == 0,
        (((0x0400_0000u64 << 32u64) | (i as u64)) ^ 0x8000_0000_0000_0000u64) & 0x2000_0000_0000_0000u64 == 0,
        (((0x0400_0000u64 << 32u64) | (i as u64)) ^ 0x8000_0000_0000_0000u64) & 0x0800_0000_0000_0000u64 == 0,
        (((0x0400_0000u64 << 32u64) | (i as u64)) ^ 0x8000_0000_0000_0000u64) & 0x8000_0000_0000_0000u64 != 0,
        (((0x0400_0000u64 << 32u64) | (i as u64)) ^ 0x8000_0000_0000_0000u64) & 0xFFFF_FFFFu64 == i as u64,
        ((((0x0400_0000u64 << 32u64) | (i as u64)) ^ 0x8000_0000_0000_0000u64) & !(0x8000_0000_0000_0000u64 | 0x4000_0000_0000_0000u64)) >> 32u64 == 0x0400_0000u64,
{
}

/// The fields of the nid of an index-based node.
pub proof fn lemma_ixn(i: u32)
    ensures
        NOVAR << 32 == 0x0400_0000_0000_0000u64,
        ixn_bits(i) == (0x0400_0000u64 << 32u64) | (i as u64),
        ixn_bits(i) & VAR == 0, ixn_bits(i) & T == 0, ixn_bits(i) & F != F, ixn_bits(i) & INV == 0,
        ixn_bits(i) & IDX_MASK == i as u64,
        (ixn_bits(i) ^ INV) & VAR == 0, (ixn_bits(i) ^ INV) & T == 0, (ixn_bits(i) ^ INV) & F != F,
        (ixn_bits(i) ^ INV) & INV != 0,
        (ixn_bits(i) ^ INV) & IDX_MASK == i as u64,
        (ixn_nid(i).vid_spec().v is NoV),
        (NID { n: ixn_bits(i) ^ INV }.vid_spec().v is NoV),
{
    lemma_ixn_bits(i);
    assert(0x0400_0000u64 << 32u64 == 0x0400_0000_0000_0000u64) by (bit_vector);
}

/// The nid of index-based node `i`, not inverted.
pub open spec fn ixn_nid(i: u32) -> NID {
    NID { n: ixn_bits(i) }
}

/// Turning an index-based node into a nid and back gives the same node
/// (for indices that fit in a nid's 32-bit index field).
pub proof fn lemma_nid_roundtrip(x: XID)
    requires x.raw_val() <= 0xFFFF_FFFF,
    ensures
        x.nid_spec().n & VAR == 0 && x.nid_spec().n & T == 0,
        (x.nid_spec().vid_spec().v is NoV),
        XID::from_nid_spec(x.nid_spec()) == x.val(),
{
    let v = x.val();
    if x.is_inv_spec() {
        let j = (!v) as u32;
        lemma_ixn(j);
        assert((v < 0 ==> !v >= 0 && !(!v) == v) && (0 <= !v <= 0xFFFF_FFFF ==> ((!v) as u32) as i64 == !v)) by (bit_vector);
    } else {
        let j = x.val() as u32;
        lemma_ixn(j);
    }
}

/// A pair of branches.
#[derive(PartialEq, Eq, Structural, Hash, Clone, Copy, Debug)]
pub struct XHiLo {
    pub hi: XID,
    pub lo: XID,
}

/// A node: its variable and its two branches.
#[derive(PartialEq, Eq, Structural, Hash, Clone, Copy, Debug)]
pub struct XVHL {
    pub v: VID,
    pub hi: XID,
    pub lo: XID,
}

impl XVHL {
    /// The branches of the node.
    pub fn hilo(&self) -> (r: XHiLo)
        ensures r.hi == self.hi, r.lo == self.lo,
    {
        XHiLo { hi: self.hi, lo: self.lo }
    }

    /// Is this the node of a lone input variable (true above, false below)?
    pub fn is_var(&self) -> (r: bool)
        ensures r == (self.v.v is Var && self.hi.val() == -1 && self.lo.val() == 0),
    {
        self.v.is_var() && self.hi.x == -1 && self.lo.x == 0
    }
}

impl std::ops::Not for XVHL {
    type Output = XVHL;

    fn not(self) -> (r: XVHL)
        ensures r.v == self.v, r.hi.val() == !self.hi.val(), r.lo.val() == !self.lo.val(),
    {
        XVHL { v: self.v, hi: self.hi.inv(), lo: self.lo.inv() }
    }
}

impl vstd::std_specs::ops::NotSpecImpl for XVHL {
    open spec fn obeys_not_spec() -> bool { true }
    open spec fn not_req(self) -> bool { true }
    open spec fn not_spec(self) -> XVHL { XVHL { v: self.v, hi: XID { x: !self.hi.x }, lo: XID { x: !self.lo.x } } }
}

/// A node index with its internal and external reference counts.
#[derive(PartialEq, Eq, Structural, Hash, Clone, Copy, Debug)]
pub struct IxRc {
    pub ix: XID,
    pub irc: usize,
    pub erc: usize,
}

impl IxRc {
    /// The total reference count.
    pub fn rc(&self) -> (r: usize)
        requires self.irc + self.erc <= usize::MAX,
        ensures r == self.irc + self.erc,
    {
        self.irc + self.erc
    }

    /// Change the internal reference count by `count`.
    pub fn add(&mut self, count: i64)
        requires i64::MIN <= (old(self).irc as i64) + count <= i64::MAX,
        ensures
            final(self).irc == ((old(self).irc as i64) + count) as usize,
            final(self).ix == old(self).ix,
            final(self).erc == old(self).erc,
    {
        self.irc = (self.irc as i64 + count) as usize;
    }
}

/// The number of inputs of a table nid.
pub open spec fn fun_arity(f: NID) -> nat {
    NidFun { nid: f }.arity_spec()
}

/// The truth table bits of a table nid.
pub open spec fn fun_table(f: NID) -> u32 {
    NidFun { nid: f }.tbl_spec()
}

/// Row `k` of truth table `t`, as a constant node's index.
pub open spec fn table_entry(t: u32, k: u32) -> i64 {
    if t & (1u32 << k) != 0 { -1i64 } else { 0i64 }
}

/// The full truth table of a table nid, as constant nodes, with the entry
/// for input row `k` at position `2^arity - 1 - k`.
pub fn fun_tbl(f: NID) -> (r: Vec<XID>)
    requires f.n & F == F,
    ensures
        r@.len() == pow2(fun_arity(f)),
        forall|j: int| 0 <= j < r@.len() ==> (#[trigger] r@[j]).val() == table_entry(fun_table(f), (r@.len() - 1 - j) as u32),
{
    let g = NidFun { nid: f };
    let ar = g.arity();
    let ft = g.tbl();
    let n: usize = 1usize << ar;
    proof {
        assert(n == pow2(ar as nat)) by {
            assert(ar <= 5);
            assert(1usize << 0u8 == 1 && 1usize << 1u8 == 2 && 1usize << 2u8 == 4 && 1usize << 3u8 == 8
                && 1usize << 4u8 == 16 && 1usize << 5u8 == 32) by (bit_vector);
            reveal_with_fuel(pow2, 6);
        }
        assert(1 <= n <= 32) by {
            assert(ar <= 5);
            assert(ar <= 5 ==> 1 <= (1usize << ar) <= 32) by (bit_vector);
        }
    }
    let mut tbl: Vec<XID> = Vec::new();
    let mut k: usize = 0;
    while k < n
        invariant
            k <= n, n <= 32,
            tbl@.len() == k,
            forall|j: int| 0 <= j < k ==> (#[trigger] tbl@[j]).val() == 0,
        decreases n - k,
    {
        tbl.push(xid_o());
        k = k + 1;
    }
    let end = n - 1;
    let mut i: usize = 0;
    while i <= end
        invariant
            n <= 32, end == n - 1, i <= n,
            tbl@.len() == n,
            forall|j: int| 0 <= j < n ==> (#[trigger] tbl@[j]).val()
                == (if end - j < i { table_entry(ft, (end - j) as u32) } else { 0i64 }),
        decreases n - i,
    {
        if ft & (1u32 << (i as u32)) != 0 {
            tbl.set(end - i, xid_i());
        }
        i = i + 1;
    }
    tbl
}

} // verus!
