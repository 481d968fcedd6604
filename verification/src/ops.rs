//! Tools for constructing boolean expressions using NIDs as logical operations.
use vstd::prelude::*;
use crate::nid::{NID, NidFun, INV, F, negate};
use crate::vid::VID;
use crate::nidfun::{rewrites, IxMap, pow2, entry};

verus! {

/// A sequence of operations, in reverse Polish notation: the inputs, then
/// a table nid for the function applied to them.
#[derive(PartialEq, Eq, Hash, Debug, Clone)]
pub enum Ops {
    RPN(Vec<NID>),
}

impl Ops {
    pub open spec fn items(self) -> Seq<NID> {
        match self { Ops::RPN(v) => v@ }
    }

    /// The items, in order.
    pub fn to_rpn(&self) -> (r: &Vec<NID>)
        ensures r@ == self.items(),
    {
        match self { Ops::RPN(v) => v }
    }

    /// The operation as a function application: the function (last item) and its inputs.
    pub fn to_app(&self) -> (r: (NID, Vec<NID>))
        requires self.items().len() >= 1, self.items().last().n & F == F,
        ensures r.0 == self.items().last(), r.1@ == self.items().drop_last(),
    {
        match self {
            Ops::RPN(vec) => {
                let mut v = vec.clone();
                assert(v@ == vec@);
                let f = v.pop().unwrap();
                (f, v)
            },
        }
    }

    /// Ensure that the inputs are not inverted, by inverting the matching
    /// inputs of the function instead.
    pub fn norm(&self) -> (r: Ops)
        requires
            self.items().len() >= 1,
            self.items().last().n & F == F,
            (NidFun { nid: self.items().last() }).arity_spec() == self.items().len() - 1,
        ensures ({
            let xs = self.items();
            let k = (xs.len() - 1) as int;
            let f = NidFun { nid: xs.last() };
            &&& r.items().len() == xs.len()
            &&& forall|i: int| 0 <= i < k ==> (#[trigger] r.items()[i]).n == xs[i].n & !INV
            &&& rewrites(NidFun { nid: r.items().last() }, f,
                    IxMap::Flip((inv_mask(xs, k) as u64) & ((pow2(f.arity_spec()) - 1) as u64)),
                    f.arity_spec(), f.arity_spec())
        }),
    {
        let rpn0 = self.to_rpn();
        let mut rpn: Vec<NID> = Vec::new();
        let k = rpn0.len() - 1;
        let f0 = NidFun { nid: rpn0[k] };
        let ar = f0.arity();
        let mut bits: u8 = 0;
        let mut i: usize = 0;
        while i < k
            invariant
                k == rpn0@.len() - 1, k <= 5, i <= k,
                rpn0@ == self.items(),
                rpn@.len() == i,
                bits == inv_mask(rpn0@, i as int),
                bits < pow2(i as nat),
                forall|j: int| 0 <= j < i ==> (#[trigger] rpn@[j]).n == rpn0@[j].n & !INV,
            decreases k - i,
        {
            let x = rpn0[i];
            proof {
                crate::nidfun::lemma_pow2_shift(i as nat);
                crate::nidfun::lemma_pow2_shift((i + 1) as nat);
                crate::bits::lemma_byte(bits, i as u8);
                crate::bits::lemma_word(x.n, 0);
            }
            if x.is_inv() {
                bits = bits | (1u8 << i as u8);
                rpn.push(negate(x));
            } else {
                rpn.push(x);
            }
            i = i + 1;
        }
        let f = f0.when_flipped(bits);
        rpn.push(f.to_nid());
        Ops::RPN(rpn)
    }
}

/// Bit `i` set when input `i` (of the first `k`) is inverted.
pub open spec fn inv_mask(xs: Seq<NID>, k: int) -> u8
    decreases k,
{
    if k <= 0 { 0 }
    else if xs[k - 1].n & INV != 0 { inv_mask(xs, k - 1) | (1u8 << (k - 1) as u8) }
    else { inv_mask(xs, k - 1) }
}

/// Constructor for RPN.
pub fn rpn(xs: &[NID]) -> (r: Ops)
    ensures r.items() == xs@,
{
    let mut v: Vec<NID> = Vec::new();
    let mut i: usize = 0;
    while i < xs.len()
        invariant i <= xs@.len(), v@ == xs@.subrange(0, i as int),
        decreases xs@.len() - i,
    {
        v.push(xs[i]);
        assert(v@ =~= xs@.subrange(0, i as int + 1));
        i = i + 1;
    }
    assert(v@ =~= xs@);
    Ops::RPN(v)
}

/// x0 & x1
#[allow(non_snake_case)]
pub fn AND() -> (r: NidFun)
    ensures r.nid == AND_spec(), r.wf(), r.arity_spec() == 2,
{
    NID::fun(2, 0b0001)
}

/// x0 ^ x1
#[allow(non_snake_case)]
pub fn XOR() -> (r: NidFun)
    ensures r.nid == XOR_spec(), r.wf(), r.arity_spec() == 2,
{
    NID::fun(2, 0b0110)
}

/// x0 | x1   (vel is the latin word for 'inclusive or')
#[allow(non_snake_case)]
pub fn VEL() -> (r: NidFun)
    ensures r.nid == VEL_spec(), r.wf(), r.arity_spec() == 2,
{
    NID::fun(2, 0b0111)
}

/// !(x0 | x1)
#[allow(non_snake_case)]
pub fn NOR() -> (r: NidFun)
    ensures r.nid == NOR_spec(), r.wf(), r.arity_spec() == 2,
{
    NID::fun(2, 0b1000)
}

/// x0 implies x1
#[allow(non_snake_case)]
pub fn IMP() -> (r: NidFun)
    ensures r.nid == IMP_spec(), r.wf(), r.arity_spec() == 2,
{
    NID::fun(2, 0b1011)
}

/// Things that can stand as an input of an expression.
pub trait ToNID {
    fn to_nid(&self) -> NID;
}

impl ToNID for NID {
    fn to_nid(&self) -> (r: NID)
        ensures r == *self,
    {
        *self
    }
}

impl ToNID for VID {
    fn to_nid(&self) -> (r: NID)
        ensures r == NID::from_vid_spec(*self),
    {
        NID::from_vid(*self)
    }
}

/// the expression `x AND y`
pub fn and(x: NID, y: NID) -> (r: Ops)
    ensures r.items() == seq![x, y, AND_spec()],
{
    Ops::RPN(vec![x, y, AND().to_nid()])
}

/// the expression `x XOR y`
pub fn xor(x: NID, y: NID) -> (r: Ops)
    ensures r.items() == seq![x, y, XOR_spec()],
{
    Ops::RPN(vec![x, y, XOR().to_nid()])
}

/// the expression `x VEL y` ("x or y")
pub fn vel(x: NID, y: NID) -> (r: Ops)
    ensures r.items() == seq![x, y, VEL_spec()],
{
    Ops::RPN(vec![x, y, VEL().to_nid()])
}

/// the expression `x IMP y` ("x implies y")
pub fn imp(x: NID, y: NID) -> (r: Ops)
    ensures r.items() == seq![x, y, IMP_spec()],
{
    Ops::RPN(vec![x, y, IMP().to_nid()])
}

/// the expression `i ? t : e`
pub fn ite(i: NID, t: NID, e: NID) -> (r: Ops)
    ensures r.items() == seq![i, t, e, ITE_spec()],
{
    Ops::RPN(vec![i, t, e, NID::fun(3, 0b0001_1011).to_nid()])
}

#[allow(non_snake_case)]
pub open spec fn AND_spec() -> NID { NID { n: crate::nid::fun_bits(111, 2, 0b0001) } }
#[allow(non_snake_case)]
pub open spec fn XOR_spec() -> NID { NID { n: crate::nid::fun_bits(111, 2, 0b0110) } }
#[allow(non_snake_case)]
pub open spec fn VEL_spec() -> NID { NID { n: crate::nid::fun_bits(111, 2, 0b0111) } }
#[allow(non_snake_case)]
pub open spec fn NOR_spec() -> NID { NID { n: crate::nid::fun_bits(111, 2, 0b1000) } }
#[allow(non_snake_case)]
pub open spec fn IMP_spec() -> NID { NID { n: crate::nid::fun_bits(111, 2, 0b1011) } }
#[allow(non_snake_case)]
pub open spec fn ITE_spec() -> NID { NID { n: crate::nid::fun_bits(6106, 3, 0b0001_1011) } }


/// The index of the table entry for the inputs `a` (input 0) and `b` (input 1).
pub open spec fn in_ix2(a: bool, b: bool) -> nat {
    (if a { 1nat } else { 0nat }) + (if b { 2nat } else { 0nat })
}

/// The index of the table entry for the inputs `a`, `b` and `c` (inputs 0, 1 and 2).
pub open spec fn in_ix3(a: bool, b: bool, c: bool) -> nat {
    in_ix2(a, b) + (if c { 4nat } else { 0nat })
}

/// The table that a function nid holds.
pub open spec fn fun_table(n: NID) -> u64 {
    n.n & crate::nid::IDX_MASK
}

proof fn lemma_table_bits()
    by (bit_vector)
    ensures
        0b0001u64 & 0xFu64 == 0b0001u64, 0b0110u64 & 0xFu64 == 0b0110u64, 0b0111u64 & 0xFu64 == 0b0111u64,
        0b1000u64 & 0xFu64 == 0b1000u64, 0b1011u64 & 0xFu64 == 0b1011u64, 0b0001_1011u64 & 0xFFu64 == 0b0001_1011u64,
        (0b0001u64 >> 3u64) & 1u64 == 0u64,
        (0b0001u64 >> 2u64) & 1u64 == 0u64,
        (0b0001u64 >> 1u64) & 1u64 == 0u64,
        (0b0001u64 >> 0u64) & 1u64 == 1u64,
        (0b0110u64 >> 3u64) & 1u64 == 0u64,
        (0b0110u64 >> 2u64) & 1u64 == 1u64,
        (0b0110u64 >> 1u64) & 1u64 == 1u64,
        (0b0110u64 >> 0u64) & 1u64 == 0u64,
        (0b0111u64 >> 3u64) & 1u64 == 0u64,
        (0b0111u64 >> 2u64) & 1u64 == 1u64,
        (0b0111u64 >> 1u64) & 1u64 == 1u64,
        (0b0111u64 >> 0u64) & 1u64 == 1u64,
        (0b1000u64 >> 3u64) & 1u64 == 1u64,
        (0b1000u64 >> 2u64) & 1u64 == 0u64,
        (0b1000u64 >> 1u64) & 1u64 == 0u64,
        (0b1000u64 >> 0u64) & 1u64 == 0u64,
        (0b1011u64 >> 3u64) & 1u64 == 1u64,
        (0b1011u64 >> 2u64) & 1u64 == 0u64,
        (0b1011u64 >> 1u64) & 1u64 == 1u64,
        (0b1011u64 >> 0u64) & 1u64 == 1u64,
        (0b0001_1011u64 >> 7u64) & 1u64 == 0u64,
        (0b0001_1011u64 >> 6u64) & 1u64 == 0u64,
        (0b0001_1011u64 >> 5u64) & 1u64 == 0u64,
        (0b0001_1011u64 >> 4u64) & 1u64 == 1u64,
        (0b0001_1011u64 >> 3u64) & 1u64 == 1u64,
        (0b0001_1011u64 >> 2u64) & 1u64 == 0u64,
        (0b0001_1011u64 >> 1u64) & 1u64 == 1u64,
        (0b0001_1011u64 >> 0u64) & 1u64 == 1u64,
{
}


/// The operation tables compute their operations: for every value of the
/// inputs, the entry of `AND` is `x0 & x1`, of `XOR` `x0 ^ x1`, of `VEL`
/// `x0 | x1`, of `NOR` `!(x0 | x1)`, of `IMP` `x0 implies x1`, and of the
/// table of `ite` "if `x0` then `x1` else `x2`".
pub proof fn lemma_op_tables()
    ensures
        forall|a: bool, b: bool| #![trigger in_ix2(a, b)] (entry(fun_table(AND_spec()), 2, in_ix2(a, b)) == 1) == (a && b),
        forall|a: bool, b: bool| #![trigger in_ix2(a, b)] (entry(fun_table(XOR_spec()), 2, in_ix2(a, b)) == 1) == (a != b),
        forall|a: bool, b: bool| #![trigger in_ix2(a, b)] (entry(fun_table(VEL_spec()), 2, in_ix2(a, b)) == 1) == (a || b),
        forall|a: bool, b: bool| #![trigger in_ix2(a, b)] (entry(fun_table(NOR_spec()), 2, in_ix2(a, b)) == 1) == !(a || b),
        forall|a: bool, b: bool| #![trigger in_ix2(a, b)] (entry(fun_table(IMP_spec()), 2, in_ix2(a, b)) == 1) == (!a || b),
        forall|a: bool, b: bool, c: bool| #![trigger in_ix3(a, b, c)]
            (entry(fun_table(ITE_spec()), 3, in_ix3(a, b, c)) == 1) == (if a { b } else { c }),
{
    crate::nid::lemma_fun_fields(111, 2, 0b0001);
    crate::nid::lemma_fun_fields(111, 2, 0b0110);
    crate::nid::lemma_fun_fields(111, 2, 0b0111);
    crate::nid::lemma_fun_fields(111, 2, 0b1000);
    crate::nid::lemma_fun_fields(111, 2, 0b1011);
    crate::nid::lemma_fun_fields(6106, 3, 0b0001_1011);
    lemma_table_bits();
    crate::nidfun::lemma_pow2_small(2);
    crate::nidfun::lemma_pow2_small(3);
}
} // verus!
