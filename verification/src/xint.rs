//! Vectors of bit nodes worked with as if they were plain integers: each
//! bit is a node of a base, and arithmetic builds the nodes that compute it.
//! On constant bits the arithmetic is that of machine integers.
use vstd::prelude::*;
use vstd::arithmetic::power2::{pow2, lemma_pow2_pos, lemma_pow2_unfold};
use crate::nid::{NID, nid_o, nid_i, negate};
use crate::base::{Base, Call, is_const, cbool, cnid, lemma_not_const, respects, call_ok};
use crate::vid::{VID, VidEnum};

verus! {

/// Bits that act like booleans, with negation, AND and XOR.
pub trait TBit: Sized + Clone + std::ops::Not<Output = Self> + std::ops::BitAnd<Self, Output = Self>
    + std::ops::BitXor<Self, Output = Self> {
}

/// The value of a list of bits (bit `i` counts `2^i` when it is the constant I).
pub open spec fn num(s: Seq<NID>) -> nat
    decreases s.len(),
{
    if s.len() == 0 {
        0
    } else {
        num(s.drop_last()) + if cbool(s.last()) { pow2((s.len() - 1) as nat) } else { 0 }
    }
}

/// Every bit is a constant.
pub open spec fn all_const(s: Seq<NID>) -> bool {
    forall|i: int| 0 <= i < s.len() ==> is_const(#[trigger] s[i])
}

/// `s` rotated right by `k` places: bit `j` of the result is bit `(j + k) % len` of `s`.
pub open spec fn rot(s: Seq<NID>, k: nat) -> Seq<NID> {
    Seq::new(s.len(), |j: int| s[(j + k) % (s.len() as int)])
}

/// The bits of `s` fitted to `n` places: cut, or padded with O.
pub open spec fn fit(s: Seq<NID>, n: nat) -> Seq<NID> {
    Seq::new(n, |i: int| if i < s.len() { s[i] } else { nid_o() })
}

/// The sum of `x` rotated right by `n - i` for each bit `i < k` of `y` that
/// is I (shift-and-add multiplication, where the shifts wrap around).
pub open spec fn rot_sum(x: Seq<NID>, y: Seq<NID>, k: nat) -> nat
    decreases k,
{
    if k == 0 {
        0
    } else {
        rot_sum(x, y, (k - 1) as nat) + if cbool(y[k - 1]) { num(rot(x, (x.len() - (k - 1)) as nat)) } else { 0 }
    }
}

pub proof fn lemma_num_bound(s: Seq<NID>)
    ensures num(s) < pow2(s.len()),
    decreases s.len(),
{
    if s.len() > 0 {
        lemma_num_bound(s.drop_last());
        lemma_pow2_unfold(s.len());
    } else {
        lemma_pow2_pos(0);
        vstd::arithmetic::power2::lemma2_to64();
    }
}

/// The value of a prefix one bit longer.
pub proof fn lemma_num_take(s: Seq<NID>, i: nat)
    requires i < s.len(),
    ensures num(s.take(i as int + 1)) == num(s.take(i as int)) + if cbool(s[i as int]) { pow2(i) } else { 0 },
{
    assert(s.take(i as int + 1).drop_last() =~= s.take(i as int));
}

/// Bits that are all O are worth nothing.
pub proof fn lemma_num_zero(s: Seq<NID>)
    requires forall|i: int| 0 <= i < s.len() ==> s[i] == nid_o(),
    ensures num(s) == 0,
    decreases s.len(),
{
    crate::bits::lemma_constants();
    if s.len() > 0 {
        lemma_num_zero(s.drop_last());
    }
}

/// The value depends only on which bits are I.
pub proof fn lemma_num_same(a: Seq<NID>, b: Seq<NID>)
    requires a.len() == b.len(), forall|i: int| 0 <= i < a.len() ==> cbool(a[i]) == cbool(b[i]),
    ensures num(a) == num(b),
    decreases a.len(),
{
    if a.len() > 0 {
        lemma_num_same(a.drop_last(), b.drop_last());
    }
}

/// The constants for the values that `ev` gives the nids `s`.
pub open spec fn evb(s: Seq<NID>, ev: spec_fn(NID) -> bool) -> Seq<NID> {
    s.map_values(|x: NID| cnid(ev(x)))
}

/// The number that the bits `s` stand for when each nid has the value `ev` gives it.
pub open spec fn ev_num(s: Seq<NID>, ev: spec_fn(NID) -> bool) -> nat {
    num(evb(s, ev))
}

/// The calls `a` are the first of the calls `b`.
pub open spec fn calls_grow(a: Seq<Call>, b: Seq<Call>) -> bool {
    a.len() <= b.len() && forall|k: int| 0 <= k < a.len() ==> #[trigger] b[k] == a[k]
}

proof fn lemma_ev_num_take(s: Seq<NID>, ev: spec_fn(NID) -> bool, i: nat)
    requires i < s.len(),
    ensures ev_num(s.take(i as int + 1), ev) == ev_num(s.take(i as int), ev) + if ev(s[i as int]) { pow2(i) } else { 0 },
{
    crate::bits::lemma_constants();
    let m = evb(s, ev);
    assert(evb(s.take(i as int + 1), ev) =~= m.take(i as int + 1));
    assert(evb(s.take(i as int), ev) =~= m.take(i as int));
    lemma_num_take(m, i);
}

proof fn lemma_ev_num_bound(s: Seq<NID>, ev: spec_fn(NID) -> bool)
    ensures ev_num(s, ev) < pow2(s.len()),
{
    lemma_num_bound(evb(s, ev));
}

/// An evaluation that agrees with calls made agrees with the calls made before them.
proof fn lemma_respects_prefix(ev: spec_fn(NID) -> bool, a: Seq<Call>, b: Seq<Call>)
    requires respects(ev, b), a.len() <= b.len(), forall|k: int| 0 <= k < a.len() ==> a[k] == b[k],
    ensures respects(ev, a),
{
    assert forall|k: int| 0 <= k < a.len() implies call_ok(ev, #[trigger] a[k]) by {
        assert(a[k] == b[k]);
    }
}

/// Integers made of bit nodes.
pub trait BInt: Sized {
    /// The bits, lowest first.
    spec fn bits_of(&self) -> Seq<NID>;

    /// The number of bits of this type.
    spec fn width() -> nat;

    /// The number of bits.
    fn n() -> (r: u32)
        ensures r == Self::width();

    /// The number with every bit O.
    fn zero() -> (r: Self)
        ensures r.bits_of() == Seq::new(Self::width(), |i: int| nid_o());

    /// The constant I.
    fn i(&self) -> (r: NID)
        ensures r == nid_i();

    /// The constant O.
    fn o(&self) -> (r: NID)
        ensures r == nid_o();

    /// Bit `i`.
    fn get(&self, i: u32) -> (r: NID)
        requires self.bits_of().len() == Self::width(), i < Self::width(),
        ensures r == self.bits_of()[i as int];

    /// Set bit `i` to `v`.
    fn set(&mut self, i: u32, v: NID)
        requires old(self).bits_of().len() == Self::width(), i < Self::width(),
        ensures final(self).bits_of() == old(self).bits_of().update(i as int, v);

    /// The value: the bits that are I, as a number.
    fn u(self) -> (r: usize)
        requires self.bits_of().len() == Self::width(), Self::width() <= usize::BITS,
        ensures r == num(self.bits_of());

    /// The bits rotated right by `y` places.
    fn rotate_right(&self, y: u32) -> (r: Self)
        requires self.bits_of().len() == Self::width(), y + Self::width() <= u32::MAX,
        ensures r.bits_of() == rot(self.bits_of(), y as nat),
    {
        let n = Self::n();
        let mut res = Self::zero();
        let mut i: u32 = 0;
        while i < n
            invariant
                n == Self::width(), i <= n, self.bits_of().len() == n, y + n <= u32::MAX,
                res.bits_of().len() == n,
                forall|j: int| 0 <= j < i ==> #[trigger] res.bits_of()[j] == self.bits_of()[(j + y) % (n as int)],
            decreases n - i,
        {
            let b = self.get((i + y) % n);
            res.set(i, b);
            i = i + 1;
        }
        proof { assert(res.bits_of() =~= rot(self.bits_of(), y as nat)); }
        res
    }

    /// The sum, on as many bits (the last carry is dropped). It builds a
    /// ripple-carry adder in the base; on constant bits it is the sum
    /// modulo `2^width`.
    fn wrapping_add<B: Base>(&self, base: &mut B, y: Self) -> (r: Self)
        requires
            self.bits_of().len() == Self::width(), y.bits_of().len() == Self::width(),
            old(base).inv(), old(base).spare() >= 7 * Self::width(),
            forall|i: int| 0 <= i < Self::width() ==> old(base).valid(#[trigger] self.bits_of()[i]),
            forall|i: int| 0 <= i < Self::width() ==> old(base).valid(#[trigger] y.bits_of()[i]),
        ensures
            r.bits_of().len() == Self::width(),
            final(base).inv(), final(base).names() == old(base).names(),
            final(base).sub_ready() == old(base).sub_ready(),
            final(base).spare() + 7 * Self::width() >= old(base).spare(),
            forall|m: NID| old(base).valid(m) ==> #[trigger] final(base).valid(m),
            forall|i: int| 0 <= i < Self::width() ==> final(base).valid(#[trigger] r.bits_of()[i]),
            all_const(self.bits_of()) && all_const(y.bits_of()) ==> all_const(r.bits_of())
                && num(r.bits_of()) == (num(self.bits_of()) + num(y.bits_of())) % pow2(Self::width()),
            forall|ev: spec_fn(NID) -> bool| #[trigger] respects(ev, final(base).calls()) ==>
                ev_num(r.bits_of(), ev) == (ev_num(self.bits_of(), ev) + ev_num(y.bits_of(), ev)) % pow2(Self::width()),
            calls_grow(old(base).calls(), final(base).calls()),
    {
        let n = Self::n();
        let mut res = Self::zero();
        let mut carry = self.o();
        let ghost xs = self.bits_of();
        let ghost ys = y.bits_of();
        let ghost cst = all_const(xs) && all_const(ys);
        proof { base.lemma_consts_valid(); crate::bits::lemma_constants(); }
        let mut i: u32 = 0;
        while i < n
            invariant
                n == Self::width(), i <= n, xs == self.bits_of(), ys == y.bits_of(), xs.len() == n, ys.len() == n,
                cst == (all_const(xs) && all_const(ys)),
                res.bits_of().len() == n,
                forall|j: int| i <= j < n ==> #[trigger] res.bits_of()[j] == nid_o(),
                base.inv(), base.names() == old(base).names(), base.sub_ready() == old(base).sub_ready(),
                base.spare() + 7 * i >= old(base).spare(), old(base).spare() >= 7 * n,
                forall|m: NID| old(base).valid(m) ==> #[trigger] base.valid(m),
                forall|j: int| 0 <= j < n ==> old(base).valid(#[trigger] xs[j]),
                forall|j: int| 0 <= j < n ==> old(base).valid(#[trigger] ys[j]),
                forall|j: int| 0 <= j < i ==> base.valid(#[trigger] res.bits_of()[j]),
                base.valid(carry),
                cst ==> is_const(carry) && all_const(res.bits_of().take(i as int))
                    && num(res.bits_of().take(i as int)) + (if cbool(carry) { pow2(i as nat) } else { 0 })
                        == num(xs.take(i as int)) + num(ys.take(i as int)),
                forall|ev: spec_fn(NID) -> bool| #[trigger] respects(ev, base.calls()) ==>
                    ev_num(res.bits_of().take(i as int), ev) + (if ev(carry) { pow2(i as nat) } else { 0 })
                        == ev_num(xs.take(i as int), ev) + ev_num(ys.take(i as int), ev),
                calls_grow(old(base).calls(), base.calls()),
            decreases n - i,
        {
            let (a, b, c) = (self.get(i), y.get(i), carry);
            let ghost b0 = *base;
            let ab = base.xor(a, b);
            let s = base.xor(ab, c);
            let t1 = base.and(a, b);
            let t2 = base.and(a, c);
            let t3 = base.xor(t1, t2);
            let t4 = base.and(b, c);
            let maj = base.xor(t3, t4);
            let ghost before = res.bits_of();
            let ghost c_old = b0.calls();
            let ghost carry0 = carry;
            res.set(i, s);
            carry = maj;
            proof {
                let cs = base.calls();
                assert(cs == c_old.push(Call::Xor(a, b, ab)).push(Call::Xor(ab, c, s)).push(Call::And(a, b, t1))
                    .push(Call::And(a, c, t2)).push(Call::Xor(t1, t2, t3)).push(Call::And(b, c, t4)).push(Call::Xor(t3, t4, maj)));
                assert(res.bits_of().take(i as int) =~= before.take(i as int));
                assert(res.bits_of()[i as int] == s);
                assert forall|ev: spec_fn(NID) -> bool| #[trigger] respects(ev, base.calls()) implies
                    ev_num(res.bits_of().take(i as int + 1), ev) + (if ev(carry) { pow2((i + 1) as nat) } else { 0 })
                        == ev_num(xs.take(i as int + 1), ev) + ev_num(ys.take(i as int + 1), ev) by {
                    let l = c_old.len() as int;
                    lemma_respects_prefix(ev, c_old, cs);
                    assert(call_ok(ev, cs[l]));
                    assert(call_ok(ev, cs[l + 1]));
                    assert(call_ok(ev, cs[l + 2]));
                    assert(call_ok(ev, cs[l + 3]));
                    assert(call_ok(ev, cs[l + 4]));
                    assert(call_ok(ev, cs[l + 5]));
                    assert(call_ok(ev, cs[l + 6]));
                    assert(ev_num(before.take(i as int), ev) + (if ev(carry0) { pow2(i as nat) } else { 0 })
                        == ev_num(xs.take(i as int), ev) + ev_num(ys.take(i as int), ev));
                    lemma_ev_num_take(res.bits_of(), ev, i as nat);
                    lemma_ev_num_take(xs, ev, i as nat);
                    lemma_ev_num_take(ys, ev, i as nat);
                    lemma_pow2_unfold((i + 1) as nat);
                }
                assert forall|k: int| 0 <= k < old(base).calls().len() implies #[trigger] cs[k] == old(base).calls()[k] by {
                    assert(cs[k] == c_old[k]);
                }
            }
            proof {
                assert forall|j: int| 0 <= j < i + 1 implies base.valid(#[trigger] res.bits_of()[j]) by {
                    if j < i { assert(res.bits_of()[j] == before[j]); }
                }
                if cst {
                    assert(is_const(xs[i as int]) && is_const(ys[i as int]));
                    lemma_num_take(res.bits_of(), i as nat);
                    lemma_num_take(xs, i as nat);
                    lemma_num_take(ys, i as nat);
                    assert(res.bits_of().take(i as int) =~= before.take(i as int));
                    assert forall|j: int| 0 <= j < i + 1 implies is_const(#[trigger] res.bits_of().take(i as int + 1)[j]) by {
                        if j < i { assert(res.bits_of().take(i as int + 1)[j] == before.take(i as int)[j]); }
                    }
                    lemma_pow2_unfold((i + 1) as nat);
                }
            }
            i = i + 1;
        }
        proof {
            assert(res.bits_of().take(n as int) =~= res.bits_of());
            assert(xs.take(n as int) =~= xs);
            assert(ys.take(n as int) =~= ys);
            if cst {
                lemma_num_bound(res.bits_of());
                vstd::arithmetic::div_mod::lemma_fundamental_div_mod_converse(
                    (num(xs) + num(ys)) as int, pow2(n as nat) as int,
                    if cbool(carry) { 1int } else { 0int }, num(res.bits_of()) as int);
            }
            assert forall|ev: spec_fn(NID) -> bool| #[trigger] respects(ev, base.calls()) implies
                ev_num(res.bits_of(), ev) == (ev_num(xs, ev) + ev_num(ys, ev)) % pow2(n as nat) by {
                lemma_ev_num_bound(res.bits_of(), ev);
                vstd::arithmetic::div_mod::lemma_fundamental_div_mod_converse(
                    (ev_num(xs, ev) + ev_num(ys, ev)) as int, pow2(n as nat) as int,
                    if ev(carry) { 1int } else { 0int }, ev_num(res.bits_of(), ev) as int);
            }
        }
        res
    }

}

/// An integer of `N` bits (lowest first), each bit a node of a base.
#[derive(Clone)]
pub struct XInt<const N: u32> {
    pub bits: Vec<NID>,
}


impl<const N: u32> BInt for XInt<N> {
    open spec fn bits_of(&self) -> Seq<NID> {
        self.bits@
    }

    open spec fn width() -> nat {
        N as nat
    }

    fn n() -> (r: u32) {
        N
    }

    fn zero() -> (r: Self) {
        let mut bits: Vec<NID> = Vec::new();
        let mut i: u32 = 0;
        while i < N
            invariant i <= N, bits@.len() == i, forall|j: int| 0 <= j < i ==> #[trigger] bits@[j] == nid_o(),
            decreases N - i,
        {
            bits.push(NID::o());
            i = i + 1;
        }
        let r = XInt { bits };
        proof { assert(r.bits@ =~= Seq::new(N as nat, |i: int| nid_o())); }
        r
    }

    fn i(&self) -> (r: NID) {
        NID::i()
    }

    fn o(&self) -> (r: NID) {
        NID::o()
    }

    fn get(&self, i: u32) -> (r: NID) {
        self.bits[i as usize]
    }

    fn set(&mut self, i: u32, v: NID) {
        self.bits.set(i as usize, v);
    }

    fn u(self) -> (r: usize) {
        let mut u: usize = 0;
        let mut i: usize = 0;
        proof { vstd::arithmetic::power2::lemma2_to64(); }
        while i < self.bits.len()
            invariant
                i <= self.bits@.len(), self.bits@.len() == N, N <= usize::BITS,
                u == num(self.bits@.take(i as int)), u < pow2(i as nat),
            decreases self.bits@.len() - i,
        {
            proof {
                lemma_num_take(self.bits@, i as nat);
                vstd::bits::lemma_usize_pow2_no_overflow(i as nat);
                vstd::bits::lemma_usize_shl_is_mul(1, i);
                lemma_pow2_unfold((i + 1) as nat);
            }
            if self.bits[i] == NID::i() {
                let b: usize = 1usize << i;
                proof { lemma_or_fresh_bit(u, i); }
                u = u | b;
            }
            i = i + 1;
        }
        proof { assert(self.bits@.take(N as int) =~= self.bits@); }
        u
    }
}

/// Setting a bit above all the set bits adds its value.
proof fn lemma_or_fresh_bit(u: usize, i: usize)
    requires i < usize::BITS, u < (1usize << i),
    ensures u | (1usize << i) == u + (1usize << i),
{
    assert(i < usize::BITS && u < (1usize << i) ==> u | (1usize << i) == u + (1usize << i)) by (bit_vector);
}

impl<const N: u32> XInt<N> {
    /// The number `u` (its low `N` bits) as constant bits.
    pub fn new(u: usize) -> (r: Self)
        requires N <= usize::BITS,
        ensures
            r.bits@.len() == N, all_const(r.bits@),
            forall|i: int| 0 <= i < N ==> #[trigger] r.bits@[i] == cnid((u as nat / pow2(i as nat)) % 2 == 1),
            num(r.bits@) == (u as nat) % pow2(N as nat),
    {
        let mut bits: Vec<NID> = Vec::new();
        let mut i: u32 = 0;
        proof {
            crate::bits::lemma_constants();
            vstd::arithmetic::power2::lemma2_to64();
            assert(num(bits@) == 0);
        }
        while i < N
            invariant
                i <= N, N <= usize::BITS, bits@.len() == i,
                forall|j: int| 0 <= j < i ==> #[trigger] bits@[j] == cnid((u as nat / pow2(j as nat)) % 2 == 1),
                all_const(bits@), num(bits@) == (u as nat) % pow2(i as nat),
            decreases N - i,
        {
            proof {
                vstd::bits::lemma_usize_pow2_no_overflow(i as nat);
                vstd::bits::lemma_usize_shl_is_mul(1, i as usize);
                vstd::bits::lemma_usize_shr_is_div(u, i as usize);
                lemma_bit_test(u, i as usize);
                lemma_pow2_pos(i as nat);
                vstd::arithmetic::div_mod::lemma_mod_breakdown(u as int, pow2(i as nat) as int, 2);
                lemma_pow2_unfold((i + 1) as nat);
            }
            let bit = if (u & (1usize << i)) == 0 { NID::o() } else { NID::i() };
            let ghost before = bits@;
            bits.push(bit);
            proof {
                assert(bits@.drop_last() =~= before);
                assert(cbool(bit) == ((u as nat / pow2(i as nat)) % 2 == 1));
                assert(num(bits@) == num(before) + if cbool(bit) { pow2(i as nat) } else { 0 });
                let q = (u as int / pow2(i as nat) as int) % 2;
                let pw = pow2(i as nat) as int;
                if q == 1 {
                    assert(pw * q == pw) by (nonlinear_arith) requires q == 1;
                } else {
                    assert(q == 0);
                    assert(pw * q == 0) by (nonlinear_arith) requires q == 0;
                }
                assert(pow2((i + 1) as nat) == pow2(i as nat) * 2) by (nonlinear_arith)
                    requires pow2((i + 1) as nat) == 2 * pow2(i as nat);
            }
            i = i + 1;
        }
        XInt { bits }
    }

    /// `other` fitted to this width: cut, or padded with O.
    pub fn from<T: BInt>(other: &T) -> (r: Self)
        requires other.bits_of().len() == T::width(),
        ensures r.bits_of() == fit(other.bits_of(), N as nat),
    {
        let mut res = Self::zero();
        let n = if N < T::n() { N } else { T::n() };
        let mut i: u32 = 0;
        while i < n
            invariant
                n <= N as nat, n <= T::width(), i <= n, other.bits_of().len() == T::width(),
                res.bits_of().len() == N as nat,
                forall|j: int| 0 <= j < i ==> #[trigger] res.bits_of()[j] == other.bits_of()[j],
                forall|j: int| i <= j < N as nat ==> #[trigger] res.bits_of()[j] == nid_o(),
            decreases n - i,
        {
            let b = other.get(i);
            res.set(i, b);
            i = i + 1;
        }
        proof { assert(res.bits_of() =~= fit(other.bits_of(), N as nat)); }
        res
    }

    /// The product, on the width of `T`, by shift-and-add where the shifts
    /// wrap around: for each bit `i` of `y0` that is set, `self` rotated left
    /// by `i` places is added. (On constants whose product fits without
    /// wrapping this is the product.)
    pub fn times<const M: u32, B: Base>(&self, base: &mut B, y0: &Self) -> (r: XInt<M>)
        requires
            self.bits_of().len() == N as nat, y0.bits_of().len() == N as nat,
            old(base).inv(), old(base).spare() >= 8 * (M as nat) * (M as nat), 2 * (M as nat) <= u32::MAX,
            forall|i: int| 0 <= i < N as nat ==> old(base).valid(#[trigger] self.bits_of()[i]),
            forall|i: int| 0 <= i < N as nat ==> old(base).valid(#[trigger] y0.bits_of()[i]),
        ensures
            r.bits_of().len() == (M as nat),
            final(base).inv(), final(base).names() == old(base).names(),
            final(base).sub_ready() == old(base).sub_ready(),
            forall|m: NID| old(base).valid(m) ==> #[trigger] final(base).valid(m),
            forall|i: int| 0 <= i < (M as nat) ==> final(base).valid(#[trigger] r.bits_of()[i]),
            all_const(self.bits_of()) && all_const(y0.bits_of()) ==> all_const(r.bits_of())
                && num(r.bits_of()) == rot_sum(fit(self.bits_of(), (M as nat)), fit(y0.bits_of(), (M as nat)), (M as nat))
                    % pow2((M as nat)),
            forall|ev: spec_fn(NID) -> bool| #[trigger] respects(ev, final(base).calls()) ==>
                ev_num(r.bits_of(), ev) == rot_sum(evb(fit(self.bits_of(), (M as nat)), ev), evb(fit(y0.bits_of(), (M as nat)), ev),
                    (M as nat)) % pow2((M as nat)),
    {
        let n = M;
        let mut sum = XInt::<M>::zero();
        let x = XInt::<M>::from(self);
        let y = XInt::<M>::from(y0);
        let ghost xs = x.bits_of();
        let ghost ys = y.bits_of();
        let ghost cst = all_const(self.bits_of()) && all_const(y0.bits_of());
        proof {
            base.lemma_consts_valid();
            crate::bits::lemma_constants();
            lemma_num_zero(sum.bits_of());
            assert forall|j: int| 0 <= j < n implies base.valid(#[trigger] xs[j]) && (cst ==> is_const(xs[j])) by {}
            assert forall|j: int| 0 <= j < n implies base.valid(#[trigger] ys[j]) && (cst ==> is_const(ys[j])) by {}
            lemma_pow2_pos(n as nat);
            assert forall|k: int| 0 <= k < sum.bits_of().len() implies is_const(#[trigger] sum.bits_of()[k]) by {}
            vstd::arithmetic::div_mod::lemma_small_mod(0, pow2(n as nat));
            assert forall|ev: spec_fn(NID) -> bool| #[trigger] respects(ev, base.calls()) implies
                ev_num(sum.bits_of(), ev) == rot_sum(evb(xs, ev), evb(ys, ev), 0) % pow2(n as nat) by {
                assert forall|k: int| 0 <= k < evb(sum.bits_of(), ev).len() implies #[trigger] evb(sum.bits_of(), ev)[k] == nid_o() by {}
                lemma_num_zero(evb(sum.bits_of(), ev));
            }
        }
        let mut i: u32 = 0;
        while i < n
            invariant
                n == (M as nat), i <= n, xs == x.bits_of(), ys == y.bits_of(), xs.len() == n, ys.len() == n, 2 * n <= u32::MAX,
                xs == fit(self.bits_of(), n as nat), ys == fit(y0.bits_of(), n as nat),
                cst == (all_const(self.bits_of()) && all_const(y0.bits_of())),
                cst ==> all_const(xs) && all_const(ys),
                sum.bits_of().len() == n,
                base.inv(), base.names() == old(base).names(), base.sub_ready() == old(base).sub_ready(),
                base.spare() + 8 * n * i >= old(base).spare(), old(base).spare() >= 8 * n * n,
                forall|m: NID| old(base).valid(m) ==> #[trigger] base.valid(m),
                forall|j: int| 0 <= j < n ==> base.valid(#[trigger] xs[j]),
                forall|j: int| 0 <= j < n ==> base.valid(#[trigger] ys[j]),
                forall|j: int| 0 <= j < n ==> base.valid(#[trigger] sum.bits_of()[j]),
                cst ==> all_const(sum.bits_of()) && num(sum.bits_of()) == rot_sum(xs, ys, i as nat) % pow2(n as nat),
                forall|ev: spec_fn(NID) -> bool| #[trigger] respects(ev, base.calls()) ==>
                    ev_num(sum.bits_of(), ev) == rot_sum(evb(xs, ev), evb(ys, ev), i as nat) % pow2(n as nat),
            decreases n - i,
        {
            let mut xi = x.rotate_right(0);
            proof {
                assert forall|j: int| 0 <= j < n implies #[trigger] xi.bits_of()[j] == xs[j] by {
                    vstd::arithmetic::div_mod::lemma_small_mod(j as nat, n as nat);
                }
                assert(8 * n * (i + 1) == 8 * n * i + 8 * n) by (nonlinear_arith);
                assert(8 * n * (i + 1) <= 8 * n * n) by (nonlinear_arith) requires i < n;
            }
            let yi = y.get(i);
            let ghost c_i = base.calls();
            let ghost sum0 = sum.bits_of();
            let mut j: u32 = 0;
            while j < n
                invariant
                    n == (M as nat), j <= n, i < n, xi.bits_of().len() == n, xs.len() == n, ys.len() == n, yi == ys[i as int],
                    sum.bits_of().len() == n,
                    base.inv(), base.names() == old(base).names(), base.sub_ready() == old(base).sub_ready(),
                    base.spare() + 8 * n * i + j >= old(base).spare(), old(base).spare() >= 8 * n * n,
                    8 * n * (i + 1) <= 8 * n * n,
                    forall|m: NID| old(base).valid(m) ==> #[trigger] base.valid(m),
                    forall|k: int| 0 <= k < n ==> base.valid(#[trigger] xs[k]),
                    forall|k: int| 0 <= k < n ==> base.valid(#[trigger] ys[k]),
                    forall|k: int| 0 <= k < n ==> base.valid(#[trigger] sum.bits_of()[k]),
                    forall|k: int| 0 <= k < n ==> base.valid(#[trigger] xi.bits_of()[k]),
                    forall|k: int| j <= k < n ==> #[trigger] xi.bits_of()[k] == xs[k],
                    cst ==> is_const(yi) && all_const(xs),
                    cst ==> forall|k: int| 0 <= k < j ==> #[trigger] xi.bits_of()[k] == cnid(cbool(xs[k]) && cbool(yi)),
                    calls_grow(c_i, base.calls()), sum.bits_of() == sum0,
                    forall|ev: spec_fn(NID) -> bool| #[trigger] respects(ev, base.calls()) ==>
                        forall|k: int| 0 <= k < j ==> ev(#[trigger] xi.bits_of()[k]) == (ev(xs[k]) && ev(yi)),
                decreases n - j,
            {
                let a = xi.get(j);
                proof {
                    let sp = old(base).spare();
                    assert(sp >= 8 * n * i + j + 1) by (nonlinear_arith)
                        requires i < n, j < n, sp >= 8 * n * n;
                }
                let ghost b0 = *base;
                let xij = base.and(a, yi);
                let ghost before = xi.bits_of();
                xi.set(j, xij);
                proof {
                    let cb = b0.calls();
                    let cs = base.calls();
                    assert(cs == cb.push(Call::And(a, yi, xij)));
                    assert forall|kk: int| 0 <= kk < c_i.len() implies #[trigger] cs[kk] == c_i[kk] by {
                        assert(cs[kk] == cb[kk]);
                    }
                    assert forall|ev: spec_fn(NID) -> bool| #[trigger] respects(ev, base.calls()) implies
                        forall|k: int| 0 <= k < j + 1 ==> ev(#[trigger] xi.bits_of()[k]) == (ev(xs[k]) && ev(yi)) by {
                        lemma_respects_prefix(ev, cb, cs);
                        assert(call_ok(ev, cs[cb.len() as int]));
                        assert forall|k: int| 0 <= k < j + 1 implies ev(#[trigger] xi.bits_of()[k]) == (ev(xs[k]) && ev(yi)) by {
                            if k < j { assert(xi.bits_of()[k] == before[k]); }
                        }
                    }
                }
                proof {
                    assert forall|k: int| 0 <= k < n implies base.valid(#[trigger] xi.bits_of()[k]) by {
                        if k != j { assert(xi.bits_of()[k] == before[k]); }
                    }
                }
                j = j + 1;
            }
            proof {
                assert(8 * n * n - 8 * n * i - n >= 7 * n) by (nonlinear_arith) requires i < n;
            }
            let shifted = xi.rotate_right(n - i);
            let ghost s0 = sum.bits_of();
            let ghost c_mid = base.calls();
            sum = sum.wrapping_add(base, shifted);
            proof {
                assert forall|ev: spec_fn(NID) -> bool| #[trigger] respects(ev, base.calls()) implies
                    ev_num(sum.bits_of(), ev) == rot_sum(evb(xs, ev), evb(ys, ev), (i + 1) as nat) % pow2(n as nat) by {
                    lemma_respects_prefix(ev, c_mid, base.calls());
                    lemma_respects_prefix(ev, c_i, c_mid);
                    let ex = evb(xs, ev);
                    let ey = evb(ys, ev);
                    let rx = rot(ex, (n - i) as nat);
                    crate::bits::lemma_constants();
                    assert(ey[i as int] == cnid(ev(yi)));
                    assert(ex.len() == n);
                    if ev(yi) {
                        assert forall|k: int| 0 <= k < n implies #[trigger] evb(shifted.bits_of(), ev)[k] == rx[k] by {
                            let w = (k + (n - i)) % (n as int);
                            assert(shifted.bits_of()[k] == xi.bits_of()[w]);
                        }
                        assert(evb(shifted.bits_of(), ev) =~= rx);
                    } else {
                        assert forall|k: int| 0 <= k < n implies #[trigger] evb(shifted.bits_of(), ev)[k] == nid_o() by {
                            let w = (k + (n - i)) % (n as int);
                            assert(shifted.bits_of()[k] == xi.bits_of()[w]);
                        }
                        lemma_num_zero(evb(shifted.bits_of(), ev));
                    }
                    lemma_pow2_pos(n as nat);
                    lemma_num_bound(rx);
                    vstd::arithmetic::div_mod::lemma_add_mod_noop(rot_sum(ex, ey, i as nat) as int,
                        (if ev(yi) { num(rx) } else { 0 }) as int, pow2(n as nat) as int);
                    vstd::arithmetic::div_mod::lemma_small_mod(
                        (if ev(yi) { num(rx) } else { 0 }) as nat, pow2(n as nat) as nat);
                }
            }
            proof {
                if cst {
                    let rx = rot(xs, (n - i) as nat);
                    assert forall|k: int| 0 <= k < n implies is_const(#[trigger] shifted.bits_of()[k])
                        && cbool(shifted.bits_of()[k]) == (cbool(rx[k]) && cbool(ys[i as int])) by {
                        let w = (k + (n - i)) % (n as int);
                        assert(shifted.bits_of()[k] == xi.bits_of()[w]);
                        assert(is_const(xs[w]));
                    }
                    if cbool(ys[i as int]) {
                        lemma_num_same(shifted.bits_of(), rx);
                    } else {
                        assert forall|k: int| 0 <= k < n implies shifted.bits_of()[k] == nid_o() by {}
                        lemma_num_zero(shifted.bits_of());
                    }
                    lemma_pow2_pos(n as nat);
                    lemma_num_bound(rx);
                    vstd::arithmetic::div_mod::lemma_add_mod_noop(rot_sum(xs, ys, i as nat) as int,
                        (if cbool(ys[i as int]) { num(rx) } else { 0 }) as int, pow2(n as nat) as int);
                    vstd::arithmetic::div_mod::lemma_small_mod(
                        (if cbool(ys[i as int]) { num(rx) } else { 0 }) as nat, pow2(n as nat) as nat);
                    lemma_num_bound(rx);
                }
            }
            i = i + 1;
        }
        sum
    }

    /// The bits of `v` fitted to `N` places: cut, or padded with O.
    pub fn from_vec(v: Vec<NID>) -> (r: Self)
        ensures r.bits@ == fit(v@, N as nat),
    {
        let mut bits: Vec<NID> = Vec::new();
        let mut i: u32 = 0;
        while i < N
            invariant i <= N, bits@.len() == i, forall|j: int| 0 <= j < i ==> #[trigger] bits@[j] == fit(v@, N as nat)[j],
            decreases N - i,
        {
            if (i as usize) < v.len() { bits.push(v[i as usize]); } else { bits.push(NID::o()); }
            i = i + 1;
        }
        proof { assert(bits@ =~= fit(v@, N as nat)); }
        XInt { bits }
    }

    /// Define `N` input variables at once, named `s` followed by the
    /// variable's name, starting at variable `start`.
    pub fn def<B: Base>(base: &mut B, s: &str, start: u32) -> (r: Self)
        requires old(base).inv(), start + N <= u32::MAX,
        ensures
            r.bits@.len() == N, final(base).inv(), final(base).spare() == old(base).spare(),
            final(base).sub_ready() == old(base).sub_ready(),
            forall|m: NID| old(base).valid(m) ==> #[trigger] final(base).valid(m),
            forall|i: int| 0 <= i < N ==> #[trigger] r.bits@[i] == NID::from_vid_spec(VID { v: VidEnum::Var((start + i) as u32) }),
    {
        let mut bits: Vec<NID> = Vec::new();
        let mut i: u32 = 0;
        while i < N
            invariant
                i <= N, start + N <= u32::MAX, bits@.len() == i,
                base.inv(), base.spare() == old(base).spare(), base.sub_ready() == old(base).sub_ready(),
                forall|m: NID| old(base).valid(m) ==> #[trigger] base.valid(m),
                forall|j: int| 0 <= j < i ==> #[trigger] bits@[j] == NID::from_vid_spec(VID { v: VidEnum::Var((start + j) as u32) }),
            decreases N - i,
        {
            let n = base.def(String::from_str(s), VID::var(start + i));
            bits.push(n);
            i = i + 1;
        }
        XInt { bits }
    }

    /// A bit that is I exactly when the two numbers are equal: the AND of
    /// the negated XORs of their bits.
    pub fn eq<B: Base>(&self, base: &mut B, other: &Self) -> (r: NID)
        requires
            self.bits@.len() == N, other.bits@.len() == N, old(base).inv(), old(base).spare() >= 2 * N,
            forall|i: int| 0 <= i < N ==> old(base).valid(#[trigger] self.bits@[i]),
            forall|i: int| 0 <= i < N ==> old(base).valid(#[trigger] other.bits@[i]),
        ensures
            final(base).inv(), final(base).valid(r), final(base).names() == old(base).names(),
            final(base).sub_ready() == old(base).sub_ready(),
            final(base).spare() + 2 * N >= old(base).spare(),
            forall|m: NID| old(base).valid(m) ==> #[trigger] final(base).valid(m),
            all_const(self.bits@) && all_const(other.bits@) ==> r == cnid(self.bits@ == other.bits@),
            forall|ev: spec_fn(NID) -> bool| #[trigger] respects(ev, final(base).calls()) ==>
                (ev(r) <==> forall|j: int| 0 <= j < N ==> ev(#[trigger] self.bits@[j]) == ev(other.bits@[j])),
    {
        let ghost cst = all_const(self.bits@) && all_const(other.bits@);
        let mut res = NID::i();
        proof { base.lemma_consts_valid(); crate::bits::lemma_constants(); }
        let mut i: usize = 0;
        while i < N as usize
            invariant
                i <= N, self.bits@.len() == N, other.bits@.len() == N,
                cst == (all_const(self.bits@) && all_const(other.bits@)),
                base.inv(), base.names() == old(base).names(), base.sub_ready() == old(base).sub_ready(),
                base.spare() + 2 * i >= old(base).spare(), old(base).spare() >= 2 * N,
                forall|m: NID| old(base).valid(m) ==> #[trigger] base.valid(m),
                forall|j: int| 0 <= j < N ==> old(base).valid(#[trigger] self.bits@[j]),
                forall|j: int| 0 <= j < N ==> old(base).valid(#[trigger] other.bits@[j]),
                base.valid(res),
                cst ==> res == cnid(forall|j: int| 0 <= j < i ==> self.bits@[j] == other.bits@[j]),
                forall|ev: spec_fn(NID) -> bool| #[trigger] respects(ev, base.calls()) ==>
                    (ev(res) <==> forall|j: int| 0 <= j < i ==> ev(#[trigger] self.bits@[j]) == ev(other.bits@[j])),
            decreases N - i,
        {
            let (x, y) = (self.bits[i], other.bits[i]);
            let ghost c_old = base.calls();
            let d = base.xor(x, y);
            proof { base.lemma_not_valid(d); }
            let e = negate(d);
            let ghost before = res;
            res = base.and(res, e);
            proof {
                let cs = base.calls();
                assert(cs == c_old.push(Call::Xor(x, y, d)).push(Call::And(before, e, res)));
                assert(e == crate::simp::not_spec(d));
                assert forall|ev: spec_fn(NID) -> bool| #[trigger] respects(ev, base.calls()) implies
                    (ev(res) <==> forall|j: int| 0 <= j < i + 1 ==> ev(#[trigger] self.bits@[j]) == ev(other.bits@[j])) by {
                    let l = c_old.len() as int;
                    lemma_respects_prefix(ev, c_old, cs);
                    assert(call_ok(ev, cs[l]));
                    assert(call_ok(ev, cs[l + 1]));
                    assert(ev(e) == !ev(d));
                    if ev(res) {
                        assert forall|j: int| 0 <= j < i + 1 implies ev(#[trigger] self.bits@[j]) == ev(other.bits@[j]) by {
                            if j == i { assert(self.bits@[j] == x); }
                        }
                    }
                    if forall|j: int| 0 <= j < i + 1 ==> ev(#[trigger] self.bits@[j]) == ev(other.bits@[j]) {
                        assert(ev(self.bits@[i as int]) == ev(other.bits@[i as int]));
                    }
                }
            }
            proof {
                if cst {
                    assert(is_const(x) && is_const(y));
                    let p0 = forall|j: int| 0 <= j < i ==> self.bits@[j] == other.bits@[j];
                    let p1 = forall|j: int| 0 <= j < i + 1 ==> self.bits@[j] == other.bits@[j];
                    lemma_not_const(d);
                    assert(e == cnid(cbool(x) == cbool(y)));
                    assert((cbool(x) == cbool(y)) == (x == y));
                    assert(before == cnid(p0));
                    assert(p1 == (p0 && x == y)) by {
                        if p0 && x == y {
                            assert forall|j: int| 0 <= j < i + 1 implies self.bits@[j] == other.bits@[j] by {
                                if j == i { assert(self.bits@[j] == x); }
                            }
                        }
                    }
                    assert(res == cnid(cbool(before) && cbool(e)));
                }
            }
            i = i + 1;
        }
        proof {
            if cst {
                if forall|j: int| 0 <= j < N ==> self.bits@[j] == other.bits@[j] {
                    assert(self.bits@ =~= other.bits@);
                }
            }
        }
        res
    }

    /// A bit that is I exactly when this number is less than `other`,
    /// working up from the lowest bit.
    pub fn lt<B: Base>(&self, base: &mut B, other: &Self) -> (r: NID)
        requires
            self.bits@.len() == N, other.bits@.len() == N, old(base).inv(), old(base).spare() >= 5 * N,
            forall|i: int| 0 <= i < N ==> old(base).valid(#[trigger] self.bits@[i]),
            forall|i: int| 0 <= i < N ==> old(base).valid(#[trigger] other.bits@[i]),
        ensures
            final(base).inv(), final(base).valid(r), final(base).names() == old(base).names(),
            final(base).sub_ready() == old(base).sub_ready(),
            final(base).spare() + 5 * N >= old(base).spare(),
            forall|m: NID| old(base).valid(m) ==> #[trigger] final(base).valid(m),
            all_const(self.bits@) && all_const(other.bits@) ==> r == cnid(num(self.bits@) < num(other.bits@)),
            forall|ev: spec_fn(NID) -> bool| #[trigger] respects(ev, final(base).calls()) ==>
                (ev(r) <==> ev_num(self.bits@, ev) < ev_num(other.bits@, ev)),
    {
        let ghost cst = all_const(self.bits@) && all_const(other.bits@);
        let mut res = NID::o();
        proof { base.lemma_consts_valid(); crate::bits::lemma_constants(); }
        let mut i: usize = 0;
        while i < N as usize
            invariant
                i <= N, self.bits@.len() == N, other.bits@.len() == N,
                cst == (all_const(self.bits@) && all_const(other.bits@)),
                base.inv(), base.names() == old(base).names(), base.sub_ready() == old(base).sub_ready(),
                base.spare() + 5 * i >= old(base).spare(), old(base).spare() >= 5 * N,
                forall|m: NID| old(base).valid(m) ==> #[trigger] base.valid(m),
                forall|j: int| 0 <= j < N ==> old(base).valid(#[trigger] self.bits@[j]),
                forall|j: int| 0 <= j < N ==> old(base).valid(#[trigger] other.bits@[j]),
                base.valid(res),
                cst ==> res == cnid(num(self.bits@.take(i as int)) < num(other.bits@.take(i as int))),
                forall|ev: spec_fn(NID) -> bool| #[trigger] respects(ev, base.calls()) ==>
                    (ev(res) <==> ev_num(self.bits@.take(i as int), ev) < ev_num(other.bits@.take(i as int), ev)),
            decreases N - i,
        {
            let (x, y) = (self.bits[i], other.bits[i]);
            let ghost c_old = base.calls();
            let d = base.xor(x, y);
            proof { base.lemma_not_valid(d); base.lemma_not_valid(x); }
            let e = negate(d);
            let nx = negate(x);
            let l = base.and(nx, y);
            let ghost before = res;
            let m = base.and(e, res);
            res = base.or(l, m);
            proof {
                let cs = base.calls();
                assert(cs == c_old.push(Call::Xor(x, y, d)).push(Call::And(nx, y, l)).push(Call::And(e, before, m))
                    .push(Call::Or(l, m, res)));
                assert(e == crate::simp::not_spec(d));
                assert(nx == crate::simp::not_spec(x));
                assert forall|ev: spec_fn(NID) -> bool| #[trigger] respects(ev, base.calls()) implies
                    (ev(res) <==> ev_num(self.bits@.take(i as int + 1), ev) < ev_num(other.bits@.take(i as int + 1), ev)) by {
                    let l0 = c_old.len() as int;
                    lemma_respects_prefix(ev, c_old, cs);
                    assert(call_ok(ev, cs[l0]));
                    assert(call_ok(ev, cs[l0 + 1]));
                    assert(call_ok(ev, cs[l0 + 2]));
                    assert(call_ok(ev, cs[l0 + 3]));
                    assert(ev(e) == !ev(d));
                    assert(ev(nx) == !ev(x));
                    lemma_ev_num_take(self.bits@, ev, i as nat);
                    lemma_ev_num_take(other.bits@, ev, i as nat);
                    lemma_ev_num_bound(self.bits@.take(i as int), ev);
                    lemma_ev_num_bound(other.bits@.take(i as int), ev);
                }
            }
            proof {
                if cst {
                    assert(is_const(x) && is_const(y));
                    lemma_num_take(self.bits@, i as nat);
                    lemma_num_take(other.bits@, i as nat);
                    lemma_num_bound(self.bits@.take(i as int));
                    lemma_num_bound(other.bits@.take(i as int));
                    let (cx, cy) = (cbool(x), cbool(y));
                    lemma_not_const(d);
                    lemma_not_const(x);
                    assert(l == cnid(!cx && cy));
                    assert(e == cnid(cx == cy));
                    assert(m == cnid((cx == cy) && (num(self.bits@.take(i as int)) < num(other.bits@.take(i as int)))));
                    assert(res == cnid((!cx && cy) || ((cx == cy) && (num(self.bits@.take(i as int)) < num(other.bits@.take(i as int))))));
                }
            }
            i = i + 1;
        }
        proof {
            assert(self.bits@.take(N as int) =~= self.bits@);
            assert(other.bits@.take(N as int) =~= other.bits@);
        }
        res
    }
}

/// A bit of `u` tested with a mask is its bit shifted down.
proof fn lemma_bit_test(u: usize, i: usize)
    requires i < usize::BITS,
    ensures (u & (1usize << i) != 0) == ((u >> i) % 2 == 1),
{
    assert(i < usize::BITS ==> ((u & (1usize << i) != 0) == ((u >> i) % 2 == 1))) by (bit_vector);
}

/// 2-bit integers.
pub type X2 = XInt<2>;
/// 4-bit integers.
pub type X4 = XInt<4>;
/// 8-bit integers.
pub type X8 = XInt<8>;
/// 16-bit integers.
pub type X16 = XInt<16>;
/// 32-bit integers.
pub type X32 = XInt<32>;
/// 64-bit integers.
pub type X64 = XInt<64>;

/// The number `u` as a 2-bit integer.
pub fn x2(u: usize) -> (r: X2)
    ensures r.bits@.len() == 2, all_const(r.bits@), num(r.bits@) == (u as nat) % 4,
{
    proof { vstd::arithmetic::power2::lemma2_to64(); }
    X2::new(u)
}

/// The number `u` as a 4-bit integer.
pub fn x4(u: usize) -> (r: X4)
    ensures r.bits@.len() == 4, all_const(r.bits@), num(r.bits@) == (u as nat) % 16,
{
    proof { vstd::arithmetic::power2::lemma2_to64(); }
    X4::new(u)
}

/// The number `u` as an 8-bit integer.
pub fn x8(u: usize) -> (r: X8)
    ensures r.bits@.len() == 8, all_const(r.bits@), num(r.bits@) == (u as nat) % 256,
{
    proof { vstd::arithmetic::power2::lemma2_to64(); }
    X8::new(u)
}

/// The number `u` as a 16-bit integer.
pub fn x16(u: usize) -> (r: X16)
    ensures r.bits@.len() == 16, all_const(r.bits@), num(r.bits@) == (u as nat) % 0x1_0000,
{
    proof { vstd::arithmetic::power2::lemma2_to64(); }
    X16::new(u)
}

/// The number `u` as a 32-bit integer.
pub fn x32(u: usize) -> (r: X32)
    ensures r.bits@.len() == 32, all_const(r.bits@), num(r.bits@) == (u as nat) % 0x1_0000_0000,
{
    proof { vstd::arithmetic::power2::lemma2_to64(); }
    X32::new(u)
}

/// The number `u` as a 64-bit integer.
pub fn x64(u: usize) -> (r: X64)
    requires usize::BITS == 64,
    ensures r.bits@.len() == 64, all_const(r.bits@), num(r.bits@) == u,
{
    proof {
        vstd::arithmetic::power2::lemma2_to64();
        vstd::arithmetic::power2::lemma2_to64_rest();
        vstd::arithmetic::div_mod::lemma_small_mod(u as nat, pow2(64));
    }
    X64::new(u)
}

} // verus!
