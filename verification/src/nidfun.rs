//! Operations on truth tables stored in nids (`NidFun`).
//!
//! A table of arity `a` has `2^a` entries. Entry `i` (where input `p` has
//! value `(i >> p) & 1`) is stored at bit `2^a - 1 - i` of the table, so the
//! table reads "in order" when printed: `AND` is `0b0001`.
use vstd::prelude::*;
use crate::nid::{NID, NidFun, F, IDX_MASK, tbl_mask_spec};
use crate::comb::offset_of;
use crate::bits::{lemma_word, lemma_constants, lemma_shifts};

verus! {

pub open spec fn pow2(k: nat) -> nat
    decreases k,
{
    if k == 0 { 1 } else { 2 * pow2((k - 1) as nat) }
}

/// Entry `i` of a table of arity `a` (stored in the low `2^a` bits).
pub open spec fn entry(t: u64, a: nat, i: nat) -> u64 {
    (t >> ((pow2(a) - 1 - i) as u64)) & 1
}

/// The table of arity `a` that `f` holds, as a number.
pub open spec fn table_of(f: NidFun) -> u64 {
    f.nid.n & IDX_MASK
}

/// `r`, a table of arity `ar`, takes its entry `j` from entry `pv[j]` of `t`, a table of arity `at`.
pub open spec fn gathers(r: u64, ar: nat, t: u64, at: nat, pv: Seq<u8>) -> bool {
    &&& pv.len() == pow2(ar)
    &&& r <= tbl_mask_spec(ar)
    &&& forall|j: nat| j < pow2(ar) ==> #[trigger] entry(r, ar, j) == entry(t, at, pv[j as int] as nat)
}

pub proof fn lemma_pow2_small(k: nat)
    requires k <= 5,
    ensures
        pow2(k) == (if k == 0 { 1nat } else if k == 1 { 2 } else if k == 2 { 4 } else if k == 3 { 8 } else if k == 4 { 16 } else { 32 }),
        tbl_mask_spec(k) + 1 == (1u64 << pow2(k) as u64),
{
    reveal_with_fuel(pow2, 6);
    lemma_constants();
}

pub(crate) fn pow2_u32(k: u8) -> (r: u32)
    requires k <= 5,
    ensures r == pow2(k as nat), 1 <= r <= 32,
{
    proof { lemma_pow2_small(k as nat); }
    if k == 0 { 1 } else if k == 1 { 2 } else if k == 2 { 4 } else if k == 3 { 8 } else if k == 4 { 16 } else { 32 }
}

proof fn lemma_set_bit(r: u64, b: u64, p: u64, q: u64, m: u64)
    requires b <= 1, p < m, q < 64, m <= 32, r < (1u64 << m), (r >> p) & 1 == 0,
    ensures
        ((r | (b << p)) >> q) & 1 == if q == p { b } else { (r >> q) & 1 },
        (r | (b << p)) < (1u64 << m),
{
    assert(b <= 1 && p < m && q < 64 && m <= 32 && r < (1u64 << m) && (r >> p) & 1 == 0 ==>
        ((r | (b << p)) >> q) & 1 == (if q == p { b } else { (r >> q) & 1 })
        && (r | (b << p)) < (1u64 << m)) by (bit_vector);
}

/// Build a table of arity `ar` whose entry `j` is entry `pv[j]` of `t` (arity `at`).
pub(crate) fn gather(t: u64, at: u8, pv: &Vec<u8>, ar: u8) -> (r: u64)
    requires
        at <= 5, ar <= 5,
        pv@.len() == pow2(ar as nat),
        forall|j: int| 0 <= j < pv@.len() ==> (pv@[j] as nat) < pow2(at as nat),
    ensures gathers(r, ar as nat, t, at as nat, pv@),
{
    let n = pow2_u32(at) as u64;
    let m = pow2_u32(ar) as u64;
    proof {
        lemma_pow2_small(at as nat);
        lemma_pow2_small(ar as nat);
    }
    let mut r: u64 = 0;
    let mut j: usize = 0;
    proof { lemma_shifts(0, m, 0); }
    assert forall|k: nat| k < m implies #[trigger] entry(r, ar as nat, k) == 0 by {
        lemma_word(0, (m - 1 - k) as u64);
    }
    while j < pv.len()
        invariant
            j <= pv@.len(), pv@.len() == m, 1 <= m <= 32, 1 <= n <= 32,
            n == pow2(at as nat), m == pow2(ar as nat),
            forall|k: int| 0 <= k < pv@.len() ==> (pv@[k] as nat) < n,
            r < (1u64 << m),
            forall|k: nat| k < m ==> #[trigger] entry(r, ar as nat, k)
                == if k < j { entry(t, at as nat, pv@[k as int] as nat) } else { 0 },
        decreases pv@.len() - j,
    {
        let src = pv[j] as u64;
        let sh: u64 = n - 1 - src;
        let e = (t >> sh) & 1;
        proof { lemma_word(t, sh); }
        let p = m - 1 - j as u64;
        let ghost old_r = r;
        assert(entry(old_r, ar as nat, j as nat) == 0);
        assert(e == entry(t, at as nat, src as nat));
        r = r | (e << p);
        proof {
            assert forall|k: nat| k < m implies #[trigger] entry(r, ar as nat, k)
                == if k < j + 1 { entry(t, at as nat, pv@[k as int] as nat) } else { 0 } by {
                assert(entry(old_r, ar as nat, k) == if k < j { entry(t, at as nat, pv@[k as int] as nat) } else { 0 });
                lemma_set_bit(old_r, e, p, (m - 1 - k) as u64, m);
            }
            lemma_set_bit(old_r, e, p, 0, m);
        }
        j = j + 1;
    }
    proof { lemma_shifts(r, m, 0); }
    r
}

/// Index `j` with bit value `v` inserted at position `b`.
pub open spec fn ins_bit(j: u64, b: u64, v: u64) -> u64 {
    ((j >> b) << ((b + 1) as u64)) | (v << b) | (j & (((1u64 << b) - 1) as u64))
}

/// Bit `b` of `j`.
pub open spec fn bit_at(j: u64, b: u64) -> u64 {
    (j >> b) & 1
}

/// `j` with bits `b` and `b+1` exchanged.
pub open spec fn swap_bits(j: u64, b: u64) -> u64 {
    (j & !(3u64 << b)) | (bit_at(j, b) << ((b + 1) as u64)) | (bit_at(j, (b + 1) as u64) << b)
}

/// The table index that `when_same(b0, b1)` reads for entry `j` (with `b0 < b1`):
/// input `b1` takes the value of input `b0`.
pub open spec fn same_ix(j: u64, b0: u64, b1: u64) -> u64 {
    ins_bit(j, b1, bit_at(j, b0))
}

/// The table index that `when_diff(b0, b1)` reads for entry `j` (with `b0 < b1`):
/// input `b1` takes the value of position `b0` of `j`, and input `b0` its opposite.
pub open spec fn diff_ix(j: u64, b0: u64, b1: u64) -> u64 {
    ins_bit(j ^ (1u64 << b0), b1, bit_at(j, b0))
}

/// Input `p` of `k` is input `p` of `j` below position `b`, the input one
/// lower above it; position `b` (and position `skip`) are left open.
pub open spec fn spreads(k: u64, j: u64, b: u64, skip: u64, a: u64) -> bool {
    forall|p: u64| p < a && p != b && p != skip ==> #[trigger] bit_at(k, p)
        == if p < b { bit_at(j, p) } else { bit_at(j, (p - 1) as u64) }
}

/// Input `p` of `k` is input `p` of `j` for every position below `a` but `b`
/// and `b + 1`, which are exchanged.
pub open spec fn swapped_inputs(k: u64, j: u64, b: u64, a: u64) -> bool {
    forall|p: u64| p < a ==> #[trigger] bit_at(k, p)
        == if p == b { bit_at(j, (b + 1) as u64) } else if p == (b + 1) as u64 { bit_at(j, b) } else { bit_at(j, p) }
}

/// Input `p` of `k` is input `p` of `j`, flipped where `mask` has a 1.
pub open spec fn flipped_inputs(k: u64, j: u64, mask: u64, a: u64) -> bool {
    forall|p: u64| p < a ==> #[trigger] bit_at(k, p) == (bit_at(j, p) ^ bit_at(mask, p))
}

spec fn ins_rel(k: u64, j: u64, b: u64, v: u64, p: u64) -> bool {
    bit_at(k, p) == if p < b { bit_at(j, p) } else if p == b { v } else { bit_at(j, (p - 1) as u64) }
}

spec fn swap_rel(k: u64, j: u64, b: u64, p: u64) -> bool {
    bit_at(k, p) == if p == b { bit_at(j, (b + 1) as u64) } else if p == (b + 1) as u64 { bit_at(j, b) } else { bit_at(j, p) }
}

spec fn flip_rel(k: u64, j: u64, m: u64, p: u64) -> bool {
    bit_at(k, p) == (bit_at(j, p) ^ bit_at(m, p))
}

/// Which index a table entry is read from, given what its inputs are.
proof fn lemma_inputs_index(j: u64, k: u64, a: u64, b: u64, v: u64, m: u64, p: u64)
    by (bit_vector)
    ensures
        1 <= a <= 5 && b < a && v <= 1 && j < (1u64 << (a - 1) as u64) && k < (1u64 << a)
            && (0 < a ==> ins_rel(k, j, b, v, 0)) && (1 < a ==> ins_rel(k, j, b, v, 1))
            && (2 < a ==> ins_rel(k, j, b, v, 2)) && (3 < a ==> ins_rel(k, j, b, v, 3))
            && (4 < a ==> ins_rel(k, j, b, v, 4))
            ==> k == ins_bit(j, b, v),
        b < 64 && p < 64 ==> bit_at(j ^ (1u64 << b), p) == if p == b { (1 - bit_at(j, p)) as u64 } else { bit_at(j, p) },
        a <= 5 && j < (1u64 << a) && k < (1u64 << a) && m < (1u64 << a)
            && (0 < a ==> flip_rel(k, j, m, 0)) && (1 < a ==> flip_rel(k, j, m, 1))
            && (2 < a ==> flip_rel(k, j, m, 2)) && (3 < a ==> flip_rel(k, j, m, 3))
            && (4 < a ==> flip_rel(k, j, m, 4))
            ==> k == j ^ m,
        a <= 5 && b + 1 < a && j < (1u64 << a) && k < (1u64 << a)
            && (0 < a ==> swap_rel(k, j, b, 0)) && (1 < a ==> swap_rel(k, j, b, 1))
            && (2 < a ==> swap_rel(k, j, b, 2)) && (3 < a ==> swap_rel(k, j, b, 3))
            && (4 < a ==> swap_rel(k, j, b, 4))
            ==> k == swap_bits(j, b) & (((1u64 << a) - 1) as u64),
{
}

/// The entry whose inputs are those of `j` with input `b` set to `v` inserted.
proof fn lemma_ins_inputs(j: u64, k: u64, a: u64, b: u64, v: u64)
    requires
        1 <= a <= 5, b < a, v <= 1, j < (1u64 << (a - 1) as u64), k < (1u64 << a),
        spreads(k, j, b, b, a), bit_at(k, b) == v,
    ensures k == ins_bit(j, b, v),
{
    assert forall|p: u64| p < a implies ins_rel(k, j, b, v, p) by {
        if p != b { assert(bit_at(k, p) == if p < b { bit_at(j, p) } else { bit_at(j, (p - 1) as u64) }); }
    }
    assert(0 < a ==> ins_rel(k, j, b, v, 0));
    assert(1 < a ==> ins_rel(k, j, b, v, 1));
    assert(2 < a ==> ins_rel(k, j, b, v, 2));
    assert(3 < a ==> ins_rel(k, j, b, v, 3));
    assert(4 < a ==> ins_rel(k, j, b, v, 4));
    lemma_inputs_index(j, k, a, b, v, 0, 0);
}

pub(crate) proof fn lemma_ins_bit_range(j: u64, b: u64, v: u64, a: u64)
    requires b < a, a <= 5, v <= 1, j < (1u64 << (a - 1) as u64),
    ensures ins_bit(j, b, v) < (1u64 << a),
{
    assert(b < a && a <= 5 && v <= 1 && j < (1u64 << (a - 1) as u64) ==>
        ((j >> b) << ((b + 1) as u64)) | (v << b) | (j & (((1u64 << b) - 1) as u64)) < (1u64 << a)) by (bit_vector);
}

pub proof fn lemma_pow2_shift(a: nat)
    requires a <= 5,
    ensures pow2(a) == (1u64 << a as u64),
{
    lemma_pow2_small(a);
    lemma_constants();
}

proof fn lemma_le_mask(t: u64, a: nat)
    requires a <= 5, t <= tbl_mask_spec(a),
    ensures ((t as u32) as u64) & tbl_mask_spec(a) == t, (t as u32) as u64 == t,
{
    lemma_word(t, 0);
}

/// `fun` with the given arity and a gathered table.
fn canon(a: u8, t: u64) -> (r: NidFun)
    requires a <= 5, t <= tbl_mask_spec(a as nat),
    ensures
        table_of(r) == t,
        r.arity_spec() == a,
        r.wf(),
        r.vars_spec() =~= Seq::new(a as nat, |i: int| i as u32),
        r.nid.n & crate::nid::INV == 0,
{
    let r = NID::fun(a, t as u32);
    proof {
        lemma_le_mask(t, a as nat);
        crate::nid::lemma_fun_fields(offset_of(a as nat) as u64, a as nat, t as u32);
    }
    r
}


proof fn lemma_mask_below(bits: u64, a: u64)
    by (bit_vector)
    ensures a <= 5 ==> bits & (((1u64 << a) - 1) as u64) < (1u64 << a),
{
}

/// Which table index the entry `j` of a rewritten table reads.
pub enum IxMap {
    /// `j ^ mask`
    Flip(u64),
    /// `j` with bits `b` and `b+1` exchanged, modulo the table size
    Swap(u64),
    /// `j` with a bit inserted at position `b`
    Ins(u64, u64),
    /// `j` where input `hi` repeats input `lo`
    Same(u64, u64),
    /// `j` where input `hi` is the opposite of input `lo`
    Diff(u64, u64),
}

pub open spec fn ix_map(m: IxMap, j: u64, n: u64) -> u64 {
    match m {
        IxMap::Flip(mask) => j ^ mask,
        IxMap::Swap(b) => swap_bits(j, b) & ((n - 1) as u64),
        IxMap::Ins(b, v) => ins_bit(j, b, v),
        IxMap::Same(lo, hi) => same_ix(j, lo, hi),
        IxMap::Diff(lo, hi) => diff_ix(j, lo, hi),
    }
}

/// Is the map defined for tables of arity `a` (entries `< 2^a`), producing arity `ar`?
pub open spec fn ix_map_ok(m: IxMap, a: u64, ar: u64) -> bool {
    &&& a <= 5
    &&& match m {
        IxMap::Flip(mask) => ar == a && mask < (1u64 << a),
        IxMap::Swap(b) => ar == a && b <= 3,
        IxMap::Ins(b, v) => a >= 1 && ar == a - 1 && b < a && v <= 1,
        IxMap::Same(lo, hi) => a >= 1 && ar == a - 1 && lo < hi && hi < a,
        IxMap::Diff(lo, hi) => a >= 1 && ar == a - 1 && lo < hi && hi < a,
    }
}

proof fn lemma_index_bounds(j: u64, a: u64, ar: u64, mask: u64, b: u64, lo: u64)
    by (bit_vector)
    ensures
        a <= 5 && ar == a && mask < (1u64 << a) && j < (1u64 << ar) ==> (j ^ mask) < (1u64 << a),
        a <= 5 ==> (swap_bits(j, b) & (((1u64 << a) - 1) as u64)) < (1u64 << a),
        1 <= a <= 5 && lo < a - 1 && ar == a - 1 && j < (1u64 << ar) ==> (j ^ (1u64 << lo)) < (1u64 << ar),
{
}

proof fn lemma_ix_map_range(m: IxMap, j: u64, a: u64, ar: u64)
    requires ix_map_ok(m, a, ar), j < (1u64 << ar),
    ensures ix_map(m, j, 1u64 << a) < (1u64 << a),
{
    let n = 1u64 << a;
    match m {
        IxMap::Flip(mask) => {
            lemma_index_bounds(j, a, ar, mask, 0, 0);
        },
        IxMap::Swap(b) => {
            lemma_index_bounds(j, a, ar, 0, b, 0);
        },
        IxMap::Ins(b, v) => {
            lemma_ins_bit_range(j, b, v, a);
        },
        IxMap::Same(lo, hi) => {
            lemma_word(j, lo);
            lemma_ins_bit_range(j, hi, bit_at(j, lo), a);
        },
        IxMap::Diff(lo, hi) => {
            lemma_index_bounds(j, a, ar, 0, 0, lo);
            lemma_word(j, lo);
            lemma_ins_bit_range(j ^ (1u64 << lo), hi, bit_at(j, lo), a);
        },
    }
}

fn ix_at(m: &IxMap, j: u64, n: u64) -> (r: u64)
    requires n >= 1, match *m { IxMap::Swap(b) => b <= 3, IxMap::Ins(b, v) => b < 5, IxMap::Same(lo, hi) => lo < hi < 5, IxMap::Diff(lo, hi) => lo < hi < 5, _ => true },
    ensures r == ix_map(*m, j, n),
{
    match m {
        IxMap::Flip(mask) => j ^ *mask,
        IxMap::Swap(b) => {
            let b = *b;
            ((j & !(3u64 << b)) | (((j >> b) & 1) << (b + 1)) | (((j >> (b + 1)) & 1) << b)) & (n - 1)
        },
        IxMap::Ins(b, v) => {
            let b = *b;
            proof { lemma_shifts(0, 1, b); }
            ((j >> b) << (b + 1)) | (*v << b) | (j & ((1u64 << b) - 1))
        },
        IxMap::Same(lo, hi) => {
            let (lo, hi) = (*lo, *hi);
            proof { lemma_shifts(0, 1, hi); }
            let v = (j >> lo) & 1;
            ((j >> hi) << (hi + 1)) | (v << hi) | (j & ((1u64 << hi) - 1))
        },
        IxMap::Diff(lo, hi) => {
            let (lo, hi) = (*lo, *hi);
            proof { lemma_shifts(0, 1, hi); }
            let v = (j >> lo) & 1;
            let k = j ^ (1u64 << lo);
            ((k >> hi) << (hi + 1)) | (v << hi) | (k & ((1u64 << hi) - 1))
        },
    }
}


/// The table `f` rewritten so that entry `j` of the result is entry `ix_map(m, j)` of `f`.
pub open spec fn rewrites(r: NidFun, f: NidFun, m: IxMap, a: nat, ar: nat) -> bool {
    &&& r.wf()
    &&& r.arity_spec() == ar
    &&& r.vars_spec() =~= Seq::new(ar, |i: int| i as u32)
    &&& r.nid.n & crate::nid::INV == 0
    &&& table_of(r) <= tbl_mask_spec(ar)
    &&& forall|j: nat| j < pow2(ar) ==> #[trigger] entry(table_of(r), ar, j)
            == entry(table_of(f), a, ix_map(m, j as u64, pow2(a) as u64) as nat)
}

fn rewrite(f: &NidFun, m: IxMap, a: u8, ar: u8) -> (r: NidFun)
    requires ix_map_ok(m, a as u64, ar as u64),
    ensures rewrites(r, *f, m, a as nat, ar as nat),
{
    let n = pow2_u32(a) as u64;
    let cnt = pow2_u32(ar) as u64;
    proof { lemma_pow2_shift(a as nat); lemma_pow2_shift(ar as nat); }
    let mut pv: Vec<u8> = Vec::new();
    let mut j: u64 = 0;
    while j < cnt
        invariant
            j <= cnt, cnt == pow2(ar as nat), cnt == (1u64 << ar as u64),
            n == pow2(a as nat), n == (1u64 << a as u64), 1 <= n <= 32,
            ix_map_ok(m, a as u64, ar as u64),
            pv@.len() == j,
            forall|k: int| 0 <= k < j ==> pv@[k] as u64 == ix_map(m, k as u64, n) && (pv@[k] as nat) < n,
        decreases cnt - j,
    {
        proof { lemma_ix_map_range(m, j, a as u64, ar as u64); }
        let x = ix_at(&m, j, n);
        pv.push(x as u8);
        j = j + 1;
    }
    let t = f.nid.n & IDX_MASK;
    let g = gather(t, a, &pv, ar);
    let r = canon(ar, g);
    proof {
        assert forall|j: nat| j < pow2(ar as nat) implies #[trigger] entry(table_of(r), ar as nat, j)
            == entry(table_of(*f), a as nat, ix_map(m, j as u64, pow2(a as nat) as u64) as nat) by {
            assert(entry(g, ar as nat, j) == entry(t, a as nat, pv@[j as int] as nat));
        }
    }
    r
}

impl NidFun {
    /// The function you get if you invert one or more of the inputs:
    /// setting bit `i` of `bits` inverts input `i`.
    pub fn when_flipped(&self, bits: u8) -> (r: NidFun)
        ensures ({
            let a = self.arity_spec();
            rewrites(r, *self, IxMap::Flip((bits as u64) & ((pow2(a) - 1) as u64)), a, a)
        }),
            // the entry of the result for the inputs `j` is the entry of `self`
            // for those inputs with the ones that `bits` marks flipped
            ({
                let a = self.arity_spec();
                let m = (bits as u64) & ((pow2(a) - 1) as u64);
                forall|j: u64, k: u64| #![trigger flipped_inputs(k, j, m, a as u64)]
                    j < pow2(a) && k < pow2(a) && flipped_inputs(k, j, m, a as u64)
                    ==> entry(table_of(r), a, j as nat) == entry(table_of(*self), a, k as nat)
            }),
    {
        let a = self.arity();
        let n = pow2_u32(a) as u64;
        let mask = (bits as u64) & (n - 1);
        proof { lemma_pow2_shift(a as nat); }
        proof { lemma_mask_below(bits as u64, a as u64); }
        let r = rewrite(self, IxMap::Flip(mask), a, a);
        proof {
            assert forall|j: u64, k: u64| #![trigger flipped_inputs(k, j, mask, a as u64)]
                j < pow2(a as nat) && k < pow2(a as nat) && flipped_inputs(k, j, mask, a as u64)
                implies entry(table_of(r), a as nat, j as nat) == entry(table_of(*self), a as nat, k as nat) by {
                assert(0 < a ==> flip_rel(k, j, mask, 0));
                assert(1 < a ==> flip_rel(k, j, mask, 1));
                assert(2 < a ==> flip_rel(k, j, mask, 2));
                assert(3 < a ==> flip_rel(k, j, mask, 3));
                assert(4 < a ==> flip_rel(k, j, mask, 4));
                lemma_inputs_index(j, k, a as u64, 0, 0, mask, 0);
                assert(entry(table_of(r), a as nat, j as nat) == entry(table_of(*self), a as nat,
                    ix_map(IxMap::Flip(mask), j, pow2(a as nat) as u64) as nat));
            }
        }
        r
    }

    /// The function you get by swapping input `bit` with input `bit + 1`.
    pub fn when_lifted(&self, bit: u8) -> (r: NidFun)
        requires bit <= 3,
        ensures ({
            let a = self.arity_spec();
            rewrites(r, *self, IxMap::Swap(bit as u64), a, a)
        }),
            // below the top input, the entry of the result for the inputs `j`
            // is the entry of `self` for those inputs with `bit` and `bit + 1` exchanged
            ({
                let a = self.arity_spec();
                forall|j: u64, k: u64| #![trigger swapped_inputs(k, j, bit as u64, a as u64)]
                    bit + 1 < a && j < pow2(a) && k < pow2(a) && swapped_inputs(k, j, bit as u64, a as u64)
                    ==> entry(table_of(r), a, j as nat) == entry(table_of(*self), a, k as nat)
            }),
    {
        let a = self.arity();
        let r = rewrite(self, IxMap::Swap(bit as u64), a, a);
        proof {
            lemma_pow2_shift(a as nat);
            assert forall|j: u64, k: u64| #![trigger swapped_inputs(k, j, bit as u64, a as u64)]
                bit + 1 < a && j < pow2(a as nat) && k < pow2(a as nat) && swapped_inputs(k, j, bit as u64, a as u64)
                implies entry(table_of(r), a as nat, j as nat) == entry(table_of(*self), a as nat, k as nat) by {
                assert(0 < a ==> swap_rel(k, j, bit as u64, 0));
                assert(1 < a ==> swap_rel(k, j, bit as u64, 1));
                assert(2 < a ==> swap_rel(k, j, bit as u64, 2));
                assert(3 < a ==> swap_rel(k, j, bit as u64, 3));
                assert(4 < a ==> swap_rel(k, j, bit as u64, 4));
                lemma_inputs_index(j, k, a as u64, bit as u64, 0, 0, 0);
                assert(entry(table_of(r), a as nat, j as nat) == entry(table_of(*self), a as nat,
                    ix_map(IxMap::Swap(bit as u64), j, pow2(a as nat) as u64) as nat));
            }
        }
        r
    }

    /// Partially apply the function: fix input `bit` to `val`.
    /// The remaining inputs are renumbered (those above `bit` move down one).
    pub fn when(&self, bit: u8, val: bool) -> (r: NidFun)
        requires (bit as nat) < self.arity_spec(),
        ensures ({
            let a = self.arity_spec();
            rewrites(r, *self, IxMap::Ins(bit as u64, if val { 1u64 } else { 0u64 }), a, (a - 1) as nat)
        }),
            // the entry of the result for the inputs `j` is the entry of `self`
            // for the same inputs with input `bit` set to `val` put back in
            forall|j: u64, k: u64| #![trigger spreads(k, j, bit as u64, bit as u64, self.arity_spec() as u64)]
                j < pow2((self.arity_spec() - 1) as nat) && k < pow2(self.arity_spec())
                && spreads(k, j, bit as u64, bit as u64, self.arity_spec() as u64) && (bit_at(k, bit as u64) == 1) == val
                ==> entry(table_of(r), (self.arity_spec() - 1) as nat, j as nat) == entry(table_of(*self), self.arity_spec(), k as nat),
    {
        let a = self.arity();
        let r = rewrite(self, IxMap::Ins(bit as u64, if val { 1 } else { 0 }), a, a - 1);
        proof {
            lemma_pow2_shift(a as nat);
            lemma_pow2_shift((a - 1) as nat);
            assert forall|j: u64, k: u64| #![trigger spreads(k, j, bit as u64, bit as u64, a as u64)]
                j < pow2((a - 1) as nat) && k < pow2(a as nat)
                && spreads(k, j, bit as u64, bit as u64, a as u64) && (bit_at(k, bit as u64) == 1) == val
                implies entry(table_of(r), (a - 1) as nat, j as nat) == entry(table_of(*self), a as nat, k as nat) by {
                lemma_word(k, bit as u64);
                lemma_ins_inputs(j, k, a as u64, bit as u64, if val { 1u64 } else { 0u64 });
                assert(entry(table_of(r), (a - 1) as nat, j as nat) == entry(table_of(*self), a as nat,
                    ix_map(IxMap::Ins(bit as u64, if val { 1u64 } else { 0u64 }), j, pow2(a as nat) as u64) as nat));
            }
        }
        r
    }

    /// Rewrite the function for the case where two inputs are equal.
    /// The higher of the two is removed (inputs above it move down one).
    pub fn when_same(&self, bit0: u8, bit1: u8) -> (r: NidFun)
        requires bit0 != bit1, (bit0 as nat) < self.arity_spec(), (bit1 as nat) < self.arity_spec(),
        ensures ({
            let a = self.arity_spec();
            let lo = if bit0 < bit1 { bit0 } else { bit1 };
            let hi = if bit0 < bit1 { bit1 } else { bit0 };
            rewrites(r, *self, IxMap::Same(lo as u64, hi as u64), a, (a - 1) as nat)
        }),
            // the entry of the result for the inputs `j` is the entry of `self`
            // for the same inputs with the higher input put back in, equal to the lower
            ({
                let a = self.arity_spec();
                let lo = if bit0 < bit1 { bit0 } else { bit1 };
                let hi = if bit0 < bit1 { bit1 } else { bit0 };
                forall|j: u64, k: u64| #![trigger spreads(k, j, hi as u64, hi as u64, a as u64)]
                    j < pow2((a - 1) as nat) && k < pow2(a)
                    && spreads(k, j, hi as u64, hi as u64, a as u64) && bit_at(k, hi as u64) == bit_at(k, lo as u64)
                    ==> entry(table_of(r), (a - 1) as nat, j as nat) == entry(table_of(*self), a, k as nat)
            }),
    {
        let a = self.arity();
        let (lo, hi) = if bit0 < bit1 { (bit0, bit1) } else { (bit1, bit0) };
        let r = rewrite(self, IxMap::Same(lo as u64, hi as u64), a, a - 1);
        proof {
            lemma_pow2_shift(a as nat);
            lemma_pow2_shift((a - 1) as nat);
            assert forall|j: u64, k: u64| #![trigger spreads(k, j, hi as u64, hi as u64, a as u64)]
                j < pow2((a - 1) as nat) && k < pow2(a as nat)
                && spreads(k, j, hi as u64, hi as u64, a as u64) && bit_at(k, hi as u64) == bit_at(k, lo as u64)
                implies entry(table_of(r), (a - 1) as nat, j as nat) == entry(table_of(*self), a as nat, k as nat) by {
                lemma_word(j, lo as u64);
                assert(bit_at(k, lo as u64) == bit_at(j, lo as u64));
                lemma_ins_inputs(j, k, a as u64, hi as u64, bit_at(j, lo as u64));
                assert(entry(table_of(r), (a - 1) as nat, j as nat) == entry(table_of(*self), a as nat,
                    ix_map(IxMap::Same(lo as u64, hi as u64), j, pow2(a as nat) as u64) as nat));
            }
        }
        r
    }

    /// Rewrite the function for the case where two inputs differ.
    /// The higher of the two is removed (inputs above it move down one);
    /// the lower one's position then stands for the removed input.
    pub fn when_diff(&self, bit0: u8, bit1: u8) -> (r: NidFun)
        requires bit0 != bit1, (bit0 as nat) < self.arity_spec(), (bit1 as nat) < self.arity_spec(),
        ensures ({
            let a = self.arity_spec();
            let lo = if bit0 < bit1 { bit0 } else { bit1 };
            let hi = if bit0 < bit1 { bit1 } else { bit0 };
            rewrites(r, *self, IxMap::Diff(lo as u64, hi as u64), a, (a - 1) as nat)
        }),
            // the entry of the result for the inputs `j` is the entry of `self`
            // whose higher input is input `lo` of `j`, whose lower input is its
            // opposite, and whose other inputs are those of `j`
            ({
                let a = self.arity_spec();
                let lo = if bit0 < bit1 { bit0 } else { bit1 };
                let hi = if bit0 < bit1 { bit1 } else { bit0 };
                forall|j: u64, k: u64| #![trigger spreads(k, j, hi as u64, lo as u64, a as u64)]
                    j < pow2((a - 1) as nat) && k < pow2(a)
                    && spreads(k, j, hi as u64, lo as u64, a as u64) && bit_at(k, hi as u64) == bit_at(j, lo as u64)
                    && bit_at(k, lo as u64) != bit_at(k, hi as u64)
                    ==> entry(table_of(r), (a - 1) as nat, j as nat) == entry(table_of(*self), a, k as nat)
            }),
    {
        let a = self.arity();
        let (lo, hi) = if bit0 < bit1 { (bit0, bit1) } else { (bit1, bit0) };
        let r = rewrite(self, IxMap::Diff(lo as u64, hi as u64), a, a - 1);
        proof {
            lemma_pow2_shift(a as nat);
            lemma_pow2_shift((a - 1) as nat);
            assert forall|j: u64, k: u64| #![trigger spreads(k, j, hi as u64, lo as u64, a as u64)]
                j < pow2((a - 1) as nat) && k < pow2(a as nat)
                && spreads(k, j, hi as u64, lo as u64, a as u64) && bit_at(k, hi as u64) == bit_at(j, lo as u64)
                && bit_at(k, lo as u64) != bit_at(k, hi as u64)
                implies entry(table_of(r), (a - 1) as nat, j as nat) == entry(table_of(*self), a as nat, k as nat) by {
                let j2 = j ^ (1u64 << lo as u64);
                lemma_index_bounds(j, a as u64, (a - 1) as u64, 0, 0, lo as u64);
                lemma_word(j, lo as u64);
                lemma_word(k, lo as u64);
                lemma_word(k, hi as u64);
                lemma_inputs_index(j, k, a as u64, lo as u64, 0, 0, lo as u64);
                assert forall|p: u64| p < a && p != hi as u64 && p != hi as u64 implies #[trigger] bit_at(k, p)
                    == if p < hi as u64 { bit_at(j2, p) } else { bit_at(j2, (p - 1) as u64) } by {
                    lemma_inputs_index(j, k, a as u64, lo as u64, 0, 0, p);
                    if p > hi as u64 {
                        lemma_inputs_index(j, k, a as u64, lo as u64, 0, 0, (p - 1) as u64);
                    }
                }
                assert(spreads(k, j2, hi as u64, hi as u64, a as u64));
                lemma_ins_inputs(j2, k, a as u64, hi as u64, bit_at(j, lo as u64));
                assert(entry(table_of(r), (a - 1) as nat, j as nat) == entry(table_of(*self), a as nat,
                    ix_map(IxMap::Diff(lo as u64, hi as u64), j, pow2(a as nat) as u64) as nat));
            }
        }
        r
    }
}

} // verus!
