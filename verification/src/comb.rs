//! Combinatorial number system encoding for variable subsets.
//!
//! Encodes a k-element subset of {0..MAX_VAR-1} (k <= 5) as a single integer
//! that fits in 27 bits. Used by table NIDs to specify which variables
//! a truth table depends on.
//!
//! The index space is partitioned by arity using an offset scheme:
//! arity k occupies `[OFFSET[k], OFFSET[k] + C(MAX_VAR, k))`.
use vstd::prelude::*;

verus! {

/// Maximum variable index (exclusive). Variables are 0..MAX_VAR-1.
pub const MAX_VAR: usize = 110;

/// Maximum number of variables in a table NID.
pub const MAX_ARITY: u8 = 5;

/// Offset for each arity in the combined index space.
/// `OFFSET[k]` is the start of the range for arity k.
pub const OFFSET: [u32; 6] = [0, 1, 111, 6106, 221926, 5995111];

/// Total number of valid indices (fits in 27 bits).
pub const TOTAL: u32 = 128386633;

// ---- mathematical model ----

/// Binomial coefficient, by Pascal's rule.
pub open spec fn binom(n: nat, k: nat) -> nat
    decreases n,
{
    if k == 0 {
        1
    } else if n == 0 {
        0
    } else {
        binom((n - 1) as nat, (k - 1) as nat) + binom((n - 1) as nat, k)
    }
}

/// Falling factorial `n (n-1) ... (n-k+1)`.
pub open spec fn falling(n: int, k: nat) -> int
    decreases k,
{
    if k == 0 { 1 } else { falling(n, (k - 1) as nat) * (n - k + 1) }
}

/// `k!`
pub open spec fn fact(k: nat) -> nat
    decreases k,
{
    if k == 0 { 1 } else { k * fact((k - 1) as nat) }
}

/// The combinadic value of a sorted variable list: `sum C(s[i], i+1)`.
pub open spec fn comb_sum(s: Seq<u32>) -> nat
    decreases s.len(),
{
    if s.len() == 0 { 0 } else { comb_sum(s.drop_last()) + binom(s.last() as nat, s.len()) }
}

/// Strictly ascending.
pub open spec fn ascending(s: Seq<u32>) -> bool {
    forall|i: int, j: int| 0 <= i < j < s.len() ==> s[i] < s[j]
}

/// A list of variables that `encode` accepts.
pub open spec fn valid_vars(s: Seq<u32>) -> bool {
    &&& s.len() <= 5
    &&& ascending(s)
    &&& forall|i: int| 0 <= i < s.len() ==> (s[i] as int) < MAX_VAR
}

/// Start of the index range of arity `k`.
pub open spec fn offset_of(k: nat) -> nat {
    if k == 0 { 0 }
    else if k == 1 { 1 }
    else if k == 2 { 111 }
    else if k == 3 { 6106 }
    else if k == 4 { 221926 }
    else { 5995111 }
}

/// The arity whose range holds `index`.
pub open spec fn arity_spec(index: u32) -> nat {
    if index < 1 { 0 }
    else if index < 111 { 1 }
    else if index < 6106 { 2 }
    else if index < 221926 { 3 }
    else if index < 5995111 { 4 }
    else { 5 }
}

/// The index of a valid variable list.
pub open spec fn encode_spec(s: Seq<u32>) -> nat {
    offset_of(s.len()) + comb_sum(s)
}

// ---- lemmas ----

pub proof fn lemma_binom_above(n: nat, k: nat)
    requires k > n,
    ensures binom(n, k) == 0,
    decreases n,
{
    if n > 0 {
        lemma_binom_above((n - 1) as nat, (k - 1) as nat);
        lemma_binom_above((n - 1) as nat, k);
    }
}

pub proof fn lemma_binom_one(n: nat)
    ensures binom(n, 1) == n,
    decreases n,
{
    if n > 0 {
        lemma_binom_one((n - 1) as nat);
        assert(binom(n, 1) == binom((n - 1) as nat, 0) + binom((n - 1) as nat, 1));
    }
}

pub proof fn lemma_binom_step(n: nat, k: nat)
    ensures binom(n, k) <= binom(n + 1, k),
{
    if k > 0 {
        assert(binom(n + 1, k) == binom(n, (k - 1) as nat) + binom(n, k));
    }
}

/// `C(n, k)` grows with `n`.
pub proof fn lemma_binom_mono(n: nat, m: nat, k: nat)
    requires n <= m,
    ensures binom(n, k) <= binom(m, k),
    decreases m - n,
{
    if n < m {
        lemma_binom_step(n, k);
        lemma_binom_mono(n + 1, m, k);
    }
}

proof fn lemma_falling_front(n: int, k: nat)
    requires k >= 1,
    ensures falling(n, k) == n * falling(n - 1, (k - 1) as nat),
    decreases k,
{
    if k == 1 {
        assert(falling(n, 1) == falling(n, 0) * n);
        assert(falling(n - 1, 0) == 1);
    } else {
        lemma_falling_front(n, (k - 1) as nat);
        let f = falling(n - 1, (k - 2) as nat);
        assert(falling(n, k) == falling(n, (k - 1) as nat) * (n - k + 1));
        assert(falling(n - 1, (k - 1) as nat) == f * (n - 1 - (k - 1) + 1));
        assert(falling(n, (k - 1) as nat) == n * f);
        assert(n * f * (n - k + 1) == n * (f * (n - k + 1))) by (nonlinear_arith);
    }
}

proof fn lemma_falling_zero(k: nat)
    requires k >= 1,
    ensures falling(0, k) == 0,
    decreases k,
{
    if k > 1 {
        lemma_falling_zero((k - 1) as nat);
    }
    assert(falling(0, k) == falling(0, (k - 1) as nat) * (0 - k + 1));
    if k == 1 {
        assert(falling(0, 1) == falling(0, 0) * 0);
    }
}

/// `k! * C(n, k)` is the falling factorial.
pub proof fn lemma_binom_falling(n: nat, k: nat)
    ensures fact(k) * binom(n, k) == falling(n as int, k),
    decreases n, k,
{
    if k == 0 {
        assert(fact(0) == 1);
        assert(binom(n, 0) == 1);
        assert(falling(n as int, 0) == 1);
    } else if n == 0 {
        lemma_falling_zero(k);
        assert(binom(0, k) == 0);
        assert(fact(k) * 0 == 0) by (nonlinear_arith);
    } else {
        let n1 = (n - 1) as nat;
        let k1 = (k - 1) as nat;
        lemma_binom_falling(n1, k1);
        lemma_binom_falling(n1, k);
        lemma_falling_front(n as int, k);
        let f = falling(n1 as int, k1);
        assert(falling(n1 as int, k) == f * (n1 - k + 1));
        let b1 = binom(n1, k1);
        let b2 = binom(n1, k);
        let fk = fact(k);
        let fk1 = fact(k1);
        assert(binom(n, k) == b1 + b2);
        assert(fk == k * fk1);
        assert(fk1 * b1 == f);
        assert(fk * b2 == f * (n1 - k + 1));
        assert(falling(n as int, k) == n * f);
        assert(fk * (b1 + b2) == k * (fk1 * b1) + fk * b2) by (nonlinear_arith)
            requires fk == k * fk1;
        assert(k * f + f * (n1 - k + 1) == n * f) by (nonlinear_arith)
            requires n1 == n - 1;
        assert(fk * binom(n, k) == n * f);
    }
}

/// The binomial coefficients of the largest variable count.
pub proof fn lemma_binom_max()
    ensures
        binom(110, 0) == 1,
        binom(110, 1) == 110,
        binom(110, 2) == 5995,
        binom(110, 3) == 215820,
        binom(110, 4) == 5773185,
        binom(110, 5) == 122391522,
{
    lemma_binom_one(110);
    lemma_binom_falling(110, 2);
    lemma_binom_falling(110, 3);
    lemma_binom_falling(110, 4);
    lemma_binom_falling(110, 5);
    reveal_with_fuel(falling, 6);
    reveal_with_fuel(fact, 6);
    assert(falling(110, 2) == 110 * 109);
    assert(falling(110, 3) == 110 * 109 * 108);
    assert(falling(110, 4) == 110 * 109 * 108 * 107);
    assert(falling(110, 5) == 110 * 109 * 108 * 107 * 106);
    assert(fact(2) == 2);
    assert(fact(3) == 6);
    assert(fact(4) == 24);
    assert(fact(5) == 120);
    assert(2 * binom(110, 2) == 110 * 109);
    assert(6 * binom(110, 3) == 110 * 109 * 108);
    assert(24 * binom(110, 4) == 110 * 109 * 108 * 107);
    assert(120 * binom(110, 5) == 110 * 109 * 108 * 107 * 106);
    let b5 = binom(110, 5);
    assert(b5 == 122391522) by (nonlinear_arith)
        requires 120 * b5 == 110 * 109 * 108 * 107 * 106;
    let b4 = binom(110, 4);
    assert(b4 == 5773185) by (nonlinear_arith)
        requires 24 * b4 == 110 * 109 * 108 * 107;
}

/// Every coefficient the encoding uses fits in 32 bits.
pub proof fn lemma_binom_small(n: nat, k: nat)
    requires n <= 110, k <= 5,
    ensures binom(n, k) <= 122391522,
{
    lemma_binom_max();
    lemma_binom_mono(n, 110, k);
}

/// The combinadic value of an ascending list is below `C(last+1, len)`.
pub proof fn lemma_comb_sum_bound(s: Seq<u32>)
    requires ascending(s), s.len() >= 1,
    ensures comb_sum(s) < binom((s.last() + 1) as nat, s.len()),
    decreases s.len(),
{
    let k = s.len();
    let d = s.drop_last();
    let last = s.last() as nat;
    assert(binom(last + 1, k) == binom(last, (k - 1) as nat) + binom(last, k));
    if k == 1 {
        assert(d.len() == 0);
        assert(comb_sum(d) == 0);
    } else {
        assert(ascending(d));
        lemma_comb_sum_bound(d);
        assert(d.last() == s[k - 2]);
        assert(s[k - 2] < s[k - 1]);
        lemma_binom_mono((d.last() + 1) as nat, last, (k - 1) as nat);
    }
}

/// An ascending list is determined by its length and combinadic value.
pub proof fn lemma_comb_sum_unique(a: Seq<u32>, b: Seq<u32>)
    requires
        ascending(a), ascending(b),
        a.len() == b.len(),
        comb_sum(a) == comb_sum(b),
    ensures a == b,
    decreases a.len(),
{
    if a.len() > 0 {
        let k = a.len();
        if a.last() < b.last() {
            lemma_comb_sum_bound(a);
            lemma_binom_mono((a.last() + 1) as nat, b.last() as nat, k);
            assert(false);
        } else if b.last() < a.last() {
            lemma_comb_sum_bound(b);
            lemma_binom_mono((b.last() + 1) as nat, a.last() as nat, k);
            assert(false);
        }
        assert(ascending(a.drop_last()));
        assert(ascending(b.drop_last()));
        lemma_comb_sum_unique(a.drop_last(), b.drop_last());
        assert(a =~= a.drop_last().push(a.last()));
        assert(b =~= b.drop_last().push(b.last()));
    } else {
        assert(a =~= b);
    }
}

/// A valid list encodes into the index range of its own arity.
pub proof fn lemma_encode_range(s: Seq<u32>)
    requires valid_vars(s),
    ensures
        comb_sum(s) < binom(110, s.len()),
        encode_spec(s) < TOTAL,
        arity_spec(encode_spec(s) as u32) == s.len(),
{
    lemma_binom_max();
    if s.len() == 0 {
    } else {
        lemma_comb_sum_bound(s);
        assert(s.last() < 110);
        lemma_binom_mono((s.last() + 1) as nat, 110, s.len());
    }
}

// ---- executable code ----

fn fact_u64(k: usize) -> (r: u64)
    requires k <= 5,
    ensures r == fact(k as nat), r > 0,
{
    reveal_with_fuel(fact, 6);
    if k == 0 { 1 } else if k == 1 { 1 } else if k == 2 { 2 } else if k == 3 { 6 } else if k == 4 { 24 } else { 120 }
}

pub open spec fn pow110(i: nat) -> nat
    decreases i,
{
    if i == 0 { 1 } else { 110 * pow110((i - 1) as nat) }
}

/// C(n,k). Returns 0 if k > n or k > 5.
pub fn binomial(n: usize, k: usize) -> (r: u32)
    requires k > 5 || k > n || n <= MAX_VAR,
    ensures r == if k > 5 { 0 } else { binom(n as nat, k as nat) },
{
    if k > 5 || k > n {
        if k <= 5 {
            proof { lemma_binom_above(n as nat, k as nat); }
        }
        return 0;
    }
    let mut num: u64 = 1;
    let mut i: usize = 0;
    while i < k
        invariant
            i <= k, k <= n, n <= 110, k <= 5,
            num == falling(n as int, i as nat),
            num <= pow110(i as nat),
        decreases k - i,
    {
        proof {
            reveal_with_fuel(pow110, 6);
            assert(pow110(i as nat) <= 16105100000) by {
                reveal_with_fuel(pow110, 6);
            }
            let p = pow110(i as nat);
            let m = (n - i) as int;
            assert(num * m <= p * 110) by (nonlinear_arith)
                requires num <= p, 0 <= m <= 110, num >= 0;
        }
        num = num * ((n - i) as u64);
        i = i + 1;
    }
    let f = fact_u64(k);
    proof {
        lemma_binom_falling(n as nat, k as nat);
        lemma_binom_small(n as nat, k as nat);
        let b = binom(n as nat, k as nat);
        assert(num / f == b) by (nonlinear_arith)
            requires f * b == num, f > 0;
    }
    (num / f) as u32
}

/// Encode an ascending slice of variable indices into a combined 27-bit index:
/// `C(c_0, 1) + C(c_1, 2) + ... + C(c_{k-1}, k)`, plus the arity's offset.
pub fn encode(vars: &[u32]) -> (r: u32)
    requires valid_vars(vars@),
    ensures r == encode_spec(vars@), r < TOTAL,
{
    let k = vars.len();
    proof { lemma_encode_range(vars@); }
    let mut idx: u32 = 0;
    let mut i: usize = 0;
    while i < k
        invariant
            i <= k, k == vars@.len(), valid_vars(vars@),
            idx == comb_sum(vars@.subrange(0, i as int)),
            comb_sum(vars@) < binom(110, k as nat),
        decreases k - i,
    {
        let c = vars[i];
        let b = binomial(c as usize, i + 1);
        proof {
            let sub = vars@.subrange(0, i as int + 1);
            assert(sub.drop_last() =~= vars@.subrange(0, i as int));
            assert(ascending(sub));
            lemma_comb_sum_prefix(vars@, i as int + 1);
            lemma_binom_max();
        }
        idx = idx + b;
        i = i + 1;
    }
    assert(vars@.subrange(0, k as int) =~= vars@);
    proof { lemma_binom_max(); }
    idx + OFFSET[k]
}

/// The combinadic value of a prefix is at most that of the whole list.
pub proof fn lemma_comb_sum_prefix(s: Seq<u32>, i: int)
    requires 0 <= i <= s.len(),
    ensures comb_sum(s.subrange(0, i)) <= comb_sum(s),
    decreases s.len() - i,
{
    if i < s.len() {
        lemma_comb_sum_prefix(s, i + 1);
        let t = s.subrange(0, i + 1);
        assert(t.drop_last() =~= s.subrange(0, i));
    } else {
        assert(s.subrange(0, i) =~= s);
    }
}

/// Split a combined index into (arity, combinadic within that arity's range).
fn split(index: u32) -> (r: (u8, u32))
    ensures
        r.0 == arity_spec(index),
        r.1 == index - offset_of(r.0 as nat),
{
    if index < 1 { (0, index) }
    else if index < 111 { (1, index - 1) }
    else if index < 6106 { (2, index - 111) }
    else if index < 221926 { (3, index - 6106) }
    else if index < 5995111 { (4, index - 221926) }
    else { (5, index - 5995111) }
}

/// Arity of a combined index.
pub fn arity_of(index: u32) -> (r: u8)
    ensures r == arity_spec(index),
{
    split(index).0
}

/// Largest `c < bound` with `C(c, rank) <= remaining`, given that `C(bound, rank) > remaining`.
fn greedy_digit(rank: usize, remaining: u32, bound: usize) -> (c: usize)
    requires
        1 <= rank <= 5,
        bound <= MAX_VAR,
        remaining < binom(bound as nat, rank as nat),
    ensures
        c < bound,
        binom(c as nat, rank as nat) <= remaining,
        remaining < binom((c + 1) as nat, rank as nat),
{
    let mut c: usize = 0;
    while c + 1 < MAX_VAR && binomial(c + 1, rank) <= remaining
        invariant
            1 <= rank <= 5, bound <= 110,
            remaining < binom(bound as nat, rank as nat),
            c < 110,
            binom(c as nat, rank as nat) <= remaining,
        decreases 110 - c,
    {
        c = c + 1;
    }
    proof {
        if c >= bound {
            lemma_binom_mono(bound as nat, c as nat, rank as nat);
        }
        if c + 1 >= 110 {
            lemma_binom_mono(bound as nat, 110, rank as nat);
        }
    }
    c
}

/// The decoded variables of a valid index.
pub open spec fn decodes_to(index: u32, arity: u8, vars: Seq<u32>) -> bool {
    &&& vars.len() == 5
    &&& arity == arity_spec(index)
    &&& valid_vars(vars.subrange(0, arity as int))
    &&& encode_spec(vars.subrange(0, arity as int)) == index
    &&& forall|i: int| arity <= i < 5 ==> vars[i] == 0
}

/// Decode a combined index into (arity, variable indices).
/// The first `arity` elements of the array are the variables, in ascending
/// order; the rest are 0.
pub fn decode(index: u32) -> (r: (u8, [u32; 5]))
    requires index < TOTAL,
    ensures decodes_to(index, r.0, r.1@),
{
    let (arity, combinadic) = split(index);
    let k = arity as usize;
    let mut vars: [u32; 5] = [0u32; 5];
    if k == 0 {
        assert(vars@.subrange(0, 0) =~= Seq::<u32>::empty());
        return (0, vars);
    }
    if k == 1 {
        vars[0] = combinadic;
        proof {
            let s = vars@.subrange(0, 1);
            assert(s.drop_last() =~= Seq::<u32>::empty());
            assert(s.last() == combinadic);
            lemma_binom_one(combinadic as nat);
            assert(comb_sum(s) == comb_sum(s.drop_last()) + binom(combinadic as nat, 1));
            assert(valid_vars(s));
        }
        return (1, vars);
    }
    proof { lemma_binom_max(); }
    let mut remaining = combinadic;
    let mut bound: usize = MAX_VAR;
    let mut i: usize = k;
    while i > 0
        invariant
            2 <= k <= 5, k == arity, arity == arity_spec(index),
            i <= k,
            bound <= 110,
            remaining < binom(bound as nat, i as nat),
            i < k ==> bound == vars@[i as int],
            forall|j: int| i <= j < k ==> (vars@[j] as int) < 110,
            forall|a: int, b: int| i <= a < b < k ==> vars@[a] < vars@[b],
            forall|j: int| 0 <= j < i ==> vars@[j] == 0,
            forall|j: int| k <= j < 5 ==> vars@[j] == 0,
            remaining + comb_sum_from(vars@, i as int, k as int) == combinadic,
            combinadic == index - offset_of(arity as nat),
        decreases i,
    {
        let rank = i;
        let c = greedy_digit(rank, remaining, bound);
        let ghost old_vars = vars@;
        let b = binomial(c, rank);
        vars[i - 1] = c as u32;
        proof {
            assert(binom((c + 1) as nat, rank as nat) == binom(c as nat, (rank - 1) as nat) + binom(c as nat, rank as nat));
            lemma_comb_sum_from_set(old_vars, vars@, i as int - 1, k as int);
        }
        remaining = remaining - b;
        bound = c;
        i = i - 1;
    }
    proof {
        assert(remaining == 0);
        lemma_comb_sum_from_whole(vars@, k as int);
        let s = vars@.subrange(0, k as int);
        assert(valid_vars(s));
    }
    (arity, vars)
}

/// `sum_{i <= j < k} C(s[j], j+1)`
pub open spec fn comb_sum_from(s: Seq<u32>, i: int, k: int) -> nat
    decreases k - i,
{
    if i >= k { 0 } else { binom(s[i] as nat, (i + 1) as nat) + comb_sum_from(s, i + 1, k) }
}

proof fn lemma_comb_sum_from_set(old: Seq<u32>, new: Seq<u32>, i: int, k: int)
    requires
        0 <= i < k <= old.len(),
        new.len() == old.len(),
        forall|j: int| 0 <= j < old.len() && j != i ==> new[j] == old[j],
    ensures
        comb_sum_from(new, i, k) == binom(new[i] as nat, (i + 1) as nat) + comb_sum_from(old, i + 1, k),
{
    lemma_comb_sum_from_same(old, new, i + 1, k);
}

proof fn lemma_comb_sum_from_same(a: Seq<u32>, b: Seq<u32>, i: int, k: int)
    requires
        0 <= i, k <= a.len(), k <= b.len(),
        forall|j: int| i <= j < k ==> a[j] == b[j],
    ensures comb_sum_from(a, i, k) == comb_sum_from(b, i, k),
    decreases k - i,
{
    if i < k {
        lemma_comb_sum_from_same(a, b, i + 1, k);
    }
}

/// The prefix sum `comb_sum` equals the suffix form taken from 0.
proof fn lemma_comb_sum_split(s: Seq<u32>, m: int, k: int)
    requires 0 <= m <= k <= s.len(),
    ensures comb_sum(s.subrange(0, k)) == comb_sum(s.subrange(0, m)) + comb_sum_from(s, m, k),
    decreases k - m,
{
    if m < k {
        lemma_comb_sum_split(s, m + 1, k);
        let t = s.subrange(0, m + 1);
        assert(t.drop_last() =~= s.subrange(0, m));
    }
}

proof fn lemma_comb_sum_from_whole(s: Seq<u32>, k: int)
    requires 0 <= k <= s.len(),
    ensures comb_sum(s.subrange(0, k)) == comb_sum_from(s, 0, k),
{
    lemma_comb_sum_split(s, 0, k);
    assert(s.subrange(0, 0) =~= Seq::<u32>::empty());
}

/// Extract the top (highest-index) variable without a full decode.
pub fn top_var_of(index: u32) -> (r: u32)
    requires index < TOTAL,
    ensures
        arity_spec(index) == 0 ==> r == 0,
        forall|ar: u8, vars: Seq<u32>| #[trigger] decodes_to(index, ar, vars) && ar >= 1
            ==> r == vars[ar - 1],
{
    let (arity, combinadic) = split(index);
    let k = arity as usize;
    if k == 0 { return 0; }
    if k == 1 {
        proof {
            assert forall|ar: u8, vars: Seq<u32>| #[trigger] decodes_to(index, ar, vars) && ar >= 1
                implies combinadic == vars[ar - 1] by {
                let s = vars.subrange(0, 1);
                assert(s.drop_last() =~= Seq::<u32>::empty());
                assert(s.last() == vars[0]);
                lemma_binom_one(vars[0] as nat);
                assert(comb_sum(s) == comb_sum(s.drop_last()) + binom(vars[0] as nat, 1));
            }
        }
        return combinadic;
    }
    proof { lemma_binom_max(); }
    let c = greedy_digit(k, combinadic, MAX_VAR);
    proof {
        assert forall|ar: u8, vars: Seq<u32>| #[trigger] decodes_to(index, ar, vars) && ar >= 1
            implies c == vars[ar - 1] by {
            let s = vars.subrange(0, k as int);
            lemma_top_digit(s, c as nat);
        }
    }
    c as u32
}

/// The greedy digit of a valid combinadic value is its top variable.
proof fn lemma_top_digit(s: Seq<u32>, c: nat)
    requires
        ascending(s), s.len() >= 1,
        binom(c, s.len()) <= comb_sum(s),
        comb_sum(s) < binom(c + 1, s.len()),
    ensures c == s.last(),
{
    let k = s.len();
    lemma_comb_sum_bound(s);
    if c < s.last() {
        lemma_binom_mono(c + 1, s.last() as nat, k);
    } else if c > s.last() {
        lemma_binom_mono((s.last() + 1) as nat, c, k);
    }
}

/// Decoding an encoded variable list gives the list back.
pub proof fn lemma_decode_encode(s: Seq<u32>, arity: u8, vars: Seq<u32>)
    requires
        valid_vars(s),
        decodes_to(encode_spec(s) as u32, arity, vars),
    ensures
        arity == s.len(),
        vars.subrange(0, arity as int) == s,
{
    lemma_encode_range(s);
    let t = vars.subrange(0, arity as int);
    lemma_comb_sum_unique(t, s);
}


/// The largest `c' >= c` below `MAX_VAR` whose coefficient `C(c', rank)` is at most `rem`
/// (searching upward while the next one still is).
pub open spec fn greedy_spec(rank: nat, rem: nat, c: nat) -> nat
    decreases 110 - c,
{
    if c + 1 < 110 && binom(c + 1, rank) <= rem { greedy_spec(rank, rem, c + 1) } else { c }
}

proof fn lemma_greedy_spec(rank: nat, rem: nat, c: nat, bound: nat)
    requires
        rank >= 1, c < 110, bound <= 110,
        binom(c, rank) <= rem,
        rem < binom(bound, rank),
    ensures ({
        let r = greedy_spec(rank, rem, c);
        &&& c <= r < bound
        &&& binom(r, rank) <= rem
        &&& rem < binom(r + 1, rank)
    }),
    decreases 110 - c,
{
    if c + 1 < 110 && binom(c + 1, rank) <= rem {
        lemma_greedy_spec(rank, rem, c + 1, bound);
    } else {
        if c >= bound {
            lemma_binom_mono(bound, c, rank);
        }
        if c + 1 >= 110 {
            lemma_binom_mono(bound, 110, rank);
        }
    }
}

/// The first `i` digits of the greedy decomposition of `rem`.
pub open spec fn digits_spec(rem: nat, i: nat) -> Seq<u32>
    decreases i,
{
    if i == 0 {
        Seq::empty()
    } else {
        let c = greedy_spec(i, rem, 0);
        digits_spec((rem - binom(c, i)) as nat, (i - 1) as nat).push(c as u32)
    }
}

proof fn lemma_digits_spec(rem: nat, i: nat, bound: nat)
    requires
        bound <= 110,
        rem < binom(bound, i),
    ensures ({
        let d = digits_spec(rem, i);
        &&& d.len() == i
        &&& ascending(d)
        &&& forall|j: int| 0 <= j < i ==> (d[j] as nat) < bound
        &&& comb_sum(d) == rem
    }),
    decreases i,
{
    if i == 0 {
        assert(binom(bound, 0) == 1);
    } else {
        lemma_greedy_spec(i, rem, 0, bound);
        let c = greedy_spec(i, rem, 0);
        assert(binom(c + 1, i) == binom(c, (i - 1) as nat) + binom(c, i));
        let rest = (rem - binom(c, i)) as nat;
        lemma_digits_spec(rest, (i - 1) as nat, c);
        let d = digits_spec(rem, i);
        let e = digits_spec(rest, (i - 1) as nat);
        assert(d.drop_last() =~= e);
        assert(d.last() == c as u32);
    }
}

/// Every valid index has a decoding.
pub proof fn decode_witness(index: u32) -> (r: (u8, Seq<u32>))
    requires index < TOTAL,
    ensures decodes_to(index, r.0, r.1),
{
    lemma_binom_max();
    let ar = arity_spec(index);
    let comb = (index - offset_of(ar)) as nat;
    assert(comb < binom(110, ar));
    lemma_digits_spec(comb, ar, 110);
    let d = digits_spec(comb, ar);
    let vars = d + Seq::new((5 - ar) as nat, |i: int| 0u32);
    assert(vars.subrange(0, ar as int) =~= d);
    (ar as u8, vars)
}

/// A valid index has exactly one decoding.
pub proof fn lemma_decodes_unique(index: u32, a1: u8, v1: Seq<u32>, a2: u8, v2: Seq<u32>)
    requires decodes_to(index, a1, v1), decodes_to(index, a2, v2),
    ensures a1 == a2, v1 == v2,
{
    let s1 = v1.subrange(0, a1 as int);
    let s2 = v2.subrange(0, a1 as int);
    lemma_comb_sum_unique(s1, s2);
    assert forall|i: int| 0 <= i < 5 implies v1[i] == v2[i] by {
        if i < a1 {
            assert(s1[i] == v1[i]);
            assert(s2[i] == v2[i]);
        }
    }
    assert(v1 =~= v2);
}

} // verus!
