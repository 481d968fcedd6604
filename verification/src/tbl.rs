//! Operations on table nids.
//!
//! Truth tables are aligned (expanded to a common set of variables), combined
//! bit by bit, and turned back into nids in a normal form.
//!
//! Bit ordering is MSB-first, as for `NidFun`: entry `i` (where variable `p`
//! has value `(i >> p) & 1`) is stored at bit `N - 1 - i` of the table.
//! Variable signals (arity 5): x0 = 0x55555555, x1 = 0x33333333,
//! x2 = 0x0F0F0F0F, x3 = 0x00FF00FF, x4 = 0x0000FFFF.
use vstd::prelude::*;
use crate::nidfun::{pow2, entry, gather, gathers, pow2_u32, lemma_pow2_small, lemma_pow2_shift, ins_bit, lemma_ins_bit_range};
use crate::nid::{NID, NidFun, tbl_mask_spec, T, VAR, F, INV, IDX_MASK, nid_o, nid_i};
use crate::comb::{valid_vars, ascending, MAX_VAR};
use crate::vid::{VID, VidEnum};

verus! {

/// `b` as a bit.
pub open spec fn b2u(b: bool) -> u64 {
    if b { 1 } else { 0 }
}

/// The row of a truth table over `vars` that an assignment selects:
/// bit `p` of the row is the value of `vars[p]`.
pub open spec fn row(vars: Seq<u32>, env: spec_fn(u32) -> bool) -> u64
    decreases vars.len(),
{
    if vars.len() == 0 {
        0
    } else {
        row(vars.drop_last(), env) | (b2u(env(vars.last())) << ((vars.len() - 1) as u64))
    }
}

/// Index `j` with the bit at position `p` taken out.
pub open spec fn del_bit(j: u64, p: u64) -> u64 {
    ((j >> ((p + 1) as u64)) << p) | (j & (((1u64 << p) - 1) as u64))
}

/// The value of table `t` over `vars` under an assignment.
pub open spec fn tmeans(t: u32, vars: Seq<u32>, env: spec_fn(u32) -> bool) -> bool {
    entry(t as u64, vars.len(), row(vars, env) as nat) == 1
}

proof fn lemma_row_bits(r: u64, e: u64, m: u64, p: u64, b: u64, k: u64, j: u64, a: u64)
    by (bit_vector)
    ensures
        1 <= m <= 5 && r < (1u64 << ((m - 1) as u64)) && e <= 1
            ==> (r | (e << ((m - 1) as u64))) < (1u64 << m),
        1 <= m <= 4 && r < (1u64 << ((m - 1) as u64)) && e <= 1 && b <= 1 && p < m
            ==> ins_bit(r | (e << ((m - 1) as u64)), p, b) == ins_bit(r, p, b) | (e << m),
        p <= 4 && r < (1u64 << p) && b <= 1 ==> ins_bit(r, p, b) == r | (b << p),
        k < 32 && p <= 4 && b <= 1 ==> del_bit(ins_bit(k, p, b), p) == k,
        a <= 4 && p <= a && j < (1u64 << ((a + 1) as u64)) ==> del_bit(j, p) < (1u64 << a),
        p <= 4 ==> (1u64 << p) >= 1,
{
}

/// A row over `vars` has `vars.len()` bits.
pub proof fn lemma_row_bound(vars: Seq<u32>, env: spec_fn(u32) -> bool)
    requires vars.len() <= 5,
    ensures row(vars, env) < (1u64 << vars.len() as u64), (row(vars, env) as nat) < pow2(vars.len()),
    decreases vars.len(),
{
    lemma_pow2_shift(vars.len());
    if vars.len() > 0 {
        lemma_row_bound(vars.drop_last(), env);
        lemma_row_bits(row(vars.drop_last(), env), b2u(env(vars.last())), vars.len() as u64, 0, 0, 0, 0, 0);
    } else {
        crate::bits::lemma_constants();
    }
}

proof fn lemma_mask_facts(k: u64, m: u64, e: u32, n: u32)
    by (bit_vector)
    requires m <= 32,
    ensures
        m >= 1 ==> (k & (((1u64 << ((m - 1) as u64)) - 1) as u64)) | (((k >> ((m - 1) as u64)) & 1) << ((m - 1) as u64))
            == k & (((1u64 << m) - 1) as u64),
        m >= 1 && (k >> ((m - 1) as u64)) & 1 != 1
            ==> k & (((1u64 << ((m - 1) as u64)) - 1) as u64) == k & (((1u64 << m) - 1) as u64),
        (k >> m) & 1 <= 1,
        k & (((1u64 << 0u64) - 1) as u64) == 0,
        k < (1u64 << m) ==> k & (((1u64 << m) - 1) as u64) == k,
        e & n == e && e != n ==> (!e & n) != 0,
        (e & n) & n == e & n,
{
}

/// A number below `2^n` that is not zero has a bit set below `n`.
proof fn lemma_some_bit(t: u64, n: u64)
    requires n <= 32, t & (((1u64 << n) - 1) as u64) != 0,
    ensures exists|b: u64| b < n && #[trigger] ((t >> b) & 1) == 1,
    decreases n,
{
    lemma_mask_facts(t, n, 0, 0);
    if n >= 1 {
        lemma_mask_facts(t, (n - 1) as u64, 0, 0);
        if (t >> ((n - 1) as u64)) & 1 == 1 {
            assert(((t >> ((n - 1) as u64)) & 1) == 1);
        } else {
            lemma_some_bit(t, (n - 1) as u64);
        }
    }
}

/// The assignment that sets `vars[p]` to bit `p` of `k`.
pub open spec fn env_of(vars: Seq<u32>, k: u64) -> spec_fn(u32) -> bool {
    |u: u32| exists|p: int| 0 <= p < vars.len() && vars[p] == u && #[trigger] ((k >> (p as u64)) & 1) == 1
}

/// An assignment that gives each variable the matching bit of `k` selects
/// the row `k` (cut to the width of the list).
proof fn lemma_row_of(vars: Seq<u32>, k: u64, env: spec_fn(u32) -> bool)
    requires
        vars.len() <= 5,
        forall|p: int| 0 <= p < vars.len() ==> #[trigger] env(vars[p]) == (((k >> (p as u64)) & 1) == 1),
    ensures row(vars, env) == k & (((1u64 << vars.len() as u64) - 1) as u64),
    decreases vars.len(),
{
    let m = vars.len() as u64;
    lemma_mask_facts(k, m, 0, 0);
    if m >= 1 {
        let w = vars.drop_last();
        assert forall|p: int| 0 <= p < w.len() implies #[trigger] env(w[p]) == (((k >> (p as u64)) & 1) == 1) by {
            assert(w[p] == vars[p]);
        }
        lemma_row_of(w, k, env);
        lemma_mask_facts(k, (m - 1) as u64, 0, 0);
        assert(env(vars[m - 1]) == (((k >> ((m - 1) as u64)) & 1) == 1));
        assert(b2u(env(vars.last())) == (k >> ((m - 1) as u64)) & 1);
    }
}

/// Over distinct variables, every row has an assignment that selects it.
pub proof fn lemma_row_reached(vars: Seq<u32>, k: u64)
    requires vars.len() <= 5, ascending(vars), k < (1u64 << vars.len() as u64),
    ensures row(vars, env_of(vars, k)) == k,
{
    let env = env_of(vars, k);
    assert forall|p: int| 0 <= p < vars.len() implies #[trigger] env(vars[p]) == (((k >> (p as u64)) & 1) == 1) by {
        if ((k >> (p as u64)) & 1) == 1 {
            assert(env(vars[p]));
        }
        if env(vars[p]) {
            let q = choose|q: int| 0 <= q < vars.len() && vars[q] == vars[p] && #[trigger] ((k >> (q as u64)) & 1) == 1;
            if q < p { assert(vars[q] < vars[p]); }
            if p < q { assert(vars[p] < vars[q]); }
        }
    }
    lemma_row_of(vars, k, env);
    lemma_mask_facts(k, vars.len() as u64, 0, 0);
}

/// `env` with variable `v` set to `b`.
pub open spec fn set_var(env: spec_fn(u32) -> bool, v: u32, b: bool) -> spec_fn(u32) -> bool {
    |u: u32| if u == v { b } else { env(u) }
}

/// The function of `tbl` over `vars` changes with variable `v` somewhere.
pub open spec fn depends(tbl: u32, vars: Seq<u32>, v: u32) -> bool {
    exists|env: spec_fn(u32) -> bool| #[trigger] tmeans(tbl, vars, set_var(env, v, true)) != tmeans(tbl, vars, set_var(env, v, false))
}

proof fn lemma_ins_bit_bits(k: u64, p: u64, b: u64, q: u64)
    by (bit_vector)
    requires p < 5, q < 5, b <= 1,
    ensures
        (ins_bit(k, p, b) >> p) & 1 == b,
        q != p ==> (ins_bit(k, p, b) >> q) & 1 == (ins_bit(k, p, 0) >> q) & 1,
{
}

/// `env_of(vars, k)` gives each of the (distinct) variables its bit of `k`.
proof fn lemma_env_of(vars: Seq<u32>, k: u64)
    requires ascending(vars),
    ensures forall|p: int| 0 <= p < vars.len() ==> #[trigger] env_of(vars, k)(vars[p]) == (((k >> (p as u64)) & 1) == 1),
{
    let env = env_of(vars, k);
    assert forall|p: int| 0 <= p < vars.len() implies #[trigger] env(vars[p]) == (((k >> (p as u64)) & 1) == 1) by {
        if ((k >> (p as u64)) & 1) == 1 {
            assert(env(vars[p]));
        }
        if env(vars[p]) {
            let q = choose|q: int| 0 <= q < vars.len() && vars[q] == vars[p] && #[trigger] ((k >> (q as u64)) & 1) == 1;
            if q < p { assert(vars[q] < vars[p]); }
            if p < q { assert(vars[p] < vars[q]); }
        }
    }
}

/// A variable that the table does not ignore changes its function.
pub proof fn lemma_used_depends(t: u32, vars: Seq<u32>, p: int)
    requires valid_vars(vars), 1 <= vars.len(), 0 <= p < vars.len(), !unused(t, vars.len(), p as u64),
    ensures depends(t, vars, vars[p]),
{
    let a = vars.len();
    let k = choose|k: nat| k < pow2((a - 1) as nat) &&
        #[trigger] entry(t as u64, a, ins_bit(k as u64, p as u64, 0) as nat) != entry(t as u64, a, ins_bit(k as u64, p as u64, 1) as nat);
    let j0 = ins_bit(k as u64, p as u64, 0);
    let env = env_of(vars, j0);
    lemma_env_of(vars, j0);
    lemma_pow2_shift((a - 1) as nat);
    lemma_pow2_shift(a);
    assert forall|bb: bool| #[trigger] row(vars, set_var(env, vars[p], bb)) == ins_bit(k as u64, p as u64, if bb { 1u64 } else { 0u64 }) by {
        let b: u64 = if bb { 1u64 } else { 0u64 };
        let e = set_var(env, vars[p], bb);
        let jb = ins_bit(k as u64, p as u64, b);
        assert forall|q: int| 0 <= q < vars.len() implies #[trigger] e(vars[q]) == (((jb >> (q as u64)) & 1) == 1) by {
            lemma_ins_bit_bits(k as u64, p as u64, b, q as u64);
            if q != p {
                if q < p { assert(vars[q] < vars[p]); }
                if p < q { assert(vars[p] < vars[q]); }
                assert(env(vars[q]) == (((j0 >> (q as u64)) & 1) == 1));
            }
        }
        lemma_row_of(vars, jb, e);
        lemma_ins_bit_range(k as u64, p as u64, b, a as u64);
        lemma_mask_facts(jb, a as u64, 0, 0);
    }
    let e1 = set_var(env, vars[p], true);
    let e0 = set_var(env, vars[p], false);
    assert(row(vars, e1) == ins_bit(k as u64, p as u64, 1));
    assert(row(vars, e0) == ins_bit(k as u64, p as u64, 0));
    lemma_ins_bit_range(k as u64, p as u64, 1, a as u64);
    lemma_ins_bit_range(k as u64, p as u64, 0, a as u64);
    lemma_entry_facts(t, 0, 0, a, ins_bit(k as u64, p as u64, 1) as nat);
    lemma_entry_facts(t, 0, 0, a, ins_bit(k as u64, p as u64, 0) as nat);
    assert(tmeans(t, vars, e1) != tmeans(t, vars, e0));
}

/// A table of arity `a` that is not all zero holds a one at some row, which
/// some assignment selects.
pub proof fn lemma_table_hit(t: u32, vars: Seq<u32>)
    requires valid_vars(vars), t as u64 & tbl_mask_spec(vars.len()) != 0,
    ensures exists|env: spec_fn(u32) -> bool| #[trigger] tmeans(t, vars, env),
{
    let a = vars.len();
    lemma_pow2_small(a);
    let n = pow2(a) as u64;
    assert(tbl_mask_spec(a) == (((1u64 << n) - 1) as u64));
    lemma_some_bit(t as u64, n);
    let b = choose|b: u64| b < n && #[trigger] (((t as u64) >> b) & 1) == 1;
    let i = (n - 1 - b) as u64;
    assert(entry(t as u64, a, i as nat) == 1);
    crate::nidfun::lemma_pow2_shift(a);
    lemma_row_reached(vars, i);
    assert(tmeans(t, vars, env_of(vars, i)));
}

/// Inserting a variable into the list inserts its value into the row.
pub proof fn lemma_row_insert(w: Seq<u32>, p: int, v: u32, env: spec_fn(u32) -> bool)
    requires 0 <= p <= w.len() <= 4,
    ensures row(w.insert(p, v), env) == ins_bit(row(w, env), p as u64, b2u(env(v))),
    decreases w.len(),
{
    lemma_row_bound(w, env);
    let wi = w.insert(p, v);
    if p == w.len() {
        assert(wi.drop_last() =~= w);
        assert(wi.last() == v);
        lemma_row_bits(row(w, env), 0, 0, p as u64, b2u(env(v)), 0, 0, 0);
    } else {
        let w1 = w.drop_last();
        lemma_row_insert(w1, p, v, env);
        lemma_row_bound(w1, env);
        assert(wi.drop_last() =~= w1.insert(p, v));
        assert(wi.last() == w.last());
        lemma_row_bits(row(w1, env), b2u(env(w.last())), w.len() as u64, p as u64, b2u(env(v)), 0, 0, 0);
    }
}

// ---- sizes ----

/// Number of truth-table entries for the given arity.
fn n_entries(arity: u8) -> (r: u32)
    requires arity <= 5,
    ensures r == pow2(arity as nat), 1 <= r <= 32,
{
    pow2_u32(arity)
}

/// Bitmask covering all truth-table bits for the given arity.
fn tbl_mask(arity: u8) -> (r: u32)
    ensures r as u64 == tbl_mask_spec(if arity >= 5 { 5 } else { arity as nat }),
{
    if arity >= 5 { 0xFFFF_FFFF }
    else if arity == 0 { 1 }
    else if arity == 1 { 3 }
    else if arity == 2 { 0xF }
    else if arity == 3 { 0xFF }
    else { 0xFFFF }
}

// ---- truth table alignment ----

/// Insert a "don't care" variable at position `pos` in a truth table of
/// `arity` variables (MSB-first). Returns the table over `arity + 1` variables.
pub fn insert_var(tbl: u32, arity: u8, pos: u8) -> (r: u32)
    requires arity <= 4, pos <= arity,
    ensures
        (r as u64) <= tbl_mask_spec(arity as nat + 1),
        forall|j: nat| j < pow2(arity as nat + 1) ==>
            #[trigger] entry(r as u64, arity as nat + 1, j) == entry(tbl as u64, arity as nat, del_bit(j as u64, pos as u64) as nat),
{
    let ar = arity + 1;
    let n_new = n_entries(ar) as u64;
    let p = pos as u64;
    proof {
        lemma_pow2_small(ar as nat);
        lemma_pow2_small(arity as nat);
        lemma_pow2_shift(ar as nat);
        lemma_pow2_shift(arity as nat);
        lemma_row_bits(0, 0, 0, p, 0, 0, 0, 0);
    }
    let mut pv: Vec<u8> = Vec::new();
    let mut j: u64 = 0;
    while j < n_new
        invariant
            j <= n_new, n_new == pow2(ar as nat), ar == arity + 1, arity <= 4, p == pos, pos <= arity,
            n_new == (1u64 << ar as u64), pow2(arity as nat) == (1u64 << arity as u64), pow2(arity as nat) <= 32,
            pv@.len() == j,
            forall|k: int| 0 <= k < j ==> (#[trigger] pv@[k] as nat) == del_bit(k as u64, p) as nat,
            forall|k: int| 0 <= k < j ==> (#[trigger] pv@[k] as nat) < pow2(arity as nat),
        decreases n_new - j,
    {
        proof { lemma_row_bits(0, 0, 0, p, 0, 0, j, arity as u64); }
        let k = ((j >> (p + 1)) << p) | (j & ((1u64 << p) - 1));
        assert(k == del_bit(j, p));
        pv.push(k as u8);
        j = j + 1;
    }
    let r = gather(tbl as u64, arity, &pv, ar);
    proof { crate::bits::lemma_word(r, 0); }
    r as u32
}

/// Remove the variable at position `pos` from a table of `arity` variables,
/// keeping the entries where it is 0.
pub fn remove_var(tbl: u32, arity: u8, pos: u8) -> (r: u32)
    requires 1 <= arity <= 5, pos < arity,
    ensures
        (r as u64) <= tbl_mask_spec((arity - 1) as nat),
        forall|k: nat| k < pow2((arity - 1) as nat) ==>
            #[trigger] entry(r as u64, (arity - 1) as nat, k) == entry(tbl as u64, arity as nat, ins_bit(k as u64, pos as u64, 0) as nat),
{
    let ar = arity - 1;
    let n_new = n_entries(ar) as u64;
    let p = pos as u64;
    proof {
        lemma_pow2_small(ar as nat);
        lemma_pow2_small(arity as nat);
        lemma_pow2_shift(ar as nat);
        lemma_pow2_shift(arity as nat);
        lemma_row_bits(0, 0, 0, p, 0, 0, 0, 0);
    }
    let mut pv: Vec<u8> = Vec::new();
    let mut k: u64 = 0;
    while k < n_new
        invariant
            k <= n_new, n_new == pow2(ar as nat), ar + 1 == arity, arity <= 5, p == pos, pos < arity,
            n_new == (1u64 << ar as u64), pow2(arity as nat) == (1u64 << arity as u64), pow2(arity as nat) <= 32,
            pv@.len() == k,
            forall|i: int| 0 <= i < k ==> (#[trigger] pv@[i] as nat) == ins_bit(i as u64, p, 0) as nat,
            forall|i: int| 0 <= i < k ==> (#[trigger] pv@[i] as nat) < pow2(arity as nat),
        decreases n_new - k,
    {
        proof {
            lemma_row_bits(0, 0, 0, p, 0, 0, 0, 0);
            lemma_ins_bit_range(k, p, 0, arity as u64);
        }
        let i = ((k >> p) << (p + 1)) | (0u64 << p) | (k & ((1u64 << p) - 1));
        assert(i == ins_bit(k, p, 0));
        pv.push(i as u8);
        k = k + 1;
    }
    let r = gather(tbl as u64, arity, &pv, ar);
    proof { crate::bits::lemma_word(r, 0); }
    r as u32
}


// ---- meaning of tables ----

/// Variable `p` of a table of arity `a` makes no difference.
pub open spec fn unused(t: u32, a: nat, p: u64) -> bool {
    forall|k: nat| k < pow2((a - 1) as nat) ==>
        #[trigger] entry(t as u64, a, ins_bit(k as u64, p, 0) as nat) == entry(t as u64, a, ins_bit(k as u64, p, 1) as nat)
}

/// A table over `w` with a variable inserted at `p` that it does not read
/// means what the table it was made from means.
proof fn lemma_insert_means(t: u32, r: u32, w: Seq<u32>, p: int, v: u32, env: spec_fn(u32) -> bool)
    requires
        0 <= p <= w.len() <= 4,
        forall|j: nat| j < pow2(w.len() + 1) ==>
            #[trigger] entry(r as u64, w.len() + 1, j) == entry(t as u64, w.len(), del_bit(j as u64, p as u64) as nat),
    ensures tmeans(r, w.insert(p, v), env) == tmeans(t, w, env),
{
    let wi = w.insert(p, v);
    lemma_row_insert(w, p, v, env);
    lemma_row_bound(wi, env);
    lemma_row_bound(w, env);
    lemma_pow2_shift(w.len());
    lemma_pow2_small(w.len());
    lemma_row_bits(0, 0, 0, p as u64, b2u(env(v)), row(w, env), 0, 0);
    assert(wi.len() == w.len() + 1);
    assert(entry(r as u64, w.len() + 1, row(wi, env) as nat) == entry(t as u64, w.len(), del_bit(row(wi, env), p as u64) as nat));
    assert(del_bit(row(wi, env), p as u64) == row(w, env));
}

/// Removing a variable that a table does not read keeps its meaning.
proof fn lemma_remove_means(t: u32, r: u32, vars: Seq<u32>, p: int, env: spec_fn(u32) -> bool)
    requires
        0 <= p < vars.len() <= 5,
        unused(t, vars.len(), p as u64),
        forall|k: nat| k < pow2((vars.len() - 1) as nat) ==>
            #[trigger] entry(r as u64, (vars.len() - 1) as nat, k) == entry(t as u64, vars.len(), ins_bit(k as u64, p as u64, 0) as nat),
    ensures tmeans(r, vars.remove(p), env) == tmeans(t, vars, env),
{
    let w = vars.remove(p);
    assert(w.insert(p, vars[p]) =~= vars);
    lemma_row_insert(w, p, vars[p], env);
    lemma_row_bound(w, env);
    let k = row(w, env);
    let b = b2u(env(vars[p]));
    assert(entry(r as u64, w.len(), k as nat) == entry(t as u64, vars.len(), ins_bit(k, p as u64, 0) as nat));
    if b == 1 {
        assert(entry(t as u64, vars.len(), ins_bit(k, p as u64, 0) as nat) == entry(t as u64, vars.len(), ins_bit(k, p as u64, 1) as nat));
    }
}

/// Does the table of `arity` variables ignore the variable at `pos`?
pub fn var_is_unused(tbl: u32, arity: u8, pos: u8) -> (r: bool)
    requires 1 <= arity <= 5, pos < arity,
    ensures r == unused(tbl, arity as nat, pos as u64),
{
    let n = n_entries(arity) as u64;
    let half = n_entries(arity - 1) as u64;
    let p = pos as u64;
    proof {
        lemma_pow2_small(arity as nat);
        lemma_pow2_small((arity - 1) as nat);
        lemma_pow2_shift((arity - 1) as nat);
    }
    let mut k: u64 = 0;
    while k < half
        invariant
            k <= half, half == pow2((arity - 1) as nat), n == pow2(arity as nat), 1 <= arity <= 5, p == pos, pos < arity,
            half == (1u64 << (arity - 1) as u64), n <= 32,
            forall|q: nat| q < k ==>
                #[trigger] entry(tbl as u64, arity as nat, ins_bit(q as u64, p, 0) as nat) == entry(tbl as u64, arity as nat, ins_bit(q as u64, p, 1) as nat),
        decreases half - k,
    {
        proof {
            lemma_row_bits(0, 0, 0, p, 0, 0, 0, 0);
            lemma_ins_bit_range(k, p, 0, arity as u64);
            lemma_ins_bit_range(k, p, 1, arity as u64);
            lemma_pow2_shift(arity as nat);
        }
        let i = ((k >> p) << (p + 1)) | (0u64 << p) | (k & ((1u64 << p) - 1));
        let j = ((k >> p) << (p + 1)) | (1u64 << p) | (k & ((1u64 << p) - 1));
        assert(i == ins_bit(k, p, 0));
        assert(j == ins_bit(k, p, 1));
        let vi = ((tbl as u64) >> (n - 1 - i)) & 1;
        let vj = ((tbl as u64) >> (n - 1 - j)) & 1;
        if vi != vj {
            proof {
                let q: nat = k as nat;
                assert(q as u64 == k);
                assert(entry(tbl as u64, arity as nat, ins_bit(q as u64, p, 0) as nat) != entry(tbl as u64, arity as nat, ins_bit(q as u64, p, 1) as nat));
            }
            return false;
        }
        k = k + 1;
    }
    true
}

/// Drop the variables that the table ignores.
pub fn strip_unused_vars(tbl: u32, vars: &[u32]) -> (r: (u32, Vec<u32>))
    requires vars@.len() <= 5,
    ensures
        forall|env: spec_fn(u32) -> bool| #[trigger] tmeans(r.0, r.1@, env) == tmeans(tbl, vars@, env),
        r.1@.len() <= vars@.len(),
        valid_vars(vars@) ==> valid_vars(r.1@),
        forall|i: int| 0 <= i < r.1@.len() ==> vars@.contains(#[trigger] r.1@[i]),
        valid_vars(vars@) ==> forall|i: int| 0 <= i < r.1@.len() ==> depends(tbl, vars@, #[trigger] r.1@[i]),
{
    let mut remaining: Vec<u32> = Vec::new();
    let mut i: usize = 0;
    while i < vars.len()
        invariant i <= vars@.len(), remaining@ == vars@.take(i as int),
        decreases vars@.len() - i,
    {
        remaining.push(vars[i]);
        assert(remaining@ =~= vars@.take(i as int + 1));
        i = i + 1;
    }
    assert(remaining@ =~= vars@);
    let mut t = tbl;
    let mut pos: usize = 0;
    while pos < remaining.len()
        invariant
            pos <= remaining@.len() <= vars@.len() <= 5,
            forall|env: spec_fn(u32) -> bool| #[trigger] tmeans(t, remaining@, env) == tmeans(tbl, vars@, env),
            valid_vars(vars@) ==> valid_vars(remaining@),
            forall|i: int| 0 <= i < remaining@.len() ==> vars@.contains(#[trigger] remaining@[i]),
            valid_vars(vars@) ==> forall|i: int| 0 <= i < pos ==> depends(tbl, vars@, #[trigger] remaining@[i]),
        decreases remaining@.len() - pos, remaining@.len(),
    {
        let len = remaining.len() as u8;
        if var_is_unused(t, len, pos as u8) {
            let t2 = remove_var(t, len, pos as u8);
            let ghost before = remaining@;
            let ghost t1 = t;
            remaining.remove(pos);
            proof {
                assert forall|env: spec_fn(u32) -> bool| #[trigger] tmeans(t2, remaining@, env) == tmeans(tbl, vars@, env) by {
                    lemma_remove_means(t1, t2, before, pos as int, env);
                    assert(tmeans(t1, before, env) == tmeans(tbl, vars@, env));
                }
                assert forall|i: int| 0 <= i < remaining@.len() implies vars@.contains(#[trigger] remaining@[i]) by {
                    if i < pos { assert(remaining@[i] == before[i]); } else { assert(remaining@[i] == before[i + 1]); }
                }
                if valid_vars(vars@) {
                    assert forall|a: int, b: int| 0 <= a < b < remaining@.len() implies remaining@[a] < remaining@[b] by {
                        let a1 = if a < pos { a } else { a + 1 };
                        let b1 = if b < pos { b } else { b + 1 };
                        assert(remaining@[a] == before[a1]);
                        assert(remaining@[b] == before[b1]);
                    }
                    assert forall|a: int| 0 <= a < remaining@.len() implies (remaining@[a] as int) < MAX_VAR by {
                        let a1 = if a < pos { a } else { a + 1 };
                        assert(remaining@[a] == before[a1]);
                    }
                }
            }
            t = t2;
            proof {
                if valid_vars(vars@) {
                    assert forall|i: int| 0 <= i < pos implies depends(tbl, vars@, #[trigger] remaining@[i]) by {
                        assert(remaining@[i] == before[i]);
                    }
                }
            }
        } else {
            proof {
                if valid_vars(vars@) {
                    lemma_used_depends(t, remaining@, pos as int);
                    let w = remaining@[pos as int];
                    let env = choose|env: spec_fn(u32) -> bool| #[trigger] tmeans(t, remaining@, set_var(env, w, true)) != tmeans(t, remaining@, set_var(env, w, false));
                    assert(tmeans(tbl, vars@, set_var(env, w, true)) != tmeans(tbl, vars@, set_var(env, w, false)));
                }
            }
            pos = pos + 1;
        }
    }
    (t, remaining)
}

/// `s` (strictly ascending) lies within `d`, so it is no longer.
proof fn lemma_sub_len(s: Seq<u32>, d: Seq<u32>)
    requires ascending(s), forall|k: int| 0 <= k < s.len() ==> d.contains(#[trigger] s[k]),
    ensures s.len() <= d.len(),
{
    assert(s.no_duplicates()) by {
        assert forall|i: int, j: int| 0 <= i < s.len() && 0 <= j < s.len() && i != j implies s[i] != s[j] by {
            if i < j { assert(s[i] < s[j]); } else { assert(s[j] < s[i]); }
        }
    }
    s.unique_seq_to_set();
    d.lemma_cardinality_of_set();
    assert(s.to_set().subset_of(d.to_set())) by {
        assert forall|x: u32| s.to_set().contains(x) implies d.to_set().contains(x) by {
            let k = choose|k: int| 0 <= k < s.len() && s[k] == x;
            assert(d.contains(s[k]));
        }
    }
    vstd::set_lib::lemma_len_subset(s.to_set(), d.to_set());
}

/// Expand a truth table from `src_vars` to `dst_vars` (MSB-first).
pub fn expand_table(tbl: u32, src_vars: &[u32], dst_vars: &[u32]) -> (r: u32)
    requires
        ascending(src_vars@), ascending(dst_vars@), dst_vars@.len() <= 5,
        forall|k: int| 0 <= k < src_vars@.len() ==> dst_vars@.contains(#[trigger] src_vars@[k]),
    ensures forall|env: spec_fn(u32) -> bool| #[trigger] tmeans(r, dst_vars@, env) == tmeans(tbl, src_vars@, env),
{
    let ghost src = src_vars@;
    let ghost dst = dst_vars@;
    proof {
        lemma_sub_len(src, dst);
        assert(dst.skip(0) =~= dst);
    }
    let mut result = tbl;
    let mut current_arity = src_vars.len() as u8;
    let mut src_idx: usize = 0;
    let mut dst_pos: usize = 0;
    proof {
        assert(dst.take(0) + src.skip(0) =~= src);
    }
    while dst_pos < dst_vars.len()
        invariant
            src == src_vars@, dst == dst_vars@, ascending(src), ascending(dst), dst.len() <= 5,
            src_idx <= src.len(), dst_pos <= dst.len(),
            current_arity as int == dst_pos + src.len() - src_idx,
            forall|k: int| src_idx <= k < src.len() ==> dst.skip(dst_pos as int).contains(#[trigger] src[k]),
            forall|env: spec_fn(u32) -> bool|
                #[trigger] tmeans(result, dst.take(dst_pos as int) + src.skip(src_idx as int), env) == tmeans(tbl, src, env),
        decreases dst.len() - dst_pos,
    {
        let dv = dst_vars[dst_pos];
        let ghost cur = dst.take(dst_pos as int) + src.skip(src_idx as int);
        let ghost (si, dp) = (src_idx as int, dst_pos as int);
        if src_idx < src_vars.len() && src_vars[src_idx] == dv {
            src_idx = src_idx + 1;
            proof {
                assert forall|k: int| src_idx <= k < src.len() implies dst.skip(dp + 1).contains(#[trigger] src[k]) by {
                    assert(src[si] < src[k]);
                    let m = choose|m: int| 0 <= m < dst.skip(dp).len() && dst.skip(dp)[m] == src[k];
                    assert(m != 0);
                    assert(dst.skip(dp + 1)[m - 1] == src[k]);
                }
                assert(dst.take(dp + 1) + src.skip(si + 1) =~= cur);
            }
        } else {
            proof {
                assert forall|k: int| si <= k < src.len() implies dst.skip(dp + 1).contains(#[trigger] src[k]) by {
                    let m = choose|m: int| 0 <= m < dst.skip(dp).len() && dst.skip(dp)[m] == src[k];
                    if m == 0 {
                        assert(src[k] == dv);
                        if k > si {
                            let m0 = choose|m0: int| 0 <= m0 < dst.skip(dp).len() && dst.skip(dp)[m0] == src[si];
                            assert(src[si] < src[k]);
                            if m0 == 0 { assert(src[si] == dv); } else { assert(dst[dp + m0] > dst[dp]); }
                        }
                    } else {
                        assert(dst.skip(dp + 1)[m - 1] == src[k]);
                    }
                }
                let rest = src.skip(si);
                assert forall|k: int| 0 <= k < rest.len() implies dst.skip(dp + 1).contains(#[trigger] rest[k]) by {
                    assert(rest[k] == src[si + k]);
                }
                lemma_sub_len(rest, dst.skip(dp + 1));
            }
            let t2 = insert_var(result, current_arity, dst_pos as u8);
            proof {
                assert(cur.insert(dp, dv) =~= dst.take(dp + 1) + src.skip(si));
                assert forall|env: spec_fn(u32) -> bool|
                    #[trigger] tmeans(t2, dst.take(dp + 1) + src.skip(si), env) == tmeans(tbl, src, env) by {
                    lemma_insert_means(result, t2, cur, dp, dv, env);
                    assert(tmeans(result, cur, env) == tmeans(tbl, src, env));
                }
            }
            result = t2;
            current_arity = current_arity + 1;
        }
        dst_pos = dst_pos + 1;
    }
    proof {
        if src_idx < src.len() {
            assert(dst.skip(dst_pos as int).contains(src[src_idx as int]));
        }
        assert(dst.take(dst.len() as int) + src.skip(src.len() as int) =~= dst);
    }
    result
}


// ---- merging variable lists ----

/// The sorted union of two ascending lists.
pub open spec fn merge(a: Seq<u32>, b: Seq<u32>) -> Seq<u32>
    decreases a.len() + b.len(),
{
    if a.len() == 0 {
        b
    } else if b.len() == 0 {
        a
    } else if a[0] < b[0] {
        seq![a[0]] + merge(a.skip(1), b)
    } else if a[0] > b[0] {
        seq![b[0]] + merge(a, b.skip(1))
    } else {
        seq![a[0]] + merge(a.skip(1), b.skip(1))
    }
}

/// A list made of a head and a tail holds exactly the head and the tail's items.
proof fn lemma_cons_contains(m: Seq<u32>, h: u32, rest: Seq<u32>)
    requires
        m == seq![h] + rest,
    ensures
        forall|x: u32| m.contains(x) <==> (x == h || rest.contains(x)),
{
    assert forall|x: u32| m.contains(x) <==> (x == h || rest.contains(x)) by {
        if m.contains(x) && x != h {
            let k = choose|k: int| 0 <= k < m.len() && m[k] == x;
            assert(rest[k - 1] == x);
        }
        if rest.contains(x) {
            let k = choose|k: int| 0 <= k < rest.len() && rest[k] == x;
            assert(m[k + 1] == x);
        }
        if x == h {
            assert(m[0] == x);
        }
    }
}

/// The merge holds exactly the items of both lists, in ascending order, and
/// is no longer than both together.
pub proof fn lemma_merge(a: Seq<u32>, b: Seq<u32>)
    requires ascending(a), ascending(b),
    ensures
        ascending(merge(a, b)),
        forall|x: u32| merge(a, b).contains(x) <==> (a.contains(x) || b.contains(x)),
        merge(a, b).len() <= a.len() + b.len(),
        merge(a, b).len() >= a.len(),
        merge(a, b).len() >= b.len(),
        a.len() > 0 && b.len() > 0 ==> merge(a, b)[0] == if a[0] <= b[0] { a[0] } else { b[0] },
        a.len() > 0 && b.len() == 0 ==> merge(a, b)[0] == a[0],
        a.len() == 0 && b.len() > 0 ==> merge(a, b)[0] == b[0],
    decreases a.len() + b.len(),
{
    if a.len() == 0 || b.len() == 0 {
    } else {
        let (a1, b1) = (a.skip(1), b.skip(1));
        assert(a =~= seq![a[0]] + a1);
        assert(b =~= seq![b[0]] + b1);
        lemma_cons_contains(a, a[0], a1);
        lemma_cons_contains(b, b[0], b1);
        let (h, rest) = if a[0] < b[0] {
            lemma_merge(a1, b);
            (a[0], merge(a1, b))
        } else if a[0] > b[0] {
            lemma_merge(a, b1);
            (b[0], merge(a, b1))
        } else {
            lemma_merge(a1, b1);
            (a[0], merge(a1, b1))
        };
        let m = merge(a, b);
        assert(m =~= seq![h] + rest);
        lemma_cons_contains(m, h, rest);
        assert forall|x: u32| m.contains(x) <==> (a.contains(x) || b.contains(x)) by {
            assert(m.contains(x) <==> (x == h || rest.contains(x)));
        }
        assert forall|i: int, j: int| 0 <= i < j < m.len() implies m[i] < m[j] by {
            if i == 0 {
                assert(rest.contains(m[j])) by { assert(rest[j - 1] == m[j]); }
                if a1.contains(m[j]) {
                    let k = choose|k: int| 0 <= k < a1.len() && a1[k] == m[j];
                    assert(a[0] < a[k + 1]);
                }
                if b1.contains(m[j]) {
                    let k = choose|k: int| 0 <= k < b1.len() && b1[k] == m[j];
                    assert(b[0] < b[k + 1]);
                }
                if a.contains(m[j]) {
                    let k = choose|k: int| 0 <= k < a.len() && a[k] == m[j];
                    if k > 0 { assert(a[0] < a[k]); }
                }
                if b.contains(m[j]) {
                    let k = choose|k: int| 0 <= k < b.len() && b[k] == m[j];
                    if k > 0 { assert(b[0] < b[k]); }
                }
            } else {
                assert(m[i] == rest[i - 1] && m[j] == rest[j - 1]);
            }
        }
    }
}

/// Merge two ascending variable lists into a fixed-size array: the merged
/// list and its length, or `None` when the merged list is longer than 5.
pub fn merge_small(va: &[u32], vb: &[u32]) -> (r: Option<([u32; 5], u8)>)
    requires ascending(va@), ascending(vb@),
    ensures
        match r {
            Some((out, len)) => len <= 5 && out@.take(len as int) == merge(va@, vb@),
            None => merge(va@, vb@).len() > 5,
        },
{
    let mut out: [u32; 5] = [0u32; 5];
    let mut len: usize = 0;
    let mut ia: usize = 0;
    let mut ib: usize = 0;
    proof {
        lemma_merge(va@, vb@);
        assert(va@.skip(0) =~= va@);
        assert(vb@.skip(0) =~= vb@);
    }
    while ia < va.len() || ib < vb.len()
        invariant
            ia <= va@.len(), ib <= vb@.len(), len <= 5, out@.len() == 5,
            ascending(va@), ascending(vb@),
            out@.take(len as int) + merge(va@.skip(ia as int), vb@.skip(ib as int)) == merge(va@, vb@),
        decreases va@.len() - ia + vb@.len() - ib,
    {
        let ghost (sa, sb) = (va@.skip(ia as int), vb@.skip(ib as int));
        proof {
            assert(ascending(sa)) by { assert forall|i: int, j: int| 0 <= i < j < sa.len() implies sa[i] < sa[j] by { assert(sa[i] == va@[ia + i]); assert(sa[j] == va@[ia + j]); } }
            assert(ascending(sb)) by { assert forall|i: int, j: int| 0 <= i < j < sb.len() implies sb[i] < sb[j] by { assert(sb[i] == vb@[ib + i]); assert(sb[j] == vb@[ib + j]); } }
            lemma_merge(sa, sb);
        }
        if len >= 5 {
            proof {
                assert(merge(sa, sb).len() >= 1);
                assert((out@.take(len as int) + merge(sa, sb)).len() == len + merge(sa, sb).len());
            }
            return None;
        }
        let x: u32;
        if ia < va.len() && ib < vb.len() {
            if va[ia] < vb[ib] {
                x = va[ia];
                ia = ia + 1;
            } else if va[ia] > vb[ib] {
                x = vb[ib];
                ib = ib + 1;
            } else {
                x = va[ia];
                ia = ia + 1;
                ib = ib + 1;
            }
        } else if ia < va.len() {
            x = va[ia];
            ia = ia + 1;
        } else {
            x = vb[ib];
            ib = ib + 1;
        }
        let ghost old_out = out@;
        out[len] = x;
        proof {
            let (na, nb) = (va@.skip(ia as int), vb@.skip(ib as int));
            assert(merge(sa, sb) =~= seq![x] + merge(na, nb)) by {
                if sa.len() > 0 && sb.len() > 0 {
                    if sa[0] < sb[0] { assert(na =~= sa.skip(1)); assert(nb =~= sb); }
                    else if sa[0] > sb[0] { assert(na =~= sa); assert(nb =~= sb.skip(1)); }
                    else { assert(na =~= sa.skip(1)); assert(nb =~= sb.skip(1)); }
                } else if sa.len() > 0 {
                    assert(na =~= sa.skip(1)); assert(nb =~= sb);
                } else {
                    assert(na =~= sa); assert(nb =~= sb.skip(1));
                }
            }
            assert(out@.take(len as int + 1) =~= old_out.take(len as int).push(x));
            assert(out@.take(len as int + 1) + merge(na, nb) =~= old_out.take(len as int) + merge(sa, sb));
        }
        len = len + 1;
    }
    proof {
        assert(va@.skip(ia as int) =~= Seq::<u32>::empty());
        assert(vb@.skip(ib as int) =~= Seq::<u32>::empty());
        assert(out@.take(len as int) + Seq::<u32>::empty() =~= out@.take(len as int));
    }
    Some((out, len as u8))
}


// ---- small tables ----

proof fn lemma_tbl_bits(t: u32, u: u32, v: u32, m: u32, w: u64, s: u64)
    by (bit_vector)
    ensures
        (m as u64) + 1 == (1u64 << w) && 1 <= w <= 32 && s < w ==> {
            &&& (((t & m) as u64) >> s) & 1 == ((t as u64) >> s) & 1
            &&& (((t ^ m) as u64) >> s) & 1 == 1 - (((t as u64) >> s) & 1)
            &&& (((!t & m) as u64) >> s) & 1 == 1 - (((t as u64) >> s) & 1)
            &&& ((m as u64) >> s) & 1 == 1
        },
        s < 32 ==> {
            &&& ((((t & u) as u64) >> s) & 1 == 1) == ((((t as u64) >> s) & 1 == 1) && (((u as u64) >> s) & 1 == 1))
            &&& ((((t | u) as u64) >> s) & 1 == 1) == ((((t as u64) >> s) & 1 == 1) || (((u as u64) >> s) & 1 == 1))
            &&& ((((t ^ u) as u64) >> s) & 1 == 1) == ((((t as u64) >> s) & 1 == 1) != (((u as u64) >> s) & 1 == 1))
            &&& ((((t & u) | (!t & v)) as u64) >> s) & 1
                == if ((t as u64) >> s) & 1 == 1 { ((u as u64) >> s) & 1 } else { ((v as u64) >> s) & 1 }
            &&& ((0u32 as u64) >> s) & 1 == 0
            &&& ((t as u64) >> s) & 1 <= 1
        },
        (t & 1 == 0) == (((t as u64) >> 0u64) & 1 == 0),
        (1u64 >> 1u64) & 1 == 0, (1u64 >> 0u64) & 1 == 1, (2u64 >> 1u64) & 1 == 1, (2u64 >> 0u64) & 1 == 0,
        (0xFFFF_FFFFu64 >> 0u64) & 1 == 1, (0u64 >> 0u64) & 1 == 0,
        (t & 3) != 0 && (t & 3) != 3 ==> (t & 3) == 1 || (t & 3) == 2,
        v <= 1 ==> (0u64 | ((v as u64) << 0u64)) == v as u64,
{
}

/// A truth table with its variables (the first `arity` of `vars`).
#[derive(Clone, Copy, Debug)]
pub struct SmallTbl {
    pub tbl: u32,
    pub vars: [u32; 5],
    pub arity: u8,
}

impl SmallTbl {
    /// The variables of the table.
    pub open spec fn vs(&self) -> Seq<u32> {
        self.vars@.take(self.arity as int)
    }

    pub open spec fn wf(&self) -> bool {
        self.arity <= 5 && valid_vars(self.vs())
    }

    /// The variables of the table, as a list.
    pub fn var_slice(&self) -> (r: Vec<u32>)
        requires self.arity <= 5,
        ensures r@ == self.vs(),
    {
        let mut r: Vec<u32> = Vec::new();
        let mut i: usize = 0;
        while i < self.arity as usize
            invariant i <= self.arity <= 5, self.vars@.len() == 5, r@ == self.vars@.take(i as int),
            decreases self.arity - i,
        {
            r.push(self.vars[i]);
            assert(r@ =~= self.vars@.take(i as int + 1));
            i = i + 1;
        }
        r
    }
}

/// Is `n` the nid of a real (input) variable?
pub open spec fn is_var_nid(n: NID) -> bool {
    n.n & T == 0 && n.n & VAR != 0 && n.vid_spec().v is Var
}

/// The truth table nid `n` stands for, with its variables.
pub open spec fn fun_of(n: NID) -> NidFun {
    NidFun { nid: n }
}

/// The value of a constant, variable or table nid under an assignment of the
/// input variables (any other nid reads as false).
pub open spec fn nid_val(n: NID, env: spec_fn(u32) -> bool) -> bool {
    if n.n & T != 0 {
        n == nid_i()
    } else if is_var_nid(n) {
        env(n.vid_spec().v->Var_0) != (n.n & INV != 0)
    } else if n.n & F == F {
        tmeans((n.n & IDX_MASK) as u32, fun_of(n).vars_spec(), env) != (n.n & INV != 0)
    } else {
        false
    }
}

/// How many variables a nid has: 0 for a constant, 1 for a variable, the
/// arity of a table, and 6 for anything else.
pub open spec fn quick_arity_spec(n: NID) -> nat {
    if n.n & T != 0 { 0 }
    else if is_var_nid(n) { 1 }
    else if n.n & F == F { fun_of(n).arity_spec() }
    else { 6 }
}

/// Nids that tables can be made from: real variables below `MAX_VAR`, and
/// well-formed tables.
pub open spec fn small_ok(n: NID) -> bool {
    &&& is_var_nid(n) ==> (n.vid_spec().v->Var_0 as int) < MAX_VAR
    &&& (n.n & T == 0 && !is_var_nid(n) && n.n & F == F) ==> fun_of(n).wf()
}

/// Quick arity of a nid (0 for a constant, 1 for a variable, the arity of a
/// table, 6 for anything else).
fn quick_arity(n: NID) -> (r: u8)
    ensures r == quick_arity_spec(n), r <= 6,
{
    if n.is_const() { 0 }
    else if n.is_var() { 1 }
    else if n.is_fun() {
        match n.to_fun() {
            Some(f) => f.arity(),
            None => 6,
        }
    } else { 6 }
}

proof fn lemma_entry_facts(t: u32, u: u32, v: u32, a: nat, i: nat)
    requires a <= 5, i < pow2(a),
    ensures
        entry((t & (tbl_mask_spec(a) as u32)) as u64, a, i) == entry(t as u64, a, i),
        entry((t ^ (tbl_mask_spec(a) as u32)) as u64, a, i) == 1 - entry(t as u64, a, i),
        entry((!t & (tbl_mask_spec(a) as u32)) as u64, a, i) == 1 - entry(t as u64, a, i),
        entry(tbl_mask_spec(a), a, i) == 1,
        entry(0, a, i) == 0,
        (entry((t & u) as u64, a, i) == 1) == (entry(t as u64, a, i) == 1 && entry(u as u64, a, i) == 1),
        (entry((t | u) as u64, a, i) == 1) == (entry(t as u64, a, i) == 1 || entry(u as u64, a, i) == 1),
        (entry((t ^ u) as u64, a, i) == 1) == ((entry(t as u64, a, i) == 1) != (entry(u as u64, a, i) == 1)),
        entry(((t & u) | (!t & v)) as u64, a, i) == if entry(t as u64, a, i) == 1 { entry(u as u64, a, i) } else { entry(v as u64, a, i) },
        entry(t as u64, a, i) <= 1,
{
    lemma_pow2_small(a);
    let w = pow2(a) as u64;
    let sh = (pow2(a) - 1 - i) as u64;
    let m = tbl_mask_spec(a) as u32;
    assert(m as u64 == tbl_mask_spec(a));
    lemma_tbl_bits(t, u, v, m, w, sh);
}

/// The table and variables of a constant, variable or table nid.
/// Returns `None` for other nodes and for virtual variables.
pub fn nid_to_small(n: NID) -> (r: Option<SmallTbl>)
    requires small_ok(n),
    ensures
        r is None <==> quick_arity_spec(n) == 6,
        r matches Some(s) ==> {
            &&& s.wf()
            &&& s.arity == quick_arity_spec(n)
            &&& forall|env: spec_fn(u32) -> bool| #[trigger] tmeans(s.tbl, s.vs(), env) == nid_val(n, env)
        },
{
    proof { lemma_tbl_bits(0, 0, 0, 0, 0, 0); }
    if n.is_const() {
        let s = SmallTbl { tbl: if n == NID::i() { 0xFFFF_FFFF } else { 0 }, vars: [0u32; 5], arity: 0 };
        proof {
            assert(s.vs() =~= Seq::<u32>::empty());
            lemma_pow2_small(0);
        }
        Some(s)
    } else if n.is_var() {
        let vi = n.vid().var_ix() as u32;
        let tbl: u32 = if n.is_inv() { 2 } else { 1 };
        let s = SmallTbl { tbl, vars: [vi, 0, 0, 0, 0], arity: 1 };
        proof {
            assert(s.vs() =~= seq![vi]);
            lemma_pow2_small(1);
            assert forall|env: spec_fn(u32) -> bool| #[trigger] tmeans(s.tbl, s.vs(), env) == nid_val(n, env) by {
                let vs = s.vs();
                assert(vs.drop_last() =~= Seq::<u32>::empty());
                let vv: u32 = if env(vi) { 1u32 } else { 0u32 };
                lemma_tbl_bits(0, 0, vv, 0, 0, 0);
                assert(row(vs.drop_last(), env) == 0);
                assert(vs.last() == vi);
                assert(b2u(env(vi)) == vv as u64);
                assert(row(vs, env) == (0u64 | ((vv as u64) << 0u64)));
                assert(row(vs, env) == b2u(env(vi)));
            }
        }
        Some(s)
    } else if n.is_fun() {
        let f = NidFun { nid: n };
        let (ar, vars) = f.vars();
        let raw = f.tbl();
        let tbl = if n.is_inv() { raw ^ tbl_mask(ar) } else { raw };
        let s = SmallTbl { tbl, vars, arity: ar };
        proof {
            assert(s.vs() == f.vars_spec());
            assert forall|env: spec_fn(u32) -> bool| #[trigger] tmeans(s.tbl, s.vs(), env) == nid_val(n, env) by {
                lemma_row_bound(s.vs(), env);
                lemma_entry_facts(raw, 0, 0, ar as nat, row(s.vs(), env) as nat);
            }
        }
        Some(s)
    } else {
        None
    }
}

/// Align two small tables to a common (merged) variable list.
pub fn align2(a: &SmallTbl, b: &SmallTbl) -> (r: Option<(u32, u32, [u32; 5], u8)>)
    requires a.wf(), b.wf(),
    ensures
        r is None <==> merge(a.vs(), b.vs()).len() > 5,
        r matches Some((ta, tb, vars, len)) ==> {
            &&& len <= 5
            &&& vars@.take(len as int) == merge(a.vs(), b.vs())
            &&& valid_vars(vars@.take(len as int))
            &&& forall|env: spec_fn(u32) -> bool| #[trigger] tmeans(ta, vars@.take(len as int), env) == tmeans(a.tbl, a.vs(), env)
            &&& forall|env: spec_fn(u32) -> bool| #[trigger] tmeans(tb, vars@.take(len as int), env) == tmeans(b.tbl, b.vs(), env)
        },
{
    let va = a.var_slice();
    let vb = b.var_slice();
    match merge_small(&va, &vb) {
        None => None,
        Some((vars, len)) => {
            let dst = SmallTbl { tbl: 0, vars, arity: len }.var_slice();
            proof { lemma_merged_valid(a.vs(), b.vs()); }
            let ta = expand_table(a.tbl, &va, &dst);
            let tb = expand_table(b.tbl, &vb, &dst);
            Some((ta, tb, vars, len))
        },
    }
}

/// The merge of two valid variable lists (when short enough) is valid, and
/// holds each of them.
proof fn lemma_merged_valid(a: Seq<u32>, b: Seq<u32>)
    requires valid_vars(a), valid_vars(b),
    ensures
        merge(a, b).len() <= 5 ==> valid_vars(merge(a, b)),
        forall|k: int| 0 <= k < a.len() ==> merge(a, b).contains(#[trigger] a[k]),
        forall|k: int| 0 <= k < b.len() ==> merge(a, b).contains(#[trigger] b[k]),
{
    lemma_merge(a, b);
    assert forall|k: int| 0 <= k < merge(a, b).len() implies (#[trigger] merge(a, b)[k] as int) < MAX_VAR by {
        let x = merge(a, b)[k];
        assert(merge(a, b).contains(x));
        if a.contains(x) {
            let j = choose|j: int| 0 <= j < a.len() && a[j] == x;
        } else {
            let j = choose|j: int| 0 <= j < b.len() && b[j] == x;
        }
    }
    assert forall|k: int| 0 <= k < a.len() implies merge(a, b).contains(#[trigger] a[k]) by {
        assert(a.contains(a[k]));
    }
    assert forall|k: int| 0 <= k < b.len() implies merge(a, b).contains(#[trigger] b[k]) by {
        assert(b.contains(b[k]));
    }
}


/// Align three small tables to a common (merged) variable list.
pub fn align3(a: &SmallTbl, b: &SmallTbl, c: &SmallTbl) -> (r: Option<(u32, u32, u32, [u32; 5], u8)>)
    requires a.wf(), b.wf(), c.wf(),
    ensures
        r is None <==> (merge(a.vs(), b.vs()).len() > 5 || merge(merge(a.vs(), b.vs()), c.vs()).len() > 5),
        r matches Some((ta, tb, tc, vars, len)) ==> {
            &&& len <= 5
            &&& vars@.take(len as int) == merge(merge(a.vs(), b.vs()), c.vs())
            &&& valid_vars(vars@.take(len as int))
            &&& forall|env: spec_fn(u32) -> bool| #[trigger] tmeans(ta, vars@.take(len as int), env) == tmeans(a.tbl, a.vs(), env)
            &&& forall|env: spec_fn(u32) -> bool| #[trigger] tmeans(tb, vars@.take(len as int), env) == tmeans(b.tbl, b.vs(), env)
            &&& forall|env: spec_fn(u32) -> bool| #[trigger] tmeans(tc, vars@.take(len as int), env) == tmeans(c.tbl, c.vs(), env)
        },
{
    let va = a.var_slice();
    let vb = b.var_slice();
    let vc = c.var_slice();
    let (ab_vars, ab_len) = match merge_small(&va, &vb) {
        None => { return None; },
        Some(m) => m,
    };
    let vab = SmallTbl { tbl: 0, vars: ab_vars, arity: ab_len }.var_slice();
    proof { lemma_merged_valid(a.vs(), b.vs()); }
    let (vars, len) = match merge_small(&vab, &vc) {
        None => { return None; },
        Some(m) => m,
    };
    let dst = SmallTbl { tbl: 0, vars, arity: len }.var_slice();
    proof {
        let ab = merge(a.vs(), b.vs());
        lemma_merged_valid(ab, c.vs());
        assert forall|k: int| 0 <= k < a.vs().len() implies dst@.contains(#[trigger] a.vs()[k]) by {
            assert(ab.contains(a.vs()[k]));
            let j = choose|j: int| 0 <= j < ab.len() && ab[j] == a.vs()[k];
            assert(dst@.contains(ab[j]));
        }
        assert forall|k: int| 0 <= k < b.vs().len() implies dst@.contains(#[trigger] b.vs()[k]) by {
            assert(ab.contains(b.vs()[k]));
            let j = choose|j: int| 0 <= j < ab.len() && ab[j] == b.vs()[k];
            assert(dst@.contains(ab[j]));
        }
    }
    let ta = expand_table(a.tbl, &va, &dst);
    let tb = expand_table(b.tbl, &vb, &dst);
    let tc = expand_table(c.tbl, &vc, &dst);
    Some((ta, tb, tc, vars, len))
}

// ---- building nids from truth tables ----

/// The nid of variable `v`.
pub open spec fn var_nid(v: u32) -> NID {
    NID::from_vid_spec(VID { v: VidEnum::Var(v) })
}

/// A function that two assignments differing at `v` give the same value is
/// no literal of `v`.
proof fn lemma_no_literal(tbl: u32, vars: Seq<u32>, v: u32, pos: bool, e0: spec_fn(u32) -> bool, e1: spec_fn(u32) -> bool)
    requires
        tmeans(tbl, vars, e0) == tmeans(tbl, vars, e1),
        e0(v) != e1(v),
    ensures !forall|env: spec_fn(u32) -> bool| #[trigger] tmeans(tbl, vars, env) == (env(v) == pos),
{
    if forall|env: spec_fn(u32) -> bool| #[trigger] tmeans(tbl, vars, env) == (env(v) == pos) {
        assert(tmeans(tbl, vars, e0) == (e0(v) == pos));
        assert(tmeans(tbl, vars, e1) == (e1(v) == pos));
    }
}

/// A function that changes with `w` is a literal of no other variable.
proof fn lemma_literal_var(tbl: u32, vars: Seq<u32>, v: u32, pos: bool, w: u32)
    requires
        depends(tbl, vars, w),
        forall|env: spec_fn(u32) -> bool| #[trigger] tmeans(tbl, vars, env) == (env(v) == pos),
    ensures v == w,
{
    let env = choose|env: spec_fn(u32) -> bool| #[trigger] tmeans(tbl, vars, set_var(env, w, true)) != tmeans(tbl, vars, set_var(env, w, false));
    let e1 = set_var(env, w, true);
    let e0 = set_var(env, w, false);
    assert(tmeans(tbl, vars, e1) == (e1(v) == pos));
    assert(tmeans(tbl, vars, e0) == (e0(v) == pos));
}

/// Build a nid from a truth table (MSB-first) and its variables, normalising:
/// - variables the table ignores are dropped,
/// - all-zero gives O, all-ones gives I,
/// - a single variable gives its nid (or its inverse),
/// - otherwise a table nid, stored inverted when entry 0 is set (so that the
///   stored table has entry 0 clear).
pub fn make_table_nid(tbl: u32, vars: &[u32]) -> (r: NID)
    requires valid_vars(vars@),
    ensures
        small_ok(r),
        quick_arity_spec(r) <= vars@.len(),
        forall|env: spec_fn(u32) -> bool| #[trigger] nid_val(r, env) == tmeans(tbl, vars@, env),
        (forall|env: spec_fn(u32) -> bool| !#[trigger] tmeans(tbl, vars@, env)) ==> r == nid_o(),
        (forall|env: spec_fn(u32) -> bool| #[trigger] tmeans(tbl, vars@, env)) ==> r == nid_i(),
        forall|v: u32| #![trigger var_nid(v)]
            (forall|env: spec_fn(u32) -> bool| #[trigger] tmeans(tbl, vars@, env) == env(v)) ==> r == var_nid(v),
        forall|v: u32| #![trigger var_nid(v)]
            (forall|env: spec_fn(u32) -> bool| #[trigger] tmeans(tbl, vars@, env) == !env(v)) ==> r == crate::simp::not_spec(var_nid(v)),
{
    proof {
        crate::bits::lemma_constants();
        lemma_tbl_bits(tbl, 0, 0, 0, 0, 0);
    }
    if vars.len() == 0 {
        proof {
            lemma_pow2_small(0);
            assert forall|env: spec_fn(u32) -> bool| #[trigger] tmeans(tbl, vars@, env) == (tbl & 1 != 0) by {
                assert(row(vars@, env) == 0);
            }
            let e0 = |u: u32| false;
            assert(tmeans(tbl, vars@, e0) == (tbl & 1 != 0));
        assert forall|v: u32| #![trigger var_nid(v)]
            (forall|env: spec_fn(u32) -> bool| #[trigger] tmeans(tbl, vars@, env) == env(v)) implies (if tbl & 1 == 0 { nid_o() } else { nid_i() }) == var_nid(v) by {
            assert forall|env: spec_fn(u32) -> bool| #[trigger] tmeans(tbl, vars@, env) == (env(v) == true) by {}
            let pos = true;
            let e0 = |u: u32| false;
            let e1 = |u: u32| true;
            assert(tmeans(tbl, vars@, e0) == (tbl & 1 != 0));
            assert(tmeans(tbl, vars@, e1) == (tbl & 1 != 0));
            lemma_no_literal(tbl, vars@, v, pos, e0, e1);
        }
        assert forall|v: u32| #![trigger var_nid(v)]
            (forall|env: spec_fn(u32) -> bool| #[trigger] tmeans(tbl, vars@, env) == !env(v)) implies (if tbl & 1 == 0 { nid_o() } else { nid_i() }) == crate::simp::not_spec(var_nid(v)) by {
            assert forall|env: spec_fn(u32) -> bool| #[trigger] tmeans(tbl, vars@, env) == (env(v) == false) by {}
            let pos = false;
            let e0 = |u: u32| false;
            let e1 = |u: u32| true;
            assert(tmeans(tbl, vars@, e0) == (tbl & 1 != 0));
            assert(tmeans(tbl, vars@, e1) == (tbl & 1 != 0));
            lemma_no_literal(tbl, vars@, v, pos, e0, e1);
        }
        }
        return if tbl & 1 == 0 { NID::o() } else { NID::i() };
    }
    let (t, vs) = strip_unused_vars(tbl, vars);
    let arity = vs.len() as u8;
    let mask = tbl_mask(arity);
    let effective = t & mask;
    proof {
        lemma_pow2_small(arity as nat);
    }
    assert forall|env: spec_fn(u32) -> bool| #[trigger] tmeans(effective, vs@, env) == tmeans(tbl, vars@, env) by {
        lemma_row_bound(vs@, env);
        lemma_entry_facts(t, 0, 0, arity as nat, row(vs@, env) as nat);
        assert(tmeans(t, vs@, env) == tmeans(tbl, vars@, env));
    }
    if effective == 0 {
        proof {
            assert forall|env: spec_fn(u32) -> bool| #[trigger] nid_val(nid_o(), env) == tmeans(tbl, vars@, env) by {
                lemma_row_bound(vs@, env);
                lemma_entry_facts(0, 0, 0, arity as nat, row(vs@, env) as nat);
                assert(tmeans(effective, vs@, env) == tmeans(tbl, vars@, env));
            }
            let e0 = |u: u32| false;
            assert(nid_val(nid_o(), e0) == tmeans(tbl, vars@, e0));
        assert forall|v: u32| #![trigger var_nid(v)]
            (forall|env: spec_fn(u32) -> bool| #[trigger] tmeans(tbl, vars@, env) == env(v)) implies nid_o() == var_nid(v) by {
            assert forall|env: spec_fn(u32) -> bool| #[trigger] tmeans(tbl, vars@, env) == (env(v) == true) by {}
            let pos = true;
            let e0 = |u: u32| false;
            let e1 = |u: u32| true;
            assert(nid_val(nid_o(), e0) == tmeans(tbl, vars@, e0));
            assert(nid_val(nid_o(), e1) == tmeans(tbl, vars@, e1));
            lemma_no_literal(tbl, vars@, v, pos, e0, e1);
        }
        assert forall|v: u32| #![trigger var_nid(v)]
            (forall|env: spec_fn(u32) -> bool| #[trigger] tmeans(tbl, vars@, env) == !env(v)) implies nid_o() == crate::simp::not_spec(var_nid(v)) by {
            assert forall|env: spec_fn(u32) -> bool| #[trigger] tmeans(tbl, vars@, env) == (env(v) == false) by {}
            let pos = false;
            let e0 = |u: u32| false;
            let e1 = |u: u32| true;
            assert(nid_val(nid_o(), e0) == tmeans(tbl, vars@, e0));
            assert(nid_val(nid_o(), e1) == tmeans(tbl, vars@, e1));
            lemma_no_literal(tbl, vars@, v, pos, e0, e1);
        }
        }
        return NID::o();
    }
    if effective == mask {
        proof {
            assert forall|env: spec_fn(u32) -> bool| #[trigger] nid_val(nid_i(), env) == tmeans(tbl, vars@, env) by {
                lemma_row_bound(vs@, env);
                lemma_entry_facts(0, 0, 0, arity as nat, row(vs@, env) as nat);
                assert(tmeans(effective, vs@, env) == tmeans(tbl, vars@, env));
            }
            let e0 = |u: u32| false;
            assert(nid_val(nid_i(), e0) == tmeans(tbl, vars@, e0));
        assert forall|v: u32| #![trigger var_nid(v)]
            (forall|env: spec_fn(u32) -> bool| #[trigger] tmeans(tbl, vars@, env) == env(v)) implies nid_i() == var_nid(v) by {
            assert forall|env: spec_fn(u32) -> bool| #[trigger] tmeans(tbl, vars@, env) == (env(v) == true) by {}
            let pos = true;
            let e0 = |u: u32| false;
            let e1 = |u: u32| true;
            assert(nid_val(nid_i(), e0) == tmeans(tbl, vars@, e0));
            assert(nid_val(nid_i(), e1) == tmeans(tbl, vars@, e1));
            lemma_no_literal(tbl, vars@, v, pos, e0, e1);
        }
        assert forall|v: u32| #![trigger var_nid(v)]
            (forall|env: spec_fn(u32) -> bool| #[trigger] tmeans(tbl, vars@, env) == !env(v)) implies nid_i() == crate::simp::not_spec(var_nid(v)) by {
            assert forall|env: spec_fn(u32) -> bool| #[trigger] tmeans(tbl, vars@, env) == (env(v) == false) by {}
            let pos = false;
            let e0 = |u: u32| false;
            let e1 = |u: u32| true;
            assert(nid_val(nid_i(), e0) == tmeans(tbl, vars@, e0));
            assert(nid_val(nid_i(), e1) == tmeans(tbl, vars@, e1));
            lemma_no_literal(tbl, vars@, v, pos, e0, e1);
        }
        }
        return NID::i();
    }
    proof {
        let m = mask;
        lemma_mask_facts(0, 0, t, m);
        lemma_mask_facts(0, 0, effective, m);
        lemma_mask_facts(0, 0, !effective, m);
        lemma_table_hit(effective, vs@);
        let inv_tbl = !effective & m;
        lemma_table_hit(inv_tbl, vs@);
        let e1 = choose|env: spec_fn(u32) -> bool| #[trigger] tmeans(effective, vs@, env);
        let e0 = choose|env: spec_fn(u32) -> bool| #[trigger] tmeans(inv_tbl, vs@, env);
        lemma_row_bound(vs@, e0);
        assert(vs@.len() <= 5);
        assert(m == (tbl_mask_spec(arity as nat) as u32));
        lemma_entry_facts(effective, 0, 0, arity as nat, row(vs@, e0) as nat);
        assert(entry(inv_tbl as u64, arity as nat, row(vs@, e0) as nat) == 1);
        assert(!tmeans(effective, vs@, e0));
        assert(tmeans(tbl, vars@, e1));
        assert(!tmeans(tbl, vars@, e0));
    }
    if arity == 1 {
        let v = VID::var(vs[0]);
        let x = NID::from_vid(v);
        proof {
            lemma_tbl_bits(t, 0, 0, 0, 0, 0);
            assert(effective == 1 || effective == 2);
            crate::nid::lemma_neg_fields(x);
        }
        let r = if effective == 1 { x } else { crate::nid::negate(x) };
        proof {
            assert forall|env: spec_fn(u32) -> bool| #[trigger] nid_val(r, env) == tmeans(tbl, vars@, env) by {
                let w = vs@;
                assert(w.drop_last() =~= Seq::<u32>::empty());
                let vv: u32 = if env(w[0]) { 1u32 } else { 0u32 };
                lemma_tbl_bits(0, 0, vv, 0, 0, 0);
                assert(b2u(env(w[0])) == vv as u64);
                assert(w.last() == w[0]);
                assert(row(w.drop_last(), env) == 0);
                assert(row(w, env) == (0u64 | ((vv as u64) << 0u64)));
                assert(tmeans(effective, vs@, env) == tmeans(tbl, vars@, env));
            }
        assert forall|v: u32| #![trigger var_nid(v)]
            (forall|env: spec_fn(u32) -> bool| #[trigger] tmeans(tbl, vars@, env) == env(v)) implies r == var_nid(v) by {
            assert forall|env: spec_fn(u32) -> bool| #[trigger] tmeans(tbl, vars@, env) == (env(v) == true) by {}
            let pos = true;
            let w = vs@[0];
            let e = |u: u32| u == v;
            let t = |u: u32| true;
            assert(nid_val(r, e) == tmeans(tbl, vars@, e));
            assert(nid_val(r, t) == tmeans(tbl, vars@, t));
            assert(x == var_nid(w));
        }
        assert forall|v: u32| #![trigger var_nid(v)]
            (forall|env: spec_fn(u32) -> bool| #[trigger] tmeans(tbl, vars@, env) == !env(v)) implies r == crate::simp::not_spec(var_nid(v)) by {
            assert forall|env: spec_fn(u32) -> bool| #[trigger] tmeans(tbl, vars@, env) == (env(v) == false) by {}
            let pos = false;
            let w = vs@[0];
            let e = |u: u32| u == v;
            let t = |u: u32| true;
            assert(nid_val(r, e) == tmeans(tbl, vars@, e));
            assert(nid_val(r, t) == tmeans(tbl, vars@, t));
            assert(x == var_nid(w));
        }
        }
        return r;
    }
    proof {
        if arity == 0 {
            assert(effective == 0 || effective == 1) by (bit_vector)
                requires effective == t & 1u32;
        }
        assert(arity >= 2);
    }
    let n = n_entries(arity);
    if (effective >> (n - 1)) & 1 == 1 {
        let inv_tbl = !effective & mask;
        let f = NID::fun_with_vars(vs.as_slice(), inv_tbl);
        let r = crate::nid::negate(f.to_nid());
        proof {
            crate::comb::lemma_encode_range(vs@);
            crate::nid::lemma_fun_fields(crate::comb::encode_spec(vs@) as u64, arity as nat, inv_tbl);
            crate::nid::lemma_neg_fields(f.nid);
            crate::bits::lemma_word(inv_tbl as u64, 0);
            assert(fun_of(r).vars_spec() == f.vars_spec());
            assert forall|env: spec_fn(u32) -> bool| #[trigger] nid_val(r, env) == tmeans(tbl, vars@, env) by {
                lemma_row_bound(vs@, env);
                lemma_entry_facts(effective, 0, 0, arity as nat, row(vs@, env) as nat);
                lemma_entry_facts(inv_tbl, 0, 0, arity as nat, row(vs@, env) as nat);
                assert(tmeans(effective, vs@, env) == tmeans(tbl, vars@, env));
            }
        }
        proof {
        assert forall|v: u32| #![trigger var_nid(v)]
            (forall|env: spec_fn(u32) -> bool| #[trigger] tmeans(tbl, vars@, env) == env(v)) implies r == var_nid(v) by {
            assert forall|env: spec_fn(u32) -> bool| #[trigger] tmeans(tbl, vars@, env) == (env(v) == true) by {}
            lemma_literal_var(tbl, vars@, v, true, vs@[0]);
            lemma_literal_var(tbl, vars@, v, true, vs@[1]);
            assert(vs@[0] < vs@[1]);
        }
        assert forall|v: u32| #![trigger var_nid(v)]
            (forall|env: spec_fn(u32) -> bool| #[trigger] tmeans(tbl, vars@, env) == !env(v)) implies r == crate::simp::not_spec(var_nid(v)) by {
            assert forall|env: spec_fn(u32) -> bool| #[trigger] tmeans(tbl, vars@, env) == (env(v) == false) by {}
            lemma_literal_var(tbl, vars@, v, false, vs@[0]);
            lemma_literal_var(tbl, vars@, v, false, vs@[1]);
            assert(vs@[0] < vs@[1]);
        }
        }
        return r;
    }
    let f = NID::fun_with_vars(vs.as_slice(), effective);
    let r = f.to_nid();
    proof {
        crate::comb::lemma_encode_range(vs@);
        crate::nid::lemma_fun_fields(crate::comb::encode_spec(vs@) as u64, arity as nat, effective);
        assert forall|env: spec_fn(u32) -> bool| #[trigger] nid_val(r, env) == tmeans(tbl, vars@, env) by {
            lemma_row_bound(vs@, env);
            lemma_entry_facts(effective, 0, 0, arity as nat, row(vs@, env) as nat);
            assert(tmeans(effective, vs@, env) == tmeans(tbl, vars@, env));
        }
    }
    proof {
        assert forall|v: u32| #![trigger var_nid(v)]
            (forall|env: spec_fn(u32) -> bool| #[trigger] tmeans(tbl, vars@, env) == env(v)) implies r == var_nid(v) by {
            assert forall|env: spec_fn(u32) -> bool| #[trigger] tmeans(tbl, vars@, env) == (env(v) == true) by {}
            lemma_literal_var(tbl, vars@, v, true, vs@[0]);
            lemma_literal_var(tbl, vars@, v, true, vs@[1]);
            assert(vs@[0] < vs@[1]);
        }
        assert forall|v: u32| #![trigger var_nid(v)]
            (forall|env: spec_fn(u32) -> bool| #[trigger] tmeans(tbl, vars@, env) == !env(v)) implies r == crate::simp::not_spec(var_nid(v)) by {
            assert forall|env: spec_fn(u32) -> bool| #[trigger] tmeans(tbl, vars@, env) == (env(v) == false) by {}
            lemma_literal_var(tbl, vars@, v, false, vs@[0]);
            lemma_literal_var(tbl, vars@, v, false, vs@[1]);
            assert(vs@[0] < vs@[1]);
        }
    }
    r
}


/// The nid for the table of `f` over the given variables (see `make_table_nid`).
pub fn nidfun_to_nid(f: &NidFun, vars: &[u32]) -> (r: NID)
    requires f.nid.n & F == F, valid_vars(vars@),
    ensures
        small_ok(r),
        quick_arity_spec(r) <= vars@.len(),
        forall|env: spec_fn(u32) -> bool| #[trigger] nid_val(r, env) == tmeans(f.tbl_spec(), vars@, env),
{
    make_table_nid(f.tbl(), vars)
}

// ---- table-level operations ----

/// The two nids as small tables over their merged variables, when the merged
/// list is short enough.
fn small_pair(x: NID, y: NID) -> (r: Option<(u32, u32, Vec<u32>)>)
    requires small_ok(x), small_ok(y),
    ensures
        r is None <==> quick_arity_spec(x) + quick_arity_spec(y) > 5,
        r matches Some((tx, ty, vs)) ==> {
            &&& valid_vars(vs@)
            &&& forall|env: spec_fn(u32) -> bool| #[trigger] tmeans(tx, vs@, env) == nid_val(x, env)
            &&& forall|env: spec_fn(u32) -> bool| #[trigger] tmeans(ty, vs@, env) == nid_val(y, env)
        },
{
    if quick_arity(x) + quick_arity(y) > 5 {
        return None;
    }
    let a = match nid_to_small(x) { Some(a) => a, None => { return None; } };
    let b = match nid_to_small(y) { Some(b) => b, None => { return None; } };
    proof { lemma_merge(a.vs(), b.vs()); }
    let (ta, tb, vars, len) = match align2(&a, &b) { Some(t) => t, None => { return None; } };
    let vs = SmallTbl { tbl: 0, vars, arity: len }.var_slice();
    Some((ta, tb, vs))
}

/// Compute AND of two nids entirely via truth tables. `None` when the two
/// together have more than 5 variables (or are not constants, variables or
/// tables).
pub fn table_and(x: NID, y: NID) -> (r: Option<NID>)
    requires small_ok(x), small_ok(y),
    ensures
        r is None <==> quick_arity_spec(x) + quick_arity_spec(y) > 5,
        r matches Some(n) ==> small_ok(n)
            && forall|env: spec_fn(u32) -> bool| #[trigger] nid_val(n, env) == (nid_val(x, env) && nid_val(y, env)),
        r matches Some(n) ==> ((forall|env: spec_fn(u32) -> bool| !#[trigger] nid_val(n, env)) ==> n == nid_o()),
        r matches Some(n) ==> ((forall|env: spec_fn(u32) -> bool| #[trigger] nid_val(n, env)) ==> n == nid_i()),
        r matches Some(n) ==> forall|v: u32| #![trigger var_nid(v)]
            (forall|env: spec_fn(u32) -> bool| #[trigger] nid_val(n, env) == env(v)) ==> n == var_nid(v),
        r matches Some(n) ==> forall|v: u32| #![trigger var_nid(v)]
            (forall|env: spec_fn(u32) -> bool| #[trigger] nid_val(n, env) == !env(v)) ==> n == crate::simp::not_spec(var_nid(v)),
{
    let (ta, tb, vs) = match small_pair(x, y) { Some(p) => p, None => { return None; } };
    let n = make_table_nid(ta & tb, &vs);
    proof {
        assert forall|env: spec_fn(u32) -> bool| #[trigger] nid_val(n, env) == (nid_val(x, env) && nid_val(y, env)) by {
            lemma_row_bound(vs@, env);
            lemma_entry_facts(ta, tb, 0, vs@.len(), row(vs@, env) as nat);
            assert(tmeans(ta, vs@, env) == nid_val(x, env));
            assert(tmeans(tb, vs@, env) == nid_val(y, env));
            assert(nid_val(n, env) == tmeans(ta & tb, vs@, env));
        }
    }
    proof {
        if forall|env: spec_fn(u32) -> bool| !#[trigger] nid_val(n, env) {
            assert forall|env: spec_fn(u32) -> bool| !#[trigger] tmeans(ta & tb, vs@, env) by {
                assert(!nid_val(n, env));
            }
        }
        if forall|env: spec_fn(u32) -> bool| #[trigger] nid_val(n, env) {
            assert forall|env: spec_fn(u32) -> bool| #[trigger] tmeans(ta & tb, vs@, env) by {
                assert(nid_val(n, env));
            }
        }
    }
    proof {
        assert forall|v: u32| #![trigger var_nid(v)]
            (forall|env: spec_fn(u32) -> bool| #[trigger] nid_val(n, env) == env(v)) implies n == var_nid(v) by {
            assert forall|env: spec_fn(u32) -> bool| #[trigger] tmeans(ta & tb, vs@, env) == env(v) by {
                assert(nid_val(n, env) == env(v));
            }
        }
        assert forall|v: u32| #![trigger var_nid(v)]
            (forall|env: spec_fn(u32) -> bool| #[trigger] nid_val(n, env) == !env(v)) implies n == crate::simp::not_spec(var_nid(v)) by {
            assert forall|env: spec_fn(u32) -> bool| #[trigger] tmeans(ta & tb, vs@, env) == !env(v) by {
                assert(nid_val(n, env) == !env(v));
            }
        }
    }
    Some(n)
}

/// Compute XOR of two nids entirely via truth tables.
pub fn table_xor(x: NID, y: NID) -> (r: Option<NID>)
    requires small_ok(x), small_ok(y),
    ensures
        r is None <==> quick_arity_spec(x) + quick_arity_spec(y) > 5,
        r matches Some(n) ==> small_ok(n)
            && forall|env: spec_fn(u32) -> bool| #[trigger] nid_val(n, env) == (nid_val(x, env) != nid_val(y, env)),
        r matches Some(n) ==> ((forall|env: spec_fn(u32) -> bool| !#[trigger] nid_val(n, env)) ==> n == nid_o()),
        r matches Some(n) ==> ((forall|env: spec_fn(u32) -> bool| #[trigger] nid_val(n, env)) ==> n == nid_i()),
        r matches Some(n) ==> forall|v: u32| #![trigger var_nid(v)]
            (forall|env: spec_fn(u32) -> bool| #[trigger] nid_val(n, env) == env(v)) ==> n == var_nid(v),
        r matches Some(n) ==> forall|v: u32| #![trigger var_nid(v)]
            (forall|env: spec_fn(u32) -> bool| #[trigger] nid_val(n, env) == !env(v)) ==> n == crate::simp::not_spec(var_nid(v)),
{
    let (ta, tb, vs) = match small_pair(x, y) { Some(p) => p, None => { return None; } };
    let n = make_table_nid(ta ^ tb, &vs);
    proof {
        assert forall|env: spec_fn(u32) -> bool| #[trigger] nid_val(n, env) == (nid_val(x, env) != nid_val(y, env)) by {
            lemma_row_bound(vs@, env);
            lemma_entry_facts(ta, tb, 0, vs@.len(), row(vs@, env) as nat);
            lemma_entry_facts(tb, ta, 0, vs@.len(), row(vs@, env) as nat);
            assert(tmeans(ta, vs@, env) == nid_val(x, env));
            assert(tmeans(tb, vs@, env) == nid_val(y, env));
            assert(nid_val(n, env) == tmeans(ta ^ tb, vs@, env));
        }
    }
    proof {
        if forall|env: spec_fn(u32) -> bool| !#[trigger] nid_val(n, env) {
            assert forall|env: spec_fn(u32) -> bool| !#[trigger] tmeans(ta ^ tb, vs@, env) by {
                assert(!nid_val(n, env));
            }
        }
        if forall|env: spec_fn(u32) -> bool| #[trigger] nid_val(n, env) {
            assert forall|env: spec_fn(u32) -> bool| #[trigger] tmeans(ta ^ tb, vs@, env) by {
                assert(nid_val(n, env));
            }
        }
    }
    proof {
        assert forall|v: u32| #![trigger var_nid(v)]
            (forall|env: spec_fn(u32) -> bool| #[trigger] nid_val(n, env) == env(v)) implies n == var_nid(v) by {
            assert forall|env: spec_fn(u32) -> bool| #[trigger] tmeans(ta ^ tb, vs@, env) == env(v) by {
                assert(nid_val(n, env) == env(v));
            }
        }
        assert forall|v: u32| #![trigger var_nid(v)]
            (forall|env: spec_fn(u32) -> bool| #[trigger] nid_val(n, env) == !env(v)) implies n == crate::simp::not_spec(var_nid(v)) by {
            assert forall|env: spec_fn(u32) -> bool| #[trigger] tmeans(ta ^ tb, vs@, env) == !env(v) by {
                assert(nid_val(n, env) == !env(v));
            }
        }
    }
    Some(n)
}

/// Compute OR of two nids entirely via truth tables.
pub fn table_or(x: NID, y: NID) -> (r: Option<NID>)
    requires small_ok(x), small_ok(y),
    ensures
        r is None <==> quick_arity_spec(x) + quick_arity_spec(y) > 5,
        r matches Some(n) ==> small_ok(n)
            && forall|env: spec_fn(u32) -> bool| #[trigger] nid_val(n, env) == (nid_val(x, env) || nid_val(y, env)),
        r matches Some(n) ==> ((forall|env: spec_fn(u32) -> bool| !#[trigger] nid_val(n, env)) ==> n == nid_o()),
        r matches Some(n) ==> ((forall|env: spec_fn(u32) -> bool| #[trigger] nid_val(n, env)) ==> n == nid_i()),
        r matches Some(n) ==> forall|v: u32| #![trigger var_nid(v)]
            (forall|env: spec_fn(u32) -> bool| #[trigger] nid_val(n, env) == env(v)) ==> n == var_nid(v),
        r matches Some(n) ==> forall|v: u32| #![trigger var_nid(v)]
            (forall|env: spec_fn(u32) -> bool| #[trigger] nid_val(n, env) == !env(v)) ==> n == crate::simp::not_spec(var_nid(v)),
{
    let (ta, tb, vs) = match small_pair(x, y) { Some(p) => p, None => { return None; } };
    let n = make_table_nid(ta | tb, &vs);
    proof {
        assert forall|env: spec_fn(u32) -> bool| #[trigger] nid_val(n, env) == (nid_val(x, env) || nid_val(y, env)) by {
            lemma_row_bound(vs@, env);
            lemma_entry_facts(ta, tb, 0, vs@.len(), row(vs@, env) as nat);
            lemma_entry_facts(tb, ta, 0, vs@.len(), row(vs@, env) as nat);
            assert(tmeans(ta, vs@, env) == nid_val(x, env));
            assert(tmeans(tb, vs@, env) == nid_val(y, env));
            assert(nid_val(n, env) == tmeans(ta | tb, vs@, env));
        }
    }
    proof {
        if forall|env: spec_fn(u32) -> bool| !#[trigger] nid_val(n, env) {
            assert forall|env: spec_fn(u32) -> bool| !#[trigger] tmeans(ta | tb, vs@, env) by {
                assert(!nid_val(n, env));
            }
        }
        if forall|env: spec_fn(u32) -> bool| #[trigger] nid_val(n, env) {
            assert forall|env: spec_fn(u32) -> bool| #[trigger] tmeans(ta | tb, vs@, env) by {
                assert(nid_val(n, env));
            }
        }
    }
    proof {
        assert forall|v: u32| #![trigger var_nid(v)]
            (forall|env: spec_fn(u32) -> bool| #[trigger] nid_val(n, env) == env(v)) implies n == var_nid(v) by {
            assert forall|env: spec_fn(u32) -> bool| #[trigger] tmeans(ta | tb, vs@, env) == env(v) by {
                assert(nid_val(n, env) == env(v));
            }
        }
        assert forall|v: u32| #![trigger var_nid(v)]
            (forall|env: spec_fn(u32) -> bool| #[trigger] nid_val(n, env) == !env(v)) implies n == crate::simp::not_spec(var_nid(v)) by {
            assert forall|env: spec_fn(u32) -> bool| #[trigger] tmeans(ta | tb, vs@, env) == !env(v) by {
                assert(nid_val(n, env) == !env(v));
            }
        }
    }
    Some(n)
}

/// Compute ITE(i, t, e) entirely via truth tables.
pub fn table_ite(i: NID, t: NID, e: NID) -> (r: Option<NID>)
    requires small_ok(i), small_ok(t), small_ok(e),
    ensures
        r is None <==> quick_arity_spec(i) + quick_arity_spec(t) + quick_arity_spec(e) > 5,
        r matches Some(n) ==> small_ok(n)
            && forall|env: spec_fn(u32) -> bool| #[trigger] nid_val(n, env)
                == (if nid_val(i, env) { nid_val(t, env) } else { nid_val(e, env) }),
        r matches Some(n) ==> ((forall|env: spec_fn(u32) -> bool| !#[trigger] nid_val(n, env)) ==> n == nid_o()),
        r matches Some(n) ==> ((forall|env: spec_fn(u32) -> bool| #[trigger] nid_val(n, env)) ==> n == nid_i()),
        r matches Some(n) ==> forall|v: u32| #![trigger var_nid(v)]
            (forall|env: spec_fn(u32) -> bool| #[trigger] nid_val(n, env) == env(v)) ==> n == var_nid(v),
        r matches Some(n) ==> forall|v: u32| #![trigger var_nid(v)]
            (forall|env: spec_fn(u32) -> bool| #[trigger] nid_val(n, env) == !env(v)) ==> n == crate::simp::not_spec(var_nid(v)),
{
    if quick_arity(i) + quick_arity(t) + quick_arity(e) > 5 {
        return None;
    }
    let si = match nid_to_small(i) { Some(s) => s, None => { return None; } };
    let st = match nid_to_small(t) { Some(s) => s, None => { return None; } };
    let se = match nid_to_small(e) { Some(s) => s, None => { return None; } };
    proof {
        lemma_merge(si.vs(), st.vs());
        lemma_merged_valid(si.vs(), st.vs());
        lemma_merge(merge(si.vs(), st.vs()), se.vs());
    }
    let (ti, tt, te, vars, len) = match align3(&si, &st, &se) { Some(a) => a, None => { return None; } };
    let vs = SmallTbl { tbl: 0, vars, arity: len }.var_slice();
    let n = make_table_nid((ti & tt) | (!ti & te), &vs);
    proof {
        assert forall|env: spec_fn(u32) -> bool| #[trigger] nid_val(n, env)
            == (if nid_val(i, env) { nid_val(t, env) } else { nid_val(e, env) }) by {
            lemma_row_bound(vs@, env);
            lemma_entry_facts(ti, tt, te, vs@.len(), row(vs@, env) as nat);
            assert(tmeans(ti, vs@, env) == nid_val(i, env));
            assert(tmeans(tt, vs@, env) == nid_val(t, env));
            assert(tmeans(te, vs@, env) == nid_val(e, env));
            assert(nid_val(n, env) == tmeans((ti & tt) | (!ti & te), vs@, env));
        }
    }
    proof {
        if forall|env: spec_fn(u32) -> bool| !#[trigger] nid_val(n, env) {
            assert forall|env: spec_fn(u32) -> bool| !#[trigger] tmeans((ti & tt) | (!ti & te), vs@, env) by {
                assert(!nid_val(n, env));
            }
        }
        if forall|env: spec_fn(u32) -> bool| #[trigger] nid_val(n, env) {
            assert forall|env: spec_fn(u32) -> bool| #[trigger] tmeans((ti & tt) | (!ti & te), vs@, env) by {
                assert(nid_val(n, env));
            }
        }
    }
    proof {
        assert forall|v: u32| #![trigger var_nid(v)]
            (forall|env: spec_fn(u32) -> bool| #[trigger] nid_val(n, env) == env(v)) implies n == var_nid(v) by {
            assert forall|env: spec_fn(u32) -> bool| #[trigger] tmeans((ti & tt) | (!ti & te), vs@, env) == env(v) by {
                assert(nid_val(n, env) == env(v));
            }
        }
        assert forall|v: u32| #![trigger var_nid(v)]
            (forall|env: spec_fn(u32) -> bool| #[trigger] nid_val(n, env) == !env(v)) implies n == crate::simp::not_spec(var_nid(v)) by {
            assert forall|env: spec_fn(u32) -> bool| #[trigger] tmeans((ti & tt) | (!ti & te), vs@, env) == !env(v) by {
                assert(nid_val(n, env) == !env(v));
            }
        }
    }
    Some(n)
}

/// Align two table nids to a common variable list. `None` when the merged
/// list has more than 5 variables.
pub fn align_tables(a: &NidFun, b: &NidFun) -> (r: Option<(u32, u32, Vec<u32>)>)
    requires a.wf(), b.wf(),
    ensures
        r is None <==> merge(a.vars_spec(), b.vars_spec()).len() > 5,
        r matches Some((ta, tb, vs)) ==> {
            &&& vs@ == merge(a.vars_spec(), b.vars_spec())
            &&& forall|env: spec_fn(u32) -> bool| #[trigger] tmeans(ta, vs@, env) == tmeans(a.tbl_spec(), a.vars_spec(), env)
            &&& forall|env: spec_fn(u32) -> bool| #[trigger] tmeans(tb, vs@, env) == tmeans(b.tbl_spec(), b.vars_spec(), env)
        },
{
    let (ar_a, vars_a) = a.vars();
    let (ar_b, vars_b) = b.vars();
    let sa = SmallTbl { tbl: a.tbl(), vars: vars_a, arity: ar_a };
    let sb = SmallTbl { tbl: b.tbl(), vars: vars_b, arity: ar_b };
    proof {
        assert(sa.vs() == a.vars_spec());
        assert(sb.vs() == b.vars_spec());
    }
    let (ta, tb, vars, len) = match align2(&sa, &sb) { Some(t) => t, None => { return None; } };
    let vs = SmallTbl { tbl: 0, vars, arity: len }.var_slice();
    Some((ta, tb, vs))
}

} // verus!
