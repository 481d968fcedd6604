use bex::bdd32::{self, is_const, is_inv, is_var, not, nv, nvi, var, BDDBase, Norm, NID, TV};

#[test]
fn bdd_test_nids() {
    assert_eq!(bdd32::o(), NID { n: 0x2000000000000000u64 });
    assert_eq!(bdd32::i(), NID { n: 0xa000000000000000u64 });
    assert_eq!(nv(0), NID { n: 0x4000000000000000u64 });
    assert_eq!(nv(1), NID { n: 0x4000000100000000u64 });
    assert_eq!(nvi(0, 0), NID { n: 0x0000000000000000u64 });
    assert_eq!(nvi(1, 0), NID { n: 0x0000000100000000u64 });
}

#[test]
fn bdd32_fields() {
    let x = nvi(7, 3);
    assert_eq!(var(x), 7);
    assert_eq!(bdd32::idx(x), 3);
    assert!(is_var(nv(2)) && !is_var(x));
    assert!(is_inv(not(x)) && !is_inv(x));
    assert!(is_const(bdd32::o()) && !is_const(x));
    assert_eq!(var(bdd32::o()), bdd32::TV);
}

#[test]
fn bdd32_norm_folds_constants() {
    let base = BDDBase::new(3);
    let (o, i) = (bdd32::o(), bdd32::i());
    let (a, b) = (nv(1), nv(2));
    assert_eq!(base.norm(i, a, b), Norm::Nid(a));
    assert_eq!(base.norm(o, a, b), Norm::Nid(b));
    assert_eq!(base.norm(a, i, o), Norm::Nid(a));
    assert_eq!(base.norm(a, o, i), Norm::Nid(not(a)));
    assert_eq!(base.norm(a, b, b), Norm::Nid(b));
    assert_eq!(base.norm(a, b, o), Norm::Tup(a, b, o));
}

#[test]
fn bdd32_norm_orders_and_uninverts() {
    let base = BDDBase::new(3);
    let (o, i) = (bdd32::o(), bdd32::i());
    let (a, b) = (nv(1), nv(2));
    // b & a: the lower variable becomes the condition
    assert_eq!(base.norm(b, a, o), Norm::Tup(a, b, o));
    // inverted condition: swap the branches
    assert_eq!(base.norm(not(a), b, o), Norm::Tup(a, o, b));
    // inverted first branch: the result is inverted
    assert_eq!(base.norm(a, not(b), i), Norm::Not(a, b, o));
}

#[test]
fn test_base() {
    let mut base = BDDBase::new(3);
    let (o, i) = (bdd32::o(), bdd32::i());
    let (v1, v2, v3) = (nv(1), nv(2), nv(3));
    assert_eq!(base.nvars(), 3);
    assert_eq!((TV, i, o), base.tup(i));
    assert_eq!((TV, o, i), base.tup(o));
    assert_eq!((1, i, o), base.tup(v1));
    assert_eq!((2, i, o), base.tup(v2));
    assert_eq!((3, i, o), base.tup(v3));
    assert_eq!(i, base.when_hi(3, v3));
    assert_eq!(o, base.when_lo(3, v3));
}

#[test]
fn test_and() {
    let mut base = BDDBase::new(3);
    let o = bdd32::o();
    let (v1, v2) = (nv(1), nv(2));
    let a = base.and(v1, v2);
    assert_eq!(o, base.when_lo(1, a));
    assert_eq!(v2, base.when_hi(1, a));
    assert_eq!(o, base.when_lo(2, a));
    assert_eq!(v1, base.when_hi(2, a));
    assert_eq!(a, base.when_hi(3, a));
    assert_eq!(a, base.when_lo(3, a));
}

#[test]
fn test_xor() {
    let mut base = BDDBase::new(3);
    let (v1, v2) = (nv(1), nv(2));
    let x = base.xor(v1, v2);
    assert_eq!(v2, base.when_lo(1, x));
    assert_eq!(not(v2), base.when_hi(1, x));
    assert_eq!(v1, base.when_lo(2, x));
    assert_eq!(not(v1), base.when_hi(2, x));
    assert_eq!(x, base.when_lo(3, x));
    assert_eq!(x, base.when_hi(3, x));
}

/// The value of `n` under the assignment whose bit `k` gives variable `k`,
/// found by restricting each of the first three variables in turn.
fn value(base: &mut BDDBase, n: NID, bits: u32) -> bool {
    let mut x = n;
    for k in 0..3u32 {
        x = if bits & (1 << k) != 0 { base.when_hi(k, x) } else { base.when_lo(k, x) };
    }
    assert!(x == bdd32::o() || x == bdd32::i());
    x == bdd32::i()
}

#[test]
fn bdd32_ite_shares_nodes() {
    // the same triple gives the same node, from the memo tables
    let mut base = BDDBase::new(4);
    let (a, b, c) = (nv(0), nv(1), nv(2));
    let x = base.ite(a, b, c);
    let y = base.ite(a, b, c);
    assert_eq!(x, y);
    // and the same function built another way is the same node
    let ab = base.and(a, b);
    let nac = base.lt(a, c);
    let z = base.or(ab, nac);
    for k in 0..8u32 {
        let (va, vb, vc) = (k & 1 != 0, k & 2 != 0, k & 4 != 0);
        let want = if va { vb } else { vc };
        assert_eq!(value(&mut base, x, k), want);
        assert_eq!(value(&mut base, z, k), want);
    }
}

#[test]
fn bdd32_or_gt_lt() {
    let mut base = BDDBase::new(3);
    let (o, i) = (bdd32::o(), bdd32::i());
    let (a, b) = (nv(0), nv(1));
    let x = base.or(a, b);
    assert_eq!(base.when_lo(0, x), b);
    assert_eq!(base.when_hi(0, x), i);
    let g = base.gt(a, b);
    assert_eq!(base.when_hi(0, g), not(b));
    assert_eq!(base.when_lo(0, g), o);
    let l = base.lt(a, b);
    assert_eq!(base.when_hi(0, l), o);
    assert_eq!(base.when_lo(0, l), b);
}

#[test]
fn bdd32_replace() {
    let mut base = BDDBase::new(3);
    let (a, b, c) = (nv(0), nv(1), nv(2));
    let x = base.and(a, b);
    // replace b with c
    let y = base.replace(1, c, x);
    for k in 0..8u32 {
        let (va, vc) = (k & 1 != 0, k & 4 != 0);
        assert_eq!(value(&mut base, y, k), va && vc);
    }
    // replacing a variable that does not occur changes nothing
    assert_eq!(base.replace(2, b, x), x);
    assert!(base.might_depend(x, 1));
    assert!(!base.might_depend(b, 0));
}

#[test]
fn bdd32_swap_exchanges_variables() {
    let mut base = BDDBase::new(3);
    let (a, b) = (nv(0), nv(1));
    let x = base.gt(a, b); // a and not b
    // the swapped node reads a where x read b, and b where x read a
    let y = base.swap(x, 0, 1);
    let w = base.and(a, b);
    let s = base.swap(w, 1, 0);
    let z = base.swap(y, 1, 0);
    for k in 0..8u32 {
        let (va, vb) = (k & 1 != 0, k & 2 != 0);
        assert_eq!(value(&mut base, y, k), vb && !va);
        assert_eq!(value(&mut base, s, k), va && vb);
        assert_eq!(value(&mut base, z, k), va && !vb);
    }
}

#[test]
fn bdd32_tags() {
    let mut base = BDDBase::new(2);
    let a = nv(0);
    base.tag("a".to_string(), a);
    assert_eq!(base.get(&"a".to_string()), Some(a));
    assert_eq!(base.get(&"b".to_string()), None);
}

fn bdd32_table(base: &mut BDDBase, n: NID) -> u32 {
    let mut t = 0u32;
    for row in 0..8u32 {
        let mut x = n;
        for v in 0..3u32 {
            x = if (row >> v) & 1 == 1 { base.when_hi(v, x) } else { base.when_lo(v, x) };
        }
        if x == bdd32::i() { t |= 1 << row; }
    }
    t
}

#[test]
fn bdd32_one_function_two_nids() {
    let mut base = BDDBase::new(3);
    let (x0, x1, x2) = (nv(0), nv(1), nv(2));
    let a = base.and(x1, not(x0));
    let b = base.xor(not(x2), not(x0));
    let f = base.and(a, b);
    // r reads like x1 under every assignment, but it is a stored node that
    // branches on x1 to I and O, not the nid of the variable itself
    let r = base.ite(f, f, x1);
    let tr = bdd32_table(&mut base, r);
    let t1 = bdd32_table(&mut base, x1);
    assert_eq!(tr, t1);
    assert_ne!(r, x1);
}
