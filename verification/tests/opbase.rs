use bex::opbase::{Base, Op, TBase, GONE};
use std::collections::HashMap;

#[test]
fn base_basics() {
    let mut b = Base::empty();
    assert_eq!(b.len(), 2);

    // constants
    assert!(0 == b.o(), "o");
    assert!(1 == b.i(), "i");

    // not
    assert!(1 == b.not(0), "¬o");
    assert!(0 == b.not(1), "¬i");

    // and
    assert!(0 == b.and(0, 0), "o∧o");
    assert!(0 == b.and(1, 0), "i∧o");
    assert!(0 == b.and(0, 1), "o∧i");
    assert!(1 == b.and(1, 1), "i∧i");

    // xor
    assert!(0 == b.xor(0, 0), "o≠o");
    assert!(1 == b.xor(1, 0), "i≠o");
    assert!(1 == b.xor(0, 1), "o≠i");
    assert!(0 == b.xor(1, 1), "i≠i");
}

#[test]
fn base_vars() {
    let mut b = Base::empty();
    let n = b.len();
    let x0 = b.var(0);
    let x02 = b.var(0);
    let x1 = b.var(1);
    assert!(x0 == n, "var() should create a node. expected {}, got {}", n, x0);
    assert!(x0 == x02, "var(0) should always return the same nid.");
    assert!(x1 == x0 + 1);
    let nx0 = b.not(x0);
    assert!(x0 == b.not(nx0), "expected x0=¬¬x0");
    assert!(nx0 == b.nid(Op::Not(x0)))
}

#[test]
fn base_when() {
    let mut b = Base::empty();
    let x0 = b.var(0);
    assert!(b[x0] == Op::Var(0), "expect var(0) to return nid for Var(0)");
    assert!(b.when(0, 0, x0) == 0, "x0 when x0 == 0 should be O");
    assert!(b.when(0, 1, x0) == 1, "x0 when x0 == 1 should be I");
    assert!(b.when(1, 1, x0) == x0, "x0 when x1 == 1 should be x0");
}

#[test]
fn opbase_simplifications() {
    let mut b = Base::empty();
    let x0 = b.var(0);
    let x1 = b.var(1);
    let nx0 = b.not(x0);
    assert_eq!(b.and(x0, nx0), 0, "x & !x = O");
    assert_eq!(b.and(1, x1), x1, "I & x = x");
    assert_eq!(b.xor(x0, nx0), 1, "x ^ !x = I");
    assert_eq!(b.or(x0, nx0), 1, "x | !x = I");
    assert_eq!(b.or(0, x1), x1, "O | x = x");
    let nx1 = b.not(x1);
    // !x0 | !x1 == !(x0 & x1)
    let o = b.or(nx0, nx1);
    let a = b.and(x0, x1);
    assert_eq!(b[o], Op::Not(a));
    assert_eq!(b.ch(x0, x1, nx1), 0, "choice is not built");
}

#[test]
fn opbase_when_and_sub() {
    let mut b = Base::empty();
    let x0 = b.var(0);
    let x1 = b.var(1);
    let a = b.and(x0, x1);
    assert_eq!(b.when(0, 1, a), x1);
    assert_eq!(b.when(0, 0, a), 0);
    let mut kv = HashMap::new();
    kv.insert(0usize, 1usize);
    let s = b.sid(kv);
    assert_eq!(s, 0);
    assert_eq!(b.sub(a, s), x1);
}

#[test]
fn opbase_reftable_and_repack() {
    let mut b = Base::empty();
    let x0 = b.var(0); // 2
    let x1 = b.var(1); // 3
    let x2 = b.var(2); // 4
    let a = b.and(x0, x1); // 5
    let _c = b.xor(x1, x2); // 6
    let d = b.xor(a, x2); // 7
    let rt = b.reftable();
    assert_eq!(rt[x1], vec![5, 6]);
    assert_eq!(rt[a], vec![7]);
    b.tag(a, "a".to_string());
    b.tag(_c, "c".to_string());
    let (r, keep) = b.repack(vec![d]);
    assert_eq!(r.len(), 5);
    assert_eq!(keep, vec![4]);
    assert_eq!(r[0], Op::Var(0));
    assert_eq!(r[3], Op::And(0, 1));
    assert_eq!(r[4], Op::Xor(2, 3));
    let p = b.permute(vec![0, 1, 2, 3, 5]);
    assert_eq!(p.len(), 5);
    assert_eq!(p[4], Op::And(2, 3));
}

#[test]
fn opbase_reftable_lists_direct_users() {
    let mut b = Base::empty();
    let x0 = b.var(0);
    let x1 = b.var(1);
    let a = b.and(x0, x1);
    let n = b.not(x0);
    assert_eq!((x0, x1, a, n), (2, 3, 4, 5));
    assert_eq!(b.reftable(), vec![vec![], vec![], vec![4, 5], vec![4], vec![], vec![]]);
}

#[test]
fn opbase_permute_marks_dropped_references() {
    let mut b = Base::empty();
    let x0 = b.var(0);
    let n = b.not(x0);
    b.tag(n, "n".to_string());
    assert_eq!((x0, n), (2, 3));
    let p = b.permute(vec![0, 1, 3]);
    assert_eq!(p.bits, vec![Op::O, Op::I, Op::Not(GONE)]);
    assert_eq!(p.tags.get(&"n".to_string()), Some(2));
    let q = b.permute(vec![3, 2, 0, 1]);
    assert_eq!(q.bits, vec![Op::Not(1), Op::Var(0), Op::O, Op::I]);
    assert_eq!(q.tags.get(&"n".to_string()), Some(0));
    // the base itself is unchanged
    assert_eq!(b.bits, vec![Op::O, Op::I, Op::Var(0), Op::Not(2)]);
    assert_eq!(b.tags.get(&"n".to_string()), Some(3));
}

#[test]
fn opbase_repack_keeps_what_is_needed() {
    let mut b = Base::empty();
    let x0 = b.var(0);
    let x1 = b.var(1);
    let a = b.and(x0, x1);
    let n = b.not(x0);
    let (r, keep) = b.repack(vec![a]);
    assert_eq!(r.bits, vec![Op::Var(0), Op::Var(1), Op::And(0, 1)]);
    assert_eq!(keep, vec![2]);
    let (r, keep) = b.repack(vec![n]);
    assert_eq!(r.bits, vec![Op::Var(0), Op::Not(0)]);
    assert_eq!(keep, vec![1]);
}

fn bit_of(_: &Base, v: usize) -> u64 {
    1 << v
}

#[test]
fn opbase_masks_and_costs_of_an_and() {
    let mut b = Base::empty();
    let x0 = b.var(0);
    let x1 = b.var(1);
    let a = b.and(x0, x1);
    let (m, c) = b.masks_and_costs(bit_of);
    assert_eq!(m[a], 0b11);
    assert_eq!((m[x0], m[x1]), (0b01, 0b10));
    assert_eq!((c[0], c[1]), (0, 0));
    assert_eq!((c[x0], c[x1], c[a]), (1, 1, 2));
}
