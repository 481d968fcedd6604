use bex::nid::NID;
use bex::tbl::{
    align_tables, expand_table, insert_var, make_table_nid, merge_small, nid_to_small, nidfun_to_nid,
    remove_var, strip_unused_vars, table_and, table_ite, table_or, table_xor, var_is_unused,
};
use bex::vid::VID;

fn x(i: u32) -> NID {
    NID::var(i)
}

fn o() -> NID {
    NID::o()
}

fn i() -> NID {
    NID::i()
}

/// Evaluate a nid on a specific input assignment (MSB-first convention).
fn eval_nid(n: NID, vars_vals: &[(u32, bool)]) -> bool {
    let s = nid_to_small(n).expect("eval_nid: not a table/const/var NID");
    let nn = 1u32 << s.arity;
    let mut row = 0u32;
    for (pos, &v) in s.var_slice().iter().enumerate() {
        for &(vi, val) in vars_vals {
            if vi == v && val {
                row |= 1 << pos;
            }
        }
    }
    (s.tbl >> (nn - 1 - row)) & 1 == 1
}

#[test]
fn test_insert_var() {
    assert_eq!(insert_var(0b01, 1, 0), 0b0011);
    assert_eq!(insert_var(0b01, 1, 1), 0b0101);
}

#[test]
fn test_expand_table() {
    assert_eq!(expand_table(0b01, &[1], &[0, 1]), 0b0011);
    assert_eq!(expand_table(0b01, &[0], &[0, 1]), 0b0101);
}

#[test]
fn test_table_and_two_vars() {
    let result = table_and(x(0), x(1)).unwrap();
    assert!(!eval_nid(result, &[(0, false), (1, false)]));
    assert!(!eval_nid(result, &[(0, true), (1, false)]));
    assert!(!eval_nid(result, &[(0, false), (1, true)]));
    assert!(eval_nid(result, &[(0, true), (1, true)]));
    let f = result.raw().to_fun().unwrap();
    assert_eq!(f.tbl(), 0b0001);
}

#[test]
fn test_table_or_two_vars() {
    let result = table_or(x(0), x(1)).unwrap();
    assert!(!eval_nid(result, &[(0, false), (1, false)]));
    assert!(eval_nid(result, &[(0, true), (1, false)]));
    assert!(eval_nid(result, &[(0, false), (1, true)]));
    assert!(eval_nid(result, &[(0, true), (1, true)]));
}

#[test]
fn test_table_xor_two_vars() {
    let result = table_xor(x(0), x(1)).unwrap();
    assert!(!eval_nid(result, &[(0, false), (1, false)]));
    assert!(eval_nid(result, &[(0, true), (1, false)]));
    assert!(eval_nid(result, &[(0, false), (1, true)]));
    assert!(!eval_nid(result, &[(0, true), (1, true)]));
    let f = result.raw().to_fun().unwrap();
    assert_eq!(f.tbl(), 0b0110);
}

#[test]
fn test_table_and_with_const() {
    assert_eq!(table_and(x(0), i()).unwrap(), x(0));
    assert_eq!(table_and(x(0), o()).unwrap(), o());
    assert_eq!(table_and(i(), x(1)).unwrap(), x(1));
}

#[test]
fn test_table_xor_same_var() {
    assert_eq!(table_xor(x(0), x(0)).unwrap(), o());
}

#[test]
fn test_table_and_disjoint_vars() {
    let a01 = table_and(x(0), x(1)).unwrap();
    let a23 = table_and(x(2), x(3)).unwrap();
    let result = table_and(a01, a23).unwrap();
    assert!(eval_nid(result, &[(0, true), (1, true), (2, true), (3, true)]));
    assert!(!eval_nid(result, &[(0, true), (1, true), (2, true), (3, false)]));
    assert!(!eval_nid(result, &[(0, false), (1, true), (2, true), (3, true)]));
}

#[test]
fn test_table_exceeds_5_vars() {
    let a = table_and(x(0), table_and(x(1), x(2)).unwrap()).unwrap();
    let b = table_and(x(3), table_and(x(4), NID::var(5)).unwrap()).unwrap();
    assert!(table_and(a, b).is_none(), "should fail: 6 vars > 5");
}

#[test]
fn test_table_ite() {
    let result = table_ite(x(0), x(1), x(2)).unwrap();
    assert!(eval_nid(result, &[(0, true), (1, true), (2, false)]));
    assert!(!eval_nid(result, &[(0, true), (1, false), (2, true)]));
    assert!(eval_nid(result, &[(0, false), (1, false), (2, true)]));
    assert!(!eval_nid(result, &[(0, false), (1, true), (2, false)]));
}

#[test]
fn test_table_and_overlapping_vars() {
    let f = NID::fun_with_vars(&[1, 3], 0b0111).to_nid();
    let g = NID::fun_with_vars(&[2, 3], 0b0001).to_nid();
    let result = table_and(f, g).unwrap();
    assert!(eval_nid(result, &[(2, true), (3, true)]));
    assert!(!eval_nid(result, &[(2, true), (3, false)]));
    assert!(!eval_nid(result, &[(2, false), (3, true)]));
}

#[test]
fn test_make_table_nid_degenerate() {
    assert_eq!(make_table_nid(0, &[0, 1]), o());
    assert_eq!(make_table_nid(0b1111, &[0, 1]), i());
    assert_eq!(make_table_nid(0b01, &[3]), NID::var(3));
    assert_eq!(make_table_nid(0b10, &[3]), !NID::var(3));
}

#[test]
fn test_strip_unused_vars() {
    let (tbl, vars) = strip_unused_vars(0b0001, &[0, 1]);
    assert_eq!(vars, vec![0, 1]);
    assert_eq!(tbl, 0b0001);

    let (tbl, vars) = strip_unused_vars(0b0101, &[0, 1]);
    assert_eq!(vars, vec![0]);
    assert_eq!(tbl, 0b01);

    let (tbl, vars) = strip_unused_vars(0b0011, &[0, 1]);
    assert_eq!(vars, vec![1]);
    assert_eq!(tbl, 0b01);
}

#[test]
fn test_make_table_nid_removes_unused() {
    let n = make_table_nid(0b0101, &[0, 1]);
    assert_eq!(n, x(0));
}

#[test]
fn test_inv_normalization() {
    let n_or = make_table_nid(0b0111, &[0, 1]);
    assert!(!n_or.is_inv());
    let n_nand = make_table_nid(0b1110, &[0, 1]);
    assert!(n_nand.is_inv(), "NAND should be stored inverted");
    let f = n_nand.raw().to_fun().unwrap();
    assert_eq!(f.tbl(), 0b0001, "underlying function should be AND");
}

#[test]
fn test_table_xor_degenerate_result() {
    assert_eq!(table_xor(x(0), x(0)).unwrap(), o());
    let a = table_and(x(0), x(1)).unwrap();
    assert_eq!(table_xor(a, a).unwrap(), o());
}

#[test]
fn test_early_bailout() {
    let bdd_nid = NID::from_vid_idx(VID::var(0), 42);
    assert!(table_and(bdd_nid, x(0)).is_none());
    assert!(table_ite(bdd_nid, x(0), x(1)).is_none());
    let big = table_and(x(0), table_and(x(1), x(2)).unwrap()).unwrap();
    let big2 = table_and(x(3), table_and(x(4), NID::var(5)).unwrap()).unwrap();
    assert!(table_and(big, big2).is_none());
}

#[test]
fn tbl_remove_and_unused() {
    // x1 signal over {x0, x1} ignores x0 (position 0)
    assert!(var_is_unused(0b0011, 2, 0));
    assert!(!var_is_unused(0b0011, 2, 1));
    assert_eq!(remove_var(0b0011, 2, 0), 0b01);
    // removing then inserting gives the table back
    assert_eq!(insert_var(remove_var(0b0011, 2, 0), 1, 0), 0b0011);
}

#[test]
fn tbl_merge_small() {
    assert_eq!(merge_small(&[1, 4], &[2, 4, 9]), Some(([1, 2, 4, 9, 0], 4)));
    assert_eq!(merge_small(&[0, 1, 2], &[3, 4]), Some(([0, 1, 2, 3, 4], 5)));
    assert_eq!(merge_small(&[0, 1, 2, 3, 9], &[4, 9]), None);
    assert_eq!(merge_small(&[0, 1, 2], &[3, 4, 5]), None);
}

#[test]
fn tbl_nidfun_and_align() {
    let and = NID::fun_with_vars(&[0, 2], 0b0001);
    assert_eq!(nidfun_to_nid(&and, &[0, 2]), and.to_nid());
    let a = NID::fun_with_vars(&[0, 1], 0b0001);
    let b = NID::fun_with_vars(&[1, 2], 0b0110);
    let (ta, tb, vars) = align_tables(&a, &b).unwrap();
    assert_eq!(vars, vec![0, 1, 2]);
    assert_eq!(ta, 0b0001_0001);
    assert_eq!(tb, 0b0011_1100);
    let nand = table_or(!x(0), !x(1)).unwrap();
    assert!(eval_nid(nand, &[(0, false), (1, true)]));
    assert!(!eval_nid(nand, &[(0, true), (1, true)]));
}
