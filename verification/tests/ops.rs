use bex::nid::NID;
use bex::ops::{self, Ops, AND, VEL, XOR};

#[test]
fn test_flip_and() {
    assert_eq!(AND().tbl() & 0b1111, 0b0001);
    assert_eq!(AND().when_flipped(1).tbl() & 0b1111, 0b0010);
    assert_eq!(AND().when_flipped(2).tbl() & 0b1111, 0b0100);
    assert_eq!(AND().when_flipped(3).tbl() & 0b1111, 0b1000);
}

#[test]
fn test_flip_vel() {
    assert_eq!(VEL().tbl() & 0b1111, 0b0111);
    assert_eq!(VEL().when_flipped(1).tbl() & 0b1111, 0b1011);
    assert_eq!(VEL().when_flipped(2).tbl() & 0b1111, 0b1101);
    assert_eq!(VEL().when_flipped(3).tbl() & 0b1111, 0b1110);
}

#[test]
fn test_flip_xor() {
    assert_eq!(XOR().tbl() & 0b1111, 0b0110);
    assert_eq!(XOR().when_flipped(1).tbl() & 0b1111, 0b1001);
    assert_eq!(XOR().when_flipped(2).tbl() & 0b1111, 0b1001);
    assert_eq!(XOR().when_flipped(3).tbl() & 0b1111, 0b0110);
}

#[test]
fn test_norm() {
    assert_eq!(AND().tbl() & 0b1111, 0b0001);
    let ops = Ops::RPN(vec![NID::var(0), !NID::var(1), AND().to_nid()]);
    let mut rpn: Vec<NID> = ops.norm().to_rpn().clone();
    let f = rpn.pop().unwrap().to_fun().unwrap();
    assert_eq!(2, f.arity());
    assert_eq!(f.tbl() & 0b1111, 0b0100);
    assert_eq!(rpn, vec![NID::var(0), NID::var(1)]);
}

#[test]
fn ops_constructors() {
    let (x, y) = (NID::var(0), NID::var(1));
    assert_eq!(ops::and(x, y), Ops::RPN(vec![x, y, AND().to_nid()]));
    assert_eq!(ops::xor(x, y).to_rpn().len(), 3);
    let (f, args) = ops::vel(x, y).to_app();
    assert_eq!(f, VEL().to_nid());
    assert_eq!(args, vec![x, y]);
    assert_eq!(ops::rpn(&[x, y, XOR().to_nid()]), ops::xor(x, y));
}
