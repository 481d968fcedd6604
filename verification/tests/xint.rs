use bex::ast::ASTBase;
use bex::nid::NID;
use bex::xint::{x2, x32, x4, x64, BInt, X32, X8};

#[test]
fn int_test_roundtrip() {
    let k = 1234567890;
    assert_eq!(x32(k).u(), k)
}

#[test]
fn test_add() {
    let mut b = ASTBase::empty();
    assert_eq!((x32(2).wrapping_add(&mut b, x32(3))).u(), 5)
}

#[test]
fn test_mul32() {
    let mut b = ASTBase::empty();
    assert_eq!((x32(2).times::<32, _>(&mut b, &x32(3))).u(), 6);
    assert_eq!((x32(3).times::<32, _>(&mut b, &x32(5))).u(), 15)
}

#[test]
fn test_mul64() {
    let mut b = ASTBase::empty();
    assert_eq!((x64(2).times::<64, _>(&mut b, &x64(3))).u(), 6);
    assert_eq!((x64(3).times::<64, _>(&mut b, &x64(5))).u(), 15)
}

#[test]
fn test_ror() {
    assert_eq!((x32(10).rotate_right(1)).u(), 5)
}

#[test]
fn test_eq() {
    let mut b = ASTBase::empty();
    assert_eq!(x32(10).eq(&mut b, &x32(10)), NID::i());
    assert_eq!(x32(11).eq(&mut b, &x32(10)), NID::o());
    assert_eq!(x32(10).eq(&mut b, &x32(11)), NID::o());
}

#[test]
fn int_lt_on_constants() {
    let mut b = ASTBase::empty();
    assert_eq!(x4(1).lt(&mut b, &x4(2)), NID::i());
    assert_eq!(x4(2).lt(&mut b, &x4(1)), NID::o());
    assert_eq!(x32(10).lt(&mut b, &x32(11)), NID::i());
    assert_eq!(x32(11).lt(&mut b, &x32(10)), NID::o());
    assert_eq!(x32(10).lt(&mut b, &x32(10)), NID::o());
}

#[test]
fn int_add_wraps_and_truncates() {
    let mut b = ASTBase::empty();
    assert_eq!(x2(7).u(), 3, "x2 keeps the low 2 bits");
    assert_eq!(x4(9).wrapping_add(&mut b, x4(9)).u(), 2, "9 + 9 = 18 = 2 (mod 16)");
    // shifts in `times` wrap around: 2^7 * 2 is 1 in 8 bits, not 0
    assert_eq!(X8::new(128).times::<8, _>(&mut b, &X8::new(2)).u(), 1);
}

#[test]
fn int_symbolic_bits() {
    let mut b = ASTBase::empty();
    let x = X32::def(&mut b, "x", 0);
    assert_eq!(x.bits[3], NID::var(3));
    let y = x32(0);
    let s = x.wrapping_add(&mut b, y);
    assert_eq!(s.bits.len(), 32);
    assert_eq!(s.bits[0], NID::var(0), "x + 0 keeps bit 0");
}
