use bex::anf::ANFBase;
use bex::nid::NID;
use bex::vhl::Vhl;
use bex::vid::{botmost, topmost, VID};

fn o() -> NID {
    NID::o()
}

fn i() -> NID {
    NID::i()
}

#[test]
fn test_anf_hilo() {
    let base = ANFBase::new();
    let a = NID::var(0);
    let Vhl { v, hi, lo } = base.fetch(a);
    assert_eq!(v, a.vid());
    assert_eq!(hi, i());
    assert_eq!(lo, o());
}

#[test]
fn test_anf_hilo_not() {
    let base = ANFBase::new();
    let a = NID::var(0);
    let Vhl { v, hi, lo } = base.fetch(!a);
    assert_eq!(v, a.vid());
    assert_eq!(hi, i());
    assert_eq!(lo, i());
}

#[test]
fn test_anf_xor() {
    let mut base = ANFBase::new();
    let a = NID::var(0);
    let b = NID::var(1);
    let (axb, bxa) = (base.xor(a, b), base.xor(b, a));
    assert_eq!(o(), base.xor(a, a), "a xor a should be 0");
    assert_eq!(!a, base.xor(i(), a), "a xor 1 should be ~a");
    assert_eq!(axb, bxa, "xor should be order-independent");
    let Vhl { v, hi, lo } = base.fetch(axb);
    let topv = topmost(a.vid(), b.vid());
    let botv = botmost(a.vid(), b.vid());
    assert_eq!(v, topv);
    assert_eq!(hi, i());
    assert_eq!(lo, NID::from_vid(botv));
}

#[test]
fn test_anf_xor_inv() {
    let mut base = ANFBase::new();
    let a = NID::var(0);
    let b = NID::var(1);
    let axb = base.xor(a, b);
    let naxb = base.xor(!a, b);
    let axnb = base.xor(a, !b);
    let naxnb = base.xor(!a, !b);
    assert_eq!(naxnb, axb, "expect ~a ^ ~b == a^b");
    assert_eq!(axnb, naxb, "expect a ^ ~b ==  ~a ^ b");
    assert_eq!(axb, !naxb, "expect a ^ b ==  ~(~a ^ b)");
}

#[test]
fn test_anf_xor3() {
    let mut base = ANFBase::new();
    let a = NID::var(0);
    let b = NID::var(1);
    let c = NID::var(2);
    let ab = base.xor(a, b);
    let left = base.xor(ab, c);
    let bc = base.xor(b, c);
    let right = base.xor(a, bc);
    assert_eq!(left, right);
}

#[test]
fn test_anf_and() {
    let mut base = ANFBase::new();
    let a = NID::var(0);
    let b = NID::var(1);
    let ab = base.and(a, b);
    let Vhl { v, hi, lo } = base.fetch(ab);
    let topv = topmost(a.vid(), b.vid());
    let botv = botmost(a.vid(), b.vid());
    assert_eq!(v, topv);
    assert_eq!(hi, NID::from_vid(botv));
    assert_eq!(lo, o());
}

#[test]
fn test_anf_xtb() {
    let mut base = ANFBase::new();
    let (x0, x1) = (VID::var(0), VID::var(1));
    let t = NID::from_vid(topmost(x0, x1));
    let b = NID::from_vid(botmost(x0, x1));
    let tb = base.and(b, t);
    let bxtb = base.xor(b, tb);
    let txtb = base.xor(t, tb);
    let (bv, tv) = (b.vid(), t.vid());
    assert_eq!(base.fetch(b), Vhl { v: bv, hi: i(), lo: o() }, "b = b(1)+0");
    assert_eq!(base.fetch(t), Vhl { v: tv, hi: i(), lo: o() }, "t = t(1)+0");
    assert_eq!(base.fetch(tb), Vhl { v: tv, hi: b, lo: o() }, "tb = t(b)+0");
    assert_eq!(base.fetch(bxtb), Vhl { v: tv, hi: b, lo: b }, "b + tb = t(b)+b");
    assert_eq!(base.fetch(txtb), Vhl { v: tv, hi: !b, lo: o() }, "t+tb = t(b+1)+0");
}

#[test]
fn test_anf_and3() {
    let mut base = ANFBase::new();
    let a = NID::var(0);
    let b = NID::var(1);
    let c = NID::var(2);
    let ab = base.and(a, b);
    let left = base.and(ab, c);
    let bc = base.and(b, c);
    let right = base.and(a, bc);
    assert_eq!(left, right);
}

#[test]
fn test_anf_and_big() {
    let mut base = ANFBase::new();
    let a = NID::var(0);
    let b = NID::var(1);
    let c = NID::var(2);
    let p = NID::var(3);
    let q = NID::var(4);
    let r = NID::var(5);
    let ab = base.and(a, b);
    let pq = base.and(p, q);
    let abc = base.xor(ab, c);
    let pqr = base.xor(pq, r);
    let actual = base.and(abc, pqr);
    let pqr2 = base.xor(pq, r);
    let ab_pqr = base.and(ab, pqr2);
    let pqr3 = base.xor(pq, r);
    let c_pqr = base.and(c, pqr3);
    let expected = base.xor(ab_pqr, c_pqr);
    assert_eq!(expected, actual);
}

#[test]
fn test_anf_and_same_head() {
    let mut base = ANFBase::new();
    let a = NID::var(0);
    let b = NID::var(1);
    let c = NID::var(2);
    let q = NID::var(3);
    let r = NID::var(4);
    let ab = base.and(a, b);
    let aq = base.and(a, q);
    let abc = base.xor(ab, c);
    let aqr = base.xor(aq, r);
    let actual = base.and(abc, aqr);
    let qr = base.xor(q, r);
    let bqr = base.and(b, qr);
    let cq = base.and(c, q);
    let inner = base.xor(bqr, cq);
    let a_inner = base.and(a, inner);
    let cr = base.and(c, r);
    let expected = base.xor(a_inner, cr);
    assert_eq!(expected, actual);
}

#[test]
fn test_anf_sub() {
    let mut base = ANFBase::new();
    let a = NID::var(0);
    let b = NID::var(1);
    let c = NID::var(2);
    let x = NID::var(3);
    let y = NID::var(4);
    let z = NID::var(5);
    let ab = base.and(a, b);
    let ctx = base.xor(ab, c);
    let xy = base.and(x, y);
    let xyz = base.xor(xy, z);
    let got_a = base.sub(a.vid(), xyz, ctx);
    let xyzb = base.and(xyz, b);
    let want_a = base.xor(xyzb, c);
    assert_eq!(got_a, want_a);
    let got_b = base.sub(b.vid(), xyz, ctx);
    let axyz = base.and(a, xyz);
    let want_b = base.xor(axyz, c);
    assert_eq!(got_b, want_b);
}

#[test]
fn test_anf_sub_inv() {
    let mut base = ANFBase::new();
    let (v1, v2, v4, v6) = (NID::var(1), NID::var(2), NID::var(4), NID::var(6));
    let ctx = base.and(v1, v6);
    let iv4 = base.xor(i(), v4);
    let top = base.and(iv4, v2);
    assert_eq!(top, base.and(!v4, v2), "sanity check");
    let v4v6 = base.and(v4, v6);
    let v2v4v6 = base.and(v2, v4v6);
    let v2v6 = base.and(v2, v6);
    let expect = base.xor(v2v4v6, v2v6);
    let actual = base.sub(v1.vid(), top, ctx);
    assert_eq!(expect, actual);
}

#[test]
fn anf_values_follow_the_polynomial() {
    // (a AND b) XOR c, with a = x0, b = x1, c = x2: the inversion flag is the constant term.
    let mut base = ANFBase::new();
    let a = NID::var(0);
    let b = NID::var(1);
    let c = NID::var(2);
    let nab = base.and(!a, !b);
    assert!(nab.is_inv(), "1 + a + b + ab has a constant term");
    let ab = base.and(a, b);
    assert!(!ab.is_inv());
    let aob = base.or(a, b);
    let abx = base.xor(a, b);
    let want = base.xor(ab, abx);
    assert_eq!(aob, want, "a or b = ab + a + b");
    let abc = base.xor(ab, c);
    let Vhl { v, hi, lo } = base.fetch(abc);
    assert_eq!(v, VID::var(2));
    assert_eq!(hi, i());
    assert_eq!(lo, ab);
}

#[test]
fn anf_tags() {
    let mut base = ANFBase::new();
    let a = NID::var(0);
    assert_eq!(base.get("a"), None);
    assert_eq!(base.tag(a, "a".to_string()), a);
    assert_eq!(base.get("a"), Some(a));
}
