use bex::nid::NID;
use bex::ops;
use bex::swap::{fun_tbl, xid_i, xid_o, IxRc, XVHL, XID};
use bex::vid::VID;

#[test]
fn test_fun_tbl() {
    let (o, i) = (xid_o(), xid_i());
    let result = fun_tbl(ops::AND().to_nid());
    assert_eq!(result, vec![o, o, o, i]);
}

#[test]
fn fun_tbl_or_and_xor() {
    let (o, i) = (xid_o(), xid_i());
    // rows are listed from the last input row down to row 0
    assert_eq!(fun_tbl(ops::VEL().to_nid()), vec![o, i, i, i]);
    assert_eq!(fun_tbl(ops::XOR().to_nid()), vec![o, i, i, o]);
    assert_eq!(fun_tbl(NID::fun(1, 0b01).to_nid()), vec![o, i]);
}

#[test]
fn xid_raw_inv_const() {
    let x = XID { x: 5 };
    let nx = !x;
    assert!(nx.is_inv() && !x.is_inv());
    assert_eq!(nx.raw(), x);
    assert_eq!(nx.ix(), 5);
    assert!(xid_o().is_const() && xid_i().is_const() && !x.is_const());
    assert_eq!(!xid_o(), xid_i());
    assert!(xid_i().to_bool() && !xid_o().to_bool());
}

#[test]
fn xid_nid_roundtrip() {
    for k in [0i64, 1, 7, 1000] {
        let x = XID { x: k };
        assert_eq!(XID::from_nid(x.to_nid()), x);
        assert_eq!(XID::from_nid((!x).to_nid()), !x);
    }
    let n = NID::ixn(3);
    assert_eq!(XID::from_nid(n), XID { x: 3 });
    assert_eq!(XID::from_nid(!n), !XID { x: 3 });
}

#[test]
fn xvhl_parts() {
    let v = VID::var(2);
    let node = XVHL { v, hi: xid_i(), lo: xid_o() };
    assert!(node.is_var());
    let inv = !node;
    assert!(!inv.is_var());
    assert_eq!(inv.hilo().hi, xid_o());
    assert_eq!(inv.hilo().lo, xid_i());
}

#[test]
fn ixrc_counts() {
    let mut r = IxRc { ix: XID { x: 4 }, irc: 2, erc: 1 };
    assert_eq!(r.rc(), 3);
    r.add(-2);
    assert_eq!(r.irc, 0);
    assert_eq!(r.rc(), 1);
    r.add(5);
    assert_eq!(r.rc(), 6);
}
