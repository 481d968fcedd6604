use bex::nid::{nv, nvi, vid_bits, NID};

fn o() -> NID { NID::o() }
fn i() -> NID { NID::i() }

#[test]
fn nid_test_nids() {
    let new = |n| NID { n };
    assert_eq!(o().n, 2305843009213693952);
    assert_eq!(o(), new(0x2000000000000000));
    assert_eq!(i().n, 11529215046068469760);
    assert_eq!(i(), new(0xa000000000000000));
    assert_eq!(NID::vir(0), new(0x4000000000000000u64));
    assert_eq!(NID::var(0), new(0x5000000000000000u64));
    assert_eq!(NID::vir(1), new(0x4000000100000000u64));
    assert!(vid_bits(NID::vir(0)) < vid_bits(NID::var(0)));
    assert_eq!(nvi(0, 0), new(0x0000000000000000u64));
    assert_eq!(nvi(1, 0), new(0x0000000100000000u64));
}

#[test]
fn test_var() {
    assert_eq!(vid_bits(o()), 536_870_912, "var(O)");
    assert_eq!(vid_bits(i()), vid_bits(o()), "INV bit shouldn't be part of variable");
    assert_eq!(vid_bits(NID::vir(0)), 0);
    assert_eq!(vid_bits(NID::var(0)), 268_435_456);
}

#[test]
fn test_cmp() {
    let v = |x: usize| -> NID { nv(x) };
    let x = |x: u32| -> NID { NID::var(x) };
    let o_ = vid_bits;
    let n = |x: NID| x.vid();
    assert!(o_(o()) == o_(i()), "old:no=no");
    assert!(n(o()) == n(i()), "new:no=no");
    assert!(o_(o()) > o_(v(0)), "old:no>v0");
    assert!(n(o()).is_below(&n(v(0))), "new:no bel v0");
    assert!(o_(o()) > o_(x(0)), "old:no>x0");
    assert!(n(o()).is_below(&n(x(0))), "new:no bel x0");
    assert!(o_(v(0)) < o_(x(0)), "old:v0>x0");
    assert!(n(v(0)).is_above(&n(x(0))), "new:v0 abv x0");
    assert!(o_(v(1)) < o_(x(0)), "old:v1<x0");
    assert!(n(v(1)).is_above(&n(x(0))), "new:v1 abv x0");
}

#[test]
fn test_tbl_fmt() {
    assert_eq!("t1110", NID::fun(2, 0b1110).to_nid().to_string());
    assert_eq!("f3.FC", NID::fun(3, 0xFC).to_nid().to_string());
}

#[test]
fn test_fun() {
    assert!(!NID::var(1).is_fun(), "var(1) should not be fun.");
    assert!(!NID::vir(1).is_fun(), "vir(1) should not be fun.");
    assert!(!NID::from_vid_idx(bex::vid::VID::nov(), 0).is_fun(), "idx var should not be fun");
}

#[test]
fn test_fun_consts() {
    let x0 = NID::fun(1, 0x55555555);
    let nx0 = NID::fun(1, 0xaaaaaaaa);
    let dk0 = NID::fun(1, 0x00000000);
    let a_xor_b = NID::fun(2, 0x66666666);
    let a_and_b = NID::fun(2, 0x11111111);
    assert_eq!(a_xor_b.when(1, true), nx0);
    assert_eq!(a_xor_b.when(1, false), x0);
    assert_eq!(a_xor_b.when(0, true), nx0);
    assert_eq!(a_xor_b.when(0, false), x0);
    assert_eq!(a_and_b.when(0, true), x0);
    assert_eq!(a_and_b.when(0, false), dk0);
    assert_eq!(a_and_b.when(0, true), x0);
    assert_eq!(a_and_b.when(0, false), dk0);
}

#[test]
fn nid_flags_and_fields() {
    let x3 = NID::var(3);
    assert!(x3.is_var() && x3.is_vid() && x3.is_lit() && !x3.is_vir() && !x3.is_const());
    assert!(NID::vir(2).is_vir());
    assert!(o().is_const() && i().is_const() && i().is_inv());
    assert_eq!(!x3, x3.inv_if(true));
    assert_eq!(x3, x3.inv_if(false));
    assert_eq!((!x3).raw(), x3);
    assert_eq!(NID::ixn(7).idx(), 7);
    assert!(NID::ixn(7).is_ixn());
    assert!(!x3.is_ixn());
    assert_eq!(NID::from_bit(true), i());
    assert!(!o().to_bit() && i().to_bit());
    assert_eq!(x3.vid(), bex::vid::VID::var(3));
    assert_eq!(NID::from_vid(bex::vid::VID::vir(5)), NID::vir(5));
    assert_eq!(NID::_from_u64(42)._to_u64(), 42);
    assert_eq!(NID::fun(2, 0b0110).to_nid().tbl(), Some(0b0110));
    assert_eq!(x3.tbl(), None);
    assert!(x3.might_depend_on(bex::vid::VID::var(3)));
    assert!(!x3.might_depend_on(bex::vid::VID::var(2)));
    assert!(!o().might_depend_on(bex::vid::VID::var(2)));
}

#[test]
fn nid_text_forms() {
    assert_eq!(o().to_string(), "O");
    assert_eq!(i().to_string(), "I");
    assert_eq!(NID::var(10).to_string(), "xA");
    assert_eq!((!NID::vir(1)).to_string(), "!v1");
    assert_eq!(bex::nidtext::parse_nid("O"), Ok(o()));
    assert_eq!(bex::nidtext::parse_nid("I"), Ok(i()));
    assert!(bex::nidtext::parse_nid("").is_err());
}

#[test]
fn fun_with_vars_reads_back() {
    let f = NID::fun_with_vars(&[2, 9], 0b0110);
    let (ar, vs) = f.vars();
    assert_eq!(ar, 2);
    assert_eq!(&vs[..2], &[2, 9]);
    assert_eq!(f.tbl(), 0b0110);
    assert_eq!(f.var_position(bex::vid::VID::var(9)), Some(1));
    assert_eq!(f.var_position(bex::vid::VID::var(3)), None);
    assert_eq!(f.to_nid().vid(), bex::vid::VID::var(9));
}

#[test]
fn nid_table_words_read_back() {
    let parse_nid = bex::nidtext::parse_nid;
    let t = NID::fun(2, 0b0110).to_nid();
    assert_eq!(parse_nid("t0110"), Ok(t));
    let f = NID::fun(3, 0x33).to_nid();
    assert_eq!(parse_nid("f3.33"), Ok(f));
    assert_eq!(parse_nid("!f3.33"), Ok(!f));
    assert_eq!(parse_nid(&t.to_string()), Ok(t));
    assert_eq!(parse_nid(&(!f).to_string()), Ok(!f));
}

#[test]
fn nid_named_table_words_read_back() {
    let parse_nid = bex::nidtext::parse_nid;
    let t = NID::fun_with_vars(&[3, 7], 0b1110).to_nid();
    assert_eq!(parse_nid("T{x3,x7:1110}"), Ok(t));
    assert_eq!(parse_nid("!T{x3,x7:1110}"), Ok(!t));
    assert_eq!(parse_nid(&t.to_string()), Ok(t));
    let u = NID::fun_with_vars(&[1, 4, 9], 0x96).to_nid();
    assert_eq!(parse_nid(&u.to_string()), Ok(u));
    assert_eq!(parse_nid(&(!u).to_string()), Ok(!u));
    let w = NID::fun_with_vars(&[5], 0b10).to_nid();
    assert_eq!(parse_nid(&w.to_string()), Ok(w));
}
