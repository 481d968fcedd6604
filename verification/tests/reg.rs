use bex::reg::Reg;

#[test]
#[allow(clippy::bool_assert_comparison)]
fn test_reg_mut() {
    let mut reg = Reg::new(66);
    assert_eq!(reg.data.len(), 2);
    assert_eq!(reg.data[0], 0);
    assert_eq!(reg.get(0), false);
    reg.put(0, true);
    assert_eq!(reg.data[0], 1);
    assert_eq!(reg.data[1], 0);
    assert_eq!(reg.get(0), true);
    assert_eq!(reg.get(1), false);
    assert_eq!(reg.as_usize(), 1);
    reg.put(1, true);
    assert_eq!(reg.data[0], 3);
    assert_eq!(reg.get(1), true);
}

#[test]
fn test_reg_inc_hitop() {
    let mut reg = Reg::new(2);
    assert_eq!(0, reg.as_usize());
    assert_eq!(Some(0), reg.increment(), "00 -> 01");
    assert_eq!(1, reg.as_usize());
    assert_eq!(Some(1), reg.increment(), "01 -> 10");
    assert_eq!(2, reg.as_usize());
    assert_eq!(Some(0), reg.increment(), "10 -> 11");
    assert_eq!(3, reg.as_usize());
    assert_eq!(None, reg.increment(), "11 -> 00");
}

#[test]
fn test_bits() {
    let ten = Reg::from_bits(4, &[3, 1]);
    assert_eq!(ten.as_usize(), 0b1010, "reg with bits 3 and 1 set should equal 10");
    assert_eq!(ten.hi_bits(), [1, 3], "bits for 'ten' should come back in order");
    let big = Reg::from_bits(65, &[64, 63]);
    assert_eq!(big.hi_bits(), [63, 64], "bits for 'big' should come back in order");
}

#[test]
fn test_reg_and() {
    let reg1 = Reg::from_bits(70, &[0, 1, 2, 3, 64, 65]);
    let reg2 = Reg::from_bits(70, &[1, 2, 66, 67]);
    let and_result = reg1.bitand(&reg2);
    assert_eq!(and_result.hi_bits(), vec![1, 2]);
}

#[test]
fn test_reg_or() {
    let reg1 = Reg::from_bits(70, &[0, 1, 2, 3, 64, 65]);
    let reg2 = Reg::from_bits(70, &[1, 2, 66, 67]);
    let or_result = reg1.bitor(&reg2);
    assert_eq!(or_result.hi_bits(), vec![0, 1, 2, 3, 64, 65, 66, 67]);
}

#[test]
fn test_reg_xor() {
    let reg1 = Reg::from_bits(70, &[0, 1, 2, 3, 64, 65, 68]);
    let reg2 = Reg::from_bits(70, &[1, 2, 66, 67, 68]);
    let xor_result = reg1.bitxor(&reg2);
    assert_eq!(xor_result.hi_bits(), vec![0, 3, 64, 65, 66, 67]);
}

#[test]
fn test_reg_not() {
    let reg1 = Reg::from_bits(70, &[0, 1, 2, 3, 64, 65]);
    let not_result = reg1.not();
    let expected_not_bits: Vec<usize> = (0..70).filter(|&i| ![0, 1, 2, 3, 64, 65].contains(&i)).collect();
    assert_eq!(not_result.hi_bits(), expected_not_bits);
}

#[test]
fn test_reg_mask() {
    let mut reg = Reg::from_bits(5, &[0, 1, 2, 3]);
    assert_eq!(&reg.as_usize(), &0b1111);
    reg.mask_last_cell();
    assert_eq!(&reg.as_usize(), &0b1111);
}

#[test]
fn reg_increment_counts_up() {
    let mut reg = Reg::new(3);
    for k in 1..8usize {
        reg.increment();
        assert_eq!(reg.as_usize(), k);
    }
    assert_eq!(reg.increment(), None);
    assert_eq!(reg.as_usize(), 0);
}

#[test]
fn reg_ripple_down_and_single_bit() {
    let mut reg = Reg::from_bits(4, &[3, 2]);
    assert_eq!(reg.ripple(3, 0), Some(1));
    assert_eq!(reg.hi_bits(), vec![1]);
    let mut one = Reg::new(1);
    assert_eq!(one.increment(), Some(0));
    assert_eq!(one.as_usize(), 1);
    assert_eq!(one.increment(), None);
    assert_eq!(one.as_usize(), 0);
    let mut same = Reg::new(4);
    assert_eq!(same.ripple(2, 2), Some(2));
    assert_eq!(same.as_usize(), 0b100);
    assert_eq!(same.ripple(2, 2), None);
    assert_eq!(same.as_usize(), 0);
}

#[test]
fn reg_rev_permute_and_vars() {
    let reg = Reg::from_bits(4, &[0]);
    assert_eq!(reg.as_usize_rev(), 0b1000);
    let reg = Reg::from_bits(3, &[0, 1]);
    assert_eq!(reg.as_usize_rev(), 0b110);
    let p = Reg::from_bits(3, &[0]).permute_bits(&[2, 1, 0]);
    assert_eq!(p.hi_bits(), vec![2]);
    let mut v = Reg::new(8);
    v.var_put(bex::vid::VID::var(5), true);
    assert!(v.var_get(bex::vid::VID::var(5)));
    assert_eq!(v.len(), 8);
    assert!(!v.is_empty());
    assert!(Reg::new(0).is_empty());
    let c = v.copy();
    assert_eq!(c.hi_bits(), vec![5]);
}

#[test]
fn reg_ripple_one_bit_region() {
    let mut r = Reg::new(4);
    assert_eq!(r.ripple(2, 2), Some(2));
    assert!(r.get(2));
    assert_eq!(r.as_usize(), 0b100);
    assert_eq!(r.ripple(2, 2), None);
    assert_eq!(r.as_usize(), 0);
    let mut one = Reg::new(1);
    assert_eq!(one.increment(), Some(0));
    assert_eq!(one.increment(), None);
}
