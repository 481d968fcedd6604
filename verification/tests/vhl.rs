use bex::nid::NID;
use bex::vhl::{HiLo, HiLoPart, Vhl, VhlParts};
use bex::vid::VID;

#[test]
fn hilo_parts_and_inversion() {
    let (a, b) = (NID::var(1), NID::var(2));
    let hl = HiLo::new(a, b);
    assert_eq!(hl.get_part(HiLoPart::HiPart), a);
    assert_eq!(hl.get_part(HiLoPart::LoPart), b);
    assert_eq!(hl.invert(), HiLo::new(!a, !b));
    assert_eq!(!hl, hl.invert());
    let v = Vhl::new(VID::var(3), a, b);
    assert_eq!(v.hilo(), hl);
    assert_eq!(!v, Vhl::new(VID::var(3), !a, !b));
}

#[test]
fn vhl_parts_fill_in() {
    let mut p = VhlParts { v: VID::var(0), hi: None, lo: None, invert: false };
    assert_eq!(p.hilo(), None);
    p.set_part(HiLoPart::HiPart, Some(NID::o()));
    assert_eq!(p.hilo(), None);
    p.set_part(HiLoPart::LoPart, Some(NID::i()));
    assert_eq!(p.hilo(), Some(HiLo::new(NID::o(), NID::i())));
}
