use bex::anf_swarm::{AnfJob, AnfParts, AnfSlot};
use bex::naf::NAF;
use bex::nid::NID;
use bex::solve::{convert_nid, SrcNid};
use bex::swarm::{QID, WID};
use bex::vhl::Vhl;
use bex::vid::VID;

#[test]
fn anf_jobs_order_operands() {
    let (a, b) = (NID::var(1), NID::var(2));
    assert_eq!(AnfJob::xor(b, a), AnfJob::xor(a, b));
    assert_eq!(AnfJob::and(a, b), AnfJob::and(b, a));
    assert_eq!(AnfJob::default(), AnfJob::Xor(NID::o(), NID::o()));
}

#[test]
fn anf_parts_fill_slots() {
    let v = VID::var(0);
    let mut p = AnfParts::Xor { v, hi: None, lo: None };
    assert!(!p.is_ready());
    p.set_slot(AnfSlot::Hi, Some(NID::i()));
    assert!(!p.is_ready());
    p.set_slot(AnfSlot::Bq, Some(NID::i())); // not a slot of this part: ignored
    assert!(!p.is_ready());
    p.set_slot(AnfSlot::Lo, Some(NID::o()));
    assert!(p.is_ready());
    let mut q = AnfParts::AndLevel { v, bq: None, br: None, cq: None, cr: None };
    for s in [AnfSlot::Bq, AnfSlot::Br, AnfSlot::Cq] {
        q.set_slot(s, Some(NID::o()));
        assert!(!q.is_ready());
    }
    q.set_slot(AnfSlot::Cr, Some(NID::o()));
    assert!(q.is_ready());
    assert!(!AnfParts::default().is_ready());
}

#[test]
fn naf_var_and_inversion() {
    let (a, b) = (NID::var(1), NID::var(3));
    let n = NAF::And { inv: false, x: a, y: b };
    assert_eq!(n.var(), VID::var(3));
    assert_eq!(n.inv_if(true), NAF::And { inv: true, x: a, y: b });
    assert_eq!(n.inv_if(false), n);
    let h = NAF::Vhl(Vhl { v: VID::var(2), hi: NID::i(), lo: NID::o() });
    assert_eq!(h.inv_if(true), NAF::Vhl(Vhl { v: VID::var(2), hi: NID::i(), lo: NID::i() }));
}

#[test]
fn convert_nids_to_destination() {
    assert_eq!(convert_nid(SrcNid { n: NID::o() }).n, NID::o());
    assert_eq!(convert_nid(SrcNid { n: NID::vir(4) }).n, NID::var(4));
    assert_eq!(convert_nid(SrcNid { n: !NID::var(2) }).n, !NID::var(2));
    assert_eq!(convert_nid(SrcNid { n: NID::ixn(7) }).n, NID::vir(7));
    assert_eq!(convert_nid(SrcNid { n: !NID::ixn(7) }).n, !NID::vir(7));
}

#[test]
fn swarm_ids() {
    assert_eq!(QID::default(), QID::INIT);
    assert_ne!(QID::STEP(1), QID::STEP(2));
    assert_eq!(WID { n: 3 }, WID { n: 3 });
}
