use bex::anf_swarm::{and_step, xor_step, AnfCore, AnfParts, AnfSlot, AnfStep, AnfStore};
use bex::nid::NID;
use bex::vhl::Vhl;
use bex::vid::VID;

#[test]
fn anf_store_and_builds_the_product() {
    let mut store = AnfStore::default();
    let (a, b) = (NID::var(0), NID::var(1));
    let ab = store.and(a, b);
    assert_eq!(store.fetch(ab), Vhl { v: VID::var(1), hi: a, lo: NID::o() });
    assert_eq!(store.and(b, a), ab);
    let nab = store.and(!a, !b);
    assert!(nab.is_inv());
}

#[test]
fn anf_store_and_same_level() {
    // (x1 x0 + x0)(x1 + 1): both at level x1.
    let mut store = AnfStore::default();
    let (a, b) = (NID::var(0), NID::var(1));
    let ba = store.and(b, a);
    let x = store.vhl(VID::var(1), a, a);
    let y = !b;
    let xy = store.and(x, y);
    // x = x1 x0 + x0 = x0 (not x1); y = not x1: product is x0 (not x1) = x1 x0 + x0 = x.
    assert_eq!(xy, x);
    assert_ne!(ba, x);
}

#[test]
fn anf_store_sub() {
    let mut store = AnfStore::default();
    let (a, b, c) = (NID::var(0), NID::var(1), NID::var(2));
    let ab = store.and(a, b);
    let got = store.sub(a.vid(), c, ab);
    let want = store.and(c, b);
    assert_eq!(got, want);
}

#[test]
fn anf_store_resolve_job() {
    let mut store = AnfStore::default();
    let a = NID::var(0);
    let n = store.resolve_job(AnfParts::Xor { v: VID::var(1), hi: Some(NID::i()), lo: Some(a) });
    assert_eq!(store.fetch(n), Vhl { v: VID::var(1), hi: NID::i(), lo: a });
    let m = store.resolve_job(AnfParts::AndLevel {
        v: VID::var(1), bq: Some(NID::i()), br: Some(NID::o()), cq: Some(NID::o()), cr: Some(a),
    });
    assert_eq!(m, n);
}

#[test]
fn anf_worker_steps() {
    let mut store = AnfStore::default();
    let (a, b) = (NID::var(0), NID::var(1));
    match xor_step(&store, a, b) {
        AnfStep::Parts(p, ch) => {
            assert_eq!(p, AnfParts::Xor { v: VID::var(1), hi: Some(NID::i()), lo: None });
            assert_eq!(ch, vec![(AnfSlot::Lo, AnfCore::Nid(a))]);
        }
        AnfStep::Nid(_) => panic!("xor of two variables waits for its parts"),
    }
    match and_step(&mut store, a, b) {
        AnfStep::Nid(n) => assert_eq!(store.fetch(n), Vhl { v: VID::var(1), hi: a, lo: NID::o() }),
        AnfStep::Parts(_, _) => panic!("a variable above the other nid makes its node at once"),
    }
    let ab = store.and(a, b);
    match and_step(&mut store, ab, b) {
        AnfStep::Parts(p, ch) => {
            assert!(matches!(p, AnfParts::AndLevel { .. }));
            assert_eq!(ch.len(), 4);
            assert_eq!(ch[0], (AnfSlot::Bq, AnfCore::Nid(a)));
            assert_eq!(ch[1], (AnfSlot::Br, AnfCore::Nid(NID::o())));
        }
        AnfStep::Nid(_) => panic!("two nodes at one level wait for their parts"),
    }
}

#[test]
fn anf_store_vhl_shares_nodes() {
    let mut store = AnfStore::default();
    let a = NID::var(0);
    let n1 = store.vhl(VID::var(2), a, NID::o());
    let n2 = store.vhl(VID::var(2), a, NID::o());
    assert_eq!(n1, n2);
    assert_eq!(store.vhl(VID::var(2), NID::i(), NID::o()), NID::var(2));
    let n3 = store.vhl(VID::var(2), a, a);
    assert_ne!(n1, n3);
}
