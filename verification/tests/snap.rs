use bex::snap::SnapshotKind;

#[test]
fn snapshot_kind_names() {
    assert_eq!(SnapshotKind::Scaffold.as_str(), "scaffold");
    assert_eq!(SnapshotKind::Bdd.as_str(), "bdd");
    assert_eq!(SnapshotKind::Anf.as_str(), "anf");
    for k in [SnapshotKind::Scaffold, SnapshotKind::Bdd, SnapshotKind::Anf] {
        assert_eq!(SnapshotKind::from_str_kind(k.as_str()), k);
    }
}
