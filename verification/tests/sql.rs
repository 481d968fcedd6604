use bex::nid::NID;
use bex::sql::ast_from_rows;

fn bits(n: NID) -> i64 {
    n.n as i64
}

#[test]
fn sql_rows_rebuild_the_base() {
    let and = NID::fun(2, 0b1000).to_nid();
    let x0 = NID::var(0);
    let x1 = NID::var(1);
    let n0 = NID::ixn(0);
    let nodes = vec![
        (0i64, " t1000 ".to_string(), vec![bits(x0), bits(x1)]),
        (1i64, "t1000".to_string(), vec![bits(n0), bits(!x0)]),
    ];
    let tags = vec![("a".to_string(), bits(n0)), ("b".to_string(), bits(NID::ixn(1))), ("a".to_string(), bits(x1))];
    let keep = vec![bits(NID::ixn(1)), bits(n0)];
    let (base, kept) = ast_from_rows(Some("0.1".to_string()), &nodes, &tags, &keep).unwrap();
    assert_eq!(base.bits.len(), 2);
    assert_eq!(base.bits[0].to_rpn(), &vec![x0, x1, and]);
    assert_eq!(base.bits[1].to_rpn(), &vec![n0, !x0, and]);
    assert_eq!(base.tags.get("a"), Some(x1));
    assert_eq!(base.tags.get("b"), Some(NID::ixn(1)));
    assert_eq!(kept, vec![NID::ixn(1), n0]);
}

#[test]
fn sql_rows_need_the_format_version() {
    let nodes: Vec<(i64, String, Vec<i64>)> = vec![];
    assert!(ast_from_rows(None, &nodes, &vec![], &vec![]).is_err());
    assert!(ast_from_rows(Some("0.2".to_string()), &nodes, &vec![], &vec![]).is_err());
    assert!(ast_from_rows(Some("0.1".to_string()), &nodes, &vec![], &vec![]).is_ok());
}

#[test]
fn sql_rows_with_bad_nodes_are_refused() {
    let v = Some("0.1".to_string());
    let x0 = NID::var(0);
    // an operation that is only white space
    let blank = vec![(0i64, "   ".to_string(), vec![bits(x0)])];
    assert!(ast_from_rows(v.clone(), &blank, &vec![], &vec![]).is_err());
    // an operation that is not a nid
    let junk = vec![(0i64, "t10z0".to_string(), vec![bits(x0)])];
    assert!(ast_from_rows(v.clone(), &junk, &vec![], &vec![]).is_err());
    // a node that refers to itself
    let ahead = vec![(0i64, "t1000".to_string(), vec![bits(NID::ixn(0)), bits(x0)])];
    assert!(ast_from_rows(v.clone(), &ahead, &vec![], &vec![]).is_err());
    // a name of a node that is not there
    let one = vec![(0i64, "t1000".to_string(), vec![bits(x0), bits(x0)])];
    assert!(ast_from_rows(v.clone(), &one, &vec![("z".to_string(), bits(NID::ixn(1)))], &vec![]).is_err());
    assert!(ast_from_rows(v, &one, &vec![("z".to_string(), bits(NID::ixn(0)))], &vec![]).is_ok());
}
