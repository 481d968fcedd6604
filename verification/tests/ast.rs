use bex::ast::{ASTBase, RawASTBase};
use bex::base::Base;
use bex::nid::NID;
use bex::ops;

#[test]
fn ast_and() {
    let mut b = ASTBase::empty();
    let x0 = NID::var(0);
    let x1 = NID::var(1);
    let x01 = b.and(x0, x1);
    let x10 = b.and(x1, x0);
    assert_eq!(x01, x10, "expect $0 & $1 == $1 & $0");
}

#[test]
fn test_repack() {
    let mut b = RawASTBase::empty();
    let (x0, x1, x2, x3, x4) = (NID::var(0), NID::var(1), NID::var(2), NID::var(3), NID::var(4));
    let and = b.and(x0, x1);
    let or = b.or(x2, x3);
    b.tag(or, "or".to_string());
    let xor = b.xor(x4, and);
    let (b2, keep) = b.repack(vec![xor]);
    assert_eq!(b2.len(), 2);
    assert_eq!(keep, vec![NID::ixn(1)]);
    assert_eq!(b2.get_ops(keep[0]), b.get_ops(xor));
}

#[test]
fn repack_drops_names_of_unused_nodes() {
    let mut b = RawASTBase::empty();
    let (x0, x1, x2, x3) = (NID::var(0), NID::var(1), NID::var(2), NID::var(3));
    let and = b.and(x0, x1);
    let or = b.or(x2, x3);
    b.tag(or, "or".to_string());
    b.tag(and, "and".to_string());
    let (b2, keep) = b.repack(vec![and]);
    assert_eq!(b2.len(), 1);
    assert_eq!(keep, vec![NID::ixn(0)]);
    assert_eq!(b2.get("or"), None);
    assert_eq!(b2.get("and"), Some(NID::ixn(0)));
}

#[test]
fn gc_keeps_order_and_inversion() {
    let mut b = RawASTBase::empty();
    let (x0, x1, x2) = (NID::var(0), NID::var(1), NID::var(2));
    let a = b.and(x0, x1); // node 0
    let _unused = b.xor(x1, x2); // node 1
    let c = b.xor(a, x2); // node 2
    let (g, keep) = b.gc(vec![!c, a]);
    assert_eq!(g.len(), 2);
    assert_eq!(keep, vec![!NID::ixn(1), NID::ixn(0)]);
    assert_eq!(g.get_ops(NID::ixn(1)), &ops::xor(NID::ixn(0), x2));
}

#[test]
fn repack_orders_by_cost() {
    let mut b = RawASTBase::empty();
    let (x0, x1, x2, x3, x4) = (NID::var(0), NID::var(1), NID::var(2), NID::var(3), NID::var(4));
    let a = b.and(x0, x1); // node 0, cost 2
    let c = b.xor(a, x2); // node 1, cost 3
    let d = b.and(x3, x4); // node 2, cost 2
    let e = b.or(c, d); // node 3, cost 4
    assert_eq!(b.node_costs(), vec![2, 3, 2, 4]);
    let (p, keep) = b.repack(vec![e]);
    assert_eq!(p.len(), 4);
    assert_eq!(keep, vec![NID::ixn(3)]);
    assert_eq!(p.get_ops(NID::ixn(0)), &ops::and(x0, x1));
    assert_eq!(p.get_ops(NID::ixn(1)), &ops::and(x3, x4));
    assert_eq!(p.get_ops(NID::ixn(2)), &ops::xor(NID::ixn(0), x2));
    assert_eq!(p.get_ops(NID::ixn(3)), &ops::vel(NID::ixn(2), NID::ixn(1)));
    assert_eq!(p.node_costs(), vec![2, 2, 3, 4]);
}

#[test]
fn ast_walk_order() {
    let mut b = RawASTBase::empty();
    let (x0, x1, x2) = (NID::var(0), NID::var(1), NID::var(2));
    let a = b.and(x0, x1);
    let o = b.or(a, x2);
    // a node comes before its inputs, each raw node once
    assert_eq!(b.walk(o), vec![o, a, x0, x1, x2]);
    assert_eq!(b.walk(!a), vec![!a, x0, x1]);
}

#[test]
fn ast_dot_text() {
    let mut b = RawASTBase::empty();
    let (x0, x1) = (NID::var(0), NID::var(1));
    let a = b.and(x0, x1);
    let expected: String = [
        "digraph bdd {\n",
        "  bgcolor=\"#3399cc\"; pad=0.225\n",
        "  rankdir=BT;\n",
        "  node[shape=circle, style=filled, fillcolor=\"#dddddd\", fontname=calibri];\n",
        "  edge[style=solid]\n",
        "  \"@0\"[label=∧];\n",
        "edge[style=solid];\n",
        " \"x0\"->\"@0\";\n",
        "edge[style=solid];\n",
        " \"x1\"->\"@0\";\n",
        "\"x0\"[fillcolor=\"#bbbbbb\",label=\"x0\"];\n",
        "\"x1\"[fillcolor=\"#bbbbbb\",label=\"x1\"];\n",
        "}\n",
    ]
    .concat();
    assert_eq!(b.dot(a), expected);
}

#[test]
fn ast_reftable_counts_node_inputs_only() {
    let mut b = RawASTBase::empty();
    let a = b.and(NID::var(0), NID::var(1));
    assert_eq!(a, NID::ixn(0));
    assert_eq!(b.reftable(), vec![Vec::<NID>::new()]);
    let c = b.xor(a, NID::var(2));
    assert_eq!(c, NID::ixn(1));
    assert_eq!(b.reftable(), vec![vec![c], vec![]]);
}
