use bex::ast::{ASTBase, RawASTBase};
use bex::base::Base;
use bex::nid::NID;
use bex::notation::{apply_bracket, eval_expr, parse_expr, Expr, ParsedNid};
use bex::ops;
use bex::tags::Names;

fn roundtrip(s: &str) {
    let pn: ParsedNid = s.parse().unwrap_or_else(|e| panic!("failed to parse {}: {}", s, e));
    let printed = pn.to_string();
    let pn2: ParsedNid = printed
        .parse()
        .unwrap_or_else(|e| panic!("failed to re-parse {} (from {}): {}", printed, s, e));
    assert_eq!(pn, pn2, "round trip failed for {} (printed as {})", s, printed);
}

#[test]
fn test_roundtrip_all_forms() {
    for s in [
        "O", "I", "x0", "xEB", "v0", "vF3", "!x0", "!v3", "t0001", "t0110", "t01101001", "f2.6", "f3.33",
        "fA", "x2.A3", "v2.A3", "!x2.A3", "@1A", "!@1A", "T{x3,x7:1110}", "T{x1,x3,x5:FC}", "!t0001",
        "!T{x3,x7:1110}", "2:x0", "5:x5.234", "3:@FF", "7:O", "3:!t0001",
    ] {
        roundtrip(s);
    }
}

#[test]
fn test_tbl_oi_alternates_via_parsed_nid() {
    let a: ParsedNid = "tOIIO".parse().unwrap();
    let b: ParsedNid = "t0110".parse().unwrap();
    assert_eq!(a, b);
}

#[test]
fn test_namespace_prefix() {
    let x0 = NID::var(0);
    let pn: ParsedNid = "2:x0".parse().unwrap();
    assert_eq!(pn.ns, Some(2));
    assert_eq!(pn.nid, x0);
    assert_eq!(pn.to_string(), "2:x0");
    let plain: ParsedNid = "x0".parse().unwrap();
    assert_eq!(plain.ns, None);
}

#[test]
fn test_table_equivalences() {
    let f26: NID = "f2.6".parse::<ParsedNid>().unwrap().nid;
    let t0110: NID = "t0110".parse::<ParsedNid>().unwrap().nid;
    assert_eq!(f26, t0110, "f2.6 should equal t0110 (XOR)");
    let t0001: NID = "t0001".parse::<ParsedNid>().unwrap().nid;
    assert_eq!(t0001, ops::AND().to_nid(), "t0001 should equal the dyadic AND function");
}

#[test]
fn test_invalid_table_length() {
    assert!("t010".parse::<ParsedNid>().is_err(), "3-bit table should be rejected");
    let bits64 = format!("t{}", "0".repeat(64));
    assert!(bits64.parse::<ParsedNid>().is_err(), "64-bit table should be rejected");
}

#[test]
fn test_lowercase_hex_rejected() {
    assert!("xeb".parse::<ParsedNid>().is_err(), "lowercase hex variable should be rejected");
    assert!("f2.f".parse::<ParsedNid>().is_err(), "lowercase hex table digit should be rejected");
    assert!("@1a".parse::<ParsedNid>().is_err(), "lowercase hex ast index should be rejected");
}

fn nid(n: NID) -> Box<Expr> {
    Box::new(Expr::Nid(n))
}

#[test]
fn test_precedence_and_over_or() {
    let (x0, x1, x2) = (NID::var(0), NID::var(1), NID::var(2));
    let e = parse_expr("x0 | x1 & x2").unwrap();
    match e {
        Expr::Or(a, b) => {
            assert_eq!(*a, Expr::Nid(x0));
            match *b {
                Expr::And(bx, by) => {
                    assert_eq!(*bx, Expr::Nid(x1));
                    assert_eq!(*by, Expr::Nid(x2));
                }
                other => panic!("expected And on rhs of Or, got {:?}", other),
            }
        }
        other => panic!("expected top-level Or, got {:?}", other),
    }
}

#[test]
fn test_precedence_xor_between_and_and_or() {
    let (x0, x1, x2) = (NID::var(0), NID::var(1), NID::var(2));
    let e = parse_expr("x0 & x1 % x2 | x0").unwrap();
    match e {
        Expr::Or(l, r) => {
            assert_eq!(*r, Expr::Nid(x0));
            match *l {
                Expr::Xor(xl, xr) => {
                    assert_eq!(*xl, Expr::And(nid(x0), nid(x1)));
                    assert_eq!(*xr, Expr::Nid(x2));
                }
                other => panic!("expected Xor, got {:?}", other),
            }
        }
        other => panic!("expected top-level Or, got {:?}", other),
    }
}

#[test]
fn test_precedence_rel_below_or() {
    let (x0, x1, x2) = (NID::var(0), NID::var(1), NID::var(2));
    let e = parse_expr("x0 < x1 | x2").unwrap();
    match e {
        Expr::Lt(a, b) => {
            assert_eq!(*a, Expr::Nid(x0));
            assert_eq!(*b, Expr::Or(nid(x1), nid(x2)));
        }
        other => panic!("expected top-level Lt, got {:?}", other),
    }
}

#[test]
fn test_eq_non_associative() {
    assert!(parse_expr("x0 = x1").is_ok());
    assert!(parse_expr("x0 = x1 = x2").is_err(), "chained '=' without parens should be rejected");
    assert!(parse_expr("(x0 = x1) = x2").is_ok(), "parens should allow chaining");
}

#[test]
fn test_unary_not_binds_tighter_than_and() {
    let (x0, x1) = (NID::var(0), NID::var(1));
    let e = parse_expr("!x0 & x1").unwrap();
    assert_eq!(e, Expr::And(Box::new(Expr::Not(nid(x0))), nid(x1)));
}

#[test]
fn test_parens() {
    let (x0, x1, x2) = (NID::var(0), NID::var(1), NID::var(2));
    let e = parse_expr("x0 & (x1 | x2)").unwrap();
    assert_eq!(e, Expr::And(nid(x0), Box::new(Expr::Or(nid(x1), nid(x2)))));
}

#[test]
fn test_bracket_ast_error() {
    let (x0, x1, x2) = (NID::var(0), NID::var(1), NID::var(2));
    let mut base = ASTBase::empty();
    let n = base.and(x0, x1);
    assert!(n.is_ixn(), "test setup expected a genuine AST node");
    let err = apply_bracket(&mut base, n, &[x2]).unwrap_err();
    assert!(err.contains("AST"), "error should mention AST nids, got: {}", err);
}

#[test]
fn eval_assignment_and_reference() {
    let (x0, x1, x2) = (NID::var(0), NID::var(1), NID::var(2));
    let mut base = RawASTBase::empty();
    let mut scope = Names::new();
    let a = eval_expr(&mut base, &parse_expr("a : x0 & x1").unwrap(), &mut scope).unwrap();
    assert_eq!(scope.get("a"), Some(a));
    let n = eval_expr(&mut base, &parse_expr("a | x2").unwrap(), &mut scope).unwrap();
    assert_eq!(n, base.or(a, x2));
    assert_eq!(a, base.and(x0, x1));
}

#[test]
fn eval_undefined_variable_errors() {
    let mut base = RawASTBase::empty();
    let mut scope = Names::new();
    let r = eval_expr(&mut base, &parse_expr("undefined_name").unwrap(), &mut scope);
    assert_eq!(r, Err("undefined variable: undefined_name".to_string()));
}

#[test]
fn eval_derived_operators() {
    let (x0, x1) = (NID::var(0), NID::var(1));
    let mut base = RawASTBase::empty();
    let mut scope = Names::new();
    let eq = eval_expr(&mut base, &parse_expr("x0 = x1").unwrap(), &mut scope).unwrap();
    assert_eq!(eq, !base.xor(x0, x1));
    let lt = eval_expr(&mut base, &parse_expr("x0 < x1").unwrap(), &mut scope).unwrap();
    assert_eq!(lt, base.and(!x0, x1));
    let le = eval_expr(&mut base, &parse_expr("x0 / x1").unwrap(), &mut scope).unwrap();
    assert_eq!(le, base.or(!x0, x1));
}

#[test]
fn bracket_errors() {
    let (x0, x1) = (NID::var(0), NID::var(1));
    let mut base = RawASTBase::empty();
    let and_tbl = ops::AND().to_nid();
    let e = apply_bracket(&mut base, and_tbl, &[x0]).unwrap_err();
    assert!(e.contains("has arity 2 but 1 arg(s) were given"), "got: {}", e);
    let e = apply_bracket(&mut base, x0, &[x1]).unwrap_err();
    assert_eq!(e, "cannot apply bracket notation to nid with no index: x0");
    assert!(apply_bracket(&mut base, and_tbl, &[x0, x1]).is_ok());
}

#[test]
fn parsed_nid_reads_back_printed_forms() {
    let nids = [
        NID::o(), NID::i(), NID::var(0), !NID::var(0x1F), NID::vir(3), NID::ixn(0x2A), !NID::ixn(0),
        NID::from_vid_idx(bex::vid::VID::var(5), 0x10), !NID::from_vid_idx(bex::vid::VID::vir(2), 1),
    ];
    for n in nids {
        for p in [ParsedNid::new(n), ParsedNid::with_ns(12, n)] {
            let t = p.to_string();
            assert_eq!(ParsedNid::parse(&t), Ok(p), "round trip of {}", t);
        }
    }
}

#[test]
fn notation_words_that_are_no_nid() {
    assert!(bex::nidtext::parse_nid("undefined_name").is_err());
    assert!(bex::nidtext::parse_nid("!q").is_err());
    assert!(bex::nidtext::parse_nid("!").is_err());
    assert!(bex::nidtext::parse_nid(".x").is_err());
    assert_eq!(bex::nidtext::parse_nid("x0"), Ok(NID::var(0)));
    let e = parse_expr("undefined_name & x1").unwrap();
    assert_eq!(e, Expr::And(Box::new(Expr::Var("undefined_name".to_string())), Box::new(Expr::Nid(NID::var(1)))));
}

#[test]
fn notation_tokenize_reports_position() {
    let e = parse_expr("x0 # x1").unwrap_err();
    assert_eq!(e, "unexpected character at 3: '#'");
}

#[test]
fn notation_tokenize_escapes_the_stray_character() {
    let e = parse_expr("x0 \\ x1").unwrap_err();
    assert_eq!(e, "unexpected character at 3: '\\\\'");
    let e = parse_expr("x0\t'").unwrap_err();
    assert_eq!(e, "unexpected character at 3: '\\''");
}

#[test]
fn notation_unicode_white_space_separates_tokens() {
    let plain = parse_expr("x0 & x1").unwrap();
    assert_eq!(parse_expr("x0\u{3000}&\u{2009}x1\u{85}").unwrap(), plain);
    assert_eq!(parse_expr("\u{a0}x0\u{2028}&\u{1680}x1").unwrap(), plain);
    // a zero-width space is not white space
    assert!(parse_expr("x0\u{200b}& x1").is_err());
}
