//! Rebuilding an expression base from the rows of a stored copy: the format
//! version, one row per node (its number, its operation's text and its
//! arguments), the names, and the nodes to keep. Reading the rows is left
//! to the caller.
use vstd::prelude::*;
use crate::nid::{NID, F, T, VAR, IDX_MASK};
use crate::ast::{RawASTBase, CAP, ref_ok, node_ok};
use crate::ops::{self, Ops};
use crate::nidtext::{parse_nid_chars, reads_as};
use crate::notation::{char_is_whitespace, is_whitespace};
use crate::text::chars_of;

verus! {

/// The format version that a stored copy must carry.
pub open spec fn fmt_version() -> Seq<char> {
    seq!['0', '.', '1']
}

/// The nid whose 64 bits are those of `value`.
pub open spec fn sql_nid(value: i64) -> NID {
    NID { n: value as u64 }
}

/// The nid whose 64 bits are those of `value`.
pub fn sql_to_nid(value: i64) -> (r: NID)
    ensures r == sql_nid(value),
{
    NID { n: value as u64 }
}

/// `s[a..b]` is `s` without the white space at either end.
pub open spec fn trims_to(s: Seq<char>, a: int, b: int) -> bool {
    &&& 0 <= a <= b <= s.len()
    &&& forall|i: int| 0 <= i < a ==> char_is_whitespace(#[trigger] s[i])
    &&& forall|i: int| b <= i < s.len() ==> char_is_whitespace(#[trigger] s[i])
    &&& a < b ==> !char_is_whitespace(s[a]) && !char_is_whitespace(s[b - 1])
}

/// `s` without the white space at either end.
pub open spec fn trimmed(s: Seq<char>) -> Seq<char> {
    let (a, b) = choose|a: int, b: int| trims_to(s, a, b);
    s.subrange(a, b)
}

proof fn lemma_trims_unique(s: Seq<char>, a: int, b: int, c: int, d: int)
    requires trims_to(s, a, b), trims_to(s, c, d),
    ensures s.subrange(a, b) == s.subrange(c, d),
{
    if a < b && c < d {
        assert(a == c) by {
            if a < c { assert(char_is_whitespace(s[a])); }
            if c < a { assert(char_is_whitespace(s[c])); }
        }
        assert(b == d) by {
            if b < d { assert(char_is_whitespace(s[d - 1])); }
            if d < b { assert(char_is_whitespace(s[b - 1])); }
        }
    } else if a < b {
        assert(c <= a || d <= a || a >= d);
        if a < c { assert(char_is_whitespace(s[a])); } else { assert(char_is_whitespace(s[a])); }
    } else if c < d {
        if c < a { assert(char_is_whitespace(s[c])); } else { assert(char_is_whitespace(s[c])); }
    }
    assert(s.subrange(a, b) =~= s.subrange(c, d));
}

/// The characters of `s` without the white space at either end.
fn trim_chars(s: &Vec<char>) -> (r: Vec<char>)
    ensures r@ == trimmed(s@),
{
    let mut a: usize = 0;
    while a < s.len() && is_whitespace(s[a])
        invariant a <= s@.len(), forall|i: int| 0 <= i < a ==> char_is_whitespace(#[trigger] s@[i]),
        decreases s@.len() - a,
    {
        a = a + 1;
    }
    let mut b: usize = s.len();
    while b > a && is_whitespace(s[b - 1])
        invariant a <= b <= s@.len(), forall|i: int| b <= i < s@.len() ==> char_is_whitespace(#[trigger] s@[i]),
            a < s@.len() ==> !char_is_whitespace(s@[a as int]),
        decreases b,
    {
        b = b - 1;
    }
    let mut r: Vec<char> = Vec::new();
    let mut i: usize = a;
    while i < b
        invariant a <= i <= b <= s@.len(), r@ == s@.subrange(a as int, i as int),
        decreases b - i,
    {
        r.push(s[i]);
        assert(r@ =~= s@.subrange(a as int, i as int + 1));
        i = i + 1;
    }
    proof {
        assert(trims_to(s@, a as int, b as int));
        let (c, d) = choose|c: int, d: int| trims_to(s@, c, d);
        lemma_trims_unique(s@, a as int, b as int, c, d);
    }
    r
}

/// May `n` appear in a base of `len` nodes?
fn refers_ok(n: NID, len: usize) -> (r: bool)
    ensures r == ref_ok(n, len as nat),
{
    n.n & T != 0 || n.n & VAR != 0 || n.n & F == F || (n.is_ixn() && (n.n & IDX_MASK) < len as u64)
}

/// Is `v` the format version?
fn is_fmt_version(v: &String) -> (r: bool)
    ensures r == (v@ == fmt_version()),
{
    let cs = chars_of(v.as_str());
    let r = cs.len() == 3 && cs[0] == '0' && cs[1] == '.' && cs[2] == '1';
    proof {
        if r { assert(cs@ =~= fmt_version()); }
    }
    r
}

/// A row's operation text reads as `f`: trimmed, it is not empty and reads as `f`.
pub open spec fn row_op(text: Seq<char>, f: NID) -> bool {
    trimmed(text).len() > 0 && reads_as(trimmed(text), Some(f))
}

/// The items of a node: its arguments, then its operation.
pub open spec fn row_items(args: Seq<i64>, f: NID) -> Seq<NID> {
    args.map_values(|a: i64| sql_nid(a)).push(f)
}

/// The names given by the first `k` name rows (a later row wins).
pub open spec fn row_names(tags: Seq<(String, i64)>, k: nat) -> Map<Seq<char>, NID>
    decreases k,
{
    if k == 0 || k > tags.len() {
        Map::empty()
    } else {
        row_names(tags, (k - 1) as nat).insert(tags[k - 1].0@, sql_nid(tags[k - 1].1))
    }
}

/// The base and kept nodes that the rows describe: the nodes in the order of
/// the rows, each with the items `row_items` gives for its arguments and the
/// nid its operation text reads as; the names of the name rows; and the
/// kept nodes. A wrong or missing format version, an operation text that is
/// empty after trimming or that the nid parser refuses, a node that refers
/// to a node that is not before it, and a name of a node that is not in the
/// base give `Err`.
pub fn ast_from_rows(
    version: Option<String>,
    nodes: &Vec<(i64, String, Vec<i64>)>,
    tags: &Vec<(String, i64)>,
    keep: &Vec<i64>,
) -> (r: Result<(RawASTBase, Vec<NID>), String>)
    requires nodes@.len() < CAP,
    ensures
        !(version matches Some(v) && v@ == fmt_version()) ==> r is Err,
        (exists|i: int| 0 <= i < nodes@.len() && trimmed(#[trigger] nodes@[i].1@).len() == 0) ==> r is Err,
        (exists|i: int, z: int| 0 <= i < nodes@.len() && 0 <= z < nodes@[i].2@.len()
            && !ref_ok(sql_nid(#[trigger] nodes@[i].2@[z]), i as nat)) ==> r is Err,
        (exists|k: int| 0 <= k < tags@.len() && !ref_ok(sql_nid(#[trigger] tags@[k].1), nodes@.len() as nat)) ==> r is Err,
        r matches Ok((b, kp)) ==> {
            &&& version matches Some(v) && v@ == fmt_version()
            &&& b.wf()
            &&& b.bits@.len() == nodes@.len()
            &&& forall|i: int| 0 <= i < nodes@.len() ==> {
                let items = #[trigger] b.bits@[i].items();
                &&& items.len() > 0
                &&& row_op(nodes@[i].1@, items.last())
                &&& items == row_items(nodes@[i].2@, items.last())
            }
            &&& b.tags.map() == row_names(tags@, tags@.len())
            &&& kp@ == keep@.map_values(|a: i64| sql_nid(a))
        },
{
    match &version {
        Some(v) => {
            if !is_fmt_version(v) {
                return Err(String::from_str("unexpected fmt.version"));
            }
        },
        None => {
            return Err(String::from_str("missing fmt.version metadata"));
        },
    }
    let mut base = RawASTBase::empty();
    let mut i: usize = 0;
    while i < nodes.len()
        invariant
            i <= nodes@.len() < CAP, base.wf(), base.bits@.len() == i,
            base.tags.map() == Map::<Seq<char>, NID>::empty(),
            forall|j: int| 0 <= j < i ==> trimmed(#[trigger] nodes@[j].1@).len() > 0,
            forall|j: int, z: int| 0 <= j < i && 0 <= z < nodes@[j].2@.len() ==> ref_ok(sql_nid(#[trigger] nodes@[j].2@[z]), j as nat),
            forall|j: int| 0 <= j < i ==> {
                let items = #[trigger] base.bits@[j].items();
                &&& items.len() > 0
                &&& row_op(nodes@[j].1@, items.last())
                &&& items == row_items(nodes@[j].2@, items.last())
            },
        decreases nodes@.len() - i,
    {
        let row = &nodes[i];
        let text = chars_of(row.1.as_str());
        let t = trim_chars(&text);
        if t.len() == 0 {
            return Err(String::from_str("empty op"));
        }
        let fun = match parse_nid_chars(&t) {
            Ok(f) => f,
            Err(e) => {
                return Err(e);
            },
        };
        let mut items: Vec<NID> = Vec::new();
        let mut k: usize = 0;
        while k < row.2.len()
            invariant k <= row.2@.len(), items@ == row.2@.subrange(0, k as int).map_values(|a: i64| sql_nid(a)),
            decreases row.2@.len() - k,
        {
            items.push(sql_to_nid(row.2[k]));
            assert(items@ =~= row.2@.subrange(0, k as int + 1).map_values(|a: i64| sql_nid(a)));
            k = k + 1;
        }
        items.push(fun);
        proof {
            assert(row.2@.subrange(0, row.2@.len() as int) =~= row.2@);
            assert(items@ =~= row_items(row.2@, fun));
        }
        let mut q: usize = 0;
        while q < items.len()
            invariant q <= items@.len(), forall|z: int| 0 <= z < q ==> ref_ok(#[trigger] items@[z], i as nat),
            decreases items@.len() - q,
        {
            if !refers_ok(items[q], i) {
                return Err(String::from_str("node refers to a node that is not before it"));
            }
            q = q + 1;
        }
        proof {
            assert forall|z: int| 0 <= z < row.2@.len() implies ref_ok(sql_nid(#[trigger] row.2@[z]), i as nat) by {
                assert(items@[z] == sql_nid(row.2@[z]));
            }
        }
        let ops = ops::rpn(items.as_slice());
        base.push_raw_ops(ops);
        i = i + 1;
    }
    let mut t: usize = 0;
    while t < tags.len()
        invariant
            t <= tags@.len(), base.wf(), base.bits@.len() == nodes@.len(),
            base.tags.map() == row_names(tags@, t as nat),
            forall|j: int| 0 <= j < nodes@.len() ==> trimmed(#[trigger] nodes@[j].1@).len() > 0,
            forall|j: int, z: int| 0 <= j < nodes@.len() && 0 <= z < nodes@[j].2@.len() ==> ref_ok(sql_nid(#[trigger] nodes@[j].2@[z]), j as nat),
            forall|k: int| 0 <= k < t ==> ref_ok(sql_nid(#[trigger] tags@[k].1), nodes@.len() as nat),
            forall|j: int| 0 <= j < nodes@.len() ==> {
                let items = #[trigger] base.bits@[j].items();
                &&& items.len() > 0
                &&& row_op(nodes@[j].1@, items.last())
                &&& items == row_items(nodes@[j].2@, items.last())
            },
        decreases tags@.len() - t,
    {
        let n = sql_to_nid(tags[t].1);
        if !refers_ok(n, base.bits.len()) {
            return Err(String::from_str("name of a node that is not in the base"));
        }
        let ghost before = base.tags.map();
        base.tags.tag(n, tags[t].0.clone());
        proof {
            assert forall|k: Seq<char>| #[trigger] base.tags.map().contains_key(k) implies ref_ok(base.tags.map()[k], base.bits@.len()) by {
                if base.tags.map()[k] != n {
                    assert(before.contains_key(k));
                }
            }
        }
        t = t + 1;
    }
    let mut kp: Vec<NID> = Vec::new();
    let mut k: usize = 0;
    while k < keep.len()
        invariant k <= keep@.len(), kp@ == keep@.subrange(0, k as int).map_values(|a: i64| sql_nid(a)),
        decreases keep@.len() - k,
    {
        kp.push(sql_to_nid(keep[k]));
        assert(kp@ =~= keep@.subrange(0, k as int + 1).map_values(|a: i64| sql_nid(a)));
        k = k + 1;
    }
    proof { assert(keep@.subrange(0, keep@.len() as int) =~= keep@); }
    Ok((base, kp))
}

} // verus!
