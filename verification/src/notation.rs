//! Standard notations: a common vocabulary for spelling nids (with an
//! optional numeric namespace prefix), and an infix algebraic grammar built
//! on top of that vocabulary, with bracket-notation function application.
use vstd::prelude::*;
use crate::nid::{NID, NidFun, F, T, VAR, INV, negate};
use crate::nidtext::{parse_nid_chars, nid_text, plain_vid, inv_nid, ixn_nid, vidx_nid, var_word, ixn_word, vidx_word, reads_as, ok_nid};
use crate::vid::VID;
use crate::nid::IDX_MASK;
use crate::nidfun::pow2;
use crate::text::{push_char, chars_of};
use crate::base::{Base, needs_sub, Call};
use crate::nidfun::{rewrites, IxMap, ix_map, entry, table_of};
use crate::simp::not_spec;
use crate::tags::Names;
use crate::ast::is_ixn_spec;

verus! {

// ---- ParsedNid: a nid plus an optional numeric namespace prefix ----

/// A nid, plus the optional numeric namespace prefix (`N:`) used when dealing
/// with multiple bases.
#[derive(Debug, Clone, Copy, PartialEq, Eq, Structural)]
pub struct ParsedNid {
    pub ns: Option<u32>,
    pub nid: NID,
}

/// Decimal digits of `x`.
pub open spec fn dec_text(x: nat) -> Seq<char>
    decreases x,
{
    if x < 10 {
        seq![((x + 48) as u8) as char]
    } else {
        dec_text(x / 10).push((((x % 10) + 48) as u8) as char)
    }
}

/// The text form of a parsed nid: `ns:nid` or just `nid`.
pub open spec fn parsed_text(p: ParsedNid) -> Seq<char> {
    match p.ns {
        Some(ns) => dec_text(ns as nat) + seq![':'] + nid_text(p.nid),
        None => nid_text(p.nid),
    }
}

pub open spec fn is_dec_digit(c: char) -> bool {
    '0' <= c && c <= '9'
}

/// The value of a string of decimal digits.
pub open spec fn dec_val(s: Seq<char>) -> nat
    decreases s.len(),
{
    if s.len() == 0 { 0 } else { dec_val(s.drop_last()) * 10 + (s.last() as nat - 48) as nat }
}

pub(crate) fn push_dec(s: &mut String, x: u64)
    ensures final(s)@ == old(s)@ + dec_text(x as nat),
    decreases x,
{
    if x < 10 {
        push_char(s, ((x + 48) as u8) as char);
        assert(old(s)@.push((((x as nat) + 48) as u8) as char) =~= old(s)@ + dec_text(x as nat));
    } else {
        push_dec(s, x / 10);
        push_char(s, (((x % 10) + 48) as u8) as char);
        assert(old(s)@ + dec_text(x as nat) =~= old(s)@ + dec_text((x / 10) as nat) + seq![((((x % 10) as nat) + 48) as u8) as char]);
    }
}

/// Parse `cs[lo..hi]`: a non-empty run of decimal digits whose value fits in 32 bits.
fn parse_dec(cs: &Vec<char>, lo: usize, hi: usize) -> (r: Option<u32>)
    requires lo <= hi <= cs@.len(),
    ensures
        r is Some <==> (lo < hi
            && (forall|i: int| lo <= i < hi ==> is_dec_digit(#[trigger] cs@[i]))
            && dec_val(cs@.subrange(lo as int, hi as int)) <= u32::MAX),
        r matches Some(v) ==> v == dec_val(cs@.subrange(lo as int, hi as int)),
{
    if lo == hi { return None; }
    let mut v: u64 = 0;
    let mut i = lo;
    while i < hi
        invariant
            lo <= i <= hi <= cs@.len(),
            forall|j: int| lo <= j < i ==> is_dec_digit(#[trigger] cs@[j]),
            v == dec_val(cs@.subrange(lo as int, i as int)),
            v <= u32::MAX,
        decreases hi - i,
    {
        let c = cs[i];
        let ghost sub = cs@.subrange(lo as int, i as int + 1);
        assert(sub.drop_last() =~= cs@.subrange(lo as int, i as int));
        if !('0' <= c && c <= '9') {
            return None;
        }
        let d = (c as u32 - 48) as u64;
        v = v * 10 + d;
        if v > 0xFFFF_FFFF {
            proof { lemma_dec_grows(cs@, lo as int, i as int + 1, hi as int); }
            return None;
        }
        i = i + 1;
    }
    Some(v as u32)
}

proof fn lemma_dec_grows(cs: Seq<char>, lo: int, j: int, hi: int)
    requires
        0 <= lo < j <= hi <= cs.len(),
        dec_val(cs.subrange(lo, j)) > u32::MAX,
    ensures
        (forall|i: int| lo <= i < hi ==> is_dec_digit(#[trigger] cs[i])) ==> dec_val(cs.subrange(lo, hi)) > u32::MAX,
    decreases hi - j,
{
    if j < hi && (forall|i: int| lo <= i < hi ==> is_dec_digit(#[trigger] cs[i])) {
        let s = cs.subrange(lo, j + 1);
        assert(s.drop_last() =~= cs.subrange(lo, j));
        assert(is_dec_digit(cs[j]));
        lemma_dec_grows(cs, lo, j + 1, hi);
    }
}

/// Printing then reading decimal gives the number back; the digits hold no `:`.
proof fn lemma_dec_roundtrip(x: nat)
    ensures
        dec_text(x).len() >= 1,
        forall|j: int| 0 <= j < dec_text(x).len() ==> is_dec_digit(#[trigger] dec_text(x)[j]),
        dec_val(dec_text(x)) == x,
    decreases x,
{
    let d = x % 10;
    assert(((d + 48) as u8) as char as nat == d + 48);
    let t = dec_text(x);
    if x < 10 {
        assert(d == x);
        assert(t.drop_last() =~= Seq::<char>::empty());
        assert(t.last() as nat == x + 48);
        assert(dec_val(t) == dec_val(t.drop_last()) * 10 + (t.last() as nat - 48) as nat);
        assert(dec_val(Seq::<char>::empty()) == 0);
    } else {
        lemma_dec_roundtrip(x / 10);
        assert(t.drop_last() =~= dec_text(x / 10));
        assert(t.last() as nat == d + 48);
        assert(dec_val(t) == dec_val(dec_text(x / 10)) * 10 + d);
        assert((x / 10) * 10 + x % 10 == x);
        assert forall|j: int| 0 <= j < t.len() implies is_dec_digit(#[trigger] t[j]) by {
            if j < t.len() - 1 { assert(t[j] == dec_text(x / 10)[j]); }
        }
    }
}

/// The text of a nid of the forms that read back holds no `:`.
proof fn lemma_words_no_colon()
    ensures
        forall|v: VID, inv: bool, j: int| plain_vid(v) && 0 <= j < var_word(v, inv).len() ==> #[trigger] var_word(v, inv)[j] != ':',
        forall|k: u64, inv: bool, j: int| k <= IDX_MASK && 0 <= j < ixn_word(k, inv).len() ==> #[trigger] ixn_word(k, inv)[j] != ':',
        forall|v: VID, k: u64, inv: bool, j: int| plain_vid(v) && k <= IDX_MASK && 0 <= j < vidx_word(v, k, inv).len() ==> #[trigger] vidx_word(v, k, inv)[j] != ':',
{
    assert forall|v: VID, inv: bool, j: int| plain_vid(v) && 0 <= j < var_word(v, inv).len() implies #[trigger] var_word(v, inv)[j] != ':' by {
        crate::nidtext::lemma_var_word(v, inv);
        lemma_hex_no_colon(crate::nidtext::vid_num(v));
        let p: int = if inv { 1 } else { 0 };
        if j > p { assert(var_word(v, inv)[j] == crate::text::hex_text(crate::nidtext::vid_num(v))[j - p - 1]); }
    }
    assert forall|k: u64, inv: bool, j: int| k <= IDX_MASK && 0 <= j < ixn_word(k, inv).len() implies #[trigger] ixn_word(k, inv)[j] != ':' by {
        crate::nidtext::lemma_ixn_word(k, inv);
        lemma_hex_no_colon(k as nat);
        let p: int = if inv { 1 } else { 0 };
        if j > p { assert(ixn_word(k, inv)[j] == crate::text::hex_text(k as nat)[j - p - 1]); }
    }
    assert forall|v: VID, k: u64, inv: bool, j: int| plain_vid(v) && k <= IDX_MASK && 0 <= j < vidx_word(v, k, inv).len() implies #[trigger] vidx_word(v, k, inv)[j] != ':' by {
        crate::nidtext::lemma_vidx_word(v, k, inv);
        let h = crate::text::hex_text(crate::nidtext::vid_num(v));
        let g = crate::text::hex_text(k as nat);
        lemma_hex_no_colon(crate::nidtext::vid_num(v));
        lemma_hex_no_colon(k as nat);
        let p: int = if inv { 1 } else { 0 };
        let d = p + 1 + h.len();
        if p < j < d { assert(vidx_word(v, k, inv)[j] == h[j - p - 1]); }
        if j > d { assert(vidx_word(v, k, inv)[j] == g[j - d - 1]); }
    }
}

/// Where the first `:` of a word with an optional decimal prefix falls.
proof fn lemma_prefixed(cs: Seq<char>, colon: int, ns: Option<u32>, w: Seq<char>)
    requires
        0 <= colon <= cs.len(),
        colon < cs.len() ==> cs[colon] == ':',
        forall|j: int| 0 <= j < colon ==> cs[j] != ':',
        forall|j: int| 0 <= j < w.len() ==> w[j] != ':',
        w.len() >= 2 || w == seq!['O'] || w == seq!['I'],
        cs == match ns { Some(n) => dec_text(n as nat) + seq![':'] + w, None => w },
    ensures
        match ns {
            Some(n) => {
                &&& 0 < colon < cs.len()
                &&& forall|j: int| 0 <= j < colon ==> is_dec_digit(#[trigger] cs[j])
                &&& dec_val(cs.subrange(0, colon)) == n
                &&& cs.subrange(colon + 1, cs.len() as int) == w
            },
            None => colon == cs.len() && cs == w,
        },
{
    match ns {
        Some(n) => {
            lemma_dec_roundtrip(n as nat);
            let t = dec_text(n as nat);
            assert(cs[t.len() as int] == ':');
            if colon < t.len() {
                assert(cs[colon] == t[colon]);
                assert(is_dec_digit(t[colon]));
            }
            assert(colon == t.len());
            assert forall|j: int| 0 <= j < colon implies is_dec_digit(#[trigger] cs[j]) by {
                assert(cs[j] == t[j]);
            }
            assert(cs.subrange(0, colon) =~= t);
            assert(cs.subrange(colon + 1, cs.len() as int) =~= w);
        },
        None => {
            if colon < cs.len() { assert(w[colon] != ':'); }
        },
    }
}

proof fn lemma_hex_no_colon(x: nat)
    ensures
        crate::text::hex_text(x).len() >= 1,
        forall|j: int| 0 <= j < crate::text::hex_text(x).len() ==> #[trigger] crate::text::hex_text(x)[j] != ':',
{
    crate::text::lemma_hex_roundtrip(x);
    assert forall|j: int| 0 <= j < crate::text::hex_text(x).len() implies #[trigger] crate::text::hex_text(x)[j] != ':' by {
        assert(crate::text::is_hex_digit(crate::text::hex_text(x)[j]));
    }
}

/// The nid a parse gave, if any.
pub open spec fn ok_pnid(r: Result<ParsedNid, String>) -> Option<NID> {
    match r {
        Ok(p) => Some(p.nid),
        Err(_) => None,
    }
}

/// Does `w` hold no `:`?
pub open spec fn no_colon(w: Seq<char>) -> bool {
    forall|j: int| 0 <= j < w.len() ==> w[j] != ':'
}

impl ParsedNid {
    /// A nid without a namespace.
    pub fn new(nid: NID) -> (r: ParsedNid)
        ensures r == (ParsedNid { ns: None, nid }),
    {
        ParsedNid { ns: None, nid }
    }

    /// A nid in the given namespace.
    pub fn with_ns(ns: u32, nid: NID) -> (r: ParsedNid)
        ensures r == (ParsedNid { ns: Some(ns), nid }),
    {
        ParsedNid { ns: Some(ns), nid }
    }

    /// Text form: `ns:nid`, or just the nid.
    pub fn to_string(&self) -> (r: String)
        ensures r@ == parsed_text(*self),
    {
        let t = self.nid.to_string();
        match self.ns {
            Some(ns) => {
                let mut s = String::new();
                push_dec(&mut s, ns as u64);
                push_char(&mut s, ':');
                s.append(t.as_str());
                s
            },
            None => t,
        }
    }

    /// Parse a nid, optionally preceded by a decimal namespace and `:`.
    /// The prefix is only recognized when everything before the first `:` is
    /// a non-empty run of decimal digits (so that `T{x3,x7:1110}`, which also
    /// holds a `:`, reads as a nid).
    pub fn parse(s: &str) -> (r: Result<ParsedNid, String>)
        ensures
            forall|vs: Seq<u32>, tb: u32, inv: bool| crate::comb::valid_vars(vs) && !crate::nidtext::canonical_vars(vs)
                && s@ == #[trigger] crate::nidtext::named_word(vs, tb, inv)
                ==> r == Ok::<ParsedNid, String>(ParsedNid { ns: None, nid: inv_nid(crate::nidtext::named_nid(vs, tb), inv) }),
            no_colon(s@) ==> reads_as(s@, ok_pnid(r)) && (r matches Ok(p) ==> p.ns is None),
            s@.len() == 0 ==> r is Err,
            s@ == seq!['!'] ==> r is Err,
        forall|ns: Option<u32>, c: bool|
            s@ == #[trigger] parsed_text(ParsedNid { ns, nid: crate::nidtext::bool_nid(c) })
            ==> r == Ok::<ParsedNid, String>(ParsedNid { ns, nid: crate::nidtext::bool_nid(c) }),
        forall|ns: Option<u32>, v: VID, inv: bool| plain_vid(v)
            && s@ == #[trigger] parsed_text(ParsedNid { ns, nid: inv_nid(NID::from_vid_spec(v), inv) })
            ==> r == Ok::<ParsedNid, String>(ParsedNid { ns, nid: inv_nid(NID::from_vid_spec(v), inv) }),
        forall|ns: Option<u32>, k: u64, inv: bool| k <= IDX_MASK
            && s@ == #[trigger] parsed_text(ParsedNid { ns, nid: inv_nid(ixn_nid(k), inv) })
            ==> r == Ok::<ParsedNid, String>(ParsedNid { ns, nid: inv_nid(ixn_nid(k), inv) }),
        forall|ns: Option<u32>, v: VID, k: u64, inv: bool| plain_vid(v) && k <= IDX_MASK
            && s@ == #[trigger] parsed_text(ParsedNid { ns, nid: inv_nid(vidx_nid(v, k), inv) })
            ==> r == Ok::<ParsedNid, String>(ParsedNid { ns, nid: inv_nid(vidx_nid(v, k), inv) }),
    {
        let cs = chars_of(s);
        Self::parse_chars(&cs)
    }

    /// Parse the characters of a parsed nid.
    pub fn parse_chars(cs: &Vec<char>) -> (r: Result<ParsedNid, String>)
        ensures
            forall|vs: Seq<u32>, tb: u32, inv: bool| crate::comb::valid_vars(vs) && !crate::nidtext::canonical_vars(vs)
                && cs@ == #[trigger] crate::nidtext::named_word(vs, tb, inv)
                ==> r == Ok::<ParsedNid, String>(ParsedNid { ns: None, nid: inv_nid(crate::nidtext::named_nid(vs, tb), inv) }),
            no_colon(cs@) ==> reads_as(cs@, ok_pnid(r)) && (r matches Ok(p) ==> p.ns is None),
            cs@.len() == 0 ==> r is Err,
            cs@ == seq!['!'] ==> r is Err,
        forall|ns: Option<u32>, c: bool|
            cs@ == #[trigger] parsed_text(ParsedNid { ns, nid: crate::nidtext::bool_nid(c) })
            ==> r == Ok::<ParsedNid, String>(ParsedNid { ns, nid: crate::nidtext::bool_nid(c) }),
        forall|ns: Option<u32>, v: VID, inv: bool| plain_vid(v)
            && cs@ == #[trigger] parsed_text(ParsedNid { ns, nid: inv_nid(NID::from_vid_spec(v), inv) })
            ==> r == Ok::<ParsedNid, String>(ParsedNid { ns, nid: inv_nid(NID::from_vid_spec(v), inv) }),
        forall|ns: Option<u32>, k: u64, inv: bool| k <= IDX_MASK
            && cs@ == #[trigger] parsed_text(ParsedNid { ns, nid: inv_nid(ixn_nid(k), inv) })
            ==> r == Ok::<ParsedNid, String>(ParsedNid { ns, nid: inv_nid(ixn_nid(k), inv) }),
        forall|ns: Option<u32>, v: VID, k: u64, inv: bool| plain_vid(v) && k <= IDX_MASK
            && cs@ == #[trigger] parsed_text(ParsedNid { ns, nid: inv_nid(vidx_nid(v, k), inv) })
            ==> r == Ok::<ParsedNid, String>(ParsedNid { ns, nid: inv_nid(vidx_nid(v, k), inv) }),
    {
        proof {
            lemma_words_no_colon();
            crate::nidtext::lemma_named_shapes(cs@);
            assert forall|vs: Seq<u32>, tb: u32, inv: bool| crate::comb::valid_vars(vs) && !crate::nidtext::canonical_vars(vs)
                && cs@ == #[trigger] crate::nidtext::named_word(vs, tb, inv) implies !is_dec_digit(cs@[0]) by {
                if inv { assert(cs@[0] == '!'); } else { assert(cs@[0] == 'T'); }
            }
        }
        let len = cs.len();
        let mut colon: usize = 0;
        while colon < len && cs[colon] != ':'
            invariant colon <= len == cs@.len(), forall|j: int| 0 <= j < colon ==> cs@[j] != ':',
            decreases len - colon,
        {
            colon = colon + 1;
        }
        proof {
            crate::nidtext::lemma_word_lens();
            crate::bits::lemma_constants();
            assert forall|ns: Option<u32>, c: bool|
                cs@ == #[trigger] parsed_text(ParsedNid { ns, nid: crate::nidtext::bool_nid(c) })
                implies match ns {
                    Some(n) => {
                        &&& 0 < colon < cs@.len()
                        &&& forall|j: int| 0 <= j < colon ==> is_dec_digit(#[trigger] cs@[j])
                        &&& dec_val(cs@.subrange(0, colon as int)) == n
                        &&& cs@.subrange(colon + 1, cs@.len() as int) == (if c { seq!['I'] } else { seq!['O'] })
                    },
                    None => colon == cs@.len() && cs@ == (if c { seq!['I'] } else { seq!['O'] }),
                } by {
                let w = if c { seq!['I'] } else { seq!['O'] };
                assert(nid_text(crate::nidtext::bool_nid(c)) == w);
                lemma_prefixed(cs@, colon as int, ns, w);
            }
            assert forall|ns: Option<u32>, v: VID, inv: bool| plain_vid(v)
                && cs@ == #[trigger] parsed_text(ParsedNid { ns, nid: inv_nid(NID::from_vid_spec(v), inv) })
                implies match ns {
                    Some(n) => {
                        &&& 0 < colon < cs@.len()
                        &&& forall|j: int| 0 <= j < colon ==> is_dec_digit(#[trigger] cs@[j])
                        &&& dec_val(cs@.subrange(0, colon as int)) == n
                        &&& cs@.subrange(colon + 1, cs@.len() as int) == var_word(v, inv)
                    },
                    None => colon == cs@.len() && cs@ == var_word(v, inv),
                } by {
                lemma_prefixed(cs@, colon as int, ns, var_word(v, inv));
            }
            assert forall|ns: Option<u32>, k: u64, inv: bool| k <= IDX_MASK
                && cs@ == #[trigger] parsed_text(ParsedNid { ns, nid: inv_nid(ixn_nid(k), inv) })
                implies match ns {
                    Some(n) => {
                        &&& 0 < colon < cs@.len()
                        &&& forall|j: int| 0 <= j < colon ==> is_dec_digit(#[trigger] cs@[j])
                        &&& dec_val(cs@.subrange(0, colon as int)) == n
                        &&& cs@.subrange(colon + 1, cs@.len() as int) == ixn_word(k, inv)
                    },
                    None => colon == cs@.len() && cs@ == ixn_word(k, inv),
                } by {
                lemma_prefixed(cs@, colon as int, ns, ixn_word(k, inv));
            }
            assert forall|ns: Option<u32>, v: VID, k: u64, inv: bool| plain_vid(v) && k <= IDX_MASK
                && cs@ == #[trigger] parsed_text(ParsedNid { ns, nid: inv_nid(vidx_nid(v, k), inv) })
                implies match ns {
                    Some(n) => {
                        &&& 0 < colon < cs@.len()
                        &&& forall|j: int| 0 <= j < colon ==> is_dec_digit(#[trigger] cs@[j])
                        &&& dec_val(cs@.subrange(0, colon as int)) == n
                        &&& cs@.subrange(colon + 1, cs@.len() as int) == vidx_word(v, k, inv)
                    },
                    None => colon == cs@.len() && cs@ == vidx_word(v, k, inv),
                } by {
                lemma_prefixed(cs@, colon as int, ns, vidx_word(v, k, inv));
            }
        }
        if colon < len && colon > 0 && all_digits(cs, 0, colon) {
            let ns = match parse_dec(cs, 0, colon) {
                Some(v) => v,
                None => {
                    proof { reveal_strlit("bad namespace prefix: "); }
                    return Err(err_text("bad namespace prefix: ", cs));
                },
            };
            let rest = sub_chars(cs, colon + 1, len);
            if rest.len() == 0 || (rest.len() == 1 && rest[0] == '!') {
                proof { reveal_strlit("empty nid after namespace: "); }
                return Err(err_text("empty nid after namespace: ", cs));
            }
            return match parse_nid_chars(&rest) {
                Ok(nid) => Ok(ParsedNid::with_ns(ns, nid)),
                Err(e) => Err(e),
            };
        }
        if len == 0 || (len == 1 && cs[0] == '!') {
            proof {
                reveal_strlit("empty nid: ");
                if len == 1 { assert(cs@ != seq!['O'] && cs@ != seq!['I']); }
            }
            return Err(err_text("empty nid: ", cs));
        }
        match parse_nid_chars(cs) {
            Ok(nid) => Ok(ParsedNid::new(nid)),
            Err(e) => Err(e),
        }
    }
}

fn all_digits(cs: &Vec<char>, lo: usize, hi: usize) -> (r: bool)
    requires lo <= hi <= cs@.len(),
    ensures r == forall|i: int| lo <= i < hi ==> is_dec_digit(#[trigger] cs@[i]),
{
    let mut i = lo;
    while i < hi
        invariant lo <= i <= hi <= cs@.len(), forall|j: int| lo <= j < i ==> is_dec_digit(#[trigger] cs@[j]),
        decreases hi - i,
    {
        if !('0' <= cs[i] && cs[i] <= '9') { return false; }
        i = i + 1;
    }
    true
}

/// `cs[lo..hi]` as a new list.
fn sub_chars(cs: &Vec<char>, lo: usize, hi: usize) -> (r: Vec<char>)
    requires lo <= hi <= cs@.len(),
    ensures r@ == cs@.subrange(lo as int, hi as int),
{
    let mut r: Vec<char> = Vec::new();
    let mut i = lo;
    while i < hi
        invariant lo <= i <= hi <= cs@.len(), r@ == cs@.subrange(lo as int, i as int),
        decreases hi - i,
    {
        r.push(cs[i]);
        assert(r@ =~= cs@.subrange(lo as int, i as int + 1));
        i = i + 1;
    }
    r
}

/// An error message: the given text followed by the offending characters.
fn err_text(msg: &str, cs: &Vec<char>) -> (r: String)
    ensures r@ == msg@ + cs@,
{
    let mut s = String::from_str(msg);
    let mut i: usize = 0;
    while i < cs.len()
        invariant i <= cs@.len(), s@ == msg@ + cs@.subrange(0, i as int),
        decreases cs@.len() - i,
    {
        push_char(&mut s, cs[i]);
        assert(msg@ + cs@.subrange(0, i as int + 1) =~= (msg@ + cs@.subrange(0, i as int)).push(cs@[i as int]));
        i = i + 1;
    }
    assert(cs@.subrange(0, cs@.len() as int) =~= cs@);
    s
}

impl From<NID> for ParsedNid {
    fn from(nid: NID) -> (r: ParsedNid) {
        ParsedNid { ns: None, nid }
    }
}

impl vstd::std_specs::convert::FromSpecImpl<NID> for ParsedNid {
    open spec fn obeys_from_spec() -> bool { true }
    open spec fn from_spec(nid: NID) -> ParsedNid { ParsedNid { ns: None, nid } }
}

impl std::str::FromStr for ParsedNid {
    type Err = String;

    fn from_str(s: &str) -> Result<ParsedNid, String> {
        ParsedNid::parse(s)
    }
}


// ---- infix algebraic grammar ----

/// An expression in the infix grammar: the operators `|`, `&`, `%`, `=`,
/// `!`, `<`, `/`, `?:`, `:` assignment, parentheses and bracket-notation
/// function application.
#[derive(Debug, PartialEq)]
pub enum Expr {
    Nid(NID),
    Var(String),
    Not(Box<Expr>),
    And(Box<Expr>, Box<Expr>),
    Xor(Box<Expr>, Box<Expr>),
    Or(Box<Expr>, Box<Expr>),
    /// `x < y` : "y and not x"
    Lt(Box<Expr>, Box<Expr>),
    /// `x / y` : "x implies y"
    Le(Box<Expr>, Box<Expr>),
    /// `x = y` : "equal" (non-associative at parse time)
    Eq(Box<Expr>, Box<Expr>),
    /// `f ? g : h` : "if f then g else h"
    Ite(Box<Expr>, Box<Expr>, Box<Expr>),
    /// `name : expr`
    Assign(String, Box<Expr>),
    /// `f[a b c]` : bracket-notation application
    Apply(Box<Expr>, Vec<Expr>),
}

/// Punctuation tokens.
#[derive(Debug, Clone, Copy, PartialEq, Eq, Structural)]
pub enum Punct {
    LParen,
    RParen,
    LBracket,
    RBracket,
    Bang,
    Amp,
    Pct,
    Pipe,
    Lt,
    Slash,
    Eq,
    Question,
    Colon,
}

/// A token: punctuation or a word (a run of nid/identifier characters).
#[derive(Debug, Clone, PartialEq)]
pub enum Tok {
    P(Punct),
    Word(String),
}

/// Unicode white space (the property `White_Space`), which is what
/// `char::is_whitespace` tests for: tab, line feed, vertical tab, form feed,
/// carriage return, space, next line, no-break space, Ogham space mark, the
/// spaces from en quad to hair space, line and paragraph separators, narrow
/// no-break space, medium mathematical space and ideographic space.
pub open spec fn char_is_whitespace(c: char) -> bool {
    let u = c as u32;
    ||| 0x09 <= u <= 0x0D
    ||| u == 0x20 || u == 0x85 || u == 0xA0 || u == 0x1680
    ||| 0x2000 <= u <= 0x200A
    ||| u == 0x2028 || u == 0x2029 || u == 0x202F || u == 0x205F || u == 0x3000
}

/// What `char::is_alphanumeric` returns for `c`.
pub uninterp spec fn char_is_alphanumeric(c: char) -> bool;

/// Is `c` white space (see `char_is_whitespace`)?
pub(crate) fn is_whitespace(c: char) -> (r: bool)
    ensures
        r == char_is_whitespace(c),
        c == ' ' || c == '\t' || c == '\n' || c == '\r' ==> r,
{
    let u = c as u32;
    (0x09 <= u && u <= 0x0D) || u == 0x20 || u == 0x85 || u == 0xA0 || u == 0x1680
        || (0x2000 <= u && u <= 0x200A)
        || u == 0x2028 || u == 0x2029 || u == 0x202F || u == 0x205F || u == 0x3000
}

/// What `char`'s `Debug` format writes for `c`.
pub uninterp spec fn char_debug_text(c: char) -> Seq<char>;

/// `char`'s `Debug` format: the character in single quotes, with quotes,
/// backslashes and characters that are not printable escaped.
#[verifier::external_body]
fn char_debug(c: char) -> (r: String)
    ensures r@ == char_debug_text(c),
{
    format!("{:?}", c)
}

/// `char::is_alphanumeric`: Unicode letters and numbers (which include the
/// ASCII letters and digits).
#[verifier::external_body]
fn is_alphanumeric(c: char) -> (r: bool)
    ensures
        r == char_is_alphanumeric(c),
        ('a' <= c && c <= 'z') || ('A' <= c && c <= 'Z') || ('0' <= c && c <= '9') ==> r,
{
    c.is_alphanumeric()
}

/// The punctuation a character stands for.
pub open spec fn punct_of(c: char) -> Option<Punct> {
    if c == '(' { Some(Punct::LParen) }
    else if c == ')' { Some(Punct::RParen) }
    else if c == '[' { Some(Punct::LBracket) }
    else if c == ']' { Some(Punct::RBracket) }
    else if c == '!' { Some(Punct::Bang) }
    else if c == '&' { Some(Punct::Amp) }
    else if c == '%' { Some(Punct::Pct) }
    else if c == '|' { Some(Punct::Pipe) }
    else if c == '<' { Some(Punct::Lt) }
    else if c == '/' { Some(Punct::Slash) }
    else if c == '=' { Some(Punct::Eq) }
    else if c == '?' { Some(Punct::Question) }
    else if c == ':' { Some(Punct::Colon) }
    else { None }
}

pub open spec fn punct_char(p: Punct) -> char {
    match p {
        Punct::LParen => '(',
        Punct::RParen => ')',
        Punct::LBracket => '[',
        Punct::RBracket => ']',
        Punct::Bang => '!',
        Punct::Amp => '&',
        Punct::Pct => '%',
        Punct::Pipe => '|',
        Punct::Lt => '<',
        Punct::Slash => '/',
        Punct::Eq => '=',
        Punct::Question => '?',
        Punct::Colon => ':',
    }
}

/// A character that can be part of a word.
pub open spec fn word_char(c: char) -> bool {
    char_is_alphanumeric(c) || c == '.' || c == '_' || c == '@' || c == '{' || c == '}' || c == ','
}

/// A character that can start no token.
pub open spec fn stray(c: char) -> bool {
    !char_is_whitespace(c) && punct_of(c) is None && !word_char(c)
}

fn word_char_exec(c: char) -> (r: bool)
    ensures r == word_char(c),
{
    is_alphanumeric(c) || c == '.' || c == '_' || c == '@' || c == '{' || c == '}' || c == ','
}

fn punct_exec(c: char) -> (r: Option<Punct>)
    ensures r == punct_of(c),
{
    if c == '(' { Some(Punct::LParen) }
    else if c == ')' { Some(Punct::RParen) }
    else if c == '[' { Some(Punct::LBracket) }
    else if c == ']' { Some(Punct::RBracket) }
    else if c == '!' { Some(Punct::Bang) }
    else if c == '&' { Some(Punct::Amp) }
    else if c == '%' { Some(Punct::Pct) }
    else if c == '|' { Some(Punct::Pipe) }
    else if c == '<' { Some(Punct::Lt) }
    else if c == '/' { Some(Punct::Slash) }
    else if c == '=' { Some(Punct::Eq) }
    else if c == '?' { Some(Punct::Question) }
    else if c == ':' { Some(Punct::Colon) }
    else { None }
}

/// A token as mathematical values: punctuation or the characters of a word.
pub enum TokV {
    P(Punct),
    W(Seq<char>),
}

/// The view of a token.
pub open spec fn tok_view(t: Tok) -> TokV {
    match t {
        Tok::P(p) => TokV::P(p),
        Tok::Word(w) => TokV::W(w@),
    }
}

/// The views of a list of tokens.
pub open spec fn toks_view(ts: Seq<Tok>) -> Seq<TokV> {
    ts.map_values(|t: Tok| tok_view(t))
}

/// Where the word that starts at `start` ends, scanning from `j`: word
/// characters continue it, and a `:` after a run of digits glues on when a
/// word character follows.
pub open spec fn word_end(cs: Seq<char>, start: int, j: int, digits: bool) -> int
    decreases cs.len() - j,
{
    if j < 0 || j >= cs.len() {
        j
    } else if word_char(cs[j]) {
        word_end(cs, start, j + 1, digits && is_dec_digit(cs[j]))
    } else if cs[j] == ':' && j > start && digits && j + 1 < cs.len() && word_char(cs[j + 1]) {
        word_end(cs, start, j + 1, false)
    } else {
        j
    }
}

/// The tokens of `cs` from position `i` (for text without stray characters).
pub open spec fn tokens_from(cs: Seq<char>, i: int) -> Seq<TokV>
    decreases cs.len() - i,
{
    if i < 0 || i >= cs.len() {
        seq![]
    } else if char_is_whitespace(cs[i]) {
        tokens_from(cs, i + 1)
    } else if punct_of(cs[i]) is Some {
        seq![TokV::P(punct_of(cs[i])->0)] + tokens_from(cs, i + 1)
    } else if word_char(cs[i]) {
        let e = word_end(cs, i, i, true);
        if i < e <= cs.len() { seq![TokV::W(cs.subrange(i, e))] + tokens_from(cs, e) } else { seq![] }
    } else {
        seq![]
    }
}

proof fn lemma_word_end_bounds(cs: Seq<char>, start: int, j: int, digits: bool)
    requires 0 <= j <= cs.len(),
    ensures j <= word_end(cs, start, j, digits) <= cs.len(),
    decreases cs.len() - j,
{
    if j < cs.len() {
        if word_char(cs[j]) {
            lemma_word_end_bounds(cs, start, j + 1, digits && is_dec_digit(cs[j]));
        } else if cs[j] == ':' && j > start && digits && j + 1 < cs.len() && word_char(cs[j + 1]) {
            lemma_word_end_bounds(cs, start, j + 1, false);
        }
    }
}

/// Split source text into tokens. A word is a maximal run of word
/// characters; a run of digits followed by `:` and another word character is
/// glued into the word, so that namespace-prefixed nids (`2:x0`) are single
/// words while `name : expr` splits into a word and a colon.
pub fn tokenize(s: &str) -> (r: Result<Vec<Tok>, String>)
    ensures
        r is Err <==> exists|i: int| 0 <= i < s@.len() && stray(#[trigger] s@[i]),
        r matches Ok(ts) ==> forall|k: int| 0 <= k < ts@.len() ==> #[trigger] good_tok(ts@[k]),
        r matches Ok(ts) ==> toks_view(ts@) == tokens_from(s@, 0),
{
    let chars = chars_of(s);
    let mut i: usize = 0;
    let mut toks: Vec<Tok> = Vec::new();
    while i < chars.len()
        invariant
            i <= chars@.len(), chars@ == s@,
            forall|j: int| 0 <= j < i ==> !stray(#[trigger] chars@[j]),
            forall|k: int| 0 <= k < toks@.len() ==> #[trigger] good_tok(toks@[k]),
            toks_view(toks@) + tokens_from(chars@, i as int) == tokens_from(chars@, 0),
        decreases chars@.len() - i,
    {
        let c = chars[i];
        if is_whitespace(c) {
            i = i + 1;
        } else {
            match punct_exec(c) {
                Some(p) => {
                    let ghost t0 = toks@;
                    toks.push(Tok::P(p));
                    proof {
                        assert(toks_view(toks@) =~= toks_view(t0).push(TokV::P(p)));
                        assert(tokens_from(chars@, i as int) == seq![TokV::P(p)] + tokens_from(chars@, i + 1));
                        assert(toks_view(toks@) + tokens_from(chars@, i + 1) =~= toks_view(t0) + tokens_from(chars@, i as int));
                    }
                    i = i + 1;
                },
                None => {
                    if !word_char_exec(c) {
                        let mut msg = String::from_str("unexpected character at ");
                        push_dec(&mut msg, i as u64);
                        msg.append(": ");
                        let shown = char_debug(c);
                        msg.append(shown.as_str());
                        return Err(msg);
                    }
                    let start = i;
                    let mut word = String::new();
                    let mut digits = true;
                    while i < chars.len()
                        invariant
                            start < chars@.len(), start <= i <= chars@.len(),
                            word@.len() == i - start,
                            word_char(chars@[start as int]),
                            forall|j: int| start <= j < i ==> !stray(#[trigger] chars@[j]),
                            forall|j: int| 0 <= j < word@.len() ==> word_char(#[trigger] word@[j]) || word@[j] == ':',
                            i > start ==> word_char(word@[0]),
                            digits ==> forall|j: int| 0 <= j < word@.len() ==> #[trigger] is_dec_digit(word@[j]),
                            word@ == chars@.subrange(start as int, i as int),
                            digits == (forall|j: int| 0 <= j < word@.len() ==> #[trigger] is_dec_digit(word@[j])),
                            word_end(chars@, start as int, i as int, digits) == word_end(chars@, start as int, start as int, true),
                        ensures
                            word@ == chars@.subrange(start as int, i as int),
                            i == word_end(chars@, start as int, start as int, true),
                            start < i <= chars@.len(),
                            word@.len() == i - start,
                            forall|j: int| start <= j < i ==> !stray(#[trigger] chars@[j]),
                            forall|j: int| 0 <= j < word@.len() ==> word_char(#[trigger] word@[j]) || word@[j] == ':',
                            word_char(word@[0]),
                        decreases chars@.len() - i,
                    {
                        let d = chars[i];
                        if word_char_exec(d) {
                            let ghost w0 = word@;
                            let ghost d0 = digits;
                            push_char(&mut word, d);
                            digits = digits && '0' <= d && d <= '9';
                            proof {
                                assert(word@ == w0.push(d));
                                assert(i == start ==> d == chars@[start as int]);
                                assert(word@[w0.len() as int] == d);
                                if d0 && is_dec_digit(d) {
                                    assert forall|j: int| 0 <= j < word@.len() implies #[trigger] is_dec_digit(word@[j]) by {
                                        if j < w0.len() { assert(word@[j] == w0[j]); }
                                    }
                                } else if !d0 {
                                    let j = choose|j: int| 0 <= j < w0.len() && !is_dec_digit(#[trigger] w0[j]);
                                    assert(word@[j] == w0[j]);
                                    assert(!is_dec_digit(word@[j]));
                                } else {
                                    assert(!is_dec_digit(word@[w0.len() as int]));
                                }
                            }
                            i = i + 1;
                        } else if d == ':' && i > start && digits && i + 1 < chars.len() && word_char_exec(chars[i + 1]) {
                            let ghost w0 = word@;
                            push_char(&mut word, ':');
                            digits = false;
                            proof {
                                assert(word@ == w0.push(':'));
                                assert(word@[w0.len() as int] == ':');
                                assert(!is_dec_digit(word@[w0.len() as int]));
                            }
                            i = i + 1;
                        } else {
                            break;
                        }
                    }
                    let ghost t0 = toks@;
                    let ghost wv = word@;
                    toks.push(Tok::Word(word));
                    proof {
                        assert(toks_view(toks@) =~= toks_view(t0).push(TokV::W(wv)));
                        assert(tokens_from(chars@, start as int) == seq![TokV::W(wv)] + tokens_from(chars@, i as int));
                        assert(toks_view(toks@) + tokens_from(chars@, i as int) =~= toks_view(t0) + tokens_from(chars@, start as int));
                    }
                },
            }
        }
    }
    proof {
        assert(tokens_from(chars@, i as int) == Seq::<TokV>::empty());
        assert(toks_view(toks@) =~= toks_view(toks@) + tokens_from(chars@, i as int));
    }
    Ok(toks)
}

/// A token as `tokenize` makes them: a word is non-empty, starts with a word
/// character, and holds only word characters and `:`.
pub open spec fn good_tok(t: Tok) -> bool {
    match t {
        Tok::P(_) => true,
        Tok::Word(w) => w@.len() > 0 && word_char(w@[0])
            && forall|j: int| 0 <= j < w@.len() ==> word_char(#[trigger] w@[j]) || w@[j] == ':',
    }
}


// ---- parser ----

/// The punctuation at position `pos`, if any.
fn punct_at(toks: &Vec<Tok>, pos: usize) -> (r: Option<Punct>)
    ensures
        r matches Some(p) ==> pos < toks@.len() && toks@[pos as int] == Tok::P(p),
        r is None ==> pos >= toks@.len() || toks@[pos as int] is Word,
{
    if pos < toks.len() {
        match &toks[pos] {
            Tok::P(p) => Some(*p),
            Tok::Word(_) => None,
        }
    } else {
        None
    }
}

fn is_punct(toks: &Vec<Tok>, pos: usize, p: Punct) -> (r: bool)
    ensures r == (pos < toks@.len() && toks@[pos as int] == Tok::P(p)),
{
    match punct_at(toks, pos) {
        Some(q) => q == p,
        None => false,
    }
}

/// The parse of the tokens from `pos`: an expression and the position after it.
pub type Parsed = Result<(Expr, usize), String>;

pub open spec fn advanced(r: Parsed, pos: usize, toks: Seq<Tok>) -> bool {
    r matches Ok((_, p)) ==> pos < p <= toks.len()
}

fn expected(what: &str) -> (r: String)
    ensures r@ == "expected "@ + what@,
{
    proof { reveal_strlit("expected "); }
    let mut s = String::from_str("expected ");
    s.append(what);
    s
}

/// An expression as a tree of mathematical values (the view of `Expr`).
pub enum Tree {
    Nid(NID),
    Var(Seq<char>),
    Not(Box<Tree>),
    And(Box<Tree>, Box<Tree>),
    Xor(Box<Tree>, Box<Tree>),
    Or(Box<Tree>, Box<Tree>),
    Lt(Box<Tree>, Box<Tree>),
    Le(Box<Tree>, Box<Tree>),
    Eq(Box<Tree>, Box<Tree>),
    Ite(Box<Tree>, Box<Tree>, Box<Tree>),
    Assign(Seq<char>, Box<Tree>),
    Apply(Box<Tree>, Seq<Tree>),
}

/// The tree of an expression.
pub open spec fn tree_of(e: Expr) -> Tree
    decreases e, 0nat,
{
    match e {
        Expr::Nid(n) => Tree::Nid(n),
        Expr::Var(s) => Tree::Var(s@),
        Expr::Not(x) => Tree::Not(Box::new(tree_of(*x))),
        Expr::And(a, b) => Tree::And(Box::new(tree_of(*a)), Box::new(tree_of(*b))),
        Expr::Xor(a, b) => Tree::Xor(Box::new(tree_of(*a)), Box::new(tree_of(*b))),
        Expr::Or(a, b) => Tree::Or(Box::new(tree_of(*a)), Box::new(tree_of(*b))),
        Expr::Lt(a, b) => Tree::Lt(Box::new(tree_of(*a)), Box::new(tree_of(*b))),
        Expr::Le(a, b) => Tree::Le(Box::new(tree_of(*a)), Box::new(tree_of(*b))),
        Expr::Eq(a, b) => Tree::Eq(Box::new(tree_of(*a)), Box::new(tree_of(*b))),
        Expr::Ite(i, t, x) => Tree::Ite(Box::new(tree_of(*i)), Box::new(tree_of(*t)), Box::new(tree_of(*x))),
        Expr::Assign(s, x) => Tree::Assign(s@, Box::new(tree_of(*x))),
        Expr::Apply(f, args) => Tree::Apply(Box::new(tree_of(*f)), args_tree(args@, args@.len())),
    }
}

/// The trees of the first `k` arguments.
pub open spec fn args_tree(args: Seq<Expr>, k: nat) -> Seq<Tree>
    decreases args, k,
{
    if k == 0 || k > args.len() { seq![] } else { args_tree(args, (k - 1) as nat).push(tree_of(args[k - 1])) }
}

proof fn lemma_args_tree_push(args: Seq<Expr>, a: Expr, k: nat)
    requires k <= args.len(),
    ensures args_tree(args.push(a), k) == args_tree(args, k),
    decreases k,
{
    if k > 0 {
        lemma_args_tree_push(args, a, (k - 1) as nat);
        assert(args.push(a)[k - 1] == args[k - 1]);
    }
}

/// A parse as a tree and the position after it (`None` for an error).
pub open spec fn parse_view(r: Parsed) -> Option<(Tree, int)> {
    match r {
        Ok((e, p)) => Some((tree_of(e), p as int)),
        Err(_) => None,
    }
}

/// Token `p` is the punctuation `c`.
pub open spec fn is_p(t: Seq<Tok>, p: int, c: Punct) -> bool {
    0 <= p < t.len() && t[p] == Tok::P(c)
}

/// A primary: a word (a nid when `w` reads one there, else a name), or an
/// assignment-level expression in parentheses.
pub open spec fn sp_primary(t: Seq<Tok>, w: Seq<Option<NID>>, pos: int) -> Option<(Tree, int)>
    decreases t.len() - pos, 1nat,
{
    if pos < 0 || pos >= t.len() {
        None
    } else {
        match t[pos] {
            Tok::P(Punct::LParen) => match sp_assign(t, w, pos + 1) {
                Some((e, p)) => if is_p(t, p, Punct::RParen) { Some((e, p + 1)) } else { None },
                None => None,
            },
            Tok::Word(s) => Some((if pos < w.len() && w[pos] is Some { Tree::Nid(w[pos]->0) } else { Tree::Var(s@) }, pos + 1)),
            Tok::P(_) => None,
        }
    }
}

/// A primary followed by any number of bracket applications `[a b ...]`.
pub open spec fn sp_postfix(t: Seq<Tok>, w: Seq<Option<NID>>, pos: int) -> Option<(Tree, int)>
    decreases t.len() - pos, 2nat,
{
    match sp_primary(t, w, pos) {
        Some((e, p)) => if pos < p <= t.len() { sp_brackets(t, w, e, p) } else { None },
        None => None,
    }
}

/// The bracket applications after `e`, from position `p`.
pub open spec fn sp_brackets(t: Seq<Tok>, w: Seq<Option<NID>>, e: Tree, p: int) -> Option<(Tree, int)>
    decreases t.len() - p, 0nat,
{
    if is_p(t, p, Punct::LBracket) { sp_args(t, w, e, p + 1, seq![]) } else { Some((e, p)) }
}

/// The arguments of a bracket application of `f`, `acc` read so far, from position `q`.
pub open spec fn sp_args(t: Seq<Tok>, w: Seq<Option<NID>>, f: Tree, q: int, acc: Seq<Tree>) -> Option<(Tree, int)>
    decreases t.len() - q, 11nat,
{
    if is_p(t, q, Punct::RBracket) {
        sp_brackets(t, w, Tree::Apply(Box::new(f), acc), q + 1)
    } else if q < 0 || q >= t.len() {
        None
    } else {
        match sp_unary(t, w, q) {
            Some((a, q2)) => if q < q2 <= t.len() { sp_args(t, w, f, q2, acc.push(a)) } else { None },
            None => None,
        }
    }
}

/// Any number of `!` before a postfix expression.
pub open spec fn sp_unary(t: Seq<Tok>, w: Seq<Option<NID>>, pos: int) -> Option<(Tree, int)>
    decreases t.len() - pos, 3nat,
{
    if is_p(t, pos, Punct::Bang) {
        match sp_unary(t, w, pos + 1) {
            Some((e, p)) => Some((Tree::Not(Box::new(e)), p)),
            None => None,
        }
    } else {
        sp_postfix(t, w, pos)
    }
}

/// `&` chains, to the left.
pub open spec fn sp_and(t: Seq<Tok>, w: Seq<Option<NID>>, pos: int) -> Option<(Tree, int)>
    decreases t.len() - pos, 4nat,
{
    match sp_unary(t, w, pos) {
        Some((l, p)) => if pos < p <= t.len() { sp_and_rest(t, w, l, p) } else { None },
        None => None,
    }
}

pub open spec fn sp_and_rest(t: Seq<Tok>, w: Seq<Option<NID>>, l: Tree, p: int) -> Option<(Tree, int)>
    decreases t.len() - p, 0nat,
{
    if is_p(t, p, Punct::Amp) {
        match sp_unary(t, w, p + 1) {
            Some((r, q)) => if p < q <= t.len() { sp_and_rest(t, w, Tree::And(Box::new(l), Box::new(r)), q) } else { None },
            None => None,
        }
    } else {
        Some((l, p))
    }
}

/// `%` chains of `&` chains, to the left.
pub open spec fn sp_xor(t: Seq<Tok>, w: Seq<Option<NID>>, pos: int) -> Option<(Tree, int)>
    decreases t.len() - pos, 5nat,
{
    match sp_and(t, w, pos) {
        Some((l, p)) => if pos < p <= t.len() { sp_xor_rest(t, w, l, p) } else { None },
        None => None,
    }
}

pub open spec fn sp_xor_rest(t: Seq<Tok>, w: Seq<Option<NID>>, l: Tree, p: int) -> Option<(Tree, int)>
    decreases t.len() - p, 0nat,
{
    if is_p(t, p, Punct::Pct) {
        match sp_and(t, w, p + 1) {
            Some((r, q)) => if p < q <= t.len() { sp_xor_rest(t, w, Tree::Xor(Box::new(l), Box::new(r)), q) } else { None },
            None => None,
        }
    } else {
        Some((l, p))
    }
}

/// `|` chains of `%` chains, to the left.
pub open spec fn sp_or(t: Seq<Tok>, w: Seq<Option<NID>>, pos: int) -> Option<(Tree, int)>
    decreases t.len() - pos, 6nat,
{
    match sp_xor(t, w, pos) {
        Some((l, p)) => if pos < p <= t.len() { sp_or_rest(t, w, l, p) } else { None },
        None => None,
    }
}

pub open spec fn sp_or_rest(t: Seq<Tok>, w: Seq<Option<NID>>, l: Tree, p: int) -> Option<(Tree, int)>
    decreases t.len() - p, 0nat,
{
    if is_p(t, p, Punct::Pipe) {
        match sp_xor(t, w, p + 1) {
            Some((r, q)) => if p < q <= t.len() { sp_or_rest(t, w, Tree::Or(Box::new(l), Box::new(r)), q) } else { None },
            None => None,
        }
    } else {
        Some((l, p))
    }
}

/// `<` and `/` chains of `|` chains, to the left.
#[verifier::opaque]
pub open spec fn sp_rel(t: Seq<Tok>, w: Seq<Option<NID>>, pos: int) -> Option<(Tree, int)>
    decreases t.len() - pos, 7nat,
{
    match sp_or(t, w, pos) {
        Some((l, p)) => if pos < p <= t.len() { sp_rel_rest(t, w, l, p) } else { None },
        None => None,
    }
}

#[verifier::opaque]
pub open spec fn sp_rel_rest(t: Seq<Tok>, w: Seq<Option<NID>>, l: Tree, p: int) -> Option<(Tree, int)>
    decreases t.len() - p, 0nat,
{
    if is_p(t, p, Punct::Lt) {
        match sp_or(t, w, p + 1) {
            Some((r, q)) => if p < q <= t.len() { sp_rel_rest(t, w, Tree::Lt(Box::new(l), Box::new(r)), q) } else { None },
            None => None,
        }
    } else if is_p(t, p, Punct::Slash) {
        match sp_or(t, w, p + 1) {
            Some((r, q)) => if p < q <= t.len() { sp_rel_rest(t, w, Tree::Le(Box::new(l), Box::new(r)), q) } else { None },
            None => None,
        }
    } else {
        Some((l, p))
    }
}

/// An optional `= other` after a relation (a second `=` is an error).
#[verifier::opaque]
pub open spec fn sp_eq(t: Seq<Tok>, w: Seq<Option<NID>>, pos: int) -> Option<(Tree, int)>
    decreases t.len() - pos, 8nat,
{
    match sp_rel(t, w, pos) {
        Some((l, p)) => if pos < p {
            if is_p(t, p, Punct::Eq) {
                match sp_rel(t, w, p + 1) {
                    Some((r, q)) => if is_p(t, q, Punct::Eq) { None } else { Some((Tree::Eq(Box::new(l), Box::new(r)), q)) },
                    None => None,
                }
            } else {
                Some((l, p))
            }
        } else { None },
        None => None,
    }
}

/// `c ? a : b`, to the right.
#[verifier::opaque]
pub open spec fn sp_ternary(t: Seq<Tok>, w: Seq<Option<NID>>, pos: int) -> Option<(Tree, int)>
    decreases t.len() - pos, 9nat,
{
    match sp_eq(t, w, pos) {
        Some((c, p)) => if pos < p {
            if is_p(t, p, Punct::Question) {
                match sp_ternary(t, w, p + 1) {
                    Some((a, q)) => if p < q && is_p(t, q, Punct::Colon) {
                        match sp_ternary(t, w, q + 1) {
                            Some((b, r)) => Some((Tree::Ite(Box::new(c), Box::new(a), Box::new(b)), r)),
                            None => None,
                        }
                    } else { None },
                    None => None,
                }
            } else {
                Some((c, p))
            }
        } else { None },
        None => None,
    }
}

/// `name : expr` (a word that `w` does not read as a nid, then `:`), or a ternary.
pub open spec fn sp_assign(t: Seq<Tok>, w: Seq<Option<NID>>, pos: int) -> Option<(Tree, int)>
    decreases t.len() - pos, 10nat,
{
    if 0 <= pos < t.len() && is_p(t, pos + 1, Punct::Colon) && t[pos] is Word && !(pos < w.len() && w[pos] is Some) {
        match sp_assign(t, w, pos + 2) {
            Some((e, p)) => Some((Tree::Assign(t[pos]->Word_0@, Box::new(e)), p)),
            None => None,
        }
    } else {
        sp_ternary(t, w, pos)
    }
}

/// The nids that the words read as: for each token, the nid its word reads
/// as, or none (for punctuation, and for words that are no nid).
fn word_nids(toks: &Vec<Tok>) -> (r: Vec<Option<NID>>)
    ensures
        r@.len() == toks@.len(),
        forall|k: int| 0 <= k < toks@.len() && toks@[k] is P ==> #[trigger] r@[k] is None,
        forall|k: int| 0 <= k < toks@.len() && toks@[k] is Word && no_colon(toks@[k]->Word_0@)
            ==> reads_as(toks@[k]->Word_0@, #[trigger] r@[k]),
{
    let mut r: Vec<Option<NID>> = Vec::new();
    let mut k: usize = 0;
    while k < toks.len()
        invariant
            k <= toks@.len(), r@.len() == k,
            forall|j: int| 0 <= j < k && toks@[j] is P ==> #[trigger] r@[j] is None,
            forall|j: int| 0 <= j < k && toks@[j] is Word && no_colon(toks@[j]->Word_0@)
                ==> reads_as(toks@[j]->Word_0@, #[trigger] r@[j]),
        decreases toks@.len() - k,
    {
        let x = match &toks[k] {
            Tok::Word(w) => match ParsedNid::parse(w.as_str()) {
                Ok(pn) => Some(pn.nid),
                Err(_) => None,
            },
            Tok::P(_) => None,
        };
        r.push(x);
        k = k + 1;
    }
    r
}

#[verifier::rlimit(100)]
#[verifier::spinoff_prover]
fn parse_primary(toks: &Vec<Tok>, words: &Vec<Option<NID>>, pos: usize) -> (r: Parsed)
    requires toks@.len() < usize::MAX, words@.len() == toks@.len(),
    ensures advanced(r, pos, toks@), parse_view(r) == sp_primary(toks@, words@, pos as int),
    decreases toks@.len() - pos, 1nat,
{
    if pos >= toks.len() {
        proof { reveal_strlit("a value"); }
        return Err(expected("a value"));
    }
    match &toks[pos] {
        Tok::P(Punct::LParen) => {
            let (e, p) = parse_assign(toks, words, pos + 1)?;
            if !is_punct(toks, p, Punct::RParen) {
                proof { reveal_strlit("')'"); }
                return Err(expected("')'"));
            }
            Ok((e, p + 1))
        },
        Tok::Word(w) => {
            match words[pos] {
                Some(n) => Ok((Expr::Nid(n), pos + 1)),
                None => Ok((Expr::Var(w.clone()), pos + 1)),
            }
        },
        Tok::P(_) => {
            proof { reveal_strlit("a value"); }
            Err(expected("a value"))
        },
    }
}

#[verifier::rlimit(100)]
#[verifier::spinoff_prover]
fn parse_postfix(toks: &Vec<Tok>, words: &Vec<Option<NID>>, pos: usize) -> (r: Parsed)
    requires toks@.len() < usize::MAX, words@.len() == toks@.len(),
    ensures advanced(r, pos, toks@), parse_view(r) == sp_postfix(toks@, words@, pos as int),
    decreases toks@.len() - pos, 2nat,
{
    let (mut e, mut p) = parse_primary(toks, words, pos)?;
    while is_punct(toks, p, Punct::LBracket)
        invariant
            pos < p <= toks@.len(), toks@.len() < usize::MAX, words@.len() == toks@.len(),
            sp_brackets(toks@, words@, tree_of(e), p as int) == sp_postfix(toks@, words@, pos as int),
        decreases toks@.len() - p,
    {
        p = p + 1;
        let ghost p0 = p;
        let mut args: Vec<Expr> = Vec::new();
        while !is_punct(toks, p, Punct::RBracket)
            invariant
                pos < p <= toks@.len(), toks@.len() < usize::MAX, p >= p0, words@.len() == toks@.len(),
                sp_args(toks@, words@, tree_of(e), p as int, args_tree(args@, args@.len()))
                    == sp_postfix(toks@, words@, pos as int),
            decreases toks@.len() - p,
        {
            if p >= toks.len() {
                proof { reveal_strlit("unterminated bracket application"); }
                return Err(String::from_str("unterminated bracket application"));
            }
            let (a, q) = parse_unary(toks, words, p)?;
            proof {
                lemma_args_tree_push(args@, a, args@.len());
                assert(args@.push(a)[args@.len() as int] == a);
            }
            args.push(a);
            p = q;
        }
        p = p + 1;
        proof {
            assert(tree_of(Expr::Apply(Box::new(e), args)) == Tree::Apply(Box::new(tree_of(e)), args_tree(args@, args@.len())));
        }
        e = Expr::Apply(Box::new(e), args);
    }
    Ok((e, p))
}

#[verifier::rlimit(100)]
#[verifier::spinoff_prover]
fn parse_unary(toks: &Vec<Tok>, words: &Vec<Option<NID>>, pos: usize) -> (r: Parsed)
    requires toks@.len() < usize::MAX, words@.len() == toks@.len(),
    ensures advanced(r, pos, toks@), parse_view(r) == sp_unary(toks@, words@, pos as int),
    decreases toks@.len() - pos, 3nat,
{
    if is_punct(toks, pos, Punct::Bang) {
        let (e, p) = parse_unary(toks, words, pos + 1)?;
        Ok((Expr::Not(Box::new(e)), p))
    } else {
        parse_postfix(toks, words, pos)
    }
}

#[verifier::rlimit(100)]
#[verifier::spinoff_prover]
fn parse_and(toks: &Vec<Tok>, words: &Vec<Option<NID>>, pos: usize) -> (r: Parsed)
    requires toks@.len() < usize::MAX, words@.len() == toks@.len(),
    ensures advanced(r, pos, toks@), parse_view(r) == sp_and(toks@, words@, pos as int),
    decreases toks@.len() - pos, 4nat,
{
    let (mut left, mut p) = parse_unary(toks, words, pos)?;
    while is_punct(toks, p, Punct::Amp)
        invariant
            pos < p <= toks@.len(), toks@.len() < usize::MAX, words@.len() == toks@.len(),
            sp_and_rest(toks@, words@, tree_of(left), p as int) == sp_and(toks@, words@, pos as int),
        decreases toks@.len() - p,
    {
        let (r, q) = parse_unary(toks, words, p + 1)?;
        left = Expr::And(Box::new(left), Box::new(r));
        p = q;
    }
    Ok((left, p))
}

#[verifier::rlimit(100)]
#[verifier::spinoff_prover]
fn parse_xor(toks: &Vec<Tok>, words: &Vec<Option<NID>>, pos: usize) -> (r: Parsed)
    requires toks@.len() < usize::MAX, words@.len() == toks@.len(),
    ensures advanced(r, pos, toks@), parse_view(r) == sp_xor(toks@, words@, pos as int),
    decreases toks@.len() - pos, 5nat,
{
    let (mut left, mut p) = parse_and(toks, words, pos)?;
    while is_punct(toks, p, Punct::Pct)
        invariant
            pos < p <= toks@.len(), toks@.len() < usize::MAX, words@.len() == toks@.len(),
            sp_xor_rest(toks@, words@, tree_of(left), p as int) == sp_xor(toks@, words@, pos as int),
        decreases toks@.len() - p,
    {
        let (r, q) = parse_and(toks, words, p + 1)?;
        left = Expr::Xor(Box::new(left), Box::new(r));
        p = q;
    }
    Ok((left, p))
}

#[verifier::rlimit(100)]
#[verifier::spinoff_prover]
fn parse_or(toks: &Vec<Tok>, words: &Vec<Option<NID>>, pos: usize) -> (r: Parsed)
    requires toks@.len() < usize::MAX, words@.len() == toks@.len(),
    ensures advanced(r, pos, toks@), parse_view(r) == sp_or(toks@, words@, pos as int),
    decreases toks@.len() - pos, 6nat,
{
    let (mut left, mut p) = parse_xor(toks, words, pos)?;
    while is_punct(toks, p, Punct::Pipe)
        invariant
            pos < p <= toks@.len(), toks@.len() < usize::MAX, words@.len() == toks@.len(),
            sp_or_rest(toks@, words@, tree_of(left), p as int) == sp_or(toks@, words@, pos as int),
        decreases toks@.len() - p,
    {
        let (r, q) = parse_xor(toks, words, p + 1)?;
        left = Expr::Or(Box::new(left), Box::new(r));
        p = q;
    }
    Ok((left, p))
}

#[verifier::rlimit(100)]
#[verifier::spinoff_prover]
fn parse_rel(toks: &Vec<Tok>, words: &Vec<Option<NID>>, pos: usize) -> (r: Parsed)
    requires toks@.len() < usize::MAX, words@.len() == toks@.len(),
    ensures advanced(r, pos, toks@), parse_view(r) == sp_rel(toks@, words@, pos as int),
    decreases toks@.len() - pos, 7nat,
{
    proof { reveal_with_fuel(sp_rel, 1); reveal_with_fuel(sp_rel_rest, 1); }
    let (mut left, mut p) = parse_or(toks, words, pos)?;
    while is_punct(toks, p, Punct::Lt) || is_punct(toks, p, Punct::Slash)
        invariant
            pos < p <= toks@.len(), toks@.len() < usize::MAX, words@.len() == toks@.len(),
            sp_rel_rest(toks@, words@, tree_of(left), p as int) == sp_rel(toks@, words@, pos as int),
        decreases toks@.len() - p,
    {
        proof { reveal_with_fuel(sp_rel_rest, 1); }
        let lt = is_punct(toks, p, Punct::Lt);
        let (r, q) = parse_or(toks, words, p + 1)?;
        left = if lt { Expr::Lt(Box::new(left), Box::new(r)) } else { Expr::Le(Box::new(left), Box::new(r)) };
        p = q;
    }
    Ok((left, p))
}

#[verifier::rlimit(100)]
#[verifier::spinoff_prover]
fn parse_eq(toks: &Vec<Tok>, words: &Vec<Option<NID>>, pos: usize) -> (r: Parsed)
    requires toks@.len() < usize::MAX, words@.len() == toks@.len(),
    ensures advanced(r, pos, toks@), parse_view(r) == sp_eq(toks@, words@, pos as int),
    decreases toks@.len() - pos, 8nat,
{
    proof { reveal_with_fuel(sp_eq, 1); }
    let ghost t = toks@;
    let ghost w = words@;
    let r0 = parse_rel(toks, words, pos);
    let (left, p) = match r0 {
        Ok(x) => x,
        Err(e) => {
            proof { assert(sp_rel(t, w, pos as int) is None); }
            return Err(e);
        },
    };
    proof { assert(sp_rel(t, w, pos as int) == Some((tree_of(left), p as int))); }
    if is_punct(toks, p, Punct::Eq) {
        let r1 = parse_rel(toks, words, p + 1);
        let (right, q) = match r1 {
            Ok(x) => x,
            Err(e) => {
                proof { assert(sp_rel(t, w, p + 1) is None); }
                return Err(e);
            },
        };
        proof { assert(sp_rel(t, w, p + 1) == Some((tree_of(right), q as int))); }
        if is_punct(toks, q, Punct::Eq) {
            proof { reveal_strlit("'=' is non-associative; use parentheses to chain comparisons"); }
            return Err(String::from_str("'=' is non-associative; use parentheses to chain comparisons"));
        }
        Ok((Expr::Eq(Box::new(left), Box::new(right)), q))
    } else {
        Ok((left, p))
    }
}

#[verifier::rlimit(100)]
#[verifier::spinoff_prover]
fn parse_ternary(toks: &Vec<Tok>, words: &Vec<Option<NID>>, pos: usize) -> (r: Parsed)
    requires toks@.len() < usize::MAX, words@.len() == toks@.len(),
    ensures advanced(r, pos, toks@), parse_view(r) == sp_ternary(toks@, words@, pos as int),
    decreases toks@.len() - pos, 9nat,
{
    proof { reveal_with_fuel(sp_ternary, 1); }
    let (cond, p) = parse_eq(toks, words, pos)?;
    if is_punct(toks, p, Punct::Question) {
        let (then_e, q) = parse_ternary(toks, words, p + 1)?;
        if !is_punct(toks, q, Punct::Colon) {
            proof { reveal_strlit("':'"); }
            return Err(expected("':'"));
        }
        let (else_e, s) = parse_ternary(toks, words, q + 1)?;
        Ok((Expr::Ite(Box::new(cond), Box::new(then_e), Box::new(else_e)), s))
    } else {
        Ok((cond, p))
    }
}

#[verifier::rlimit(100)]
#[verifier::spinoff_prover]
fn parse_assign(toks: &Vec<Tok>, words: &Vec<Option<NID>>, pos: usize) -> (r: Parsed)
    requires toks@.len() < usize::MAX, words@.len() == toks@.len(),
    ensures advanced(r, pos, toks@), parse_view(r) == sp_assign(toks@, words@, pos as int),
    decreases toks@.len() - pos, 10nat,
{
    if pos < toks.len() && is_punct(toks, pos + 1, Punct::Colon) {
        match &toks[pos] {
            Tok::Word(w) => {
                if words[pos].is_none() {
                    let (rhs, p) = parse_assign(toks, words, pos + 2)?;
                    return Ok((Expr::Assign(w.clone(), Box::new(rhs)), p));
                }
            },
            Tok::P(_) => {},
        }
    }
    parse_ternary(toks, words, pos)
}

/// `r` is the parse of the whole token list `ts`, where `w` gives the nid
/// each word reads as (none for punctuation): the tree of the assignment
/// grammar when it covers every token, an error otherwise (and for a list too
/// long to index).
pub open spec fn full_parse(ts: Seq<Tok>, w: Seq<Option<NID>>, r: Result<Expr, String>) -> bool {
    &&& w.len() == ts.len()
    &&& forall|k: int| 0 <= k < ts.len() && ts[k] is P ==> #[trigger] w[k] is None
    &&& forall|k: int| 0 <= k < ts.len() && ts[k] is Word && no_colon(ts[k]->Word_0@)
            ==> reads_as(ts[k]->Word_0@, #[trigger] w[k])
    &&& match r {
        Ok(e) => ts.len() < usize::MAX && sp_assign(ts, w, 0) == Some((tree_of(e), ts.len() as int)),
        Err(_) => ts.len() >= usize::MAX || !(sp_assign(ts, w, 0) matches Some((_, p)) && p == ts.len()),
    }
}

/// Parse an expression in the infix grammar. Operator precedence, highest
/// to lowest: unary `!`; `&`; `%`; `|`; `<` and `/`; `=` (non-associative);
/// `?:` (right-associative). `:` assigns a name to the expression on its
/// right; parentheses and bracket application (`f[a b]`) nest arbitrarily.
pub fn parse_expr(s: &str) -> (r: Result<Expr, String>)
    ensures
        (exists|i: int| 0 <= i < s@.len() && stray(#[trigger] s@[i])) ==> r is Err,
        !(exists|i: int| 0 <= i < s@.len() && stray(#[trigger] s@[i])) ==> exists|ts: Seq<Tok>, w: Seq<Option<NID>>|
            toks_view(ts) == tokens_from(s@, 0) && #[trigger] full_parse(ts, w, r),
{
    let toks = match tokenize(s) {
        Ok(t) => t,
        Err(e) => { return Err(e); },
    };
    let words = word_nids(&toks);
    if toks.len() == usize::MAX {
        proof { reveal_strlit("input too long"); }
        let r = Err(String::from_str("input too long"));
        proof { assert(full_parse(toks@, words@, r)); }
        return r;
    }
    let (e, p) = match parse_assign(&toks, &words, 0) {
        Ok(x) => x,
        Err(m) => {
            let r = Err(m);
            proof { assert(full_parse(toks@, words@, r)); }
            return r;
        },
    };
    if p != toks.len() {
        proof { reveal_strlit("unexpected trailing input"); }
        let r = Err(String::from_str("unexpected trailing input"));
        proof { assert(full_parse(toks@, words@, r)); }
        return r;
    }
    proof { assert(full_parse(toks@, words@, Ok::<Expr, String>(e))); }
    Ok(e)
}


// ---- evaluation: build the expression in a base ----

/// A literal nid: a constant or a plain variable.
pub open spec fn is_lit_spec(n: NID) -> bool {
    n.n & VAR != 0 || n.n & T != 0
}

/// The entries of the table of `f`, read as a function of arity `k`.
pub open spec fn tab_of(f: NidFun, k: nat) -> spec_fn(nat) -> bool {
    |j: nat| j < pow2(k) && entry(table_of(f), k, j) == 1
}

/// The half of the table `tab` (of arity `k`) where the top input is `v`.
pub open spec fn half(tab: spec_fn(nat) -> bool, k: nat, v: u64) -> spec_fn(nat) -> bool {
    |j: nat| j < pow2((k - 1) as nat) && tab(ix_map(IxMap::Ins((k - 1) as u64, v), j as u64, pow2(k) as u64) as nat)
}

/// The calls that applying the table `tab` (of arity `k`) to `args` makes,
/// from `c0` to `c1`, and its result `r`: both halves of the table (split on
/// the top input) are applied to the lower arguments, and the results joined
/// with `ite` on the top argument.
pub open spec fn table_calls(tab: spec_fn(nat) -> bool, args: Seq<NID>, k: nat, c0: Seq<Call>, c1: Seq<Call>, r: NID) -> bool
    decreases k,
{
    if k == 0 {
        c1 == c0 && r == (if tab(0) { crate::nid::nid_i() } else { crate::nid::nid_o() })
    } else if c1.len() < pow2((k - 1) as nat) {
        false
    } else {
        let cb = c1.drop_last();
        let cm = cb.take(cb.len() - (pow2((k - 1) as nat) - 1));
        match c1.last() {
            Call::Ite(c, hi, lo, res) => res == r && c == args[k - 1]
                && table_calls(half(tab, k, 1), args, (k - 1) as nat, c0, cm, hi)
                && table_calls(half(tab, k, 0), args, (k - 1) as nat, cm, cb, lo),
            _ => false,
        }
    }
}

/// The calls of the first `i` substitutions into `n`, from `c0` to `c1`,
/// ending at `cur`: each puts the next argument in place of the branch
/// variable of the node so far, which is no literal.
pub open spec fn sub_calls(n: NID, args: Seq<NID>, i: nat, c0: Seq<Call>, c1: Seq<Call>, cur: NID) -> bool
    decreases i,
{
    if i == 0 {
        c1 == c0 && cur == n
    } else if i > args.len() || c1.len() == 0 {
        false
    } else {
        match c1.last() {
            Call::Sub(v, a, prev, res) => res == cur && a == args[i - 1] && v == prev.vid_spec()
                && !is_lit_spec(prev) && sub_calls(n, args, (i - 1) as nat, c0, c1.drop_last(), prev),
            _ => false,
        }
    }
}

/// Applying `n` to `args` in brackets makes the calls from `c0` to `c1` and
/// gives `r` (there is no such `r` where it is refused).
pub open spec fn applies(n: NID, args: Seq<NID>, c0: Seq<Call>, c1: Seq<Call>, r: NID) -> bool {
    if n.n & F == F {
        let f = NidFun { nid: n };
        let a = f.arity_spec();
        let v = if n.n & INV != 0 { not_spec(r) } else { r };
        &&& a == args.len()
        &&& a == 0 ==> c1 == c0 && v == (if f.tbl_spec() != 0 { crate::nid::nid_i() } else { crate::nid::nid_o() })
        &&& a > 0 ==> table_calls(tab_of(f, a), args, a, c0, c1, v)
    } else if is_ixn_spec(n) || is_lit_spec(n) {
        false
    } else {
        let i = (c1.len() - c0.len()) as nat;
        &&& c0.len() <= c1.len()
        &&& sub_calls(n, args, i, c0, c1, r)
        &&& (i == args.len() || is_lit_spec(r))
    }
}


/// The nids written literally in `e`.
pub open spec fn lits(e: Expr) -> Set<NID>
    decreases e, 0nat,
{
    match e {
        Expr::Nid(n) => set![n],
        Expr::Var(_) => Set::empty(),
        Expr::Not(x) => lits(*x),
        Expr::And(a, b) => lits(*a) + lits(*b),
        Expr::Xor(a, b) => lits(*a) + lits(*b),
        Expr::Or(a, b) => lits(*a) + lits(*b),
        Expr::Lt(a, b) => lits(*a) + lits(*b),
        Expr::Le(a, b) => lits(*a) + lits(*b),
        Expr::Eq(a, b) => lits(*a) + lits(*b),
        Expr::Ite(i, t, x) => lits(*i) + lits(*t) + lits(*x),
        Expr::Assign(_, x) => lits(*x),
        Expr::Apply(f, args) => lits(*f) + args_lits(args@, args@.len()),
    }
}

/// The nids written literally in the first `k` arguments.
pub open spec fn args_lits(args: Seq<Expr>, k: nat) -> Set<NID>
    decreases args, k,
{
    if k == 0 || k > args.len() { Set::empty() } else { args_lits(args, (k - 1) as nat) + lits(args[k - 1]) }
}

/// The most nodes that evaluating `e` may add to a base (a table applied
/// to its arguments takes at most 31).
pub open spec fn eval_cost(e: Expr) -> nat
    decreases e, 0nat,
{
    match e {
        Expr::Nid(_) => 0,
        Expr::Var(_) => 0,
        Expr::Not(x) => eval_cost(*x),
        Expr::And(a, b) => eval_cost(*a) + eval_cost(*b) + 1,
        Expr::Xor(a, b) => eval_cost(*a) + eval_cost(*b) + 1,
        Expr::Or(a, b) => eval_cost(*a) + eval_cost(*b) + 2,
        Expr::Lt(a, b) => eval_cost(*a) + eval_cost(*b) + 1,
        Expr::Le(a, b) => eval_cost(*a) + eval_cost(*b) + 2,
        Expr::Eq(a, b) => eval_cost(*a) + eval_cost(*b) + 1,
        Expr::Ite(i, t, x) => eval_cost(*i) + eval_cost(*t) + eval_cost(*x) + 1,
        Expr::Assign(_, x) => eval_cost(*x),
        Expr::Apply(f, args) => eval_cost(*f) + args_cost(args@, args@.len()) + 31,
    }
}

/// `eval_cost` summed over the first `k` arguments.
pub open spec fn args_cost(args: Seq<Expr>, k: nat) -> nat
    decreases args, k,
{
    if k == 0 || k > args.len() { 0 } else { args_cost(args, (k - 1) as nat) + eval_cost(args[k - 1]) }
}

/// Does `e` hold no bracket application?
pub open spec fn no_apply(e: Expr) -> bool
    decreases e,
{
    match e {
        Expr::Nid(_) => true,
        Expr::Var(_) => true,
        Expr::Not(x) => no_apply(*x),
        Expr::And(a, b) => no_apply(*a) && no_apply(*b),
        Expr::Xor(a, b) => no_apply(*a) && no_apply(*b),
        Expr::Or(a, b) => no_apply(*a) && no_apply(*b),
        Expr::Lt(a, b) => no_apply(*a) && no_apply(*b),
        Expr::Le(a, b) => no_apply(*a) && no_apply(*b),
        Expr::Eq(a, b) => no_apply(*a) && no_apply(*b),
        Expr::Ite(i, t, x) => no_apply(*i) && no_apply(*t) && no_apply(*x),
        Expr::Assign(_, x) => no_apply(*x),
        Expr::Apply(_, _) => false,
    }
}

/// Working left to right, every name that `e` uses is bound when it is used:
/// by an assignment before it, in `scope`, or among the base's `names`. On
/// success, the names bound afterwards (those of `scope` and the assignments).
pub open spec fn resolves(e: Expr, scope: Set<Seq<char>>, names: Set<Seq<char>>) -> Option<Set<Seq<char>>>
    decreases e, 0nat,
{
    match e {
        Expr::Nid(_) => Some(scope),
        Expr::Var(s) => if scope.contains(s@) || names.contains(s@) { Some(scope) } else { None },
        Expr::Not(x) => resolves(*x, scope, names),
        Expr::And(a, b) => match resolves(*a, scope, names) {
            Some(d) => resolves(*b, d, names),
            None => None,
        },
        Expr::Xor(a, b) => match resolves(*a, scope, names) {
            Some(d) => resolves(*b, d, names),
            None => None,
        },
        Expr::Or(a, b) => match resolves(*a, scope, names) {
            Some(d) => resolves(*b, d, names),
            None => None,
        },
        Expr::Lt(a, b) => match resolves(*a, scope, names) {
            Some(d) => resolves(*b, d, names),
            None => None,
        },
        Expr::Le(a, b) => match resolves(*a, scope, names) {
            Some(d) => resolves(*b, d, names),
            None => None,
        },
        Expr::Eq(a, b) => match resolves(*a, scope, names) {
            Some(d) => resolves(*b, d, names),
            None => None,
        },
        Expr::Ite(i, t, x) => match resolves(*i, scope, names) {
            Some(d) => match resolves(*t, d, names) {
                Some(d2) => resolves(*x, d2, names),
                None => None,
            },
            None => None,
        },
        Expr::Assign(s, x) => match resolves(*x, scope, names) {
            Some(d) => Some(d.insert(s@)),
            None => None,
        },
        Expr::Apply(f, args) => match resolves(*f, scope, names) {
            Some(d) => resolves_args(args@, args@.len(), d, names),
            None => None,
        },
    }
}

/// `resolves` for the first `k` arguments, in order.
pub open spec fn resolves_args(args: Seq<Expr>, k: nat, scope: Set<Seq<char>>, names: Set<Seq<char>>) -> Option<Set<Seq<char>>>
    decreases args, k,
{
    if k == 0 || k > args.len() {
        Some(scope)
    } else {
        match resolves_args(args, (k - 1) as nat, scope, names) {
            Some(d) => resolves(args[k - 1], d, names),
            None => None,
        }
    }
}


proof fn lemma_args_lits(args: Seq<Expr>, i: nat, k: nat)
    requires i < k <= args.len(),
    ensures lits(args[i as int]).subset_of(args_lits(args, k)),
    decreases k,
{
    if i < k - 1 {
        lemma_args_lits(args, i, (k - 1) as nat);
    }
}

/// The number of nodes that applying a table of arity `k` may make.
pub open spec fn table_cost(k: nat) -> nat {
    (pow2(k) - 1) as nat
}

/// Apply the table `f` (of arity `k`) to the first `k` arguments, as a tree
/// of if-then-else nodes on the arguments, last argument on top.
fn apply_table<B: Base>(base: &mut B, f: NidFun, args: &[NID], k: u8) -> (r: NID)
    requires
        old(base).inv(), f.nid.n & F == F, f.arity_spec() == k, k <= 5, (k as int) <= args@.len(),
        forall|i: int| 0 <= i < args@.len() ==> old(base).valid(#[trigger] args@[i]),
        old(base).spare() >= table_cost(k as nat),
    ensures
        final(base).inv(), final(base).valid(r),
        final(base).names() == old(base).names(), final(base).sub_ready() == old(base).sub_ready(),
        final(base).spare() + table_cost(k as nat) >= old(base).spare(),
        forall|m: NID| old(base).valid(m) ==> #[trigger] final(base).valid(m),
        final(base).calls().len() == old(base).calls().len() + pow2(k as nat) - 1,
        final(base).calls().take(old(base).calls().len() as int) == old(base).calls(),
        k == 0 ==> r == (if f.tbl_spec() != 0 { crate::nid::nid_i() } else { crate::nid::nid_o() }),
        k > 0 || table_of(f) <= 1 ==> table_calls(tab_of(f, k as nat), args@, k as nat, old(base).calls(), final(base).calls(), r),
    decreases k,
{
    if k == 0 {
        proof {
            base.lemma_consts_valid();
            crate::nidfun::lemma_pow2_small(0);
            assert(base.calls().take(base.calls().len() as int) =~= base.calls());
            let t = table_of(f);
            if t <= 1 {
                assert((t >> 0u64) & 1 == t) by (bit_vector)
                    requires t <= 1;
                assert(tab_of(f, 0)(0) == (f.tbl_spec() != 0));
            }
        }
        return NID::from_bit(f.tbl() != 0);
    }
    let top = k - 1;
    proof {
        crate::nidfun::lemma_pow2_small(k as nat);
        crate::nidfun::lemma_pow2_small(top as nat);
    }
    let ghost c0 = base.calls();
    let fh = f.when(top, true);
    let hi = apply_table(base, fh, args, top);
    let ghost cm = base.calls();
    let fl = f.when(top, false);
    let lo = apply_table(base, fl, args, top);
    let ghost cb = base.calls();
    let r = base.ite(args[top as usize], hi, lo);
    proof {
        let kk = k as nat;
        let j = top as nat;
        let tab = tab_of(f, kk);
        assert forall|v: u64| v <= 1 implies #[trigger] half(tab, kk, v) =~= tab_of(if v == 1 { fh } else { fl }, j) by {
            let g = if v == 1 { fh } else { fl };
            assert forall|i: nat| #[trigger] half(tab, kk, v)(i) == tab_of(g, j)(i) by {
                if i < pow2(j) {
                    crate::nidfun::lemma_pow2_shift(j);
                    crate::nidfun::lemma_pow2_shift(kk);
                    crate::nidfun::lemma_ins_bit_range(i as u64, j as u64, v, kk as u64);
                    assert(entry(table_of(g), j, i) == entry(table_of(f), kk, ix_map(IxMap::Ins(j as u64, v), i as u64, pow2(kk) as u64) as nat));
                }
            }
        }
        assert(half(tab, kk, 1) == tab_of(fh, j));
        assert(half(tab, kk, 0) == tab_of(fl, j));
        let c1 = base.calls();
        assert(c1.drop_last() == cb);
        assert(cb.take(cb.len() - (pow2(j) - 1)) =~= cm);
        assert(c1.take(c0.len() as int) =~= c0);
        if j == 0 {
            assert(table_of(fh) <= 1 && table_of(fl) <= 1);
        }
        assert(table_calls(tab, args@, kk, c0, c1, r));
    }
    r
}

/// Apply bracket notation (`n[args...]`) to `n`:
/// - a table nid is applied as a function (its arity must be the number of
///   arguments);
/// - a node with a branch variable and an index gets the arguments
///   substituted top-down: the first replaces its branch variable, the next
///   the variable on top of the result, and so on (extra arguments are ignored);
/// - an index node (an AST node) is refused;
/// - a plain variable or a constant has nothing to substitute into, and is refused.
///
/// The calls it makes on the base are those that `applies` describes.
pub fn apply_bracket<B: Base>(base: &mut B, n: NID, args: &[NID]) -> (r: Result<NID, String>)
    requires
        old(base).inv(), old(base).valid(n),
        forall|i: int| 0 <= i < args@.len() ==> old(base).valid(#[trigger] args@[i]),
        !needs_sub(n) ==> old(base).spare() >= 31,
    ensures
        final(base).inv(),
        final(base).names() == old(base).names(), final(base).sub_ready() == old(base).sub_ready(),
        forall|m: NID| old(base).valid(m) ==> #[trigger] final(base).valid(m),
        !needs_sub(n) ==> final(base).spare() + 31 >= old(base).spare(),
        r matches Ok(m) ==> final(base).valid(m),
        r matches Ok(m) ==> applies(n, args@, old(base).calls(), final(base).calls(), m),
        r is Err <==> (n.n & F == F && (NidFun { nid: n }).arity_spec() != args@.len())
            || (n.n & F != F && (is_ixn_spec(n) || n.n & VAR != 0 || n.n & T != 0)),
        n.n & F == F && (NidFun { nid: n }).arity_spec() != args@.len() ==> (r matches Err(e) && e@ ==
            "table nid "@ + nid_text(n) + " has arity "@ + dec_text((NidFun { nid: n }).arity_spec())
            + " but "@ + dec_text(args@.len()) + " arg(s) were given"@),
        n.n & F != F && is_ixn_spec(n) ==> (r matches Err(e) && e@ == "bracket substitution on AST nids is not supported yet"@),
        n.n & F != F && !is_ixn_spec(n) && (n.n & VAR != 0 || n.n & T != 0) ==> (r matches Err(e)
            && e@ == "cannot apply bracket notation to nid with no index: "@ + nid_text(n)),
{
    if let Some(f) = n.to_fun() {
        let ar = f.arity();
        if ar as usize != args.len() {
            let mut msg = String::from_str("table nid ");
            let t = n.to_string();
            msg.append(t.as_str());
            msg.append(" has arity ");
            push_dec(&mut msg, ar as u64);
            msg.append(" but ");
            push_dec(&mut msg, args.len() as u64);
            msg.append(" arg(s) were given");
            return Err(msg);
        }
        proof { crate::nidfun::lemma_pow2_small(ar as nat); }
        let v = apply_table(base, f, args, ar);
        let r = v.inv_if(n.is_inv());
        proof {
            if n.n & INV != 0 { base.lemma_not_valid(v); }
            crate::nid::lemma_not_not(v);
            assert((if n.n & INV != 0 { not_spec(r) } else { r }) == v);
            assert(f == NidFun { nid: n });
            if ar == 0 { assert(base.calls() =~= old(base).calls()); }
        }
        Ok(r)
    } else if n.is_ixn() {
        Err(String::from_str("bracket substitution on AST nids is not supported yet"))
    } else if n.is_lit() {
        let mut msg = String::from_str("cannot apply bracket notation to nid with no index: ");
        let t = n.to_string();
        msg.append(t.as_str());
        Err(msg)
    } else {
        proof { base.lemma_vhl_sub(n); }
        Ok(apply_vhl_sub(base, n, args))
    }
}

/// Substitute the arguments top-down into `n` (see `apply_bracket`).
fn apply_vhl_sub<B: Base>(base: &mut B, n: NID, args: &[NID]) -> (r: NID)
    requires
        old(base).inv(), old(base).sub_ready(), old(base).valid(n),
        forall|i: int| 0 <= i < args@.len() ==> old(base).valid(#[trigger] args@[i]),
    ensures
        final(base).inv(), final(base).valid(r),
        final(base).names() == old(base).names(), final(base).sub_ready() == old(base).sub_ready(),
        forall|m: NID| old(base).valid(m) ==> #[trigger] final(base).valid(m),
        n.n & VAR != 0 || n.n & T != 0 || args@.len() == 0 ==> r == n && *final(base) == *old(base),
        ({
            let i = (final(base).calls().len() - old(base).calls().len()) as nat;
            &&& old(base).calls().len() <= final(base).calls().len()
            &&& sub_calls(n, args@, i, old(base).calls(), final(base).calls(), r)
            &&& (i == args@.len() || is_lit_spec(r))
        }),
{
    let mut cur = n;
    let mut i: usize = 0;
    while i < args.len()
        invariant
            sub_calls(n, args@, i as nat, old(base).calls(), base.calls(), cur),
            base.calls().len() == old(base).calls().len() + i,
            i <= args@.len(), base.inv(), base.sub_ready(), base.valid(cur),
            i == 0 ==> cur == n && *base == *old(base),
            n.n & VAR != 0 || n.n & T != 0 ==> i == 0,
            forall|j: int| 0 <= j < args@.len() ==> old(base).valid(#[trigger] args@[j]),
            base.names() == old(base).names(),
            forall|m: NID| old(base).valid(m) ==> #[trigger] base.valid(m),
        ensures i == args@.len() || is_lit_spec(cur),
        decreases args@.len() - i,
    {
        if cur.is_lit() {
            break;
        }
        let v = cur.vid();
        let ghost cm = base.calls();
        let ghost prev = cur;
        cur = base.sub(v, args[i], cur);
        i = i + 1;
        proof {
            assert(base.calls().drop_last() == cm);
            assert(sub_calls(n, args@, i as nat, old(base).calls(), base.calls(), cur));
        }
    }
    cur
}

/// What an operand left behind: the calls made so far, the scope, and its nid.
pub type After = (Seq<Call>, Map<Seq<char>, NID>, NID);

/// A record of an evaluation: what each operand left behind, in order, and
/// the records of the operands.
pub enum Trace {
    Step(Seq<After>, Seq<Trace>),
}

/// The nids of the arguments `1..=k` recorded in `ms`.
pub open spec fn arg_vals(ms: Seq<After>, k: nat) -> Seq<NID> {
    Seq::new(k, |i: int| ms[i + 1].2)
}

/// `e` evaluates to `r` as recorded in `t`: starting from the calls `c0` and
/// the scope `s0` (names not in scope are looked up in `names`), its
/// operands are evaluated in order, each from what the previous one left,
/// and an operator is the one base call on its operands' nids, made last;
/// the calls then are `c1` and the scope `s1`.
pub open spec fn evals(e: Expr, t: Trace, names: Map<Seq<char>, NID>, c0: Seq<Call>, s0: Map<Seq<char>, NID>,
    c1: Seq<Call>, s1: Map<Seq<char>, NID>, r: NID) -> bool
    decreases e, 0nat,
{
    let Trace::Step(ms, ts) = t;
    match e {
        Expr::Nid(n) => c1 == c0 && s1 == s0 && r == n,
        Expr::Var(s) => c1 == c0 && s1 == s0
            && (if s0.contains_key(s@) { r == s0[s@] } else { names.contains_key(s@) && r == names[s@] }),
        Expr::Not(x) => ms.len() >= 1 && ts.len() >= 1
            && evals(*x, ts[0], names, c0, s0, c1, s1, ms[0].2) && r == not_spec(ms[0].2),
        Expr::And(a, b) => ms.len() >= 2 && ts.len() >= 2
            && evals(*a, ts[0], names, c0, s0, ms[0].0, ms[0].1, ms[0].2)
            && evals(*b, ts[1], names, ms[0].0, ms[0].1, ms[1].0, s1, ms[1].2)
            && c1 == ms[1].0.push(Call::And(ms[0].2, ms[1].2, r)),
        Expr::Xor(a, b) => ms.len() >= 2 && ts.len() >= 2
            && evals(*a, ts[0], names, c0, s0, ms[0].0, ms[0].1, ms[0].2)
            && evals(*b, ts[1], names, ms[0].0, ms[0].1, ms[1].0, s1, ms[1].2)
            && c1 == ms[1].0.push(Call::Xor(ms[0].2, ms[1].2, r)),
        Expr::Or(a, b) => ms.len() >= 2 && ts.len() >= 2
            && evals(*a, ts[0], names, c0, s0, ms[0].0, ms[0].1, ms[0].2)
            && evals(*b, ts[1], names, ms[0].0, ms[0].1, ms[1].0, s1, ms[1].2)
            && c1 == ms[1].0.push(Call::Or(ms[0].2, ms[1].2, r)),
        Expr::Lt(a, b) => ms.len() >= 2 && ts.len() >= 2
            && evals(*a, ts[0], names, c0, s0, ms[0].0, ms[0].1, ms[0].2)
            && evals(*b, ts[1], names, ms[0].0, ms[0].1, ms[1].0, s1, ms[1].2)
            && c1 == ms[1].0.push(Call::And(not_spec(ms[0].2), ms[1].2, r)),
        Expr::Le(a, b) => ms.len() >= 2 && ts.len() >= 2
            && evals(*a, ts[0], names, c0, s0, ms[0].0, ms[0].1, ms[0].2)
            && evals(*b, ts[1], names, ms[0].0, ms[0].1, ms[1].0, s1, ms[1].2)
            && c1 == ms[1].0.push(Call::Or(not_spec(ms[0].2), ms[1].2, r)),
        Expr::Eq(a, b) => ms.len() >= 3 && ts.len() >= 2
            && evals(*a, ts[0], names, c0, s0, ms[0].0, ms[0].1, ms[0].2)
            && evals(*b, ts[1], names, ms[0].0, ms[0].1, ms[1].0, s1, ms[1].2)
            && c1 == ms[1].0.push(Call::Xor(ms[0].2, ms[1].2, ms[2].2)) && r == not_spec(ms[2].2),
        Expr::Ite(i, x, y) => ms.len() >= 3 && ts.len() >= 3
            && evals(*i, ts[0], names, c0, s0, ms[0].0, ms[0].1, ms[0].2)
            && evals(*x, ts[1], names, ms[0].0, ms[0].1, ms[1].0, ms[1].1, ms[1].2)
            && evals(*y, ts[2], names, ms[1].0, ms[1].1, ms[2].0, s1, ms[2].2)
            && c1 == ms[2].0.push(Call::Ite(ms[0].2, ms[1].2, ms[2].2, r)),
        Expr::Assign(s, x) => ms.len() >= 1 && ts.len() >= 1
            && evals(*x, ts[0], names, c0, s0, c1, ms[0].1, r) && s1 == ms[0].1.insert(s@, r),
        Expr::Apply(f, args) => {
            let k = args@.len();
            &&& ms.len() >= k + 1 && ts.len() >= k + 1
            &&& evals(*f, ts[0], names, c0, s0, ms[0].0, ms[0].1, ms[0].2)
            &&& evals_args(args@, k, ts, ms, names)
            &&& s1 == ms[k as int].1
            &&& applies(ms[0].2, arg_vals(ms, k), ms[k as int].0, c1, r)
        },
    }
}

/// The first `k` arguments evaluate as recorded: argument `i` from what
/// `ms[i]` left, to `ms[i + 1]`, by the record `ts[i + 1]`.
pub open spec fn evals_args(args: Seq<Expr>, k: nat, ts: Seq<Trace>, ms: Seq<After>, names: Map<Seq<char>, NID>) -> bool
    decreases args, k,
{
    if k == 0 || k > args.len() {
        k == 0
    } else {
        evals_args(args, (k - 1) as nat, ts, ms, names)
            && evals(args[k - 1], ts[k as int], names, ms[k - 1].0, ms[k - 1].1, ms[k as int].0, ms[k as int].1, ms[k as int].2)
    }
}

/// Evaluate a parsed expression in a base, looking names up in `scope`
/// (then among the base's names); an assignment binds its name in `scope`
/// and gives the assigned nid. `x=y` is built as `!(x^y)`, `x<y` as `!x&y`,
/// and `x/y` as `!x|y`.
///
/// This works on bases that do not substitute (`sub`), for which no
/// bracket application substitutes either. The result is the nid of the last
/// base call, made on the nids of the operands, which are evaluated first,
/// in order (`evals`).
#[verifier::rlimit(100)]
#[verifier::spinoff_prover]
pub fn eval_expr<B: Base>(base: &mut B, expr: &Expr, scope: &mut Names<NID>) -> (r: Result<NID, String>)
    requires
        old(base).inv(), !old(base).sub_ready(), old(scope).wf(),
        forall|n: NID| #[trigger] lits(*expr).contains(n) ==> old(base).valid(n),
        forall|k: Seq<char>| #[trigger] old(scope).map().contains_key(k) ==> old(base).valid(old(scope).map()[k]),
        old(base).spare() >= eval_cost(*expr),
    ensures
        final(base).inv(), !final(base).sub_ready(), final(scope).wf(),
        final(base).names() == old(base).names(),
        final(base).spare() + eval_cost(*expr) >= old(base).spare(),
        forall|m: NID| old(base).valid(m) ==> #[trigger] final(base).valid(m),
        forall|k: Seq<char>| #[trigger] final(scope).map().contains_key(k) ==> final(base).valid(final(scope).map()[k]),
        r matches Ok(n) ==> final(base).valid(n),
        r is Ok ==> resolves(*expr, old(scope).map().dom(), old(base).names().dom()) == Some(final(scope).map().dom()),
        no_apply(*expr) && resolves(*expr, old(scope).map().dom(), old(base).names().dom()) is Some ==> r is Ok,
        *expr matches Expr::Nid(n) ==> r == Ok::<NID, String>(n),
        *expr matches Expr::Var(s) ==> (if old(scope).map().contains_key(s@) {
            r == Ok::<NID, String>(old(scope).map()[s@])
        } else if old(base).names().contains_key(s@) {
            r == Ok::<NID, String>(old(base).names()[s@])
        } else {
            r matches Err(e) && e@ == "undefined variable: "@ + s@
        }),
        *expr matches Expr::Assign(s, _) ==> (r is Ok ==> final(scope).map().contains_key(s@) && final(scope).map()[s@] == r->Ok_0),
        r is Ok ==> exists|t: Trace| #[trigger] evals(*expr, t, old(base).names(), old(base).calls(),
            old(scope).map(), final(base).calls(), final(scope).map(), r->Ok_0),
    decreases *expr,
{
    let ghost nm = base.names();
    let ghost c0 = base.calls();
    let ghost s0 = scope.map();
    let ghost leaf = Trace::Step(Seq::empty(), Seq::empty());
    match expr {
        Expr::Nid(n) => {
            proof {
                assert(lits(*expr).contains(*n));
                assert(final(base).calls() == old(base).calls() && final(scope).map() == old(scope).map());
            }
            let res: Result<NID, String> = Ok(*n);
            proof { assert(evals(*expr, leaf, old(base).names(), old(base).calls(), old(scope).map(), final(base).calls(), final(scope).map(), res->Ok_0)); }
            return res;
        },
        Expr::Var(name) => {
            match scope.get(name.as_str()) {
                Some(n) => {
                    let res: Result<NID, String> = Ok(n);
                    proof {
                        assert(final(base).calls() == old(base).calls() && final(scope).map() == old(scope).map());
                        assert(evals(*expr, leaf, old(base).names(), old(base).calls(), old(scope).map(), final(base).calls(), final(scope).map(), res->Ok_0));
                    }
                    return res;
                },
                None => match base.get(name.as_str()) {
                    Some(n) => {
                        let res: Result<NID, String> = Ok(n);
                        proof {
                            assert(final(base).calls() == old(base).calls() && final(scope).map() == old(scope).map());
                            assert(evals(*expr, leaf, old(base).names(), old(base).calls(), old(scope).map(), final(base).calls(), final(scope).map(), res->Ok_0));
                        }
                        return res;
                    },
                    None => {
                        let mut msg = String::from_str("undefined variable: ");
                        msg.append(name.as_str());
                        Err(msg)
                    },
                },
            }
        },
        Expr::Not(x) => {
            proof { assert(lits(*expr) == lits(**x)); }
            let v = match eval_expr(base, x, scope) { Ok(v) => v, Err(e) => { return Err(e); } };
            proof { base.lemma_not_valid(v); }
            let r = negate(v);
            let ghost tx = choose|t: Trace| evals(**x, t, nm, c0, s0, base.calls(), scope.map(), v);
            proof {
                assert(evals(*expr, Trace::Step(seq![(base.calls(), scope.map(), v)], seq![tx]), nm, c0, s0, base.calls(), scope.map(), r));
            }
            let res: Result<NID, String> = Ok(r);
            proof { assert(evals(*expr, Trace::Step(seq![(base.calls(), scope.map(), v)], seq![tx]), old(base).names(), old(base).calls(), old(scope).map(), final(base).calls(), final(scope).map(), res->Ok_0)); }
            return res;
        },
        Expr::And(a, b) => {
            proof {
                assert(lits(*expr) == lits(**a) + lits(**b));
                assert forall|n: NID| #[trigger] lits(**a).contains(n) implies base.valid(n) by { assert(lits(*expr).contains(n)); }
                assert forall|n: NID| #[trigger] lits(**b).contains(n) implies base.valid(n) by { assert(lits(*expr).contains(n)); }
            }
            let x = match eval_expr(base, a, scope) { Ok(v) => v, Err(e) => { return Err(e); } };
            let ghost ca = base.calls();
            let ghost sa = scope.map();
            let y = match eval_expr(base, b, scope) { Ok(v) => v, Err(e) => { return Err(e); } };
            let ghost cb = base.calls();
            let ghost sb = scope.map();
            let ghost ta = choose|t: Trace| evals(**a, t, nm, c0, s0, ca, sa, x);
            let ghost tb = choose|t: Trace| evals(**b, t, nm, ca, sa, cb, sb, y);
            let r = base.and(x, y);
            proof { assert(evals(*expr, Trace::Step(seq![(ca, sa, x), (cb, sb, y)], seq![ta, tb]), nm, c0, s0, base.calls(), scope.map(), r)); }
            let res: Result<NID, String> = Ok(r);
            proof { assert(evals(*expr, Trace::Step(seq![(ca, sa, x), (cb, sb, y)], seq![ta, tb]), old(base).names(), old(base).calls(), old(scope).map(), final(base).calls(), final(scope).map(), res->Ok_0)); }
            return res;
        },
        Expr::Xor(a, b) => {
            proof {
                assert(lits(*expr) == lits(**a) + lits(**b));
                assert forall|n: NID| #[trigger] lits(**a).contains(n) implies base.valid(n) by { assert(lits(*expr).contains(n)); }
                assert forall|n: NID| #[trigger] lits(**b).contains(n) implies base.valid(n) by { assert(lits(*expr).contains(n)); }
            }
            let x = match eval_expr(base, a, scope) { Ok(v) => v, Err(e) => { return Err(e); } };
            let ghost ca = base.calls();
            let ghost sa = scope.map();
            let y = match eval_expr(base, b, scope) { Ok(v) => v, Err(e) => { return Err(e); } };
            let ghost cb = base.calls();
            let ghost sb = scope.map();
            let ghost ta = choose|t: Trace| evals(**a, t, nm, c0, s0, ca, sa, x);
            let ghost tb = choose|t: Trace| evals(**b, t, nm, ca, sa, cb, sb, y);
            let r = base.xor(x, y);
            proof { assert(evals(*expr, Trace::Step(seq![(ca, sa, x), (cb, sb, y)], seq![ta, tb]), nm, c0, s0, base.calls(), scope.map(), r)); }
            let res: Result<NID, String> = Ok(r);
            proof { assert(evals(*expr, Trace::Step(seq![(ca, sa, x), (cb, sb, y)], seq![ta, tb]), old(base).names(), old(base).calls(), old(scope).map(), final(base).calls(), final(scope).map(), res->Ok_0)); }
            return res;
        },
        Expr::Or(a, b) => {
            proof {
                assert(lits(*expr) == lits(**a) + lits(**b));
                assert forall|n: NID| #[trigger] lits(**a).contains(n) implies base.valid(n) by { assert(lits(*expr).contains(n)); }
                assert forall|n: NID| #[trigger] lits(**b).contains(n) implies base.valid(n) by { assert(lits(*expr).contains(n)); }
            }
            let x = match eval_expr(base, a, scope) { Ok(v) => v, Err(e) => { return Err(e); } };
            let ghost ca = base.calls();
            let ghost sa = scope.map();
            let y = match eval_expr(base, b, scope) { Ok(v) => v, Err(e) => { return Err(e); } };
            let ghost cb = base.calls();
            let ghost sb = scope.map();
            let ghost ta = choose|t: Trace| evals(**a, t, nm, c0, s0, ca, sa, x);
            let ghost tb = choose|t: Trace| evals(**b, t, nm, ca, sa, cb, sb, y);
            let r = base.or(x, y);
            proof { assert(evals(*expr, Trace::Step(seq![(ca, sa, x), (cb, sb, y)], seq![ta, tb]), nm, c0, s0, base.calls(), scope.map(), r)); }
            let res: Result<NID, String> = Ok(r);
            proof { assert(evals(*expr, Trace::Step(seq![(ca, sa, x), (cb, sb, y)], seq![ta, tb]), old(base).names(), old(base).calls(), old(scope).map(), final(base).calls(), final(scope).map(), res->Ok_0)); }
            return res;
        },
        Expr::Lt(a, b) => {
            proof {
                assert(lits(*expr) == lits(**a) + lits(**b));
                assert forall|n: NID| #[trigger] lits(**a).contains(n) implies base.valid(n) by { assert(lits(*expr).contains(n)); }
                assert forall|n: NID| #[trigger] lits(**b).contains(n) implies base.valid(n) by { assert(lits(*expr).contains(n)); }
            }
            let x = match eval_expr(base, a, scope) { Ok(v) => v, Err(e) => { return Err(e); } };
            let ghost ca = base.calls();
            let ghost sa = scope.map();
            let y = match eval_expr(base, b, scope) { Ok(v) => v, Err(e) => { return Err(e); } };
            let ghost cb = base.calls();
            let ghost sb = scope.map();
            let ghost ta = choose|t: Trace| evals(**a, t, nm, c0, s0, ca, sa, x);
            let ghost tb = choose|t: Trace| evals(**b, t, nm, ca, sa, cb, sb, y);
            proof { base.lemma_not_valid(x); }
            let r = base.and(negate(x), y);
            proof { assert(evals(*expr, Trace::Step(seq![(ca, sa, x), (cb, sb, y)], seq![ta, tb]), nm, c0, s0, base.calls(), scope.map(), r)); }
            let res: Result<NID, String> = Ok(r);
            proof { assert(evals(*expr, Trace::Step(seq![(ca, sa, x), (cb, sb, y)], seq![ta, tb]), old(base).names(), old(base).calls(), old(scope).map(), final(base).calls(), final(scope).map(), res->Ok_0)); }
            return res;
        },
        Expr::Le(a, b) => {
            proof {
                assert(lits(*expr) == lits(**a) + lits(**b));
                assert forall|n: NID| #[trigger] lits(**a).contains(n) implies base.valid(n) by { assert(lits(*expr).contains(n)); }
                assert forall|n: NID| #[trigger] lits(**b).contains(n) implies base.valid(n) by { assert(lits(*expr).contains(n)); }
            }
            let x = match eval_expr(base, a, scope) { Ok(v) => v, Err(e) => { return Err(e); } };
            let ghost ca = base.calls();
            let ghost sa = scope.map();
            let y = match eval_expr(base, b, scope) { Ok(v) => v, Err(e) => { return Err(e); } };
            let ghost cb = base.calls();
            let ghost sb = scope.map();
            let ghost ta = choose|t: Trace| evals(**a, t, nm, c0, s0, ca, sa, x);
            let ghost tb = choose|t: Trace| evals(**b, t, nm, ca, sa, cb, sb, y);
            proof { base.lemma_not_valid(x); }
            let r = base.or(negate(x), y);
            proof { assert(evals(*expr, Trace::Step(seq![(ca, sa, x), (cb, sb, y)], seq![ta, tb]), nm, c0, s0, base.calls(), scope.map(), r)); }
            let res: Result<NID, String> = Ok(r);
            proof { assert(evals(*expr, Trace::Step(seq![(ca, sa, x), (cb, sb, y)], seq![ta, tb]), old(base).names(), old(base).calls(), old(scope).map(), final(base).calls(), final(scope).map(), res->Ok_0)); }
            return res;
        },
        Expr::Eq(a, b) => {
            proof {
                assert(lits(*expr) == lits(**a) + lits(**b));
                assert forall|n: NID| #[trigger] lits(**a).contains(n) implies base.valid(n) by { assert(lits(*expr).contains(n)); }
                assert forall|n: NID| #[trigger] lits(**b).contains(n) implies base.valid(n) by { assert(lits(*expr).contains(n)); }
            }
            let x = match eval_expr(base, a, scope) { Ok(v) => v, Err(e) => { return Err(e); } };
            let ghost ca = base.calls();
            let ghost sa = scope.map();
            let y = match eval_expr(base, b, scope) { Ok(v) => v, Err(e) => { return Err(e); } };
            let ghost cb = base.calls();
            let ghost sb = scope.map();
            let ghost ta = choose|t: Trace| evals(**a, t, nm, c0, s0, ca, sa, x);
            let ghost tb = choose|t: Trace| evals(**b, t, nm, ca, sa, cb, sb, y);
            let z = base.xor(x, y);
            proof { base.lemma_not_valid(z); }
            let r = negate(z);
            proof {
                assert(evals(*expr, Trace::Step(seq![(ca, sa, x), (cb, sb, y), (cb, sb, z)], seq![ta, tb]), nm, c0, s0, base.calls(), scope.map(), r));
            }
            let res: Result<NID, String> = Ok(r);
            proof { assert(evals(*expr, Trace::Step(seq![(ca, sa, x), (cb, sb, y), (cb, sb, z)], seq![ta, tb]), old(base).names(), old(base).calls(), old(scope).map(), final(base).calls(), final(scope).map(), res->Ok_0)); }
            return res;
        },
        Expr::Ite(i, t, e) => {
            proof {
                assert(lits(*expr) == lits(**i) + lits(**t) + lits(**e));
                assert forall|n: NID| #[trigger] lits(**i).contains(n) implies base.valid(n) by { assert(lits(*expr).contains(n)); }
                assert forall|n: NID| #[trigger] lits(**t).contains(n) implies base.valid(n) by { assert(lits(*expr).contains(n)); }
                assert forall|n: NID| #[trigger] lits(**e).contains(n) implies base.valid(n) by { assert(lits(*expr).contains(n)); }
            }
            let iv = match eval_expr(base, i, scope) { Ok(v) => v, Err(x) => { return Err(x); } };
            let ghost c1 = base.calls();
            let ghost s1 = scope.map();
            let tv = match eval_expr(base, t, scope) { Ok(v) => v, Err(x) => { return Err(x); } };
            let ghost c2 = base.calls();
            let ghost s2 = scope.map();
            let ev = match eval_expr(base, e, scope) { Ok(v) => v, Err(x) => { return Err(x); } };
            let ghost c3 = base.calls();
            let ghost s3 = scope.map();
            let ghost t1 = choose|u: Trace| evals(**i, u, nm, c0, s0, c1, s1, iv);
            let ghost t2 = choose|u: Trace| evals(**t, u, nm, c1, s1, c2, s2, tv);
            let ghost t3 = choose|u: Trace| evals(**e, u, nm, c2, s2, c3, s3, ev);
            let r = base.ite(iv, tv, ev);
            proof {
                assert(evals(*expr, Trace::Step(seq![(c1, s1, iv), (c2, s2, tv), (c3, s3, ev)], seq![t1, t2, t3]), nm, c0, s0, base.calls(), scope.map(), r));
            }
            let res: Result<NID, String> = Ok(r);
            proof { assert(evals(*expr, Trace::Step(seq![(c1, s1, iv), (c2, s2, tv), (c3, s3, ev)], seq![t1, t2, t3]), old(base).names(), old(base).calls(), old(scope).map(), final(base).calls(), final(scope).map(), res->Ok_0)); }
            return res;
        },
        Expr::Assign(name, rhs) => {
            proof { assert(lits(*expr) == lits(**rhs)); }
            let v = match eval_expr(base, rhs, scope) { Ok(v) => v, Err(e) => { return Err(e); } };
            let ghost sx = scope.map();
            let ghost tx = choose|t: Trace| evals(**rhs, t, nm, c0, s0, base.calls(), sx, v);
            scope.tag(v, name.clone());
            proof {
                assert(evals(*expr, Trace::Step(seq![(base.calls(), sx, v)], seq![tx]), nm, c0, s0, base.calls(), scope.map(), v));
            }
            let res: Result<NID, String> = Ok(v);
            proof { assert(evals(*expr, Trace::Step(seq![(base.calls(), sx, v)], seq![tx]), old(base).names(), old(base).calls(), old(scope).map(), final(base).calls(), final(scope).map(), res->Ok_0)); }
            return res;
        },
        Expr::Apply(f, args) => {
            proof {
                assert(lits(*expr) == lits(**f) + args_lits(args@, args@.len()));
                assert forall|n: NID| #[trigger] lits(**f).contains(n) implies base.valid(n) by { assert(lits(*expr).contains(n)); }
            }
            let ghost b0 = *base;
            let ghost d0 = scope.map().dom();
            let fv = match eval_expr(base, f, scope) { Ok(v) => v, Err(e) => { return Err(e); } };
            let ghost df = scope.map().dom();
            let ghost cf = base.calls();
            let ghost sf = scope.map();
            let ghost tf = choose|t: Trace| evals(**f, t, nm, c0, s0, cf, sf, fv);
            let ghost mut ms: Seq<After> = seq![(cf, sf, fv)];
            let ghost mut ts: Seq<Trace> = seq![tf];
            let ghost b1 = *base;
            let mut argv: Vec<NID> = Vec::new();
            let mut i: usize = 0;
            while i < args.len()
                invariant
                    i <= args@.len(), argv@.len() == i,
                    base.inv(), !base.sub_ready(), scope.wf(),
                    base.names() == b0.names(), b0 == *old(base),
                    b0.spare() >= eval_cost(*expr),
                    *expr == Expr::Apply(*f, *args),
                    base.spare() + eval_cost(**f) + args_cost(args@, i as nat) >= b0.spare(),
                    forall|n: NID| #[trigger] lits(*expr).contains(n) ==> b0.valid(n),
                    forall|m: NID| b0.valid(m) ==> #[trigger] base.valid(m),
                    forall|k: Seq<char>| #[trigger] scope.map().contains_key(k) ==> base.valid(scope.map()[k]),
                    base.valid(fv),
                    forall|j: int| 0 <= j < i ==> base.valid(#[trigger] argv@[j]),
                    resolves(**f, d0, b0.names().dom()) == Some(df),
                    resolves_args(args@, i as nat, df, b0.names().dom()) == Some(scope.map().dom()),
                    nm == b0.names(),
                    ms.len() == i + 1, ts.len() == i + 1, ms[0] == (cf, sf, fv), ts[0] == tf,
                    evals(**f, tf, nm, c0, s0, cf, sf, fv),
                    evals_args(args@, i as nat, ts, ms, nm),
                    ms[i as int].0 == base.calls(), ms[i as int].1 == scope.map(),
                    forall|j: int| 0 <= j < i ==> ms[j + 1].2 == #[trigger] argv@[j],
                decreases args@.len() - i,
            {
                proof {
                    lemma_args_lits(args@, i as nat, args@.len());
                    lemma_args_cost(args@, (i + 1) as nat, args@.len());
                    assert forall|n: NID| #[trigger] lits(args@[i as int]).contains(n) implies base.valid(n) by {
                        assert(args_lits(args@, args@.len()).contains(n));
                        assert(lits(*expr).contains(n));
                    }
                }
                let ghost bi = *base;
                let v = match eval_expr(base, &args[i], scope) { Ok(v) => v, Err(e) => { return Err(e); } };
                proof {
                    let ti = choose|t: Trace| evals(args@[i as int], t, nm, ms[i as int].0, ms[i as int].1, base.calls(), scope.map(), v);
                    let ms2 = ms.push((base.calls(), scope.map(), v));
                    let ts2 = ts.push(ti);
                    lemma_evals_args_grow(args@, i as nat, ts, ms, ts2, ms2, nm);
                    ms = ms2;
                    ts = ts2;
                }
                argv.push(v);
                proof {
                    assert forall|j: int| 0 <= j < i + 1 implies base.valid(#[trigger] argv@[j]) by {
                        if j < i { assert(bi.valid(argv@[j])); }
                    }
                }
                i = i + 1;
            }
            proof {
                if needs_sub(fv) { base.lemma_vhl_sub(fv); }
                lemma_args_cost(args@, args@.len(), args@.len());
            }
            let r = apply_bracket(base, fv, argv.as_slice());
            proof {
                if r is Ok {
                    assert(arg_vals(ms, args@.len()) =~= argv@);
                    assert(evals(*expr, Trace::Step(ms, ts), old(base).names(), old(base).calls(), old(scope).map(), final(base).calls(), final(scope).map(), r->Ok_0));
                }
            }
            return r;
        },
    }
}

/// Recording more after the first `k` arguments keeps their record.
proof fn lemma_evals_args_grow(args: Seq<Expr>, k: nat, ts: Seq<Trace>, ms: Seq<After>,
    ts2: Seq<Trace>, ms2: Seq<After>, names: Map<Seq<char>, NID>)
    requires
        evals_args(args, k, ts, ms, names),
        k < ts.len(), k < ms.len(), ts.len() <= ts2.len(), ms.len() <= ms2.len(),
        forall|j: int| 0 <= j < ts.len() ==> ts2[j] == ts[j],
        forall|j: int| 0 <= j < ms.len() ==> ms2[j] == ms[j],
    ensures evals_args(args, k, ts2, ms2, names),
    decreases k,
{
    if k > 0 && k <= args.len() {
        lemma_evals_args_grow(args, (k - 1) as nat, ts, ms, ts2, ms2, names);
    }
}

proof fn lemma_args_cost(args: Seq<Expr>, i: nat, k: nat)
    requires i <= k <= args.len(),
    ensures args_cost(args, i) <= args_cost(args, k),
    decreases k,
{
    if i < k {
        lemma_args_cost(args, i, (k - 1) as nat);
    }
}

} // verus!
