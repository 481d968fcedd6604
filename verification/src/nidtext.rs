//! Text forms of NIDs: printing and parsing.
//!
//! Spellings: `O`, `I`, `xN`, `vN` (upper-case hex), `!` for inversion,
//! `xN.M`/`vN.M` for indexed nodes, `@M` for nodes with no variable,
//! `tBBBB` (binary truth table, also with `O`/`I` for `0`/`1`),
//! `fA.H` (arity and hex table), `fH` (arity 2, one hex digit) and
//! `T{x3,x7:1110}` for a table over named variables.
use vstd::prelude::*;
use crate::vid::{VID, VidEnum, vid_text};
use crate::nid::{NID, NidFun, T, INV, F, VAR, NOVAR, IDX_MASK, COMBO_MASK, vid_bits_spec};
use crate::comb::{TOTAL, valid_vars, decodes_to, ascending};
use crate::text::{push_char, push_hex, hex_text, chars_of, parse_hex, all_hex, hex_val};
use crate::comb;

verus! {

/// Binary digits of `x`, at least `w` of them.
pub open spec fn bits_text(x: nat, w: nat) -> Seq<char>
    decreases x + w,
{
    if x == 0 && w == 0 {
        Seq::empty()
    } else {
        bits_text(x / 2, if w > 0 { (w - 1) as nat } else { 0 }).push(if x % 2 == 1 { '1' } else { '0' })
    }
}

/// Appends the binary digits of `x`, at least `w` of them.
pub fn push_bits(s: &mut String, x: u64, w: u64)
    requires w <= 64,
    ensures final(s)@ == old(s)@ + bits_text(x as nat, w as nat),
    decreases x + w,
{
    if x == 0 && w == 0 {
        assert(old(s)@ + Seq::<char>::empty() =~= old(s)@);
    } else {
        let w1: u64 = if w > 0 { w - 1 } else { 0 };
        push_bits(s, x / 2, w1);
        let c = if x % 2 == 1 { '1' } else { '0' };
        push_char(s, c);
        assert(old(s)@ + bits_text(x as nat, w as nat)
            =~= old(s)@ + bits_text((x / 2) as nat, w1 as nat) + seq![c]);
    }
}

/// `x0,x3,...` for a list of variables.
pub open spec fn var_list_text(vs: Seq<u32>) -> Seq<char>
    decreases vs.len(),
{
    if vs.len() == 0 {
        Seq::empty()
    } else if vs.len() == 1 {
        seq!['x'] + hex_text(vs[0] as nat)
    } else {
        var_list_text(vs.drop_last()) + seq![','] + seq!['x'] + hex_text(vs.last() as nat)
    }
}

/// Is the list `0, 1, ..., len-1`?
pub open spec fn canonical_vars(vs: Seq<u32>) -> bool {
    forall|i: int| 0 <= i < vs.len() ==> vs[i] == i
}

/// Text of a table nid (without the inversion mark).
pub open spec fn fun_text(f: NidFun) -> Seq<char> {
    let ar = f.arity_spec();
    let tb = f.tbl_spec() as nat;
    if f.wf() && !canonical_vars(f.vars_spec()) {
        seq!['T', '{'] + var_list_text(f.vars_spec()) + seq![':']
            + (if ar <= 2 { bits_text(tb, pow2(ar)) } else { hex_text(tb) }) + seq!['}']
    } else if ar == 2 {
        seq!['t'] + bits_text(tb, 4)
    } else {
        seq!['f'] + hex_text(ar) + seq!['.'] + hex_text(tb)
    }
}

pub open spec fn pow2(k: nat) -> nat
    decreases k,
{
    if k == 0 { 1 } else { 2 * pow2((k - 1) as nat) }
}

/// The text form of a nid.
pub open spec fn nid_text(x: NID) -> Seq<char> {
    if x.n & T != 0 {
        if x.n & INV != 0 { seq!['I'] } else { seq!['O'] }
    } else {
        let bang = if x.n & INV != 0 { seq!['!'] } else { Seq::empty() };
        bang + if x.n & F == F {
            fun_text(NidFun { nid: NID { n: x.n & !INV } })
        } else if x.n & VAR != 0 {
            vid_text(x.vid_spec())
        } else if x.n & (F | T | VAR) == 0 && vid_bits_spec(x.n) == NOVAR {
            seq!['@'] + hex_text((x.n & IDX_MASK) as nat)
        } else {
            vid_text(x.vid_spec()) + seq!['.'] + hex_text((x.n & IDX_MASK) as nat)
        }
    }
}

fn push_str(s: &mut String, t: &str)
    ensures final(s)@ == old(s)@ + t@,
{
    s.append(t);
}

fn push_var_list(s: &mut String, vs: &[u32; 5], k: usize)
    requires k <= 5,
    ensures final(s)@ == old(s)@ + var_list_text(vs@.subrange(0, k as int)),
    decreases k,
{
    if k == 0 {
        assert(vs@.subrange(0, 0) =~= Seq::<u32>::empty());
        assert(old(s)@ + Seq::<char>::empty() =~= old(s)@);
    } else if k == 1 {
        push_char(s, 'x');
        push_hex(s, vs[0] as u64);
        assert(old(s)@ + var_list_text(vs@.subrange(0, 1)) =~= old(s)@.push('x') + hex_text(vs@[0] as nat));
    } else {
        push_var_list(s, vs, k - 1);
        push_char(s, ',');
        push_char(s, 'x');
        push_hex(s, vs[k - 1] as u64);
        let ghost t = vs@.subrange(0, k as int);
        assert(t.drop_last() =~= vs@.subrange(0, k as int - 1));
        assert(old(s)@ + var_list_text(t) =~= old(s)@ + var_list_text(t.drop_last()) + seq![','] + seq!['x'] + hex_text(t.last() as nat));
    }
}

fn pow2_u64(k: u8) -> (r: u64)
    requires k <= 5,
    ensures r == pow2(k as nat), r <= 32,
{
    reveal_with_fuel(pow2, 6);
    if k == 0 { 1 } else if k == 1 { 2 } else if k == 2 { 4 } else if k == 3 { 8 } else if k == 4 { 16 } else { 32 }
}

fn push_fun(s: &mut String, f: NidFun)
    requires f.nid.n & F == F,
    ensures final(s)@ == old(s)@ + fun_text(f),
{
    let ar = f.arity();
    let tb = f.tbl();
    let c = f.combo();
    let mut canonical = true;
    if c < TOTAL {
        let (ar2, vs) = f.vars();
        let mut i: usize = 0;
        while i < ar2 as usize
            invariant
                i <= ar2, ar2 <= 5, ar2 == f.arity_spec(),
                vs@.subrange(0, ar2 as int) == f.vars_spec(),
                canonical == forall|j: int| 0 <= j < i ==> f.vars_spec()[j] == j,
            decreases ar2 - i,
        {
            assert(f.vars_spec()[i as int] == vs@[i as int]);
            if vs[i] != i as u32 {
                canonical = false;
            }
            i = i + 1;
        }
        if !canonical {
            proof { reveal_strlit("T{"); }
            push_str(s, "T{");
            push_var_list(s, &vs, ar2 as usize);
            push_char(s, ':');
            if ar <= 2 {
                push_bits(s, tb as u64, pow2_u64(ar));
            } else {
                push_hex(s, tb as u64);
            }
            push_char(s, '}');
            assert(s@ =~= old(s)@ + fun_text(f));
            return;
        }
    }
    if ar == 2 {
        push_char(s, 't');
        push_bits(s, tb as u64, 4);
        assert(s@ =~= old(s)@ + fun_text(f));
    } else {
        push_char(s, 'f');
        push_hex(s, ar as u64);
        push_char(s, '.');
        push_hex(s, tb as u64);
        assert(s@ =~= old(s)@ + fun_text(f));
    }
}

impl NID {
    /// Text form of the nid.
    pub fn to_string(&self) -> (r: String)
        ensures r@ == nid_text(*self),
    {
        let mut s = String::new();
        if self.is_const() {
            if self.is_inv() { push_char(&mut s, 'I'); } else { push_char(&mut s, 'O'); }
            return s;
        }
        if self.is_inv() { push_char(&mut s, '!'); }
        let ghost pre = s@;
        if self.is_fun() {
            let raw = self.raw();
            proof { crate::bits::lemma_word(self.n, 0); }
            push_fun(&mut s, NidFun { nid: raw });
        } else if self.is_vid() {
            let v = self.vid().to_string();
            push_str(&mut s, v.as_str());
        } else if self.is_ixn() {
            push_char(&mut s, '@');
            push_hex(&mut s, self.idx() as u64);
        } else {
            let v = self.vid().to_string();
            push_str(&mut s, v.as_str());
            push_char(&mut s, '.');
            push_hex(&mut s, self.idx() as u64);
        }
        assert(s@ =~= nid_text(*self));
        s
    }
}


/// Builds an error message: the given text followed by the offending word.
fn err_msg(msg: &str, word: &Vec<char>) -> (r: String)
    ensures r@ == msg@ + word@,
{
    let mut s = String::from_str(msg);
    let mut i: usize = 0;
    while i < word.len()
        invariant i <= word@.len(), s@ == msg@ + word@.subrange(0, i as int),
        decreases word@.len() - i,
    {
        push_char(&mut s, word[i]);
        assert(msg@ + word@.subrange(0, i as int + 1) =~= (msg@ + word@.subrange(0, i as int)).push(word@[i as int]));
        i = i + 1;
    }
    assert(word@.subrange(0, word@.len() as int) =~= word@);
    s
}

/// Position of the first occurrence of `c` in `cs[lo..]`, or `cs.len()`.
fn find_char(cs: &Vec<char>, lo: usize, c: char) -> (r: usize)
    requires lo <= cs@.len(),
    ensures
        lo <= r <= cs@.len(),
        r < cs@.len() ==> cs@[r as int] == c,
        forall|j: int| lo <= j < r ==> cs@[j] != c,
{
    let mut i = lo;
    while i < cs.len()
        invariant lo <= i <= cs@.len(), forall|j: int| lo <= j < i ==> cs@[j] != c,
        decreases cs@.len() - i,
    {
        if cs[i] == c { return i; }
        i = i + 1;
    }
    i
}

/// Is `c` a binary digit, written `0`/`1` or `O`/`I`?
pub open spec fn is_bin_digit(c: char) -> bool {
    c == '0' || c == '1' || c == 'O' || c == 'I'
}

pub open spec fn bin_digit_val(c: char) -> nat {
    if c == '1' || c == 'I' { 1 } else { 0 }
}

pub open spec fn bin_val(s: Seq<char>) -> nat
    decreases s.len(),
{
    if s.len() == 0 { 0 } else { bin_val(s.drop_last()) * 2 + bin_digit_val(s.last()) }
}

pub open spec fn all_bin(s: Seq<char>) -> bool {
    forall|i: int| 0 <= i < s.len() ==> is_bin_digit(#[trigger] s[i])
}

/// Parse `cs[lo..hi]` (at most 32 binary digits).
fn parse_bin(cs: &Vec<char>, lo: usize, hi: usize) -> (r: Option<u32>)
    requires lo <= hi <= cs@.len(), hi - lo <= 32,
    ensures
        r is Some <==> all_bin(cs@.subrange(lo as int, hi as int)),
        r is Some ==> r->0 == bin_val(cs@.subrange(lo as int, hi as int)),
{
    let mut v: u64 = 0;
    let mut i = lo;
    while i < hi
        invariant
            lo <= i <= hi <= cs@.len(), hi - lo <= 32,
            all_bin(cs@.subrange(lo as int, i as int)),
            v == bin_val(cs@.subrange(lo as int, i as int)),
            v < pow2((i - lo) as nat),
        decreases hi - i,
    {
        let c = cs[i];
        let ghost sub = cs@.subrange(lo as int, i as int + 1);
        assert(sub.drop_last() =~= cs@.subrange(lo as int, i as int));
        if !(c == '0' || c == '1' || c == 'O' || c == 'I') {
            assert(cs@.subrange(lo as int, hi as int)[i - lo] == c);
            return None;
        }
        let d: u64 = if c == '1' || c == 'I' { 1 } else { 0 };
        proof { lemma_pow2_le_32((i - lo) as nat); }
        v = v * 2 + d;
        i = i + 1;
    }
    proof { lemma_pow2_le_32((hi - lo) as nat); }
    Some(v as u32)
}

proof fn lemma_pow2_le_32(k: nat)
    requires k <= 32,
    ensures pow2(k) <= 0x1_0000_0000, pow2(k) >= 1,
    decreases k,
{
    if k > 0 {
        lemma_pow2_le_32((k - 1) as nat);
    }
    if k <= 31 { lemma_pow2_mono(k, 31); } else { lemma_pow2_mono(31, 31); }
}

proof fn lemma_pow2_mono(a: nat, b: nat)
    requires a <= b, b <= 31,
    ensures pow2(a) <= pow2(b), pow2(31) == 0x8000_0000,
    decreases b - a,
{
    reveal_with_fuel(pow2, 32);
    if a < b { lemma_pow2_mono(a + 1, b); }
}

/// The table nid over `x0 .. x(ar-1)` with table `tb` (as `NID::fun` builds it).
pub open spec fn fun_nid(ar: nat, tb: u32) -> NID {
    NID { n: crate::nid::fun_bits(comb::offset_of(ar) as u64, ar, tb) }
}

/// The text of such a table nid, after `!` when inverted.
pub open spec fn fun_word(ar: nat, tb: u32, inv: bool) -> Seq<char> {
    nid_text(inv_nid(fun_nid(ar, tb), inv))
}

proof fn lemma_inv_bits(n: u64, t: u64, m: u64)
    by (bit_vector)
    ensures
        n & 0x8000_0000_0000_0000u64 == 0 ==> (n ^ 0x8000_0000_0000_0000u64) & !0x8000_0000_0000_0000u64 == n,
        n & 0x8000_0000_0000_0000u64 == 0 ==> n & !0x8000_0000_0000_0000u64 == n,
        n & 0x8000_0000_0000_0000u64 == 0 ==> (n ^ 0x8000_0000_0000_0000u64) & 0x8000_0000_0000_0000u64 != 0,
        (n ^ 0x8000_0000_0000_0000u64) & 0x2000_0000_0000_0000u64 == n & 0x2000_0000_0000_0000u64,
        (n ^ 0x8000_0000_0000_0000u64) & 0x0800_0000_0000_0000u64 == n & 0x0800_0000_0000_0000u64,
        (t & m) & m == t & m,
        t & m <= m,
{
}

/// Binary digits of a number below `2^w`, exactly `w` of them, read back.
proof fn lemma_bits_text(x: nat, w: nat)
    requires x < pow2(w),
    ensures
        bits_text(x, w).len() == w, all_bin(bits_text(x, w)), bin_val(bits_text(x, w)) == x,
        forall|j: int| 0 <= j < w ==> #[trigger] bits_text(x, w)[j] != '.',
    decreases w,
{
    if w > 0 {
        lemma_bits_text(x / 2, (w - 1) as nat);
        let s = bits_text(x, w);
        let d = if x % 2 == 1 { '1' } else { '0' };
        assert(s == bits_text(x / 2, (w - 1) as nat).push(d));
        assert(s.drop_last() =~= bits_text(x / 2, (w - 1) as nat));
    }
}

/// The text of a table nid over the first variables.
pub proof fn lemma_fun_word(ar: nat, tb: u32, inv: bool)
    requires ar <= 5,
    ensures ({
        let tm = ((tb as u64) & crate::nid::tbl_mask_spec(ar)) as nat;
        &&& fun_word(ar, tb, inv) == bang(inv) + (if ar == 2 { seq!['t'] + bits_text(tm, 4) }
                else { seq!['f'] + hex_text(ar) + seq!['.'] + hex_text(tm) })
        &&& tm <= u32::MAX
        &&& fun_nid(ar, tm as u32) == fun_nid(ar, tb)
    }),
{
    crate::nid::lemma_fun_nid(ar, tb);
    let n = fun_nid(ar, tb).n;
    let m = crate::nid::tbl_mask_spec(ar);
    lemma_inv_bits(n, tb as u64, m);
    let tm = ((tb as u64) & m) as nat;
    assert(m <= 0xFFFF_FFFF);
    assert(((tm as u32) as u64) == tm);
    let x = inv_nid(fun_nid(ar, tb), inv);
    assert(NID { n: x.n & !INV } == fun_nid(ar, tb));
    assert(fun_word(ar, tb, inv) =~= bang(inv) + (if ar == 2 { seq!['t'] + bits_text(tm, 4) }
                else { seq!['f'] + hex_text(ar) + seq!['.'] + hex_text(tm) }));
}

/// The parts of the text of a table nid over the first variables, where
/// `dot` is the first `.` (or the length) and `i` is past a leading `!`.
proof fn lemma_fun_shapes(cs: Seq<char>, i: int, dot: int)
    requires
        0 <= dot <= cs.len(),
        dot < cs.len() ==> cs[dot] == '.',
        forall|j: int| 0 <= j < dot ==> cs[j] != '.',
        i == if dot > 0 && cs[0] == '!' { 1int } else { 0int },
    ensures
        forall|ar: nat, tb: u32, inv: bool| ar <= 5 && cs == #[trigger] fun_word(ar, tb, inv) ==> {
            let tm = ((tb as u64) & crate::nid::tbl_mask_spec(ar)) as nat;
            &&& cs.len() >= 2 && i + 1 < cs.len() && (i == 1) == inv
            &&& tm <= u32::MAX && fun_nid(ar, tm as u32) == fun_nid(ar, tb)
            &&& ar == 2 ==> cs[i] == 't' && dot == cs.len() && dot - (i + 1) == 4
                    && all_bin(cs.subrange(i + 1, dot)) && bin_val(cs.subrange(i + 1, dot)) == tm
            &&& ar != 2 ==> cs[i] == 'f' && i + 1 < dot && dot + 1 < cs.len()
                    && all_hex(cs.subrange(i + 1, dot)) && hex_val(cs.subrange(i + 1, dot)) == ar
                    && all_hex(cs.subrange(dot + 1, cs.len() as int)) && hex_val(cs.subrange(dot + 1, cs.len() as int)) == tm
        },
{
    assert forall|ar: nat, tb: u32, inv: bool| ar <= 5 && cs == #[trigger] fun_word(ar, tb, inv) implies {
        let tm = ((tb as u64) & crate::nid::tbl_mask_spec(ar)) as nat;
        &&& cs.len() >= 2 && i + 1 < cs.len() && (i == 1) == inv
        &&& tm <= u32::MAX && fun_nid(ar, tm as u32) == fun_nid(ar, tb)
        &&& ar == 2 ==> cs[i] == 't' && dot == cs.len() && dot - (i + 1) == 4
                && all_bin(cs.subrange(i + 1, dot)) && bin_val(cs.subrange(i + 1, dot)) == tm
        &&& ar != 2 ==> cs[i] == 'f' && i + 1 < dot && dot + 1 < cs.len()
                && all_hex(cs.subrange(i + 1, dot)) && hex_val(cs.subrange(i + 1, dot)) == ar
                && all_hex(cs.subrange(dot + 1, cs.len() as int)) && hex_val(cs.subrange(dot + 1, cs.len() as int)) == tm
    } by {
        lemma_fun_word(ar, tb, inv);
        let tm = ((tb as u64) & crate::nid::tbl_mask_spec(ar)) as nat;
        let p: int = if inv { 1 } else { 0 };
        if ar == 2 {
            assert(tm < pow2(4)) by {
                reveal_with_fuel(pow2, 5);
                lemma_inv_bits(0, tb as u64, 0xFu64);
            }
            lemma_bits_text(tm, 4);
            let b = bits_text(tm, 4);
            assert(cs[p] == 't');
            assert forall|j: int| p < j < cs.len() implies cs[j] == b[j - p - 1] by {}
            if dot < cs.len() {
                if dot == 0 && inv { assert(cs[0] == '!'); }
                assert(dot != p);
                assert(cs[dot] == b[dot - p - 1]);
            }
            assert(cs.subrange(p + 1, cs.len() as int) =~= b);
        } else {
            lemma_hex_plain(ar);
            lemma_hex_plain(tm);
            let h = hex_text(ar);
            let g = hex_text(tm);
            assert(h.len() == 1) by { reveal_with_fuel(hex_text, 2); }
            assert(cs[p] == 'f');
            assert(cs[p + 1] == h[0]);
            assert(cs[p + 2] == '.');
            if dot < p + 2 {
                if dot == 0 && inv { assert(cs[0] == '!'); }
                assert(dot == p || dot == p + 1);
            }
            assert(dot == p + 2);
            assert(cs.subrange(p + 1, p + 2) =~= h);
            assert(cs.subrange(p + 3, cs.len() as int) =~= g);
        }
    }
}

/// The table nid over the variables `vs` with table `tb` (as
/// `NID::fun_with_vars` builds it).
pub open spec fn named_nid(vs: Seq<u32>, tb: u32) -> NID {
    NID { n: crate::nid::fun_bits(comb::encode_spec(vs) as u64, vs.len(), tb) }
}

/// The text of such a table nid, after `!` when inverted.
pub open spec fn named_word(vs: Seq<u32>, tb: u32, inv: bool) -> Seq<char> {
    nid_text(inv_nid(named_nid(vs, tb), inv))
}

/// The table digits of a named table: binary for up to two inputs, else hex.
pub open spec fn table_digits(tm: nat, ar: nat) -> Seq<char> {
    if ar <= 2 { bits_text(tm, pow2(ar)) } else { hex_text(tm) }
}

/// `cs` is the text of the table nid over `vs` (not the first variables)
/// with table `tb`, inverted when `inv`, and its body starts at `i`.
pub open spec fn named_at(cs: Seq<char>, i: int, inv: bool, vs: Seq<u32>, tb: u32) -> bool {
    &&& valid_vars(vs)
    &&& !canonical_vars(vs)
    &&& cs == named_word(vs, tb, inv)
    &&& i == if inv { 1int } else { 0int }
}

/// The text of a table nid over variables that are not the first ones.
pub proof fn lemma_named_word(vs: Seq<u32>, tb: u32, inv: bool)
    requires valid_vars(vs), !canonical_vars(vs),
    ensures ({
        let tm = ((tb as u64) & crate::nid::tbl_mask_spec(vs.len())) as nat;
        &&& named_word(vs, tb, inv) == bang(inv) + seq!['T', '{'] + var_list_text(vs) + seq![':']
                + table_digits(tm, vs.len()) + seq!['}']
        &&& tm <= crate::nid::tbl_mask_spec(vs.len())
        &&& named_nid(vs, tm as u32) == named_nid(vs, tb)
    }),
{
    crate::nid::lemma_named_nid(vs, tb);
    let n = named_nid(vs, tb).n;
    let m = crate::nid::tbl_mask_spec(vs.len());
    lemma_inv_bits(n, tb as u64, m);
    let tm = ((tb as u64) & m) as nat;
    assert(m <= 0xFFFF_FFFF);
    assert(((tm as u32) as u64) == tm);
    let x = inv_nid(named_nid(vs, tb), inv);
    assert(NID { n: x.n & !INV } == named_nid(vs, tb));
    assert(named_word(vs, tb, inv) =~= bang(inv) + seq!['T', '{'] + var_list_text(vs) + seq![':']
                + table_digits(tm, vs.len()) + seq!['}']);
}

/// The hex text of a number below `16^m` has at most `m` digits.
proof fn lemma_hex_len(x: nat, m: nat)
    requires m >= 1, x < pow16(m),
    ensures hex_text(x).len() <= m,
    decreases m,
{
    if x >= 16 {
        assert(m >= 2) by { if m == 1 { reveal_with_fuel(pow16, 2); } }
        assert(x / 16 < pow16((m - 1) as nat)) by {
            assert(pow16(m) == 16 * pow16((m - 1) as nat));
        }
        lemma_hex_len(x / 16, (m - 1) as nat);
    }
}

pub open spec fn pow16(m: nat) -> nat
    decreases m,
{
    if m == 0 { 1 } else { 16 * pow16((m - 1) as nat) }
}

/// The letters of a variable list: `x`, `,` and hex digits.
proof fn lemma_vlt_chars(vs: Seq<u32>)
    ensures forall|j: int| 0 <= j < var_list_text(vs).len() ==>
        (#[trigger] var_list_text(vs)[j] == 'x' || var_list_text(vs)[j] == ',' || crate::text::is_hex_digit(var_list_text(vs)[j])),
    decreases vs.len(),
{
    let t = var_list_text(vs);
    if vs.len() == 1 {
        lemma_hex_plain(vs[0] as nat);
        let h = hex_text(vs[0] as nat);
        assert forall|j: int| 0 <= j < t.len() implies (#[trigger] t[j] == 'x' || t[j] == ',' || crate::text::is_hex_digit(t[j])) by {
            if j > 0 { assert(t[j] == h[j - 1]); }
        }
    } else if vs.len() > 1 {
        lemma_vlt_chars(vs.drop_last());
        lemma_hex_plain(vs.last() as nat);
        let a = var_list_text(vs.drop_last());
        let h = hex_text(vs.last() as nat);
        assert forall|j: int| 0 <= j < t.len() implies (#[trigger] t[j] == 'x' || t[j] == ',' || crate::text::is_hex_digit(t[j])) by {
            if j < a.len() { assert(t[j] == a[j]); }
            else if j > a.len() + 1 { assert(t[j] == h[j - a.len() - 2]); }
        }
    }
}

/// One more variable of the list adds `,` (but first), `x` and its hex digits.
proof fn lemma_vlt_take(vs: Seq<u32>, m: int)
    requires 0 <= m < vs.len(),
    ensures var_list_text(vs.take(m + 1)) == var_list_text(vs.take(m))
        + (if m == 0 { Seq::<char>::empty() } else { seq![','] }) + seq!['x'] + hex_text(vs[m] as nat),
{
    let s = vs.take(m + 1);
    assert(s.drop_last() =~= vs.take(m));
    assert(s.last() == vs[m]);
    if m == 0 {
        assert(var_list_text(vs.take(0)) =~= Seq::<char>::empty());
        assert(var_list_text(s) =~= seq!['x'] + hex_text(vs[0] as nat));
    }
}

/// The text of the first `m` variables begins the text of the list, and a
/// `,` follows it while variables remain.
proof fn lemma_vlt_prefix(vs: Seq<u32>, m: int)
    requires 0 <= m <= vs.len(),
    ensures
        var_list_text(vs.take(m)).len() <= var_list_text(vs).len(),
        var_list_text(vs).subrange(0, var_list_text(vs.take(m)).len() as int) == var_list_text(vs.take(m)),
        0 < m < vs.len() ==> var_list_text(vs)[var_list_text(vs.take(m)).len() as int] == ',',
    decreases vs.len(),
{
    let t = var_list_text(vs);
    if m == vs.len() {
        assert(vs.take(m) =~= vs);
        assert(t.subrange(0, t.len() as int) =~= t);
    } else if vs.len() == 1 {
        assert(var_list_text(vs.take(0)) =~= Seq::<char>::empty());
        assert(t.subrange(0, 0) =~= Seq::<char>::empty());
    } else {
        let d = vs.drop_last();
        lemma_vlt_prefix(d, m);
        assert(d.take(m) =~= vs.take(m));
        let a = var_list_text(d);
        let lm = var_list_text(vs.take(m));
        assert(t == a + seq![','] + seq!['x'] + hex_text(vs.last() as nat));
        assert(t.subrange(0, lm.len() as int) =~= a.subrange(0, lm.len() as int));
        if 0 < m && m == vs.len() - 1 {
            assert(d.take(m) =~= d);
            assert(t[a.len() as int] == ',');
        } else if 0 < m {
            assert(t[lm.len() as int] == a[lm.len() as int]);
        }
    }
}

/// The parts of the text of a table nid over variables that are not the
/// first ones: `T{`, the variable list up to the colon, the table digits and `}`.
proof fn lemma_named_frame(cs: Seq<char>, i: int, inv: bool, vs: Seq<u32>, tb: u32)
    requires named_at(cs, i, inv, vs, tb),
    ensures ({
        let tm = ((tb as u64) & crate::nid::tbl_mask_spec(vs.len())) as nat;
        let colon = i + 2 + var_list_text(vs).len();
        let d = cs.subrange(colon + 1, cs.len() - 1);
        let n = vs.len();
        &&& 1 <= n <= 5
        &&& cs.len() - i >= 3 && cs[i] == 'T' && cs[i + 1] == '{' && cs[cs.len() - 1] == '}'
        &&& body_start(cs) == i
        &&& i + 2 <= colon < cs.len() - 1 && cs[colon] == ':'
        &&& forall|j: int| i + 2 <= j < colon ==> #[trigger] cs[j] != ':'
        &&& forall|j: int| 0 <= j < cs.len() ==> #[trigger] cs[j] != '.'
        &&& tm <= u32::MAX && named_nid(vs, tm as u32) == named_nid(vs, tb)
        &&& n <= 2 ==> d.len() == pow2(n) && all_bin(d) && bin_val(d) == tm
        &&& n > 2 ==> 1 <= d.len() < pow2(n) && all_hex(d) && hex_val(d) == tm
    }),
{
    lemma_named_word(vs, tb, inv);
    let n = vs.len();
    let tm = ((tb as u64) & crate::nid::tbl_mask_spec(n)) as nat;
    let l = var_list_text(vs);
    let dd = table_digits(tm, n);
    let p: int = if inv { 1 } else { 0 };
    let colon = i + 2 + l.len();
    assert(n >= 1) by { if n == 0 { assert(canonical_vars(vs)); } }
    assert(n <= 5);
    lemma_vlt_chars(vs);
    crate::nidfun::lemma_pow2_small(n);
    reveal_with_fuel(pow2, 6);
    if n <= 2 {
        assert(tm < pow2(pow2(n))) by {
            reveal_with_fuel(pow2, 6);
        }
        lemma_bits_text(tm, pow2(n));
    } else {
        lemma_hex_plain(tm);
        assert(tm < pow16(8)) by { reveal_with_fuel(pow16, 9); }
        if n == 3 {
            assert(tm < pow16(2)) by { reveal_with_fuel(pow16, 3); }
            lemma_hex_len(tm, 2);
        } else if n == 4 {
            assert(tm < pow16(4)) by { reveal_with_fuel(pow16, 5); }
            lemma_hex_len(tm, 4);
        } else {
            lemma_hex_len(tm, 8);
        }
    }
    assert(cs[p] == 'T');
    assert forall|j: int| p + 2 <= j < colon implies #[trigger] cs[j] == l[j - p - 2] by {}
    assert forall|j: int| colon < j < cs.len() - 1 implies #[trigger] cs[j] == dd[j - colon - 1] by {}
    assert(cs.subrange(colon + 1, cs.len() - 1) =~= dd);
    assert forall|j: int| 0 <= j < cs.len() implies #[trigger] cs[j] != '.' by {
        if p + 2 <= j < colon { assert(cs[j] == l[j - p - 2]); }
        if colon < j < cs.len() - 1 { assert(cs[j] == dd[j - colon - 1]); }
    }
}

/// Where variable `k` of the text of a named table sits, and what follows it.
#[verifier::rlimit(60)]
#[verifier::spinoff_prover]
proof fn lemma_named_step(cs: Seq<char>, i: int, inv: bool, vs: Seq<u32>, tb: u32, k: int)
    requires named_at(cs, i, inv, vs, tb), 0 <= k < vs.len(),
    ensures ({
        let b = i + 2;
        let q = b + var_list_text(vs.take(k)).len() + (if k == 0 { 0int } else { 1int });
        let e = b + var_list_text(vs.take(k + 1)).len();
        let colon = b + var_list_text(vs).len();
        &&& cs[q] == 'x'
        &&& q + 1 < e <= colon < cs.len() - 1
        &&& all_hex(cs.subrange(q + 1, e)) && hex_val(cs.subrange(q + 1, e)) == vs[k]
        &&& forall|j: int| q + 1 <= j < e ==> #[trigger] cs[j] != ','
        &&& k + 1 < vs.len() ==> cs[e] == ',' && e + 1 < colon
        &&& k + 1 == vs.len() ==> e == colon
    }),
{
    lemma_named_word(vs, tb, inv);
    lemma_named_frame(cs, i, inv, vs, tb);
    let b = i + 2;
    let l = var_list_text(vs);
    let lk = var_list_text(vs.take(k));
    let lk1 = var_list_text(vs.take(k + 1));
    let h = hex_text(vs[k] as nat);
    lemma_hex_plain(vs[k] as nat);
    lemma_vlt_take(vs, k);
    lemma_vlt_prefix(vs, k + 1);
    let sep: int = if k == 0 { 0 } else { 1 };
    let q = b + lk.len() + sep;
    assert forall|j: int| b <= j < b + l.len() implies #[trigger] cs[j] == l[j - b] by {}
    assert(l[lk.len() as int + sep] == lk1[lk.len() as int + sep]);
    assert(cs[q] == 'x');
    assert forall|j: int| q + 1 <= j < b + lk1.len() implies #[trigger] cs[j] == h[j - q - 1] by {
        assert(l[j - b] == lk1[j - b]);
    }
    assert(cs.subrange(q + 1, b + lk1.len()) =~= h);
    assert forall|j: int| q + 1 <= j < b + lk1.len() implies #[trigger] cs[j] != ',' by {
        assert(crate::text::is_hex_digit(h[j - q - 1]));
    }
    if k + 1 < vs.len() {
        lemma_vlt_take(vs, k + 1);
        lemma_vlt_prefix(vs, k + 2);
        let lk2 = var_list_text(vs.take(k + 2));
        assert(l[lk1.len() as int + 1] == lk2[lk1.len() as int + 1]);
        assert(lk2.len() > lk1.len() + 1);
    } else {
        assert(vs.take(k + 1) =~= vs);
    }
}

/// The text of a table nid over variables that are not the first ones
/// starts (after an optional `!`) with `T` and holds no `.`.
pub proof fn lemma_named_shapes(cs: Seq<char>)
    ensures forall|vs: Seq<u32>, tb: u32, inv: bool| valid_vars(vs) && !canonical_vars(vs) && cs == #[trigger] named_word(vs, tb, inv) ==> {
        &&& cs.len() >= 3
        &&& body_start(cs) == (if inv { 1int } else { 0int })
        &&& cs[body_start(cs)] == 'T'
        &&& forall|j: int| 0 <= j < cs.len() ==> #[trigger] cs[j] != '.'
        &&& named_at(cs, body_start(cs), inv, vs, tb)
    },
{
    assert forall|vs: Seq<u32>, tb: u32, inv: bool| valid_vars(vs) && !canonical_vars(vs) && cs == #[trigger] named_word(vs, tb, inv) implies {
        &&& cs.len() >= 3
        &&& body_start(cs) == (if inv { 1int } else { 0int })
        &&& cs[body_start(cs)] == 'T'
        &&& forall|j: int| 0 <= j < cs.len() ==> #[trigger] cs[j] != '.'
        &&& named_at(cs, body_start(cs), inv, vs, tb)
    } by {
        let i: int = if inv { 1 } else { 0 };
        assert(named_at(cs, i, inv, vs, tb));
        lemma_named_frame(cs, i, inv, vs, tb);
    }
}

/// Reading back the text of a table nid (over any valid variables, inverted
/// or not) gives that nid.
pub proof fn lemma_table_round_trip(vs: Seq<u32>, tb: u32, inv: bool, x: Option<NID>)
    requires valid_vars(vs), reads_as(nid_text(inv_nid(named_nid(vs, tb), inv)), x),
    ensures x == Some(inv_nid(named_nid(vs, tb), inv)),
{
    if canonical_vars(vs) {
        crate::nid::lemma_canonical_vars(vs.len());
        assert(vs =~= Seq::new(vs.len(), |i: int| i as u32));
        assert(named_nid(vs, tb) == fun_nid(vs.len(), tb));
        assert(nid_text(inv_nid(named_nid(vs, tb), inv)) == fun_word(vs.len(), tb, inv));
    } else {
        assert(nid_text(inv_nid(named_nid(vs, tb), inv)) == named_word(vs, tb, inv));
    }
}

/// The text of a table nid over the first variables has at least two letters.
proof fn lemma_fun_words_long()
    ensures forall|ar: nat, tb: u32, inv: bool| ar <= 5 ==> #[trigger] fun_word(ar, tb, inv).len() >= 2,
{
    assert forall|ar: nat, tb: u32, inv: bool| ar <= 5 implies #[trigger] fun_word(ar, tb, inv).len() >= 2 by {
        lemma_fun_word(ar, tb, inv);
        let tm = ((tb as u64) & crate::nid::tbl_mask_spec(ar)) as nat;
        if ar == 2 {
            assert(tm < pow2(4)) by {
                reveal_with_fuel(pow2, 5);
                lemma_inv_bits(0, tb as u64, 0xFu64);
            }
            lemma_bits_text(tm, 4);
        } else {
            lemma_hex_plain(ar);
        }
    }
}

/// Can a nid's text start with `c` (after an optional `!`)?
pub open spec fn nid_lead(c: char) -> bool {
    c == 'x' || c == 'v' || c == '@' || c == 'f' || c == 't' || c == 'T'
}

/// Where the body of a nid word starts: after a leading `!`.
pub open spec fn body_start(w: Seq<char>) -> int {
    if w.len() > 0 && w[0] == '!' { 1 } else { 0 }
}

/// The nid a parse gave, if any.
pub open spec fn ok_nid(r: Result<NID, String>) -> Option<NID> {
    match r {
        Ok(n) => Some(n),
        Err(_) => None,
    }
}

/// `x` is what the word `w` reads as (`None` where it is no nid), as far as
/// the forms below settle it: the constants, variables, index nodes, nodes
/// with a variable and an index, and words whose first letter (after an
/// optional `!`) starts no form at all; and the tables over the first
/// variables, written `tBBBB` or `fA.T`, and over other variables, written
/// `T{xA,xB:table}`.
pub open spec fn reads_as(w: Seq<char>, x: Option<NID>) -> bool {
    &&& w == seq!['O'] ==> x == Some(crate::nid::nid_o())
    &&& w == seq!['I'] ==> x == Some(crate::nid::nid_i())
    &&& forall|v: VID, inv: bool| plain_vid(v) && w == #[trigger] var_word(v, inv)
            ==> x == Some(inv_nid(NID::from_vid_spec(v), inv))
    &&& forall|k: u64, inv: bool| k <= IDX_MASK && w == #[trigger] ixn_word(k, inv)
            ==> x == Some(inv_nid(ixn_nid(k), inv))
    &&& forall|v: VID, k: u64, inv: bool| plain_vid(v) && k <= IDX_MASK && w == #[trigger] vidx_word(v, k, inv)
            ==> x == Some(inv_nid(vidx_nid(v, k), inv))
    &&& forall|ar: nat, tb: u32, inv: bool| ar <= 5 && w == #[trigger] fun_word(ar, tb, inv)
            ==> x == Some(inv_nid(fun_nid(ar, tb), inv))
    &&& forall|vs: Seq<u32>, tb: u32, inv: bool| valid_vars(vs) && !canonical_vars(vs) && w == #[trigger] named_word(vs, tb, inv)
            ==> x == Some(inv_nid(named_nid(vs, tb), inv))
    &&& (w != seq!['O'] && w != seq!['I'] && (body_start(w) >= w.len() || !nid_lead(w[body_start(w)])))
            ==> x is None
}

/// Parse a nid from its text form.
pub fn parse_nid(word: &str) -> (r: Result<NID, String>)
    ensures
        reads_as(word@, ok_nid(r)),
        word@ == seq!['O'] ==> r == Ok::<NID, String>(crate::nid::nid_o()),
        word@ == seq!['I'] ==> r == Ok::<NID, String>(crate::nid::nid_i()),
        word@.len() == 0 ==> r is Err,
        forall|v: VID, inv: bool| plain_vid(v) && word@ == #[trigger] var_word(v, inv)
            ==> r == Ok::<NID, String>(inv_nid(NID::from_vid_spec(v), inv)),
        forall|k: u64, inv: bool| k <= IDX_MASK && word@ == #[trigger] ixn_word(k, inv)
            ==> r == Ok::<NID, String>(inv_nid(ixn_nid(k), inv)),
        forall|v: VID, k: u64, inv: bool| plain_vid(v) && k <= IDX_MASK && word@ == #[trigger] vidx_word(v, k, inv)
            ==> r == Ok::<NID, String>(inv_nid(vidx_nid(v, k), inv)),
{
    let cs = chars_of(word);
    parse_nid_chars(&cs)
}

fn bad(msg: &str, cs: &Vec<char>) -> (r: Result<NID, String>)
    ensures r matches Err(e) && e@ == msg@ + cs@,
{
    Err(err_msg(msg, cs))
}

/// Parse a nid from its characters.
pub fn parse_nid_chars(cs: &Vec<char>) -> (r: Result<NID, String>)
    ensures
        reads_as(cs@, ok_nid(r)),
{
    let r = parse_nid_forms(cs);
    proof {
        let w = cs@;
        if w != seq!['O'] && w != seq!['I'] && (body_start(w) >= w.len() || !nid_lead(w[body_start(w)])) {
            assert(r is Err);
        }
    }
    r
}

/// Parse a nid from its characters, form by form.
fn parse_nid_forms(cs: &Vec<char>) -> (r: Result<NID, String>)
    ensures
        (cs@ != seq!['O'] && cs@ != seq!['I'] && (body_start(cs@) >= cs@.len() || !nid_lead(cs@[body_start(cs@)])))
            ==> r is Err,
        cs@ == seq!['O'] ==> r == Ok::<NID, String>(crate::nid::nid_o()),
        cs@ == seq!['I'] ==> r == Ok::<NID, String>(crate::nid::nid_i()),
        cs@.len() == 0 ==> r is Err,
        forall|v: VID, inv: bool| plain_vid(v) && cs@ == #[trigger] var_word(v, inv)
            ==> r == Ok::<NID, String>(inv_nid(NID::from_vid_spec(v), inv)),
        forall|k: u64, inv: bool| k <= IDX_MASK && cs@ == #[trigger] ixn_word(k, inv)
            ==> r == Ok::<NID, String>(inv_nid(ixn_nid(k), inv)),
        forall|v: VID, k: u64, inv: bool| plain_vid(v) && k <= IDX_MASK && cs@ == #[trigger] vidx_word(v, k, inv)
            ==> r == Ok::<NID, String>(inv_nid(vidx_nid(v, k), inv)),
        forall|ar: nat, tb: u32, inv: bool| ar <= 5 && cs@ == #[trigger] fun_word(ar, tb, inv)
            ==> r == Ok::<NID, String>(inv_nid(fun_nid(ar, tb), inv)),
        forall|vs: Seq<u32>, tb: u32, inv: bool| valid_vars(vs) && !canonical_vars(vs) && cs@ == #[trigger] named_word(vs, tb, inv)
            ==> r == Ok::<NID, String>(inv_nid(named_nid(vs, tb), inv)),
{
    proof { lemma_word_lens(); lemma_fun_words_long(); lemma_named_shapes(cs@); }
    let len = cs.len();
    if len == 1 && cs[0] == 'O' {
        proof { assert(cs@ =~= seq!['O']); }
        return Ok(NID::o());
    }
    if len == 1 && cs[0] == 'I' {
        proof { assert(cs@ =~= seq!['I']); }
        return Ok(NID::i());
    }
    let dot = find_char(cs, 0, '.');
    let mut i: usize = 0;
    let mut inv = false;
    if dot > 0 && cs[0] == '!' { inv = true; i = 1; }
    proof { lemma_word_shapes(cs@, i as int, dot as int); lemma_fun_shapes(cs@, i as int, dot as int); }
    if i >= dot {
        proof { reveal_strlit("empty nid: "); }
        return bad("empty nid: ", cs);
    }
    let c = cs[i];
    proof { assert(body_start(cs@) == i); }
    if c == 'x' || c == 'v' {
        if i + 1 == dot { return bad("malformed variable: ", cs); }
        match parse_hex(cs, i + 1, dot) {
            None => { return bad("bad variable: ", cs); },
            Some(n) => {
                if n > 0xFFFF_FFFF { return bad("variable too large: ", cs); }
                let v = if c == 'x' { VID::var(n as u32) } else { VID::vir(n as u32) };
                if dot == len {
                    return Ok(NID::from_vid(v).inv_if(inv));
                }
                match parse_hex(cs, dot + 1, len) {
                    None => { return bad("bad index after '.': ", cs); },
                    Some(ix) => {
                        let b = vid_bits_of(v);
                        if ix > 0xFFFF_FFFF || b > 0x3FFF_FFFF {
                            return bad("index too large: ", cs);
                        }
                        proof { lemma_shift_room(b, ix); }
                        return Ok(NID::from_vid_idx(v, ix as usize).inv_if(inv));
                    },
                }
            },
        }
    } else if c == '@' {
        match parse_hex(cs, i + 1, dot) {
            None => { return bad("bad ixn: ", cs); },
            Some(n) => {
                if n > 0xFFFF_FFFF { return bad("ixn too large: ", cs); }
                if dot != len { return bad("bad ixn: ", cs); }
                return Ok(NID::ixn(n as usize).inv_if(inv));
            },
        }
    } else if c == 'f' {
        if dot < len {
            match parse_hex(cs, i + 1, dot) {
                None => { return bad("bad fun code: ", cs); },
                Some(ar) => {
                    if ar > 5 { return bad("bad fun arity: ", cs); }
                    match parse_hex(cs, dot + 1, len) {
                        None => { return bad("bad fun table: ", cs); },
                        Some(tb) => {
                            return Ok(NID::fun(ar as u8, tb as u32).to_nid().inv_if(inv));
                        },
                    }
                },
            }
        } else {
            if i + 2 == len {
                match parse_hex(cs, i + 1, len) {
                    None => { return bad("bad fun: ", cs); },
                    Some(n) => { return Ok(NID::fun(2, n as u32).to_nid().inv_if(inv)); },
                }
            }
            return bad("bad fun: ", cs);
        }
    } else if c == 't' {
        let nbits = dot - (i + 1);
        let ar: u8 = if nbits == 2 { 1 } else if nbits == 4 { 2 } else if nbits == 8 { 3 }
            else if nbits == 16 { 4 } else if nbits == 32 { 5 } else { 0 };
        if ar == 0 {
            return bad("bad length for table (expect 2,4,8,16,32 bits): ", cs);
        }
        match parse_bin(cs, i + 1, dot) {
            None => { return bad("bad table (non-binary digit): ", cs); },
            Some(tb) => { return Ok(NID::fun(ar, tb).to_nid().inv_if(inv)); },
        }
    } else if c == 'T' {
        return parse_named_table(cs, i, inv);
    }
    bad("not a nid: ", cs)
}

fn vid_bits_of(v: VID) -> (r: u64)
    ensures r == crate::nid::vid_to_bits_spec(v),
{
    match v.v {
        VidEnum::NoV => NOVAR,
        VidEnum::T => crate::nid::TOP,
        VidEnum::Var(x) => (x as u64) | crate::nid::RVAR_BITS,
        VidEnum::Vir(x) => x as u64,
    }
}

proof fn lemma_shift_room(b: u64, ix: u64)
    requires b <= 0x3FFF_FFFF, ix <= 0xFFFF_FFFF,
    ensures ((b << 32) as int) + ix <= u64::MAX,
{
    crate::bits::lemma_word(b, 0);
}

/// Parse `T{xA,xB,...:table}` starting at `cs[i] == 'T'`.
#[verifier::rlimit(100)]
#[verifier::spinoff_prover]
fn parse_named_table(cs: &Vec<char>, i: usize, inv: bool) -> (r: Result<NID, String>)
    requires i < cs@.len(),
    ensures
        cs@.len() - i < 3 || cs@[i + 1] != '{' || cs@[cs@.len() - 1] != '}'
            ==> (r matches Err(e) && e@ == "bad named table: "@ + cs@),
        (forall|j: int| i + 2 <= j < cs@.len() - 1 ==> cs@[j] != ':') ==> r is Err,
        r matches Ok(n) ==> exists|vars: Seq<u32>, tbl: u32| valid_vars(vars) && vars.len() <= 5
            && n == inv_nid(NID { n: #[trigger] crate::nid::fun_bits(comb::encode_spec(vars) as u64, vars.len(), tbl) }, inv),
        forall|vs: Seq<u32>, tb: u32| #[trigger] named_at(cs@, i as int, inv, vs, tb)
            ==> r == Ok::<NID, String>(inv_nid(named_nid(vs, tb), inv)),
{
    proof { reveal_strlit("bad named table: "); }
    let len = cs.len();
    if len - i < 3 || cs[i + 1] != '{' || cs[len - 1] != '}' {
        proof {
            assert forall|vs: Seq<u32>, tb: u32| #[trigger] named_at(cs@, i as int, inv, vs, tb) implies false by {
                lemma_named_frame(cs@, i as int, inv, vs, tb);
            }
        }
        return bad("bad named table: ", cs);
    }
    let colon = find_char(cs, i + 2, ':');
    proof {
        assert forall|vs: Seq<u32>, tb: u32| #[trigger] named_at(cs@, i as int, inv, vs, tb)
            implies colon == i + 2 + var_list_text(vs).len() by {
            lemma_named_frame(cs@, i as int, inv, vs, tb);
        }
    }
    if colon >= len - 1 {
        proof {
            assert forall|vs: Seq<u32>, tb: u32| #[trigger] named_at(cs@, i as int, inv, vs, tb) implies false by {
                lemma_named_frame(cs@, i as int, inv, vs, tb);
            }
        }
        return bad("bad named table: ", cs);
    }
    let mut vars: Vec<u32> = Vec::new();
    let mut p = i + 2;
    while p < colon
        invariant
            i + 2 <= p <= colon < len, len == cs@.len(), i < len,
            len - i >= 3, cs@[i + 1] == '{', cs@[len - 1] == '}',
            vars@.len() <= 5,
            comb::valid_vars(vars@),
            forall|vs: Seq<u32>, tb: u32| #[trigger] named_at(cs@, i as int, inv, vs, tb) ==> {
                &&& vars@.len() <= vs.len()
                &&& vars@ == vs.take(vars@.len() as int)
                &&& colon == i + 2 + var_list_text(vs).len()
                &&& vars@.len() < vs.len() ==> p == i + 2 + var_list_text(vs.take(vars@.len() as int)).len()
                        + (if vars@.len() == 0 { 0int } else { 1int })
                &&& vars@.len() == vs.len() ==> p == colon
            },
        decreases colon - p,
    {
        let ghost k = vars@.len() as int;
        proof {
            assert forall|vs: Seq<u32>, tb: u32| #[trigger] named_at(cs@, i as int, inv, vs, tb) implies k < vs.len() by {}
        }
        if cs[p] != 'x' {
            proof {
                assert forall|vs: Seq<u32>, tb: u32| #[trigger] named_at(cs@, i as int, inv, vs, tb) implies false by {
                    lemma_named_step(cs@, i as int, inv, vs, tb, k);
                }
            }
            return bad("bad variable in named table: ", cs);
        }
        let end = find_char(cs, p + 1, ',');
        let stop = if end < colon { end } else { colon };
        proof {
            assert forall|vs: Seq<u32>, tb: u32| #[trigger] named_at(cs@, i as int, inv, vs, tb)
                implies stop == i + 2 + var_list_text(vs.take(k + 1)).len() by {
                lemma_named_step(cs@, i as int, inv, vs, tb, k);
                let e = i + 2 + var_list_text(vs.take(k + 1)).len();
                if end < e { assert(cs@[end as int] != ','); }
                if k + 1 < vs.len() && end > e { assert(cs@[e] == ','); }
            }
        }
        match parse_hex(cs, p + 1, stop) {
            None => {
                proof {
                    assert forall|vs: Seq<u32>, tb: u32| #[trigger] named_at(cs@, i as int, inv, vs, tb) implies false by {
                        lemma_named_step(cs@, i as int, inv, vs, tb, k);
                    }
                }
                return bad("bad variable in named table: ", cs);
            },
            Some(x) => {
                proof {
                    assert forall|vs: Seq<u32>, tb: u32| #[trigger] named_at(cs@, i as int, inv, vs, tb) implies x == vs[k] by {
                        lemma_named_step(cs@, i as int, inv, vs, tb, k);
                    }
                }
                if x >= 110 || vars.len() >= 5 {
                    proof {
                        assert forall|vs: Seq<u32>, tb: u32| #[trigger] named_at(cs@, i as int, inv, vs, tb) implies false by {
                            assert(vs.len() <= 5 && (vs[k] as int) < comb::MAX_VAR);
                        }
                    }
                    return bad("bad variable in named table: ", cs);
                }
                if vars.len() > 0 && vars[vars.len() - 1] >= x as u32 {
                    proof {
                        assert forall|vs: Seq<u32>, tb: u32| #[trigger] named_at(cs@, i as int, inv, vs, tb) implies false by {
                            assert(vars@[k - 1] == vs[k - 1]);
                            assert(vs[k - 1] < vs[k]);
                        }
                    }
                    return bad("variables must ascend in named table: ", cs);
                }
                let ghost old_vars = vars@;
                vars.push(x as u32);
                proof {
                    assert forall|a: int, b: int| 0 <= a < b < vars@.len() implies vars@[a] < vars@[b] by {
                        if b == vars@.len() - 1 && a < b {
                            assert(old_vars[a] <= old_vars[old_vars.len() - 1]);
                        }
                    }
                    assert forall|vs: Seq<u32>, tb: u32| #[trigger] named_at(cs@, i as int, inv, vs, tb)
                        implies vars@ == vs.take(k + 1) by {
                        assert(vars@ =~= vs.take(k + 1));
                    }
                }
            },
        }
        p = if stop == colon { colon } else { stop + 1 };
        if p == colon && stop != colon {
            proof {
                assert forall|vs: Seq<u32>, tb: u32| #[trigger] named_at(cs@, i as int, inv, vs, tb) implies false by {
                    lemma_named_step(cs@, i as int, inv, vs, tb, k);
                }
            }
            return bad("bad variable in named table: ", cs);
        }
        proof {
            assert forall|vs: Seq<u32>, tb: u32| #[trigger] named_at(cs@, i as int, inv, vs, tb) implies {
                &&& vars@.len() <= vs.len()
                &&& vars@ == vs.take(vars@.len() as int)
                &&& colon == i + 2 + var_list_text(vs).len()
                &&& vars@.len() < vs.len() ==> p == i + 2 + var_list_text(vs.take(vars@.len() as int)).len()
                        + (if vars@.len() == 0 { 0int } else { 1int })
                &&& vars@.len() == vs.len() ==> p == colon
            } by {
                lemma_named_step(cs@, i as int, inv, vs, tb, k);
            }
        }
    }
    let k = vars.len();
    let width: usize = if k == 0 { 1 } else if k == 1 { 2 } else if k == 2 { 4 } else if k == 3 { 8 } else if k == 4 { 16 } else { 32 };
    let digits = len - 1 - (colon + 1);
    let mut tb: u32 = 0;
    let mut ok = false;
    if digits == width {
        match parse_bin(cs, colon + 1, len - 1) {
            Some(v) => { tb = v; ok = true; },
            None => {},
        }
    }
    if !ok {
        match parse_hex(cs, colon + 1, len - 1) {
            Some(v) => { tb = v as u32; ok = true; },
            None => {},
        }
    }
    proof {
        assert forall|vs: Seq<u32>, tb0: u32| #[trigger] named_at(cs@, i as int, inv, vs, tb0)
            implies ok && tb as nat == ((tb0 as u64) & crate::nid::tbl_mask_spec(vs.len())) as nat && vars@ == vs by {
            lemma_named_frame(cs@, i as int, inv, vs, tb0);
            if vars@.len() < vs.len() {
                lemma_named_step(cs@, i as int, inv, vs, tb0, vars@.len() as int);
            }
            assert(vars@.len() == vs.len());
            assert(vs.take(vs.len() as int) =~= vs);
            crate::nidfun::lemma_pow2_small(vs.len());
            reveal_with_fuel(pow2, 6);
        }
    }
    if !ok { return bad("bad table in named table: ", cs); }
    let r = NID::fun_with_vars(vars.as_slice(), tb).to_nid().inv_if(inv);
    proof {
        assert(vars@.len() <= 5 && valid_vars(vars@));
        assert(r == inv_nid(NID { n: crate::nid::fun_bits(comb::encode_spec(vars@) as u64, vars@.len(), tb) }, inv));
        assert forall|vs: Seq<u32>, tb0: u32| #[trigger] named_at(cs@, i as int, inv, vs, tb0)
            implies r == inv_nid(named_nid(vs, tb0), inv) by {
            lemma_named_frame(cs@, i as int, inv, vs, tb0);
            let tm = ((tb0 as u64) & crate::nid::tbl_mask_spec(vs.len())) as nat;
            assert(tb == tm as u32);
        }
    }
    Ok(r)
}


// ---- reading back what was printed ----

/// The constant nid for `c`.
pub open spec fn bool_nid(c: bool) -> NID {
    if c { crate::nid::nid_i() } else { crate::nid::nid_o() }
}

/// `x`, inverted when `inv` holds.
pub open spec fn inv_nid(x: NID, inv: bool) -> NID {
    if inv { NID { n: x.n ^ INV } } else { x }
}

/// A variable that is written `xN` or `vN` and fits in a nid.
pub open spec fn plain_vid(v: VID) -> bool {
    (v.v is Var || v.v is Vir) && crate::nid::vid_representable(v)
}

/// The number of a variable.
pub open spec fn vid_num(v: VID) -> nat {
    match v.v {
        VidEnum::Var(x) => x as nat,
        VidEnum::Vir(x) => x as nat,
        _ => 0,
    }
}

/// The letter a variable is written with.
pub open spec fn vid_char(v: VID) -> char {
    if v.v is Var { 'x' } else { 'v' }
}

/// Node `i` with no variable.
pub open spec fn ixn_nid(i: u64) -> NID {
    NID { n: ((NOVAR << 32) + i) as u64 }
}

/// Node `i` tagged with variable `v`.
pub open spec fn vidx_nid(v: VID, i: u64) -> NID {
    NID { n: ((crate::nid::vid_to_bits_spec(v) << 32) + i) as u64 }
}

/// The text of a variable's nid, of node `i`, and of node `i` of variable `v`.
pub open spec fn var_word(v: VID, inv: bool) -> Seq<char> { nid_text(inv_nid(NID::from_vid_spec(v), inv)) }
pub open spec fn ixn_word(i: u64, inv: bool) -> Seq<char> { nid_text(inv_nid(ixn_nid(i), inv)) }
pub open spec fn vidx_word(v: VID, i: u64, inv: bool) -> Seq<char> { nid_text(inv_nid(vidx_nid(v, i), inv)) }

/// The flags, variable field and index of the nids built from a plain variable field `b`.
pub proof fn lemma_word_bits(b: u64, i: u64)
    by (bit_vector)
    requires
        b < 0x4000_0000u64, b & 0x0800_0000u64 == 0, b & 0x2000_0000u64 == 0,
        i <= 0xFFFF_FFFFu64,
    ensures
        ((b << 32u64) | 0x4000_0000_0000_0000u64) & 0x2000_0000_0000_0000u64 == 0,
        ((b << 32u64) | 0x4000_0000_0000_0000u64) & 0x0800_0000_0000_0000u64 != 0x0800_0000_0000_0000u64,
        ((b << 32u64) | 0x4000_0000_0000_0000u64) & 0x4000_0000_0000_0000u64 != 0,
        ((b << 32u64) | 0x4000_0000_0000_0000u64) & 0x8000_0000_0000_0000u64 == 0,
        (((b << 32u64) | 0x4000_0000_0000_0000u64) & !(0x8000_0000_0000_0000u64 | 0x4000_0000_0000_0000u64)) >> 32u64 == b,
        (((b << 32u64) | 0x4000_0000_0000_0000u64) ^ 0x8000_0000_0000_0000u64) & 0x2000_0000_0000_0000u64 == 0,
        (((b << 32u64) | 0x4000_0000_0000_0000u64) ^ 0x8000_0000_0000_0000u64) & 0x0800_0000_0000_0000u64 != 0x0800_0000_0000_0000u64,
        (((b << 32u64) | 0x4000_0000_0000_0000u64) ^ 0x8000_0000_0000_0000u64) & 0x4000_0000_0000_0000u64 != 0,
        (((b << 32u64) | 0x4000_0000_0000_0000u64) ^ 0x8000_0000_0000_0000u64) & 0x8000_0000_0000_0000u64 != 0,
        ((((b << 32u64) | 0x4000_0000_0000_0000u64) ^ 0x8000_0000_0000_0000u64) & !(0x8000_0000_0000_0000u64 | 0x4000_0000_0000_0000u64)) >> 32u64 == b,
        (((b << 32u64) + i) as u64) & 0x2000_0000_0000_0000u64 == 0,
        (((b << 32u64) + i) as u64) & 0x0800_0000_0000_0000u64 != 0x0800_0000_0000_0000u64,
        (((b << 32u64) + i) as u64) & 0x4000_0000_0000_0000u64 == 0,
        (((b << 32u64) + i) as u64) & 0x8000_0000_0000_0000u64 == 0,
        (((b << 32u64) + i) as u64) & 0xFFFF_FFFFu64 == i,
        ((((b << 32u64) + i) as u64) & !(0x8000_0000_0000_0000u64 | 0x4000_0000_0000_0000u64)) >> 32u64 == b,
        (((b << 32u64) + i) as u64) & (0x0800_0000_0000_0000u64 | 0x2000_0000_0000_0000u64 | 0x4000_0000_0000_0000u64) == 0,
        ((((b << 32u64) + i) as u64) ^ 0x8000_0000_0000_0000u64) & 0x2000_0000_0000_0000u64 == 0,
        ((((b << 32u64) + i) as u64) ^ 0x8000_0000_0000_0000u64) & 0x0800_0000_0000_0000u64 != 0x0800_0000_0000_0000u64,
        ((((b << 32u64) + i) as u64) ^ 0x8000_0000_0000_0000u64) & 0x4000_0000_0000_0000u64 == 0,
        ((((b << 32u64) + i) as u64) ^ 0x8000_0000_0000_0000u64) & 0x8000_0000_0000_0000u64 != 0,
        ((((b << 32u64) + i) as u64) ^ 0x8000_0000_0000_0000u64) & 0xFFFF_FFFFu64 == i,
        (((((b << 32u64) + i) as u64) ^ 0x8000_0000_0000_0000u64) & !(0x8000_0000_0000_0000u64 | 0x4000_0000_0000_0000u64)) >> 32u64 == b,
        ((((b << 32u64) + i) as u64) ^ 0x8000_0000_0000_0000u64) & (0x0800_0000_0000_0000u64 | 0x2000_0000_0000_0000u64 | 0x4000_0000_0000_0000u64) == 0,
        (b << 32u64) + i <= 0xFFFF_FFFF_FFFF_FFFFu64,
{
}

/// The bits of the variable field of a plain variable.
pub proof fn lemma_plain_bits(v: VID)
    requires plain_vid(v),
    ensures
        crate::nid::vid_to_bits_spec(v) < 0x4000_0000,
        crate::nid::vid_to_bits_spec(v) & 0x0800_0000 == 0,
        crate::nid::vid_to_bits_spec(v) & 0x2000_0000 == 0,
        crate::nid::vid_to_bits_spec(v) != NOVAR,
        crate::nid::vid_to_bits_spec(v) != crate::nid::TOP,
        crate::nid::bits_to_vid_spec(crate::nid::vid_to_bits_spec(v)) == v,
        vid_text(v) == seq![vid_char(v)] + hex_text(vid_num(v)),
        vid_num(v) < 0x0800_0000,
{
    crate::nid::lemma_vid_bits_roundtrip(v);
    crate::bits::lemma_constants();
    match v.v {
        VidEnum::Var(x) => { crate::bits::lemma_field(x as u64); },
        VidEnum::Vir(x) => { crate::bits::lemma_field(x as u64); },
        _ => {},
    }
}

pub open spec fn bang(inv: bool) -> Seq<char> {
    if inv { seq!['!'] } else { Seq::empty() }
}

/// The text of a variable's nid is its name, after `!` when inverted.
pub proof fn lemma_var_word(v: VID, inv: bool)
    requires plain_vid(v),
    ensures var_word(v, inv) == bang(inv) + seq![vid_char(v)] + hex_text(vid_num(v)),
{
    lemma_plain_bits(v);
    let b = crate::nid::vid_to_bits_spec(v);
    lemma_word_bits(b, 0);
    let x = inv_nid(NID::from_vid_spec(v), inv);
    assert(x.vid_spec() == v);
    assert(var_word(v, inv) =~= bang(inv) + seq![vid_char(v)] + hex_text(vid_num(v)));
}

/// The text of node `i` is `@` and its index in hex, after `!` when inverted.
pub proof fn lemma_ixn_word(i: u64, inv: bool)
    requires i <= IDX_MASK,
    ensures ixn_word(i, inv) == bang(inv) + seq!['@'] + hex_text(i as nat),
{
    crate::bits::lemma_constants();
    lemma_word_bits(NOVAR, i);
    assert(ixn_word(i, inv) =~= bang(inv) + seq!['@'] + hex_text(i as nat));
}

/// The text of node `i` of variable `v` is the variable's name, `.`, and
/// the index in hex, after `!` when inverted.
pub proof fn lemma_vidx_word(v: VID, i: u64, inv: bool)
    requires plain_vid(v), i <= IDX_MASK,
    ensures vidx_word(v, i, inv) == bang(inv) + seq![vid_char(v)] + hex_text(vid_num(v)) + seq!['.'] + hex_text(i as nat),
{
    lemma_plain_bits(v);
    let b = crate::nid::vid_to_bits_spec(v);
    lemma_word_bits(b, i);
    let x = inv_nid(vidx_nid(v, i), inv);
    assert(x.vid_spec() == v);
    assert(vidx_word(v, i, inv) =~= bang(inv) + seq![vid_char(v)] + hex_text(vid_num(v)) + seq!['.'] + hex_text(i as nat));
}

/// Hex text holds no `.`, `:`, `!` or `}`.
proof fn lemma_hex_plain(x: nat)
    ensures
        all_hex(hex_text(x)), hex_val(hex_text(x)) == x, hex_text(x).len() >= 1,
        forall|j: int| 0 <= j < hex_text(x).len() ==> #[trigger] hex_text(x)[j] != '.'
            && hex_text(x)[j] != ':' && hex_text(x)[j] != '!' && hex_text(x)[j] != '}',
{
    crate::text::lemma_hex_roundtrip(x);
    assert forall|j: int| 0 <= j < hex_text(x).len() implies #[trigger] hex_text(x)[j] != '.'
        && hex_text(x)[j] != ':' && hex_text(x)[j] != '!' && hex_text(x)[j] != '}' by {
        assert(crate::text::is_hex_digit(hex_text(x)[j]));
    }
}

/// The text of a nid of each form has at least two characters.
pub proof fn lemma_word_lens()
    ensures
        forall|v: VID, inv: bool| plain_vid(v) ==> (#[trigger] var_word(v, inv)).len() >= 2,
        forall|k: u64, inv: bool| k <= IDX_MASK ==> (#[trigger] ixn_word(k, inv)).len() >= 2,
        forall|v: VID, k: u64, inv: bool| plain_vid(v) && k <= IDX_MASK ==> (#[trigger] vidx_word(v, k, inv)).len() >= 2,
{
    assert forall|v: VID, inv: bool| plain_vid(v) implies (#[trigger] var_word(v, inv)).len() >= 2 by {
        lemma_var_word(v, inv);
        lemma_hex_plain(vid_num(v));
    }
    assert forall|k: u64, inv: bool| k <= IDX_MASK implies (#[trigger] ixn_word(k, inv)).len() >= 2 by {
        lemma_ixn_word(k, inv);
        lemma_hex_plain(k as nat);
    }
    assert forall|v: VID, k: u64, inv: bool| plain_vid(v) && k <= IDX_MASK implies (#[trigger] vidx_word(v, k, inv)).len() >= 2 by {
        lemma_vidx_word(v, k, inv);
        lemma_hex_plain(vid_num(v));
    }
}

/// What the first steps of the parser find in the text of a nid of each form.
proof fn lemma_word_shapes(cs: Seq<char>, i: int, dot: int)
    requires
        0 <= dot <= cs.len(),
        dot < cs.len() ==> cs[dot] == '.',
        forall|j: int| 0 <= j < dot ==> cs[j] != '.',
        i == if dot > 0 && cs[0] == '!' { 1int } else { 0int },
    ensures
        forall|v: VID, inv: bool| plain_vid(v) && cs == #[trigger] var_word(v, inv) ==> {
            &&& cs.len() >= 2 && i + 1 < cs.len() && (i == 1) == inv
            &&& cs[i] == vid_char(v) && dot == cs.len()
            &&& all_hex(cs.subrange(i + 1, dot)) && hex_val(cs.subrange(i + 1, dot)) == vid_num(v)
            &&& vid_num(v) < 0x0800_0000
        },
        forall|k: u64, inv: bool| k <= IDX_MASK && cs == #[trigger] ixn_word(k, inv) ==> {
            &&& cs.len() >= 2 && i + 1 < cs.len() && (i == 1) == inv
            &&& cs[i] == '@' && dot == cs.len()
            &&& all_hex(cs.subrange(i + 1, dot)) && hex_val(cs.subrange(i + 1, dot)) == k
        },
        forall|v: VID, k: u64, inv: bool| plain_vid(v) && k <= IDX_MASK && cs == #[trigger] vidx_word(v, k, inv) ==> {
            &&& cs.len() >= 2 && i + 1 < dot && dot + 1 < cs.len() && (i == 1) == inv
            &&& cs[i] == vid_char(v)
            &&& all_hex(cs.subrange(i + 1, dot)) && hex_val(cs.subrange(i + 1, dot)) == vid_num(v)
            &&& all_hex(cs.subrange(dot + 1, cs.len() as int)) && hex_val(cs.subrange(dot + 1, cs.len() as int)) == k
            &&& vid_num(v) < 0x0800_0000
            &&& crate::nid::vid_to_bits_spec(v) < 0x4000_0000
        },
{
    assert forall|v: VID, inv: bool| plain_vid(v) && cs == #[trigger] var_word(v, inv) implies {
        &&& cs.len() >= 2 && i + 1 < cs.len() && (i == 1) == inv
        &&& cs[i] == vid_char(v) && dot == cs.len()
        &&& all_hex(cs.subrange(i + 1, dot)) && hex_val(cs.subrange(i + 1, dot)) == vid_num(v)
        &&& vid_num(v) < 0x0800_0000
    } by {
        lemma_var_word(v, inv);
        lemma_plain_bits(v);
        let h = hex_text(vid_num(v));
        lemma_hex_plain(vid_num(v));
        let p: int = if inv { 1 } else { 0 };
        assert(cs[p] == vid_char(v));
        assert forall|j: int| p < j < cs.len() implies cs[j] == h[j - p - 1] by {}
        if dot < cs.len() {
            if dot == 0 && inv { assert(cs[0] == '!'); }
            assert(dot != p);
            assert(cs[dot] == h[dot - p - 1]);
        }
        assert(cs.subrange(p + 1, cs.len() as int) =~= h);
    }
    assert forall|k: u64, inv: bool| k <= IDX_MASK && cs == #[trigger] ixn_word(k, inv) implies {
        &&& cs.len() >= 2 && i + 1 < cs.len() && (i == 1) == inv
        &&& cs[i] == '@' && dot == cs.len()
        &&& all_hex(cs.subrange(i + 1, dot)) && hex_val(cs.subrange(i + 1, dot)) == k
    } by {
        lemma_ixn_word(k, inv);
        let h = hex_text(k as nat);
        lemma_hex_plain(k as nat);
        let p: int = if inv { 1 } else { 0 };
        assert(cs[p] == '@');
        assert forall|j: int| p < j < cs.len() implies cs[j] == h[j - p - 1] by {}
        if dot < cs.len() {
            assert(dot != p);
            assert(cs[dot] == h[dot - p - 1]);
        }
        assert(cs.subrange(p + 1, cs.len() as int) =~= h);
    }
    assert forall|v: VID, k: u64, inv: bool| plain_vid(v) && k <= IDX_MASK && cs == #[trigger] vidx_word(v, k, inv) implies {
        &&& cs.len() >= 2 && i + 1 < dot && dot + 1 < cs.len() && (i == 1) == inv
        &&& cs[i] == vid_char(v)
        &&& all_hex(cs.subrange(i + 1, dot)) && hex_val(cs.subrange(i + 1, dot)) == vid_num(v)
        &&& all_hex(cs.subrange(dot + 1, cs.len() as int)) && hex_val(cs.subrange(dot + 1, cs.len() as int)) == k
        &&& vid_num(v) < 0x0800_0000
        &&& crate::nid::vid_to_bits_spec(v) < 0x4000_0000
    } by {
        lemma_vidx_word(v, k, inv);
        lemma_plain_bits(v);
        let h = hex_text(vid_num(v));
        let g = hex_text(k as nat);
        lemma_hex_plain(vid_num(v));
        lemma_hex_plain(k as nat);
        let p: int = if inv { 1 } else { 0 };
        let d = p + 1 + h.len();
        assert(cs[p] == vid_char(v));
        assert(cs[d] == '.');
        assert forall|j: int| p < j < d implies cs[j] == h[j - p - 1] by {}
        assert forall|j: int| d < j < cs.len() implies cs[j] == g[j - d - 1] by {}
        if dot < d {
            assert(dot != p);
            assert(cs[dot] == h[dot - p - 1]);
        }
        assert(dot == d);
        assert(cs.subrange(p + 1, d) =~= h);
        assert(cs.subrange(d + 1, cs.len() as int) =~= g);
    }
}

} // verus!
