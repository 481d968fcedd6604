//! Small helpers for building text.
use vstd::prelude::*;

verus! {

/// Appends one character to a string.
#[verifier::external_body]
pub fn push_char(s: &mut String, c: char)
    ensures
        final(s)@ == old(s)@.push(c),
{
    s.push(c);
}

/// Upper-case hex digit for a value below 16.
pub open spec fn hex_digit(d: nat) -> char {
    if d < 10 { ((d + 48) as u8) as char } else { ((d + 55) as u8) as char }
}

/// Upper-case hexadecimal text of a number, without leading zeros.
pub open spec fn hex_text(x: nat) -> Seq<char>
    decreases x,
{
    if x < 16 { seq![hex_digit(x)] } else { hex_text(x / 16).push(hex_digit(x % 16)) }
}

pub fn hex_digit_char(d: u64) -> (c: char)
    requires d < 16,
    ensures c == hex_digit(d as nat),
{
    if d < 10 { ((d + 48) as u8) as char } else { ((d + 55) as u8) as char }
}

/// Appends the upper-case hexadecimal text of `x`.
pub fn push_hex(s: &mut String, x: u64)
    ensures
        final(s)@ == old(s)@ + hex_text(x as nat),
    decreases x,
{
    if x < 16 {
        push_char(s, hex_digit_char(x));
        assert(old(s)@.push(hex_digit(x as nat)) =~= old(s)@ + hex_text(x as nat));
    } else {
        push_hex(s, x / 16);
        push_char(s, hex_digit_char(x % 16));
        assert(old(s)@ + hex_text(x as nat) =~= old(s)@ + hex_text((x / 16) as nat) + seq![hex_digit((x % 16) as nat)]);
    }
}


/// The characters of a string.
pub fn chars_of(s: &str) -> (r: Vec<char>)
    ensures r@ == s@,
{
    broadcast use vstd::string::group_string_axioms;
    let mut v: Vec<char> = Vec::new();
    for c in it: s.chars()
        invariant
            v@ == it.seq().take(it.index() as int),
            it.seq() == s@,
    {
        v.push(c);
    }
    assert(v@ =~= s@);
    v
}


/// Is the character an upper-case hexadecimal digit?
pub open spec fn is_hex_digit(c: char) -> bool {
    ('0' <= c && c <= '9') || ('A' <= c && c <= 'F')
}

/// The value of a hexadecimal digit.
pub open spec fn hex_digit_val(c: char) -> nat {
    if '0' <= c && c <= '9' { (c as nat - 48) as nat } else { (c as nat - 55) as nat }
}

/// All upper-case hexadecimal digits.
pub open spec fn all_hex(s: Seq<char>) -> bool {
    forall|i: int| 0 <= i < s.len() ==> is_hex_digit(#[trigger] s[i])
}

/// The value of a string of hexadecimal digits.
pub open spec fn hex_val(s: Seq<char>) -> nat
    decreases s.len(),
{
    if s.len() == 0 { 0 } else { hex_val(s.drop_last()) * 16 + hex_digit_val(s.last()) }
}

/// Parse `cs[lo..hi]` as a non-empty run of upper-case hex digits whose value fits in 64 bits.
pub fn parse_hex(cs: &Vec<char>, lo: usize, hi: usize) -> (r: Option<u64>)
    requires lo <= hi <= cs@.len(),
    ensures
        r is Some <==> (lo < hi && all_hex(cs@.subrange(lo as int, hi as int))
            && hex_val(cs@.subrange(lo as int, hi as int)) <= u64::MAX),
        r is Some ==> r->0 == hex_val(cs@.subrange(lo as int, hi as int)),
{
    if lo == hi { return None; }
    let mut v: u64 = 0;
    let mut i = lo;
    while i < hi
        invariant
            lo <= i <= hi <= cs@.len(),
            all_hex(cs@.subrange(lo as int, i as int)),
            v == hex_val(cs@.subrange(lo as int, i as int)),
        decreases hi - i,
    {
        let c = cs[i];
        let ghost sub = cs@.subrange(lo as int, i as int + 1);
        assert(sub.drop_last() =~= cs@.subrange(lo as int, i as int));
        if !(('0' <= c && c <= '9') || ('A' <= c && c <= 'F')) {
            assert(!is_hex_digit(sub[i - lo]));
            proof { lemma_hex_prefix_fails(cs@, lo as int, i as int, hi as int); }
            return None;
        }
        let d: u64 = if c <= '9' { (c as u32 - 48) as u64 } else { (c as u32 - 55) as u64 };
        if v > (u64::MAX - d) / 16 {
            proof { lemma_hex_grows(cs@, lo as int, i as int + 1, hi as int); }
            return None;
        }
        v = v * 16 + d;
        i = i + 1;
    }
    Some(v)
}

proof fn lemma_hex_prefix_fails(cs: Seq<char>, lo: int, i: int, hi: int)
    requires 0 <= lo <= i < hi <= cs.len(), !is_hex_digit(cs[i]),
    ensures !all_hex(cs.subrange(lo, hi)),
{
    assert(cs.subrange(lo, hi)[i - lo] == cs[i]);
}

/// The value of a hex string is at least that of any prefix.
proof fn lemma_hex_grows(cs: Seq<char>, lo: int, j: int, hi: int)
    requires 0 <= lo < j <= hi <= cs.len(),
    ensures
        all_hex(cs.subrange(lo, hi)) ==> hex_val(cs.subrange(lo, hi)) >= hex_val(cs.subrange(lo, j)),
    decreases hi - j,
{
    if j < hi {
        lemma_hex_grows(cs, lo, j + 1, hi);
        let t = cs.subrange(lo, j + 1);
        assert(t.drop_last() =~= cs.subrange(lo, j));
        if all_hex(cs.subrange(lo, hi)) {
            assert(cs.subrange(lo, hi)[j - lo] == cs[j]);
        }
    }
}

pub proof fn lemma_hex_digit(d: nat)
    requires d < 16,
    ensures is_hex_digit(hex_digit(d)), hex_digit_val(hex_digit(d)) == d,
{
    if d < 10 {
        assert(((d + 48) as u8) as char as nat == d + 48);
    } else {
        assert(((d + 55) as u8) as char as nat == d + 55);
    }
}

/// Printing then reading hex gives the number back.
pub proof fn lemma_hex_roundtrip(x: nat)
    ensures
        all_hex(hex_text(x)),
        hex_val(hex_text(x)) == x,
        hex_text(x).len() >= 1,
    decreases x,
{
    lemma_hex_digit(x % 16);
    if x < 16 {
        let t = hex_text(x);
        assert(t.drop_last() =~= Seq::<char>::empty());
        assert(hex_val(t.drop_last()) == 0);
        assert(t.last() == hex_digit(x));
        assert(hex_val(t) == x);
    }
    if x >= 16 {
        lemma_hex_roundtrip(x / 16);
        let t = hex_text(x);
        assert(t.drop_last() =~= hex_text(x / 16));
        assert(t.last() == hex_digit(x % 16));
        assert(hex_val(t) == hex_val(hex_text(x / 16)) * 16 + hex_digit_val(hex_digit(x % 16)));
        assert((x / 16) * 16 + x % 16 == x);
        assert forall|i: int| 0 <= i < t.len() implies is_hex_digit(#[trigger] t[i]) by {
            if i < t.len() - 1 { assert(t[i] == hex_text(x / 16)[i]); }
        }
    }
}

} // verus!
