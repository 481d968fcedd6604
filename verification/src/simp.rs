//! Simplification rules for simple boolean operations.
use vstd::prelude::*;
use crate::nid::{NID, INV, nid_o, nid_i, negate};

verus! {

/// The inverse of a nid.
pub open spec fn not_spec(x: NID) -> NID {
    NID { n: x.n ^ INV }
}

pub open spec fn xor_spec(x: NID, y: NID) -> Option<NID> {
    if x == y { Some(nid_o()) }
    else if x == nid_o() { Some(y) }
    else if x == nid_i() { Some(not_spec(y)) }
    else if y == nid_o() { Some(x) }
    else if y == nid_i() { Some(not_spec(x)) }
    else if x == not_spec(y) { Some(nid_i()) }
    else { None }
}

pub open spec fn and_spec(x: NID, y: NID) -> Option<NID> {
    if x == nid_o() || y == nid_o() { Some(nid_o()) }
    else if x == nid_i() || x == y { Some(y) }
    else if y == nid_i() { Some(x) }
    else if x == not_spec(y) { Some(nid_o()) }
    else { None }
}

pub open spec fn or_spec(x: NID, y: NID) -> Option<NID> {
    if x == nid_o() { Some(y) }
    else if y == nid_o() { Some(x) }
    else if x == nid_i() || y == nid_i() { Some(nid_i()) }
    else if x == y { Some(x) }
    else if x == not_spec(y) { Some(nid_i()) }
    else { None }
}

pub open spec fn ite_spec(i: NID, t: NID, e: NID) -> Option<NID> {
    if i == nid_i() { Some(t) }
    else if i == nid_o() { Some(e) }
    else if t == e { Some(t) }
    else if t == nid_i() && e == nid_o() { Some(i) }
    else if t == nid_o() && e == nid_i() { Some(not_spec(i)) }
    else { None }
}

/// `x ^ y`, when a constant rule settles it.
pub fn xor(x: NID, y: NID) -> (r: Option<NID>)
    ensures r == xor_spec(x, y),
{
    if x == y { Some(NID::o()) }
    else if x == NID::o() { Some(y) }
    else if x == NID::i() { Some(negate(y)) }
    else if y == NID::o() { Some(x) }
    else if y == NID::i() { Some(negate(x)) }
    else if x == negate(y) { Some(NID::i()) }
    else { None }
}

/// `x & y`, when a constant rule settles it.
pub fn and(x: NID, y: NID) -> (r: Option<NID>)
    ensures r == and_spec(x, y),
{
    if x == NID::o() || y == NID::o() { Some(NID::o()) }
    else if x == NID::i() || x == y { Some(y) }
    else if y == NID::i() { Some(x) }
    else if x == negate(y) { Some(NID::o()) }
    else { None }
}

/// `x | y`, when a constant rule settles it.
pub fn or(x: NID, y: NID) -> (r: Option<NID>)
    ensures r == or_spec(x, y),
{
    if x == NID::o() { Some(y) }
    else if y == NID::o() { Some(x) }
    else if x == NID::i() || y == NID::i() { Some(NID::i()) }
    else if x == y { Some(x) }
    else if x == negate(y) { Some(NID::i()) }
    else { None }
}

/// if-then-else, when a constant rule settles it.
pub fn ite(i: NID, t: NID, e: NID) -> (r: Option<NID>)
    ensures r == ite_spec(i, t, e),
{
    if i == NID::i() { Some(t) }
    else if i == NID::o() { Some(e) }
    else if t == e { Some(t) }
    else if t == NID::i() && e == NID::o() { Some(i) }
    else if t == NID::o() && e == NID::i() { Some(negate(i)) }
    else { None }
}

/// The simplification rules for `and`, `or` and `xor` do not depend on argument order.
pub proof fn lemma_simp_commutes(x: NID, y: NID)
    ensures
        and_spec(x, y) == and_spec(y, x),
        or_spec(x, y) == or_spec(y, x),
        xor_spec(x, y) == xor_spec(y, x),
{
    crate::nid::lemma_not_not(x);
    crate::nid::lemma_not_not(y);
}

/// Under any reading of nids as booleans that respects `!`, O and I,
/// a simplified result means what the operation means.
pub proof fn lemma_simp_sound(m: spec_fn(NID) -> bool, x: NID, y: NID, z: NID)
    requires
        forall|n: NID| #[trigger] m(not_spec(n)) == !m(n),
        m(nid_o()) == false,
        m(nid_i()) == true,
    ensures
        and_spec(x, y) is Some ==> m(and_spec(x, y)->0) == (m(x) && m(y)),
        or_spec(x, y) is Some ==> m(or_spec(x, y)->0) == (m(x) || m(y)),
        xor_spec(x, y) is Some ==> m(xor_spec(x, y)->0) == (m(x) != m(y)),
        ite_spec(x, y, z) is Some ==> m(ite_spec(x, y, z)->0) == (if m(x) { m(y) } else { m(z) }),
{
    assert(m(not_spec(y)) == !m(y));
    assert(m(not_spec(x)) == !m(x));
}

} // verus!
