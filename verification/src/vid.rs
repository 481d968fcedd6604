//! Variable identifiers.
use vstd::prelude::*;
use vstd::string::*;
use crate::text::{hex_text, push_hex};

verus! {

/// The kinds of variable, in bottom-to-top order.
#[derive(Clone, Copy, PartialEq, Eq, Structural, Debug, Hash)]
pub enum VidEnum {
    /// Special meta-constant on which the constant nodes branch.
    T,
    /// Special case for nodes not tied to a variable.
    NoV,
    /// Real (input) variables.
    Var(u32),
    /// Virtual variables, above all real ones.
    Vir(u32),
}

/// Relative position of two variables in the variable order.
#[derive(Clone, Copy, PartialEq, Eq, Structural, Debug)]
pub enum VidOrdering {
    Above,
    Level,
    Below,
}

/// A variable identifier.
#[derive(Clone, Copy, PartialEq, Eq, Structural, Debug, Hash)]
pub struct VID {
    pub v: VidEnum,
}

/// Position of a variable in the depth order: kind first, then index.
pub open spec fn depth_key(v: VID) -> int {
    match v.v {
        VidEnum::T => 0,
        VidEnum::NoV => 1,
        VidEnum::Var(x) => 0x1_0000_0000 + x as int,
        VidEnum::Vir(x) => 0x2_0000_0000 + x as int,
    }
}

fn cmp_depth_idx(x: u32, y: u32) -> (r: VidOrdering)
    ensures
        r == VidOrdering::Above <==> x > y,
        r == VidOrdering::Level <==> x == y,
        r == VidOrdering::Below <==> x < y,
{
    if x < y {
        VidOrdering::Below
    } else if x == y {
        VidOrdering::Level
    } else {
        VidOrdering::Above
    }
}

impl VID {
    /// Compare the depth of two variables.
    pub fn cmp_depth(&self, other: &Self) -> (r: VidOrdering)
        ensures
            r == VidOrdering::Above <==> depth_key(*self) > depth_key(*other),
            r == VidOrdering::Level <==> depth_key(*self) == depth_key(*other),
            r == VidOrdering::Below <==> depth_key(*self) < depth_key(*other),
            r == VidOrdering::Level <==> *self == *other,
    {
        match self.v {
            VidEnum::T => match other.v {
                VidEnum::T => VidOrdering::Level,
                _ => VidOrdering::Below,
            },
            VidEnum::NoV => match other.v {
                VidEnum::T => VidOrdering::Above,
                VidEnum::NoV => VidOrdering::Level,
                _ => VidOrdering::Below,
            },
            VidEnum::Var(x) => match other.v {
                VidEnum::Vir(_) => VidOrdering::Below,
                VidEnum::Var(y) => cmp_depth_idx(x, y),
                _ => VidOrdering::Above,
            },
            VidEnum::Vir(x) => match other.v {
                VidEnum::Var(_) => VidOrdering::Above,
                VidEnum::Vir(y) => cmp_depth_idx(x, y),
                _ => VidOrdering::Above,
            },
        }
    }
}


/// The one of two variables that is higher in the order (the second on a tie).
pub fn topmost(x: VID, y: VID) -> (r: VID)
    ensures
        r == if depth_key(x) > depth_key(y) { x } else { y },
{
    if x.is_above(&y) { x } else { y }
}

/// The one of two variables that is lower in the order (the second on a tie).
pub fn botmost(x: VID, y: VID) -> (r: VID)
    ensures
        r == if depth_key(x) < depth_key(y) { x } else { y },
{
    if x.is_below(&y) { x } else { y }
}

/// The topmost of three variables.
pub fn topmost_of3(x: VID, y: VID, z: VID) -> (r: VID)
    ensures
        r == x || r == y || r == z,
        depth_key(r) >= depth_key(x),
        depth_key(r) >= depth_key(y),
        depth_key(r) >= depth_key(z),
        r == spec_topmost(x, spec_topmost(y, z)),
{
    topmost(x, topmost(y, z))
}

pub open spec fn spec_topmost(x: VID, y: VID) -> VID {
    if depth_key(x) > depth_key(y) { x } else { y }
}

impl VID {
    pub fn top() -> (r: VID)
        ensures r.v == VidEnum::T,
    {
        VID { v: VidEnum::T }
    }

    pub fn nov() -> (r: VID)
        ensures r.v == VidEnum::NoV,
    {
        VID { v: VidEnum::NoV }
    }

    pub fn var(i: u32) -> (r: VID)
        ensures r.v == VidEnum::Var(i),
    {
        VID { v: VidEnum::Var(i) }
    }

    pub fn vir(i: u32) -> (r: VID)
        ensures r.v == VidEnum::Vir(i),
    {
        VID { v: VidEnum::Vir(i) }
    }

    pub fn is_top(&self) -> (r: bool)
        ensures r == (self.v is T),
    {
        match self.v { VidEnum::T => true, _ => false }
    }

    pub fn is_nov(&self) -> (r: bool)
        ensures r == (self.v is NoV),
    {
        match self.v { VidEnum::NoV => true, _ => false }
    }

    pub fn is_var(&self) -> (r: bool)
        ensures r == (self.v is Var),
    {
        match self.v { VidEnum::Var(_) => true, _ => false }
    }

    pub fn is_vir(&self) -> (r: bool)
        ensures r == (self.v is Vir),
    {
        match self.v { VidEnum::Vir(_) => true, _ => false }
    }

    /// Is this variable strictly above the other one?
    pub fn is_above(&self, other: &VID) -> (r: bool)
        ensures r == (depth_key(*self) > depth_key(*other)),
    {
        self.cmp_depth(other) == VidOrdering::Above
    }

    /// Is this variable strictly below the other one?
    pub fn is_below(&self, other: &VID) -> (r: bool)
        ensures r == (depth_key(*self) < depth_key(*other)),
    {
        self.cmp_depth(other) == VidOrdering::Below
    }

    /// The next variable of the same kind.
    pub fn shift_up(&self) -> (r: VID)
        requires
            self.v is Var ==> self.v->Var_0 < u32::MAX,
            self.v is Vir ==> self.v->Vir_0 < u32::MAX,
            self.v is Var || self.v is Vir,
        ensures
            self.v is Var ==> r.v == VidEnum::Var((self.v->Var_0 + 1) as u32),
            self.v is Vir ==> r.v == VidEnum::Vir((self.v->Vir_0 + 1) as u32),
    {
        match self.v {
            VidEnum::Var(x) => VID::var(x + 1),
            VidEnum::Vir(x) => VID::vir(x + 1),
            _ => VID::top(),
        }
    }

    /// Index of a real variable.
    pub fn var_ix(&self) -> (r: usize)
        requires self.v is Var,
        ensures r == self.v->Var_0,
    {
        match self.v { VidEnum::Var(x) => x as usize, _ => 0 }
    }

    /// Index of a virtual variable.
    pub fn vir_ix(&self) -> (r: usize)
        requires self.v is Vir,
        ensures r == self.v->Vir_0,
    {
        match self.v { VidEnum::Vir(x) => x as usize, _ => 0 }
    }

    /// Index of a real or virtual variable.
    pub fn vid_ix(&self) -> (r: usize)
        requires self.v is Var || self.v is Vir,
        ensures
            self.v is Var ==> r == self.v->Var_0,
            self.v is Vir ==> r == self.v->Vir_0,
    {
        match self.v { VidEnum::Var(x) => x as usize, VidEnum::Vir(x) => x as usize, _ => 0 }
    }

    /// A one-bit mask for the variable's index (0 where it has none, or it is 64 or more).
    pub fn bitmask(&self) -> (r: u64)
        ensures
            r == match self.v {
                VidEnum::Var(x) => if x < 64 { 1u64 << x } else { 0 },
                VidEnum::Vir(x) => if x < 64 { 1u64 << x } else { 0 },
                _ => 0,
            },
    {
        match self.v {
            VidEnum::Var(x) => if x < 64 { 1u64 << x } else { 0 },
            VidEnum::Vir(x) => if x < 64 { 1u64 << x } else { 0 },
            _ => 0,
        }
    }

    /// The variable as a number: the index, or 1<<29 for the top variable.
    pub fn u(&self) -> (r: usize)
        requires !(self.v is NoV),
        ensures
            r == match self.v {
                VidEnum::Var(x) => x as int,
                VidEnum::Vir(x) => x as int,
                _ => 0x2000_0000,
            },
    {
        match self.v {
            VidEnum::Var(x) => x as usize,
            VidEnum::Vir(x) => x as usize,
            _ => 0x2000_0000,
        }
    }

    /// Text form: `T`, `NoV`, `x` or `v` followed by the index in upper-case hex.
    pub fn to_string(&self) -> (r: String)
        ensures r@ == vid_text(*self),
    {
        match self.v {
            VidEnum::T => {
                proof { reveal_strlit("T"); }
                String::from_str("T")
            },
            VidEnum::NoV => {
                proof { reveal_strlit("NoV"); }
                String::from_str("NoV")
            },
            VidEnum::Var(x) => {
                proof { reveal_strlit("x"); }
                let mut s = String::from_str("x");
                push_hex(&mut s, x as u64);
                s
            },
            VidEnum::Vir(x) => {
                proof { reveal_strlit("v"); }
                let mut s = String::from_str("v");
                push_hex(&mut s, x as u64);
                s
            },
        }
    }
}

/// Text form of a variable.
pub open spec fn vid_text(v: VID) -> Seq<char> {
    match v.v {
        VidEnum::T => seq!['T'],
        VidEnum::NoV => seq!['N', 'o', 'V'],
        VidEnum::Var(x) => seq!['x'] + hex_text(x as nat),
        VidEnum::Vir(x) => seq!['v'] + hex_text(x as nat),
    }
}

/// The variable order is total and strict.
pub proof fn lemma_depth_order(a: VID, b: VID, c: VID)
    ensures
        (depth_key(a) > depth_key(b)) <==> (depth_key(b) < depth_key(a)),
        depth_key(a) == depth_key(b) <==> a == b,
        depth_key(a) > depth_key(b) || depth_key(a) == depth_key(b) || depth_key(a) < depth_key(b),
        depth_key(a) > depth_key(b) && depth_key(b) > depth_key(c) ==> depth_key(a) > depth_key(c),
{
}

} // verus!
