//! Plain values that cross the C interface: a node and a variable.
use vstd::prelude::*;

verus! {

/// A node, as its raw bits.
#[allow(non_camel_case_types)]
#[derive(Clone, Copy, Debug, PartialEq, Eq, Structural)]
pub struct bex_nid_t {
    pub nid: u64,
}

/// A variable, as its number.
#[allow(non_camel_case_types)]
#[derive(Clone, Copy, Debug, PartialEq, Eq, Structural)]
pub struct bex_vid_t {
    pub vid: u32,
}

} // verus!
