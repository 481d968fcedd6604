//! Node IDs (shared by the various base implementations).
//!
//! A NID is a tuple of flags, a variable and an index, packed into a `u64`:
//! bit 63 marks an inverted node, bit 62 a variable, bit 61 a constant,
//! bit 59 a function (truth table); bits 32..62 hold the variable and
//! bits 0..32 the index.  Table NIDs hold, in bits 32..59, the
//! combinatorial index of their input variables (see `comb`), and in the
//! index field their truth table.
use vstd::prelude::*;
use crate::vid::{VID, VidEnum, depth_key};
use crate::comb;
use crate::bits::{lemma_word, lemma_field, lemma_constants};
use crate::comb::{TOTAL, OFFSET, valid_vars, arity_spec, encode_spec, decodes_to, offset_of};

verus! {

/// A NID represents a node in a Base: a variable and an index, with flags,
/// packed into a u64.
#[derive(Default, PartialEq, Eq, Structural, PartialOrd, Ord, Hash, Clone, Copy, Debug)]
pub struct NID {
    pub n: u64,
}

/// A truth table stored directly in a nid for functions of up to 5 inputs.
#[derive(Default, PartialEq, Eq, Structural, PartialOrd, Ord, Hash, Clone, Copy, Debug)]
pub struct NidFun {
    pub nid: NID,
}

/// Single-bit mask representing that a NID is inverted.
pub const INV: u64 = 0x8000_0000_0000_0000;
/// Single-bit mask indicating that a NID represents a variable.
pub const VAR: u64 = 0x4000_0000_0000_0000;
/// Single-bit mask indicating that the NID represents a constant.
pub const T: u64 = 0x2000_0000_0000_0000;
/// Marks a real (input) variable, as opposed to a virtual one.
pub const RVAR: u64 = 0x1000_0000_0000_0000;
/// Marks a function: the index field holds its truth table.
pub const F: u64 = 0x0800_0000_0000_0000;
/// Mask for the index part of a NID.
pub const IDX_MASK: u64 = 0xFFFF_FFFF;
/// Mask for the combinatorial variable index of a table NID (27 bits).
pub const COMBO_MASK: u64 = 0x07FF_FFFF;

/// The constant function 0 ("always false").
pub open spec fn nid_o() -> NID { NID { n: 0x2000_0000_0000_0000 } }
/// The constant function 1 ("always true").
pub open spec fn nid_i() -> NID { NID { n: 0xA000_0000_0000_0000 } }

/// The variable field used for nodes not tied to a variable.
pub const NOVAR: u64 = 0x0400_0000;
/// The variable field of the constants.
pub const TOP: u64 = 0x2000_0000;
/// The variable-field flag of real variables.
pub const RVAR_BITS: u64 = 0x1000_0000;

// ---- model ----

/// The variable field of a nid (flags other than INV/VAR included).
pub open spec fn vid_bits_spec(n: u64) -> u64 {
    (n & !(INV | VAR)) >> 32
}

/// The combinatorial variable index of a table nid.
pub open spec fn combo_spec(n: u64) -> u64 {
    (n >> 32) & COMBO_MASK
}

/// The variable field that stands for a variable.
pub open spec fn vid_to_bits_spec(v: VID) -> u64 {
    match v.v {
        VidEnum::NoV => NOVAR,
        VidEnum::T => TOP,
        VidEnum::Var(x) => (x as u64) | RVAR_BITS,
        VidEnum::Vir(x) => x as u64,
    }
}

/// The variable that a variable field stands for.
pub open spec fn bits_to_vid_spec(o: u64) -> VID {
    if o == TOP { VID { v: VidEnum::T } }
    else if o == NOVAR { VID { v: VidEnum::NoV } }
    else if o & RVAR_BITS != 0 { VID { v: VidEnum::Var((o & !RVAR_BITS) as u32) } }
    else { VID { v: VidEnum::Vir(o as u32) } }
}

/// Mask for the low `2^arity` bits.
pub open spec fn tbl_mask_spec(arity: nat) -> u64 {
    if arity == 0 { 1 }
    else if arity == 1 { 3 }
    else if arity == 2 { 0xF }
    else if arity == 3 { 0xFF }
    else if arity == 4 { 0xFFFF }
    else { 0xFFFF_FFFF }
}

/// The bits of a table nid with the given combinatorial index and table.
pub open spec fn fun_bits(combo: u64, arity: nat, tbl: u32) -> u64 {
    F | (combo << 32) | ((tbl as u64) & tbl_mask_spec(arity))
}

/// A variable whose nid reads back as the same variable.
pub open spec fn vid_representable(v: VID) -> bool {
    match v.v {
        VidEnum::Var(x) => x < 0x0800_0000,
        VidEnum::Vir(x) => x < 0x0400_0000,
        _ => true,
    }
}

impl NID {
    /// The variable of a nid, as the model sees it.
    pub open spec fn vid_spec(self) -> VID {
        if self.n & F == F && combo_spec(self.n) < TOTAL && arity_spec(combo_spec(self.n) as u32) >= 1 {
            VID { v: VidEnum::Var(top_var_spec(combo_spec(self.n) as u32)) }
        } else {
            bits_to_vid_spec(vid_bits_spec(self.n))
        }
    }
}

/// The top variable of a valid combinatorial index with arity at least 1.
pub open spec fn top_var_spec(combo: u32) -> u32 {
    let (ar, vars) = choose|ar: u8, vars: Seq<u32>| #[trigger] decodes_to(combo, ar, vars);
    vars[ar - 1]
}

// ---- bit helpers ----

/// Variable field of a nid.
pub fn vid_bits(x: NID) -> (r: u64)
    ensures r == vid_bits_spec(x.n), r < 0x4000_0000,
{
    proof { lemma_word(x.n, 0); }
    (x.n & !(INV | VAR)) >> 32
}

/// The nid of the (virtual) node for a variable field.
pub fn nv(v: usize) -> (r: NID)
    ensures r.n == ((v as u64) << 32) | VAR,
{
    NID { n: ((v as u64) << 32) | VAR }
}

/// A nid with the given variable field and index.
pub fn nvi(v: usize, i: usize) -> (r: NID)
    requires (((v as u64) << 32) as int) + i <= u64::MAX,
    ensures r.n == ((v as u64) << 32) + i,
{
    NID { n: ((v as u64) << 32) + i as u64 }
}

/// The variable field that stands for a variable.
pub fn vid_to_bits(v: VID) -> (r: u64)
    ensures r == vid_to_bits_spec(v),
{
    match v.v {
        VidEnum::NoV => NOVAR,
        VidEnum::T => TOP,
        VidEnum::Var(x) => (x as u64) | RVAR_BITS,
        VidEnum::Vir(x) => x as u64,
    }
}

fn bits_to_vid(o: u64) -> (r: VID)
    ensures r == bits_to_vid_spec(o),
{
    if o == TOP { VID::top() }
    else if o == NOVAR { VID::nov() }
    else if o & RVAR_BITS != 0 { VID::var((o & !RVAR_BITS) as u32) }
    else { VID::vir(o as u32) }
}

/// A representable variable survives the trip through a nid's variable field.
pub proof fn lemma_vid_bits_roundtrip(v: VID)
    requires vid_representable(v),
    ensures
        bits_to_vid_spec(vid_to_bits_spec(v)) == v,
        vid_to_bits_spec(v) < 0x4000_0000,
        vid_bits_spec(((vid_to_bits_spec(v) << 32) | VAR)) == vid_to_bits_spec(v),
{
    let b = vid_to_bits_spec(v);
    lemma_constants();
    match v.v {
        VidEnum::Var(x) => { lemma_field(x as u64); },
        VidEnum::Vir(x) => { lemma_field(x as u64); },
        _ => {},
    }
    lemma_field(b);
}

impl NID {
    /// The constant O.
    pub fn o() -> (r: NID)
        ensures r == nid_o(),
    {
        NID { n: T }
    }

    /// The constant I.
    pub fn i() -> (r: NID)
        ensures r == nid_i(),
    {
        NID { n: 0xA000_0000_0000_0000 }
    }

    /// I for true, O for false.
    pub fn from_bit(b: bool) -> (r: NID)
        ensures r == if b { nid_i() } else { nid_o() },
    {
        if b { NID::i() } else { NID::o() }
    }

    /// Anything but O counts as true.
    pub fn to_bit(&self) -> (r: bool)
        ensures r == (*self != nid_o()),
    {
        self.n != T
    }

    /// The nid of a real (input) variable.
    pub fn var(v: u32) -> (r: NID)
        ensures
            r.n == ((((v as u64) | RVAR_BITS)) << 32) | VAR,
            v < 0x0800_0000 ==> r.vid_spec() == (VID { v: VidEnum::Var(v) }),
    {
        let b: u64 = v as u64 | RVAR_BITS;
        let r = NID { n: (b << 32) | VAR };
        proof {
            if v < 0x0800_0000 {
                lemma_vid_bits_roundtrip(VID { v: VidEnum::Var(v) });
                lemma_var_not_fun(b);
                lemma_field(v as u64);
            }
        }
        r
    }

    /// The nid of a virtual variable.
    pub fn vir(v: u32) -> (r: NID)
        ensures
            r.n == ((v as u64) << 32) | VAR,
            v < 0x0400_0000 ==> r.vid_spec() == (VID { v: VidEnum::Vir(v) }),
    {
        let r = NID { n: ((v as u64) << 32) | VAR };
        proof {
            if v < 0x0400_0000 {
                lemma_vid_bits_roundtrip(VID { v: VidEnum::Vir(v) });
                lemma_var_not_fun(v as u64);
                lemma_field(v as u64);
            }
        }
        r
    }

    /// The nid of a real variable, from its VID.
    pub fn from_var(v: VID) -> (r: NID)
        requires v.v is Var,
        ensures r == NID::from_vid_spec(v),
    {
        Self::var(v.var_ix() as u32)
    }

    /// The nid of a virtual variable, from its VID.
    pub fn from_vir(v: VID) -> (r: NID)
        requires v.v is Vir,
        ensures r == NID::from_vid_spec(v),
    {
        Self::vir(v.vir_ix() as u32)
    }

    pub open spec fn from_vid_spec(v: VID) -> NID {
        NID { n: (vid_to_bits_spec(v) << 32) | VAR }
    }

    /// The nid of the (virtual) node of a variable.
    pub fn from_vid(v: VID) -> (r: NID)
        ensures
            r == NID::from_vid_spec(v),
            vid_representable(v) ==> r.vid_spec() == v && r.n & VAR != 0 && (r.n & T == 0 || v.v is T),
            vid_representable(v) ==> r.n & INV == 0,
            r.n & VAR != 0,
    {
        let b = vid_to_bits(v);
        proof {
            assert(((b << 32) | 0x4000_0000_0000_0000u64) & 0x4000_0000_0000_0000u64 != 0) by (bit_vector);
            if vid_representable(v) {
                lemma_vid_bits_roundtrip(v);
                lemma_var_not_fun(b);
                lemma_representable_bits(v);
            }
        }
        NID { n: (b << 32) | VAR }
    }

    /// A nid with the given variable and index.
    pub fn from_vid_idx(v: VID, i: usize) -> (r: NID)
        requires ((vid_to_bits_spec(v) << 32) as int) + i <= u64::MAX,
        ensures r.n == (vid_to_bits_spec(v) << 32) + i,
    {
        let b = vid_to_bits(v);
        NID { n: (b << 32) + i as u64 }
    }

    /// The variable on which this node branches.
    /// (For a table nid, its topmost input variable.)
    pub fn vid(&self) -> (r: VID)
        ensures r == self.vid_spec(),
    {
        if self.n & F == F {
            proof { lemma_word(self.n, 0); }
            let c = ((self.n >> 32) & COMBO_MASK) as u32;
            if c < TOTAL && comb::arity_of(c) >= 1 {
                proof { lemma_decodes_exists(c); }
                let t = comb::top_var_of(c);
                proof {
                    let (ar, vars) = choose|ar: u8, vars: Seq<u32>| #[trigger] decodes_to(c, ar, vars);
                    assert(decodes_to(c, ar, vars));
                }
                return VID::var(t);
            }
        }
        bits_to_vid(vid_bits(*self))
    }

    /// A nid that is not tied to a variable.
    pub fn ixn(ix: usize) -> (r: NID)
        requires ix <= IDX_MASK,
        ensures r.n == (NOVAR << 32) + ix,
    {
        proof { lemma_constants(); }
        nvi(NOVAR as usize, ix)
    }

    /// Does the NID refer to one of the two constant nodes (O or I)?
    pub fn is_const(&self) -> (r: bool)
        ensures r == (self.n & T != 0),
    {
        (self.n & T) != 0
    }

    /// Does the NID represent a VID (either Var or Vir)?
    pub fn is_vid(&self) -> (r: bool)
        ensures r == (self.n & VAR != 0),
    {
        (self.n & VAR) != 0
    }

    /// Does the NID represent an input variable?
    pub fn is_var(&self) -> (r: bool)
        ensures r == (self.n & VAR != 0 && self.vid_spec().v is Var),
    {
        self.is_vid() && self.vid().is_var()
    }

    /// Does the NID represent a virtual variable?
    pub fn is_vir(&self) -> (r: bool)
        ensures r == (self.n & VAR != 0 && self.vid_spec().v is Vir),
    {
        self.is_vid() && self.vid().is_vir()
    }

    /// Is n a literal (variable or constant)?
    pub fn is_lit(&self) -> (r: bool)
        ensures r == (self.n & VAR != 0 || self.n & T != 0),
    {
        self.is_vid() || self.is_const()
    }

    /// Is the NID inverted? That is, does it represent `!(some other nid)`?
    pub fn is_inv(&self) -> (r: bool)
        ensures r == (self.n & INV != 0),
    {
        (self.n & INV) != 0
    }

    /// Invert if the condition is true.
    pub fn inv_if(&self, cond: bool) -> (r: NID)
        ensures r.n == if cond { self.n ^ INV } else { self.n },
    {
        if cond { NID { n: self.n ^ INV } } else { *self }
    }

    /// Is this NID just an indexed node with no variable?
    pub fn is_ixn(&self) -> (r: bool)
        ensures r == (self.n & (F | T | VAR) == 0 && vid_bits_spec(self.n) == NOVAR),
    {
        (self.n & (F | T | VAR)) == 0 && vid_bits(*self) == NOVAR
    }

    /// The index part of the NID.
    pub fn idx(&self) -> (r: usize)
        ensures r == self.n & IDX_MASK, r <= IDX_MASK,
    {
        proof { lemma_word(self.n, 0); }
        (self.n & IDX_MASK) as usize
    }

    /// Return the NID with the 'INV' flag removed.
    pub fn raw(&self) -> (r: NID)
        ensures r.n == self.n & !INV,
    {
        NID { n: self.n & !INV }
    }

    /// Construct a NID holding a truth table for up to 5 input bits
    /// (over the variables `x0 .. x(arity-1)`).
    pub fn fun(arity: u8, tbl: u32) -> (r: NidFun)
        requires arity <= 5,
        ensures
            r.nid.n == fun_bits(offset_of(arity as nat) as u64, arity as nat, tbl),
            r.wf(),
            r.arity_spec() == arity,
            r.vars_spec() =~= Seq::new(arity as nat, |i: int| i as u32),
    {
        let combo = OFFSET[arity as usize] as u64;
        let mask = tbl_mask(arity);
        let r = NidFun { nid: NID { n: F | (combo << 32) | ((tbl as u64) & mask) } };
        proof {
            let s = Seq::new(arity as nat, |i: int| i as u32);
            lemma_canonical_vars(arity as nat);
            lemma_fun_fields(combo, arity as nat, tbl);
            comb::lemma_encode_range(s);
            lemma_decodes_exists(combo as u32);
            let (ar, vars) = choose|ar: u8, vars: Seq<u32>| #[trigger] decodes_to(combo as u32, ar, vars);
            comb::lemma_decode_encode(s, ar, vars);
        }
        r
    }

    /// Construct a truth-table NID over the given (ascending) variables.
    pub fn fun_with_vars(vars: &[u32], tbl: u32) -> (r: NidFun)
        requires valid_vars(vars@),
        ensures
            r.nid.n == fun_bits(encode_spec(vars@) as u64, vars@.len(), tbl),
            r.wf(),
            r.arity_spec() == vars@.len(),
            r.vars_spec() == vars@,
    {
        let combo = comb::encode(vars) as u64;
        let mask = tbl_mask(vars.len() as u8);
        let r = NidFun { nid: NID { n: F | (combo << 32) | ((tbl as u64) & mask) } };
        proof {
            comb::lemma_encode_range(vars@);
            lemma_fun_fields(combo, vars@.len(), tbl);
            lemma_decodes_exists(combo as u32);
            let (ar, vs) = choose|ar: u8, vs: Seq<u32>| #[trigger] decodes_to(combo as u32, ar, vs);
            comb::lemma_decode_encode(vars@, ar, vs);
        }
        r
    }

    /// Is this NID a function (truth table)?
    pub fn is_fun(&self) -> (r: bool)
        ensures r == (self.n & F == F),
    {
        self.n & F == F
    }

    /// View a table nid as a function.
    pub fn to_fun(&self) -> (r: Option<NidFun>)
        ensures
            self.n & F == F ==> r == Some(NidFun { nid: *self }),
            self.n & F != F ==> r is None,
    {
        if self.is_fun() { Some(NidFun { nid: *self }) } else { None }
    }

    /// The truth table of a table nid.
    pub fn tbl(&self) -> (r: Option<u32>)
        ensures
            self.n & F == F ==> r == Some((self.n & IDX_MASK) as u32),
            self.n & F != F ==> r is None,
    {
        if self.is_fun() { Some(self.idx() as u32) } else { None }
    }

    /// Is it possible that the nid depends on variable v?
    /// (The goal is to avoid exploring a subgraph when we don't have to.)
    pub fn might_depend_on(&self, v: VID) -> (r: bool)
        ensures
            r == if self.n & T != 0 { false }
                else if self.n & VAR != 0 { self.vid_spec() == v }
                else { self.vid_spec() == v || depth_key(self.vid_spec()) > depth_key(v) },
    {
        if self.is_const() { false }
        else if self.is_vid() { self.vid() == v }
        else { let sv = self.vid(); sv == v || sv.is_above(&v) }
    }

    /// Build a nid from its raw bits.
    pub fn _from_u64(x: u64) -> (r: NID)
        ensures r.n == x,
    {
        NID { n: x }
    }

    /// The raw bits of the nid.
    pub fn _to_u64(&self) -> (r: u64)
        ensures r == self.n,
    {
        self.n
    }
}

impl std::ops::Not for NID {
    type Output = NID;

    fn not(self) -> (r: NID)
        ensures r.n == self.n ^ INV,
    {
        NID { n: self.n ^ INV }
    }
}

impl vstd::std_specs::ops::NotSpecImpl for NID {
    open spec fn obeys_not_spec() -> bool { true }
    open spec fn not_req(self) -> bool { true }
    open spec fn not_spec(self) -> NID { NID { n: self.n ^ INV } }
}

/// The inverse of a nid (the same as `!x`).
pub fn negate(x: NID) -> (r: NID)
    ensures r.n == x.n ^ INV,
{
    NID { n: x.n ^ INV }
}

/// Inverting changes only the inversion flag.
pub proof fn lemma_neg_fields(x: NID)
    ensures ({
        let y = NID { n: x.n ^ INV };
        &&& y.vid_spec() == x.vid_spec()
        &&& y.n & IDX_MASK == x.n & IDX_MASK
        &&& y.n & T == x.n & T
        &&& y.n & F == x.n & F
        &&& y.n & VAR == x.n & VAR
        &&& combo_spec(y.n) == combo_spec(x.n)
        &&& vid_bits_spec(y.n) == vid_bits_spec(x.n)
        &&& (y.n & INV != 0) == (x.n & INV == 0)
    }),
{
    lemma_word(x.n, 0);
}

/// Inverting twice is the identity; O and I are each other's inverse.
pub proof fn lemma_not_not(x: NID)
    ensures
        (NID { n: (NID { n: x.n ^ INV }).n ^ INV }) == x,
        (NID { n: nid_o().n ^ INV }) == nid_i(),
        (NID { n: nid_i().n ^ INV }) == nid_o(),
        x.n ^ INV != x.n,
{
    lemma_word(x.n, 0);
    lemma_constants();
}

fn tbl_mask(arity: u8) -> (r: u64)
    requires arity <= 5,
    ensures r == tbl_mask_spec(arity as nat),
{
    if arity == 0 { 1 }
    else if arity == 1 { 3 }
    else if arity == 2 { 0xF }
    else if arity == 3 { 0xFF }
    else if arity == 4 { 0xFFFF }
    else { 0xFFFF_FFFF }
}

proof fn lemma_representable_bits(v: VID)
    requires vid_representable(v),
    ensures vid_to_bits_spec(v) & 0x0800_0000 == 0, vid_to_bits_spec(v) & 0x2000_0000 == 0 || v.v is T,
{
    lemma_constants();
    match v.v {
        VidEnum::Var(x) => { lemma_field(x as u64); },
        VidEnum::Vir(x) => { lemma_field(x as u64); },
        _ => {},
    }
}

proof fn lemma_var_not_fun(b: u64)
    requires b < 0x4000_0000,
    ensures
        ((b << 32) | VAR) & F == F <==> b & 0x0800_0000 != 0,
        ((b << 32) | VAR) & T == 0 <==> b & 0x2000_0000 == 0,
        ((b << 32) | VAR) & VAR != 0,
        ((b << 32) | VAR) & INV == 0,
{
    lemma_field(b);
}

pub proof fn lemma_fun_fields(combo: u64, arity: nat, tbl: u32)
    requires combo < 0x0800_0000, arity <= 5,
    ensures
        ({
            let n = fun_bits(combo, arity, tbl);
            &&& n & F == F
            &&& combo_spec(n) == combo
            &&& n & IDX_MASK == (tbl as u64) & tbl_mask_spec(arity)
            &&& n & T == 0
            &&& n & VAR == 0
            &&& n & INV == 0
        }),
{
    let m = tbl_mask_spec(arity);
    let t = tbl as u64;
    assert(m <= 0xFFFF_FFFFu64);
    assert(combo < 0x0800_0000u64 && m <= 0xFFFF_FFFFu64 && t <= 0xFFFF_FFFFu64 ==> ({
        let n = 0x0800_0000_0000_0000u64 | (combo << 32u64) | (t & m);
        &&& n & 0x0800_0000_0000_0000u64 == 0x0800_0000_0000_0000u64
        &&& (n >> 32u64) & 0x07FF_FFFFu64 == combo
        &&& n & 0xFFFF_FFFFu64 == t & m
        &&& n & 0x2000_0000_0000_0000u64 == 0
        &&& n & 0x4000_0000_0000_0000u64 == 0
        &&& n & 0x8000_0000_0000_0000u64 == 0
    })) by (bit_vector);
}

/// A valid combinatorial index always decodes.
pub proof fn lemma_decodes_exists(c: u32)
    requires c < TOTAL,
    ensures exists|ar: u8, vars: Seq<u32>| decodes_to(c, ar, vars),
{
    let (ar, vars) = comb::decode_witness(c);
    assert(decodes_to(c, ar, vars));
}

/// The table nid that `NID::fun_with_vars` builds for the variables `vs` and
/// table `tb`: a well-formed table over `vs`, not inverted, holding `tb` cut
/// to its arity.
pub proof fn lemma_named_nid(vs: Seq<u32>, tb: u32)
    requires valid_vars(vs),
    ensures ({
        let n = fun_bits(encode_spec(vs) as u64, vs.len(), tb);
        let f = NidFun { nid: NID { n } };
        &&& f.wf()
        &&& f.arity_spec() == vs.len()
        &&& f.vars_spec() == vs
        &&& n & T == 0 && n & VAR == 0 && n & INV == 0 && n & F == F
        &&& f.tbl_spec() as u64 == (tb as u64) & tbl_mask_spec(vs.len())
    }),
{
    let combo = encode_spec(vs) as u64;
    comb::lemma_encode_range(vs);
    assert(combo < 0x0800_0000);
    lemma_fun_fields(combo, vs.len(), tb);
    lemma_decodes_exists(combo as u32);
    let (a, w) = choose|a: u8, w: Seq<u32>| #[trigger] decodes_to(combo as u32, a, w);
    comb::lemma_decode_encode(vs, a, w);
}

/// The table nid that `NID::fun` builds for `ar` inputs and table `tb`: a
/// well-formed table over `x0 .. x(ar-1)`, not inverted, holding `tb` cut to
/// its arity.
pub proof fn lemma_fun_nid(ar: nat, tb: u32)
    requires ar <= 5,
    ensures ({
        let n = fun_bits(offset_of(ar) as u64, ar, tb);
        let f = NidFun { nid: NID { n } };
        &&& f.wf()
        &&& f.arity_spec() == ar
        &&& f.vars_spec() =~= Seq::new(ar, |i: int| i as u32)
        &&& n & T == 0 && n & VAR == 0 && n & INV == 0 && n & F == F
        &&& f.tbl_spec() as u64 == (tb as u64) & tbl_mask_spec(ar)
    }),
{
    let s = Seq::new(ar, |i: int| i as u32);
    lemma_canonical_vars(ar);
    let combo = offset_of(ar) as u64;
    assert(combo < 0x0800_0000);
    lemma_fun_fields(combo, ar, tb);
    comb::lemma_encode_range(s);
    lemma_decodes_exists(combo as u32);
    let (a, vars) = choose|a: u8, vars: Seq<u32>| #[trigger] decodes_to(combo as u32, a, vars);
    comb::lemma_decode_encode(s, a, vars);
}

/// `0, 1, ..., k-1` is the list of variables of a canonical table.
pub proof fn lemma_canonical_vars(k: nat)
    requires k <= 5,
    ensures ({
        let s = Seq::new(k, |i: int| i as u32);
        valid_vars(s) && encode_spec(s) == offset_of(k)
    }),
{
    let s = Seq::new(k, |i: int| i as u32);
    lemma_comb_sum_canonical(k);
}

proof fn lemma_comb_sum_canonical(k: nat)
    requires k <= 5,
    ensures comb::comb_sum(Seq::new(k, |i: int| i as u32)) == 0,
    decreases k,
{
    if k > 0 {
        let s = Seq::new(k, |i: int| i as u32);
        lemma_comb_sum_canonical((k - 1) as nat);
        assert(s.drop_last() =~= Seq::new((k - 1) as nat, |i: int| i as u32));
        comb::lemma_binom_above((k - 1) as nat, k);
    }
}

impl NidFun {
    /// The combinatorial variable index lies in range.
    pub open spec fn wf(self) -> bool {
        &&& self.nid.n & F == F
        &&& combo_spec(self.nid.n) < TOTAL
    }

    pub open spec fn arity_spec(self) -> nat {
        arity_spec(combo_spec(self.nid.n) as u32)
    }

    /// The input variables of a well-formed table nid.
    pub open spec fn vars_spec(self) -> Seq<u32> {
        let (ar, vars) = choose|ar: u8, vars: Seq<u32>| #[trigger] decodes_to(combo_spec(self.nid.n) as u32, ar, vars);
        vars.subrange(0, ar as int)
    }

    pub open spec fn tbl_spec(self) -> u32 {
        (self.nid.n & IDX_MASK) as u32
    }

    /// The combinatorial index of the input variables.
    pub fn combo(&self) -> (r: u32)
        ensures r == combo_spec(self.nid.n), r < 0x0800_0000,
    {
        proof { lemma_word(self.nid.n, 0); }
        ((self.nid.n >> 32) & COMBO_MASK) as u32
    }

    /// The truth table.
    pub fn tbl(&self) -> (r: u32)
        requires self.nid.n & F == F,
        ensures r == self.tbl_spec(),
    {
        (self.nid.n & IDX_MASK) as u32
    }

    /// The nid that holds this table.
    pub fn to_nid(&self) -> (r: NID)
        ensures r == self.nid,
    {
        self.nid
    }

    /// The number of inputs.
    pub fn arity(&self) -> (r: u8)
        ensures r == self.arity_spec(), r <= 5,
    {
        comb::arity_of(self.combo())
    }

    /// The input variables: the arity, then the variables in ascending
    /// order, padded with zeros.
    pub fn vars(&self) -> (r: (u8, [u32; 5]))
        requires self.wf(),
        ensures
            r.0 == self.arity_spec(),
            r.1@.subrange(0, r.0 as int) == self.vars_spec(),
            decodes_to(combo_spec(self.nid.n) as u32, r.0, r.1@),
    {
        let c = self.combo();
        let r = comb::decode(c);
        proof {
            let (ar, vars) = choose|ar: u8, vars: Seq<u32>| #[trigger] decodes_to(c, ar, vars);
            comb::lemma_decodes_unique(c, ar, vars, r.0, r.1@);
        }
        r
    }

    /// Position of the given variable among the inputs, if it is one.
    pub fn var_position(&self, v: VID) -> (r: Option<u8>)
        requires self.wf(),
        ensures
            match r {
                Some(p) => v.v is Var && p < self.arity_spec()
                    && self.vars_spec()[p as int] == v.v->Var_0,
                None => !(v.v is Var) || !self.vars_spec().contains(v.v->Var_0),
            },
    {
        if !v.is_var() { return None; }
        let x = v.var_ix() as u32;
        let (ar, vs) = self.vars();
        let mut i: u8 = 0;
        while i < ar
            invariant
                i <= ar, ar == self.arity_spec(), ar <= 5,
                vs@.subrange(0, ar as int) == self.vars_spec(),
                x == v.v->Var_0, v.v is Var,
                forall|j: int| 0 <= j < i ==> self.vars_spec()[j] != x,
            decreases ar - i,
        {
            if vs[i as usize] == x {
                return Some(i);
            }
            i = i + 1;
        }
        None
    }
}

} // verus!
