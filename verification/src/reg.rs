//! Registers: arbitrarily large arrays of bits.
use vstd::prelude::*;
use crate::vid::{VID, VidEnum};
use crate::nidfun::pow2;

verus! {

/// A register of bits, stored 64 to a cell, least significant bit first.
#[derive(Clone, PartialEq, Eq, PartialOrd, Ord, Hash, Debug)]
pub struct Reg {
    pub nbits: usize,
    pub data: Vec<usize>,
}

/// Bits per cell.
pub const USIZE: usize = usize::BITS as usize;

pub open spec fn width() -> int {
    usize::BITS as int
}

/// Bit `i` of a list of cells.
pub open spec fn cell_bit(data: Seq<usize>, i: int) -> bool {
    (data[i / width()] >> ((i % width()) as usize)) & 1 == 1
}

/// Where bit `i` lives among `n` cells.
pub proof fn lemma_cell_index(i: int, n: int)
    requires 0 <= i < n * width(),
    ensures
        0 <= i / width() < n,
        0 <= i % width() < width(),
        i == (i / width()) * width() + i % width(),
        width() == 32 || width() == 64,
{
    assert(width() == 32 || width() == 64);
    if width() == 32 {
        assert(i / 32 < n) by (nonlinear_arith) requires 0 <= i < n * 32;
    } else {
        assert(i / 64 < n) by (nonlinear_arith) requires 0 <= i < n * 64;
    }
}

impl Reg {
    /// The number of bits the register was made with.
    pub open spec fn nbits_spec(&self) -> nat {
        self.nbits as nat
    }

    /// All the bits the cells hold (a multiple of 64, at least `nbits`).
    pub open spec fn bits(&self) -> Seq<bool> {
        Seq::new((self.data@.len() * width()) as nat, |i: int| cell_bit(self.data@, i))
    }

    /// Create a register of `nbits` bits, all clear.
    pub fn new(nbits: usize) -> (r: Reg)
        ensures
            r.nbits_spec() == nbits,
            r.data@.len() == (nbits + width() - 1) / width(),
            forall|i: int| 0 <= i < r.bits().len() ==> !r.bits()[i],
    {
        let n = nbits / USIZE + if nbits % USIZE == 0 { 0 } else { 1 };
        let data = vec![0usize; n];
        assert forall|i: int| 0 <= i < data@.len() * width() implies !cell_bit(data@, i) by {
            lemma_cell_index(i, data@.len() as int);
            let s = (i % width()) as usize;
            crate::bits::lemma_usize(0, s, 0);
        }
        Reg { nbits, data }
    }
}


impl Reg {
    /// Bit `ix` of the register.
    pub fn get(&self, ix: usize) -> (r: bool)
        requires (ix as int) < self.bits().len(),
        ensures r == self.bits()[ix as int],
    {
        proof { lemma_cell_index(ix as int, self.data@.len() as int); }
        let x = self.data[ix / USIZE];
        proof { crate::bits::lemma_usize(x, ix % USIZE, 0); }
        0 < (x & (1usize << (ix % USIZE)))
    }

    /// Set bit `ix` of the register to `v`.
    pub fn put(&mut self, ix: usize, v: bool)
        requires (ix as int) < old(self).bits().len(),
        ensures
            final(self).bits() == old(self).bits().update(ix as int, v),
            final(self).nbits == old(self).nbits,
            final(self).data@.len() == old(self).data@.len(),
    {
        proof { lemma_cell_index(ix as int, self.data@.len() as int); }
        let i = ix / USIZE;
        let sft = ix % USIZE;
        let x = self.data[i];
        let ghost old_data = self.data@;
        let nx = if v { x | (1usize << sft) } else { x & !(1usize << sft) };
        self.data.set(i, nx);
        proof {
            crate::bits::lemma_usize(x, sft, 0);
            assert forall|j: int| 0 <= j < self.bits().len() implies
                #[trigger] self.bits()[j] == old_data_bits(old_data).update(ix as int, v)[j] by {
                lemma_cell_index(j, self.data@.len() as int);
                let t = (j % width()) as usize;
                crate::bits::lemma_usize(x, sft, t);
                if j / width() == i as int {
                    if j == ix as int {
                    } else {
                        assert(j % width() != ix as int % width()) by (nonlinear_arith)
                            requires j / width() == (ix as int) / width(), j != ix,
                                j == (j / width()) * width() + j % width(),
                                ix == ((ix as int) / width()) * width() + (ix as int) % width();
                    }
                }
            }
            assert(self.bits() =~= old_data_bits(old_data).update(ix as int, v));
        }
    }

    /// Bit of the given (real) variable.
    pub fn var_get(&self, v: VID) -> (r: bool)
        requires v.v is Var, (v.v->Var_0 as int) < self.bits().len(),
        ensures r == self.bits()[v.v->Var_0 as int],
    {
        let ix = v.var_ix();
        self.get(ix)
    }

    /// Set the bit of the given (real) variable.
    pub fn var_put(&mut self, v: VID, val: bool)
        requires v.v is Var, (v.v->Var_0 as int) < old(self).bits().len(),
        ensures
            final(self).bits() == old(self).bits().update(v.v->Var_0 as int, val),
            final(self).nbits == old(self).nbits,
            final(self).data@.len() == old(self).data@.len(),
    {
        let ix = v.var_ix();
        self.put(ix, val)
    }

    /// The number of bits in the register.
    pub fn len(&self) -> (r: usize)
        ensures r == self.nbits,
    {
        self.nbits
    }

    /// True when the register has no bits.
    pub fn is_empty(&self) -> (r: bool)
        ensures r == (self.nbits == 0),
    {
        self.nbits == 0
    }

    /// The first cell: the low bits of the register as a number.
    pub fn as_usize(&self) -> (r: usize)
        requires self.data@.len() >= 1,
        ensures r == self.data@[0],
    {
        self.data[0]
    }
}

/// `cells` is `a op b`, cell by cell, over the longer of the two
/// (cells that only `b` has are copied).
pub open spec fn cellwise(cells: Seq<usize>, a: Seq<usize>, b: Seq<usize>, op: spec_fn(usize, usize) -> usize) -> bool {
    &&& cells.len() == if a.len() >= b.len() { a.len() } else { b.len() }
    &&& forall|i: int| 0 <= i < cells.len() ==> #[trigger] cells[i] ==
            if i < a.len() && i < b.len() { op(a[i], b[i]) } else if i < a.len() { a[i] } else { b[i] }
}

pub open spec fn and_op() -> spec_fn(usize, usize) -> usize { |x: usize, y: usize| x & y }
pub open spec fn or_op() -> spec_fn(usize, usize) -> usize { |x: usize, y: usize| x | y }
pub open spec fn xor_op() -> spec_fn(usize, usize) -> usize { |x: usize, y: usize| x ^ y }

/// The mask for the last cell of a register of `nbits` bits.
pub open spec fn last_mask(nbits: usize) -> usize {
    let rem = nbits % (usize::BITS as usize);
    if rem == 0 { !0usize } else { ((1usize << rem) - 1) as usize }
}

impl Reg {
    /// Combine two registers cell by cell with `op`.
    fn combine(&self, rhs: &Reg, which: u8) -> (r: Reg)
        requires which <= 2,
        ensures
            r.nbits == self.nbits,
            cellwise(r.data@, self.data@, rhs.data@,
                if which == 0 { and_op() } else if which == 1 { or_op() } else { xor_op() }),
    {
        let mut data: Vec<usize> = Vec::new();
        let n = if self.data.len() >= rhs.data.len() { self.data.len() } else { rhs.data.len() };
        let ghost op = if which == 0 { and_op() } else if which == 1 { or_op() } else { xor_op() };
        let mut i: usize = 0;
        while i < n
            invariant
                i <= n, n == if self.data@.len() >= rhs.data@.len() { self.data@.len() } else { rhs.data@.len() },
                data@.len() == i, which <= 2,
                op == if which == 0 { and_op() } else if which == 1 { or_op() } else { xor_op() },
                forall|k: int| 0 <= k < i ==> #[trigger] data@[k] ==
                    if k < self.data@.len() && k < rhs.data@.len() { op(self.data@[k], rhs.data@[k]) }
                    else if k < self.data@.len() { self.data@[k] } else { rhs.data@[k] },
            decreases n - i,
        {
            let v = if i < self.data.len() && i < rhs.data.len() {
                let (x, y) = (self.data[i], rhs.data[i]);
                if which == 0 { x & y } else if which == 1 { x | y } else { x ^ y }
            } else if i < self.data.len() {
                self.data[i]
            } else {
                rhs.data[i]
            };
            data.push(v);
            i = i + 1;
        }
        Reg { nbits: self.nbits, data }
    }

    /// Cell-by-cell AND (cells only `rhs` has are copied).
    pub fn bitand(&self, rhs: &Reg) -> (r: Reg)
        ensures r.nbits == self.nbits, cellwise(r.data@, self.data@, rhs.data@, and_op()),
    {
        self.combine(rhs, 0)
    }

    /// Cell-by-cell OR.
    pub fn bitor(&self, rhs: &Reg) -> (r: Reg)
        ensures r.nbits == self.nbits, cellwise(r.data@, self.data@, rhs.data@, or_op()),
    {
        self.combine(rhs, 1)
    }

    /// Cell-by-cell XOR (cells only `rhs` has are copied).
    pub fn bitxor(&self, rhs: &Reg) -> (r: Reg)
        ensures r.nbits == self.nbits, cellwise(r.data@, self.data@, rhs.data@, xor_op()),
    {
        self.combine(rhs, 2)
    }

    /// Clear the bits of the last cell that lie beyond the register's length.
    pub fn mask_last_cell(&mut self)
        ensures
            final(self).nbits == old(self).nbits,
            final(self).data@.len() == old(self).data@.len(),
            old(self).data@.len() > 0 ==> final(self).data@ == old(self).data@.update(
                old(self).data@.len() - 1, old(self).data@.last() & last_mask(old(self).nbits)),
            old(self).data@.len() == 0 ==> final(self).data@ == old(self).data@,
    {
        let rem = self.nbits % USIZE;
        proof { crate::bits::lemma_usize(0, rem, 0); }
        let mask: usize = if rem == 0 { !0usize } else { (1usize << rem) - 1 };
        let n = self.data.len();
        if n > 0 {
            let last = self.data[n - 1] & mask;
            self.data.set(n - 1, last);
        }
    }

    /// Invert every bit of the register (bits past its length stay clear in the last cell).
    pub fn not(&self) -> (r: Reg)
        ensures
            r.nbits == self.nbits,
            r.data@.len() == self.data@.len(),
            forall|i: int| 0 <= i < self.data@.len() - 1 ==> #[trigger] r.data@[i] == !self.data@[i],
            self.data@.len() > 0 ==> r.data@.last() == (!self.data@.last()) & last_mask(self.nbits),
    {
        let mut data: Vec<usize> = Vec::new();
        let mut i: usize = 0;
        while i < self.data.len()
            invariant
                i <= self.data@.len(), data@.len() == i,
                forall|k: int| 0 <= k < i ==> #[trigger] data@[k] == !self.data@[k],
            decreases self.data@.len() - i,
        {
            data.push(!self.data[i]);
            i = i + 1;
        }
        let mut res = Reg { nbits: self.nbits, data };
        res.mask_last_cell();
        res
    }
}

/// Enough cells for `nbits` bits.
pub proof fn lemma_capacity(nbits: int)
    requires nbits >= 0,
    ensures ((nbits + width() - 1) / width()) * width() >= nbits,
{
    assert(width() == 32 || width() == 64);
    if width() == 32 {
        assert(((nbits + 31) / 32) * 32 >= nbits) by (nonlinear_arith) requires nbits >= 0;
    } else {
        assert(((nbits + 63) / 64) * 64 >= nbits) by (nonlinear_arith) requires nbits >= 0;
    }
}

impl Reg {
    /// A copy of the register.
    pub fn copy(&self) -> (r: Reg)
        ensures r.nbits == self.nbits, r.data@ == self.data@,
    {
        let mut data: Vec<usize> = Vec::new();
        let mut i: usize = 0;
        while i < self.data.len()
            invariant i <= self.data@.len(), data@ == self.data@.subrange(0, i as int),
            decreases self.data@.len() - i,
        {
            data.push(self.data[i]);
            assert(data@ =~= self.data@.subrange(0, i as int + 1));
            i = i + 1;
        }
        assert(data@ =~= self.data@);
        Reg { nbits: self.nbits, data }
    }

    /// A register of `nbits` bits with exactly the given bits set.
    pub fn from_bits(nbits: usize, hi_bits: &[usize]) -> (r: Reg)
        requires forall|k: int| 0 <= k < hi_bits@.len() ==> hi_bits@[k] < nbits,
        ensures
            r.nbits == nbits,
            r.data@.len() == (nbits + width() - 1) / width(),
            forall|i: int| 0 <= i < r.bits().len() ==> r.bits()[i] == listed(hi_bits@, hi_bits@.len() as int, i),
    {
        let mut res = Reg::new(nbits);
        proof { lemma_capacity(nbits as int); }
        let mut k: usize = 0;
        while k < hi_bits.len()
            invariant
                k <= hi_bits@.len(),
                res.nbits == nbits,
                res.data@.len() == (nbits + width() - 1) / width(),
                res.bits().len() >= nbits,
                forall|j: int| 0 <= j < hi_bits@.len() ==> hi_bits@[j] < nbits,
                forall|i: int| 0 <= i < res.bits().len() ==>
                    res.bits()[i] == listed(hi_bits@, k as int, i),
            decreases hi_bits@.len() - k,
        {
            let bit = hi_bits[k];
            let ghost before = res.bits();
            res.put(bit, true);
            proof {
                assert forall|i: int| 0 <= i < res.bits().len() implies
                    res.bits()[i] == listed(hi_bits@, k as int + 1, i) by {
                    if i == bit as int {
                        assert(hi_bits@[k as int] as int == i);
                    } else {
                        if listed(hi_bits@, k as int + 1, i) {
                            let w = choose|w: int| 0 <= w < k as int + 1 && hi_bits@[w] as int == i;
                            assert(w < k);
                        }
                        assert(res.bits()[i] == before[i]);
                    }
                }
            }
            k = k + 1;
        }
        res
    }

    /// The positions of the set bits, in ascending order.
    pub fn hi_bits(&self) -> (r: Vec<usize>)
        requires self.bits().len() <= usize::MAX,
        ensures
            forall|a: int, b: int| 0 <= a < b < r@.len() ==> r@[a] < r@[b],
            forall|i: int| 0 <= i < self.bits().len() ==> (self.bits()[i] <==> r@.contains(i as usize)),
            forall|k: int| 0 <= k < r@.len() ==> (r@[k] as int) < self.bits().len(),
    {
        let mut res: Vec<usize> = Vec::new();
        let total = self.data.len() * USIZE;
        let mut i: usize = 0;
        while i < total
            invariant
                i <= total, total == self.bits().len(),
                forall|a: int, b: int| 0 <= a < b < res@.len() ==> res@[a] < res@[b],
                forall|k: int| 0 <= k < res@.len() ==> res@[k] < i,
                forall|j: int| 0 <= j < i ==> (self.bits()[j] <==> res@.contains(j as usize)),
            decreases total - i,
        {
            if self.get(i) {
                let ghost old_res = res@;
                res.push(i);
                proof {
                    assert forall|j: int| 0 <= j < i + 1 implies (self.bits()[j] <==> res@.contains(j as usize)) by {
                        if j < i {
                            if old_res.contains(j as usize) {
                                let w = choose|w: int| 0 <= w < old_res.len() && old_res[w] == j as usize;
                                assert(res@[w] == j as usize);
                            }
                            if res@.contains(j as usize) {
                                let w = choose|w: int| 0 <= w < res@.len() && res@[w] == j as usize;
                                assert(w < old_res.len());
                                assert(old_res[w] == j as usize);
                            }
                        } else {
                            assert(res@[old_res.len() as int] == i);
                        }
                    }
                }
            } else {
                proof {
                    assert(!res@.contains(i));
                }
            }
            i = i + 1;
        }
        res
    }

    /// Permute the bits: bit `pv[i]` of `self` goes to position `i` of the result.
    pub fn permute_bits(&self, pv: &[usize]) -> (r: Reg)
        requires
            pv@.len() <= self.bits().len(),
            forall|k: int| 0 <= k < pv@.len() ==> (pv@[k] as int) < self.bits().len(),
        ensures
            r.nbits == self.nbits,
            r.bits().len() == self.bits().len(),
            forall|i: int| 0 <= i < r.bits().len() ==>
                r.bits()[i] == if i < pv@.len() { self.bits()[pv@[i] as int] } else { self.bits()[i] },
    {
        let mut res = self.copy();
        let mut i: usize = 0;
        while i < pv.len()
            invariant
                i <= pv@.len() <= self.bits().len(),
                forall|k: int| 0 <= k < pv@.len() ==> (pv@[k] as int) < self.bits().len(),
                res.nbits == self.nbits,
                res.bits().len() == self.bits().len(),
                forall|j: int| 0 <= j < res.bits().len() ==>
                    res.bits()[j] == if j < i { self.bits()[pv@[j] as int] } else { self.bits()[j] },
            decreases pv@.len() - i,
        {
            let b = self.get(pv[i]);
            res.put(i, b);
            i = i + 1;
        }
        res
    }
}

/// Some of the first `n` entries of `s` equal `i`.
pub open spec fn listed(s: Seq<usize>, n: int, i: int) -> bool {
    exists|w: int| 0 <= w < n && s[w] as int == i
}

pub open spec fn old_data_bits(data: Seq<usize>) -> Seq<bool> {
    Seq::new((data.len() * width()) as nat, |i: int| cell_bit(data, i))
}


/// `j` lies on the path from `start` to `end`, both ends included.
pub open spec fn on_path(start: int, end: int, j: int) -> bool {
    (start <= j <= end) || (end <= j <= start)
}

/// `j` lies on the path from `start` toward `k`, `start` included and `k` excluded.
pub open spec fn before(start: int, k: int, j: int) -> bool {
    (start <= j < k) || (k < j <= start)
}

/// The number whose bit `i` (for `i < n`) is `b[i]`.
pub open spec fn num(b: Seq<bool>, n: nat) -> nat
    decreases n,
{
    if n == 0 { 0 } else { num(b, (n - 1) as nat) + if b[n - 1] { pow2((n - 1) as nat) } else { 0 } }
}

/// The number whose bit `n - 1 - i` (for `i < n`) is `b[i]`: the first `n` bits read backwards.
pub open spec fn rev_num(b: Seq<bool>, n: nat) -> nat
    decreases n,
{
    if n == 0 { 0 } else { 2 * rev_num(b, (n - 1) as nat) + if b[n - 1] { 1nat } else { 0 } }
}

/// The numbers of two bit strings differ only by what their first `k` bits add,
/// when they agree from `k` to `n`.
proof fn lemma_num_agree(a: Seq<bool>, b: Seq<bool>, k: nat, n: nat)
    requires k <= n, forall|j: int| k <= j < n ==> a[j] == b[j],
    ensures num(a, n) - num(b, n) == num(a, k) - num(b, k),
    decreases n,
{
    if n > k {
        lemma_num_agree(a, b, k, (n - 1) as nat);
    }
}

/// `k` set bits make `2^k - 1`; `k` clear bits make `0`.
proof fn lemma_num_uniform(b: Seq<bool>, k: nat, v: bool)
    requires forall|j: int| 0 <= j < k ==> b[j] == v,
    ensures num(b, k) == if v { pow2(k) - 1 } else { 0 },
    decreases k,
{
    if k > 0 {
        lemma_num_uniform(b, (k - 1) as nat, v);
    }
}

proof fn lemma_num_bound(b: Seq<bool>, n: nat)
    ensures num(b, n) < pow2(n),
    decreases n,
{
    if n > 0 {
        lemma_num_bound(b, (n - 1) as nat);
    }
}

impl Reg {
    /// The register holds just enough cells for its bits.
    pub open spec fn wf(&self) -> bool {
        self.data@.len() == (self.nbits + width() - 1) / width()
    }

    /// The register's value: its first `nbits` bits, least significant first.
    pub open spec fn value(&self) -> nat {
        num(self.bits(), self.nbits as nat)
    }

    /// Add one with carry along the bits from `start` to `end` (either way round, both
    /// included): clear the set bits met on the way, set the first clear one and return
    /// its position. When every bit on the way was set they are all cleared and the
    /// result is `None`. A region of one bit (`start == end`) works the same way.
    pub fn ripple(&mut self, start: usize, end: usize) -> (r: Option<usize>)
        requires (start as int) < old(self).bits().len(), (end as int) < old(self).bits().len(),
        ensures
            final(self).nbits == old(self).nbits,
            final(self).data@.len() == old(self).data@.len(),
            match r {
                Some(k) => {
                    &&& on_path(start as int, end as int, k as int)
                    &&& !old(self).bits()[k as int]
                    &&& forall|j: int| before(start as int, k as int, j) ==> #[trigger] old(self).bits()[j]
                    &&& final(self).bits() == Seq::new(old(self).bits().len(), |j: int|
                            if j == k { true } else if before(start as int, k as int, j) { false } else { old(self).bits()[j] })
                },
                None => {
                    &&& forall|j: int| on_path(start as int, end as int, j) ==> #[trigger] old(self).bits()[j]
                    &&& final(self).bits() == Seq::new(old(self).bits().len(), |j: int|
                            if on_path(start as int, end as int, j) { false } else { old(self).bits()[j] })
                },
            },
    {
        let up = start < end;
        let mut j = start;
        let ghost orig = self.bits();
        loop
            invariant
                up == (start < end),
                on_path(start as int, end as int, j as int),
                (start as int) < orig.len(), (end as int) < orig.len(),
                self.nbits == old(self).nbits,
                self.data@.len() == old(self).data@.len(),
                orig == old(self).bits(),
                self.bits().len() == orig.len(),
                forall|x: int| before(start as int, j as int, x) ==> #[trigger] orig[x],
                self.bits() == Seq::new(orig.len(), |x: int| if before(start as int, j as int, x) { false } else { orig[x] }),
            decreases if up { end - j } else { j - end },
        {
            proof { if !up { assert(end <= j); } }
            let was = self.get(j);
            self.put(j, !was);
            if !was {
                proof {
                    assert(self.bits() =~= Seq::new(orig.len(), |x: int|
                        if x == j { true } else if before(start as int, j as int, x) { false } else { orig[x] }));
                }
                return Some(j);
            } else if j == end {
                proof {
                    assert forall|x: int| on_path(start as int, end as int, x) implies #[trigger] orig[x] by {
                        if x != j { assert(before(start as int, j as int, x)); }
                    }
                    assert(self.bits() =~= Seq::new(orig.len(), |x: int|
                        if on_path(start as int, end as int, x) { false } else { orig[x] }));
                }
                return None;
            } else {
                let ghost oj = j;
                j = if up { j + 1 } else { j - 1 };
                proof {
                    assert(self.bits() =~= Seq::new(orig.len(), |x: int|
                        if before(start as int, j as int, x) { false } else { orig[x] }));
                }
            }
        }
    }

    /// Add one to the register, with carry; returns where the carry stopped
    /// (see `ripple`, which this runs from bit 0 to the last bit).
    pub fn increment(&mut self) -> (r: Option<usize>)
        requires old(self).wf(), old(self).nbits >= 1,
        ensures
            final(self).wf(),
            final(self).nbits == old(self).nbits,
            final(self).data@.len() == old(self).data@.len(),
            final(self).value() == (old(self).value() + 1) % pow2(old(self).nbits as nat),
            r is None <==> old(self).value() + 1 == pow2(old(self).nbits as nat),
            r matches Some(k) ==> k < old(self).nbits && !old(self).bits()[k as int] && final(self).bits()[k as int]
                && forall|j: int| 0 <= j < k ==> #[trigger] old(self).bits()[j] && !final(self).bits()[j],
            forall|j: int| old(self).nbits <= j < old(self).bits().len() ==> #[trigger] final(self).bits()[j] == old(self).bits()[j],
    {
        proof { lemma_capacity(self.nbits as int); }
        let ghost ob = self.bits();
        let n = self.nbits;
        let r = self.ripple(0, n - 1);
        proof {
            let nb = self.bits();
            let nn = n as nat;
            if n >= 1 {
                lemma_num_bound(ob, nn);
                lemma_num_bound(nb, nn);
                match r {
                    Some(k) => {
                        let kk = k as nat;
                        assert forall|j: int| kk + 1 <= j < nn implies nb[j] == ob[j] by {}
                        lemma_num_agree(nb, ob, kk + 1, nn);
                        assert forall|j: int| 0 <= j < kk implies ob[j] == true by {
                            assert(before(0, k as int, j));
                        }
                        assert forall|j: int| 0 <= j < kk implies nb[j] == false by {
                            assert(before(0, k as int, j));
                        }
                        lemma_num_uniform(ob, kk, true);
                        lemma_num_uniform(nb, kk, false);
                        assert(num(ob, kk + 1) == num(ob, kk));
                        assert(num(nb, kk + 1) == num(nb, kk) + pow2(kk));
                        assert(self.value() == num(ob, nn) + 1);
                        assert(self.value() < pow2(nn));
                        vstd::arithmetic::div_mod::lemma_small_mod((num(ob, nn) + 1) as nat, pow2(nn));
                    },
                    None => {
                        assert forall|j: int| 0 <= j < nn implies ob[j] == true by {
                            assert(on_path(0, n - 1, j));
                        }
                        assert forall|j: int| 0 <= j < nn implies nb[j] == false by {
                            assert(on_path(0, n - 1, j));
                        }
                        lemma_num_uniform(ob, nn, true);
                        lemma_num_uniform(nb, nn, false);
                        vstd::arithmetic::div_mod::lemma_mod_self_0(pow2(nn) as int);
                    },
                }
            }
        }
        r
    }

    /// The first `nbits` bits of the register read backwards (bit 0 becomes the
    /// most significant).
    pub fn as_usize_rev(&self) -> (r: usize)
        requires self.data@.len() >= 1, self.nbits <= 64, self.nbits <= width(),
        ensures r == rev_num(self.bits(), self.nbits as nat),
    {
        let mut tmp = self.as_usize();
        let mut res: usize = 0;
        let mut i: usize = 0;
        let ghost b = self.bits();
        proof { crate::bits::lemma_usize(tmp, 0, 0); }
        while i < self.nbits
            invariant
                i <= self.nbits <= width(), self.data@.len() >= 1, b == self.bits(),
                res == rev_num(b, i as nat),
                res < pow2(i as nat),
                i < self.nbits ==> tmp == self.data@[0] >> (i as usize),
            decreases self.nbits - i,
        {
            proof {
                crate::bits::lemma_usize(self.data@[0], i, 0);
                lemma_cell_index(i as int, 1);
                assert(b[i as int] == ((tmp & 1) == 1));
                lemma_pow2_le_width(i as nat + 1);
            }
            let bit = tmp & 1;
            res = res * 2 + bit;
            tmp = tmp >> 1;
            i = i + 1;
        }
        res
    }
}

/// Powers of two up to the word width fit in a `usize` (less one).
proof fn lemma_pow2_le_width(k: nat)
    requires k <= width(),
    ensures pow2(k) - 1 <= usize::MAX,
{
    reveal_with_fuel(pow2, 65);
    lemma_pow2_mono(k, width() as nat);
    assert(pow2(32) == 0x1_0000_0000);
    assert(pow2(64) == 0x1_0000_0000_0000_0000);
}

proof fn lemma_pow2_mono(a: nat, b: nat)
    requires a <= b,
    ensures pow2(a) <= pow2(b),
    decreases b,
{
    if a < b {
        lemma_pow2_mono(a, (b - 1) as nat);
    }
}

} // verus!
