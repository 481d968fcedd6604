//! Compacting and reordering the nodes of an expression base.
use vstd::prelude::*;
use crate::nid::{NID, INV, negate};
use crate::ops::{self, Ops};
use crate::tags::{Names, names_map, lemma_names_map_absent, lemma_names_map_at};
use crate::simp::not_spec;
use crate::ast::{
    RawASTBase, OpsMap, CAP, is_ixn_spec, idx_of, ixn_spec, ref_ok, node_ok, lemma_ixn,
    lemma_ixn_not, lemma_ixn_bits, items_of, reaches, closed_below, lemma_reaches_closed,
    lemma_reaches_below, cost_vec, max_cost, item_cost, lemma_max_cost_bound,
};
use crate::nid::{F, T, VAR};
use crate::vid::VID;
use crate::apl::{gradeup, goes_before};

verus! {

/// What `vm` gives for each variable (a mask function that `vm` computes).
pub open spec fn ast_mask<VM: Fn(&RawASTBase, VID) -> u64>(vm: VM, b: &RawASTBase) -> spec_fn(VID) -> u64 {
    |v: VID| choose|m: u64| vm.ensures((b, v), m)
}


/// No index occurs twice in `pv`.
pub open spec fn distinct(pv: Seq<usize>) -> bool {
    forall|a: int, b: int| 0 <= a < b < pv.len() ==> pv[a] != pv[b]
}

/// Node `i` is one of those in `pv`.
pub open spec fn in_pv(pv: Seq<usize>, i: nat) -> bool {
    exists|k: int| 0 <= k < pv.len() && pv[k] == i
}

/// The position of node `i` in `pv`.
pub open spec fn pos_in(pv: Seq<usize>, i: nat) -> int {
    choose|k: int| 0 <= k < pv.len() && pv[k] == i
}

/// Where item `x` goes when the nodes of `pv` are numbered by their
/// position in it (an inverted node stays inverted; other items stay).
pub open spec fn renum(pv: Seq<usize>, x: NID) -> NID {
    if is_ixn_spec(x) {
        let r = ixn_spec(pos_in(pv, idx_of(x)) as nat);
        if x.n & INV != 0 { not_spec(r) } else { r }
    } else {
        x
    }
}

/// The nodes that `pv` picks out of `items`, in that order, renumbered.
pub open spec fn moved(items: Seq<Seq<NID>>, pv: Seq<usize>) -> Seq<Seq<NID>> {
    pv.map_values(|i: usize| items[i as int].map_values(|x: NID| renum(pv, x)))
}

/// A name for `n` survives the renumbering: `n` is no node, or a picked one.
pub open spec fn tag_kept(pv: Seq<usize>, n: NID) -> bool {
    !is_ixn_spec(n) || in_pv(pv, idx_of(n))
}

/// The names whose nodes survive, renumbered.
pub open spec fn moved_tags(m: Map<Seq<char>, NID>, pv: Seq<usize>) -> Map<Seq<char>, NID> {
    Map::new(|k: Seq<char>| m.contains_key(k) && tag_kept(pv, m[k]), |k: Seq<char>| renum(pv, m[k]))
}

/// `pv` may pick nodes out of a base with these items: each index is a
/// node, none occurs twice, and each node it picks refers only to picked ones.
pub open spec fn picks(items: Seq<Seq<NID>>, pv: Seq<usize>) -> bool {
    &&& distinct(pv)
    &&& forall|k: int| 0 <= k < pv.len() ==> (#[trigger] pv[k] as int) < items.len()
    &&& forall|k: int, q: int| 0 <= k < pv.len() && 0 <= q < items[pv[k] as int].len()
            && is_ixn_spec(#[trigger] items[pv[k] as int][q])
            ==> in_pv(pv, idx_of(items[pv[k] as int][q]))
}

/// Each node that `pv` picks comes after the nodes it refers to.
pub open spec fn topological(items: Seq<Seq<NID>>, pv: Seq<usize>) -> bool {
    forall|k: int, q: int| 0 <= k < pv.len() && 0 <= q < items[pv[k] as int].len()
        && is_ixn_spec(#[trigger] items[pv[k] as int][q])
        ==> pos_in(pv, idx_of(items[pv[k] as int][q])) < k
}

/// The index of each node of a base of `table.len()` nodes in `pv`, if it is there.
pub open spec fn pos_table(table: Seq<Option<usize>>, pv: Seq<usize>) -> bool {
    forall|i: int| 0 <= i < table.len() ==> match #[trigger] table[i] {
        Some(k) => (k as int) < pv.len() && pv[k as int] == i,
        None => !in_pv(pv, i as nat),
    }
}

pub proof fn lemma_pos_in(pv: Seq<usize>, k: int)
    requires distinct(pv), 0 <= k < pv.len(),
    ensures in_pv(pv, pv[k] as nat), pos_in(pv, pv[k] as nat) == k,
{
    assert(0 <= k < pv.len() && pv[k] == pv[k] as nat);
    let j = pos_in(pv, pv[k] as nat);
    assert(0 <= j < pv.len() && pv[j] == pv[k]);
}

/// A renumbered item may stand in a base of `len` nodes when it is no node,
/// or a node picked at a position below `len`.
proof fn lemma_renum_ok(pv: Seq<usize>, x: NID, old_len: nat, len: nat)
    requires
        ref_ok(x, old_len),
        is_ixn_spec(x) ==> in_pv(pv, idx_of(x)) && pos_in(pv, idx_of(x)) < len,
        len <= CAP,
    ensures ref_ok(renum(pv, x), len),
{
    lemma_ixn_bits(x);
    if is_ixn_spec(x) {
        let p = pos_in(pv, idx_of(x));
        let w = choose|k: int| 0 <= k < pv.len() && pv[k] == idx_of(x);
        assert(0 <= p);
        lemma_ixn(p as u64);
        lemma_ixn_not(ixn_spec(p as nat));
    }
}

/// The position of each node of a base of `n` nodes in `pv`.
fn positions(pv: &[usize], n: usize) -> (r: Vec<Option<usize>>)
    requires distinct(pv@), forall|k: int| 0 <= k < pv@.len() ==> (#[trigger] pv@[k] as int) < n,
    ensures r@.len() == n, pos_table(r@, pv@),
{
    let mut r: Vec<Option<usize>> = Vec::new();
    let mut i: usize = 0;
    while i < n
        invariant i <= n, r@.len() == i, forall|j: int| 0 <= j < i ==> r@[j] is None,
        decreases n - i,
    {
        r.push(None);
        i = i + 1;
    }
    let mut ix: usize = 0;
    while ix < pv.len()
        invariant
            ix <= pv@.len(), r@.len() == n, distinct(pv@),
            forall|k: int| 0 <= k < pv@.len() ==> (#[trigger] pv@[k] as int) < n,
            forall|j: int| 0 <= j < n ==> match #[trigger] r@[j] {
                Some(k) => (k as int) < ix && pv@[k as int] == j,
                None => forall|k: int| 0 <= k < ix ==> pv@[k] != j,
            },
        decreases pv@.len() - ix,
    {
        r.set(pv[ix], Some(ix));
        ix = ix + 1;
    }
    r
}

/// The renumbered item (see `renum`).
fn renum_nid(table: &Vec<Option<usize>>, x: NID, Ghost(pv): Ghost<Seq<usize>>) -> (r: NID)
    requires
        pos_table(table@, pv), distinct(pv), pv.len() <= CAP,
        is_ixn_spec(x) ==> idx_of(x) < table@.len() && in_pv(pv, idx_of(x)),
    ensures r == renum(pv, x),
{
    if x.is_ixn() {
        let i = x.idx();
        match table[i] {
            Some(k) => {
                proof {
                    assert(table@[i as int] == Some(k));
                    lemma_pos_in(pv, k as int);
                    lemma_ixn(k as u64);
                }
                let r = NID::ixn(k);
                if x.is_inv() { negate(r) } else { r }
            },
            None => {
                proof { assert(table@[i as int] is None); }
                x
            },
        }
    } else {
        x
    }
}

/// Adding an entry with a new name to a map of names, then keeping what
/// survives, is keeping what survives of the map and adding the entry if it does.
proof fn lemma_moved_tags_insert(m: Map<Seq<char>, NID>, pv: Seq<usize>, k: Seq<char>, v: NID)
    requires !m.contains_key(k),
    ensures
        moved_tags(m.insert(k, v), pv) == if tag_kept(pv, v) {
            moved_tags(m, pv).insert(k, renum(pv, v))
        } else {
            moved_tags(m, pv)
        },
{
    if tag_kept(pv, v) {
        assert(moved_tags(m.insert(k, v), pv) =~= moved_tags(m, pv).insert(k, renum(pv, v)));
    } else {
        assert(moved_tags(m.insert(k, v), pv) =~= moved_tags(m, pv));
    }
}

impl RawASTBase {
    /// A copy of the base holding the nodes of `pv`, in that order (so
    /// node `pv[k]` becomes node `k`, and references are renumbered to
    /// match). Names of nodes that are not kept are dropped; the expression
    /// cache starts empty. The copy is well formed when each node in `pv`
    /// comes after the nodes it refers to.
    pub fn permute(&self, pv: &[usize]) -> (r: RawASTBase)
        requires self.wf(), picks(items_of(self.bits@), pv@), pv@.len() <= CAP,
        ensures
            items_of(r.bits@) == moved(items_of(self.bits@), pv@),
            r.tags.wf(),
            r.tags.map() == moved_tags(self.tags.map(), pv@),
            r.hash.wf(),
            r.cache() == Map::<Seq<NID>, NID>::empty(),
            topological(items_of(self.bits@), pv@) ==> r.wf(),
    {
        let ghost its = items_of(self.bits@);
        let ghost mv = moved(its, pv@);
        let table = positions(pv, self.bits.len());
        let mut bits: Vec<Ops> = Vec::new();
        let mut ix: usize = 0;
        while ix < pv.len()
            invariant
                self.wf(), picks(its, pv@), pv@.len() <= CAP, its == items_of(self.bits@),
                mv == moved(its, pv@), pos_table(table@, pv@), table@.len() == self.bits@.len(),
                ix <= pv@.len(), bits@.len() == ix,
                forall|j: int| 0 <= j < ix ==> (#[trigger] bits@[j]).items() == mv[j],
                topological(its, pv@) ==> forall|j: int| 0 <= j < ix ==> node_ok(#[trigger] bits@[j], j as nat),
            decreases pv@.len() - ix,
        {
            let old = pv[ix];
            let items = self.bits[old].to_rpn();
            let mut res: Vec<NID> = Vec::new();
            let mut j: usize = 0;
            while j < items.len()
                invariant
                    self.wf(), picks(its, pv@), pv@.len() <= CAP, its == items_of(self.bits@),
                    pos_table(table@, pv@), table@.len() == self.bits@.len(),
                    ix < pv@.len(), old == pv@[ix as int], items@ == its[old as int],
                    j <= items@.len(), res@.len() == j,
                    forall|q: int| 0 <= q < j ==> res@[q] == renum(pv@, #[trigger] items@[q]),
                decreases items@.len() - j,
            {
                let x = items[j];
                proof {
                    assert(its[pv@[ix as int] as int][j as int] == x);
                    assert(node_ok(self.bits@[old as int], old as nat));
                    assert(ref_ok(self.bits@[old as int].items()[j as int], old as nat));
                }
                let y = renum_nid(&table, x, Ghost(pv@));
                res.push(y);
                j = j + 1;
            }
            let o = ops::rpn(res.as_slice());
            proof {
                assert(o.items() =~= mv[ix as int]);
                if topological(its, pv@) {
                    assert forall|q: int| 0 <= q < o.items().len() implies #[trigger] ref_ok(o.items()[q], ix as nat) by {
                        let x = items@[q];
                        assert(its[pv@[ix as int] as int][q] == x);
                        assert(node_ok(self.bits@[old as int], old as nat));
                        assert(ref_ok(self.bits@[old as int].items()[q], old as nat));
                        lemma_renum_ok(pv@, x, old as nat, ix as nat);
                    }
                }
            }
            bits.push(o);
            ix = ix + 1;
        }
        proof {
            assert(items_of(bits@) =~= mv);
        }
        let (ks, vs) = self.tags.entries();
        let mut tags = Names::new();
        let mut i: usize = 0;
        while i < ks.len()
            invariant
                self.wf(), picks(its, pv@), pv@.len() <= CAP, its == items_of(self.bits@),
                pos_table(table@, pv@), table@.len() == self.bits@.len(),
                ks@.len() == vs@.len(), i <= ks@.len(),
                forall|a: int, b: int| 0 <= a < b < ks@.len() ==> ks@[a]@ != ks@[b]@,
                names_map(ks@, vs@) == self.tags.map(),
                tags.wf(),
                tags.map() == moved_tags(names_map(ks@.take(i as int), vs@), pv@),
            decreases ks@.len() - i,
        {
            let nid = vs[i];
            let ghost prev = names_map(ks@.take(i as int), vs@);
            proof {
                lemma_names_map_at(ks@, vs@, i as int);
                assert(self.tags.map().contains_key(ks@[i as int]@));
                assert(ref_ok(nid, self.bits@.len()));
                lemma_ixn_bits(nid);
                assert(ks@.take(i as int + 1).drop_last() =~= ks@.take(i as int));
                assert(names_map(ks@.take(i as int + 1), vs@) == prev.insert(ks@[i as int]@, nid));
                assert forall|j: int| 0 <= j < ks@.take(i as int).len() implies ks@.take(i as int)[j]@ != ks@[i as int]@ by {}
                lemma_names_map_absent(ks@.take(i as int), vs@, ks@[i as int]@);
                lemma_moved_tags_insert(prev, pv@, ks@[i as int]@, nid);
            }
            let kept = if nid.is_ixn() { table[nid.idx()].is_some() } else { true };
            proof {
                if is_ixn_spec(nid) {
                    let t = table@[idx_of(nid) as int];
                    if t is Some {
                        lemma_pos_in(pv@, t->0 as int);
                    }
                }
                assert(kept == tag_kept(pv@, nid));
            }
            if kept {
                let y = renum_nid(&table, nid, Ghost(pv@));
                let name = ks[i].clone();
                tags.tag(y, name);
            }
            i = i + 1;
        }
        proof {
            assert(ks@.take(ks@.len() as int) =~= ks@);
        }
        let r = RawASTBase { bits, tags, hash: OpsMap::new(), log: Ghost(Seq::empty()) };
        proof {
            assert forall|k: Seq<char>| #[trigger] r.tags.map().contains_key(k) implies ref_ok(r.tags.map()[k], r.bits@.len()) by {
                let v = self.tags.map()[k];
                assert(self.tags.map().contains_key(k));
                if is_ixn_spec(v) {
                    let w = choose|w: int| 0 <= w < pv@.len() && pv@[w] == idx_of(v);
                    lemma_pos_in(pv@, w);
                }
                lemma_renum_ok(pv@, v, self.bits@.len(), r.bits@.len());
            }
        }
        r
    }
}

/// Some node of `keep` reaches node `j`.
pub open spec fn needed(bits: Seq<Ops>, keep: Seq<NID>, j: nat) -> bool {
    exists|q: int| 0 <= q < keep.len() && reaches(bits, #[trigger] keep[q], j)
}

/// The nodes below `n` that some node of `keep` reaches, in ascending order.
pub open spec fn needed_upto(bits: Seq<Ops>, keep: Seq<NID>, n: nat) -> Seq<usize>
    decreases n,
{
    if n == 0 {
        seq![]
    } else {
        let s = needed_upto(bits, keep, (n - 1) as nat);
        if needed(bits, keep, (n - 1) as nat) { s.push((n - 1) as usize) } else { s }
    }
}

/// The nodes of the base that some node of `keep` reaches, in ascending order.
pub open spec fn kept_nodes(bits: Seq<Ops>, keep: Seq<NID>) -> Seq<usize> {
    needed_upto(bits, keep, bits.len())
}

proof fn lemma_needed_upto(bits: Seq<Ops>, keep: Seq<NID>, n: nat)
    requires n <= CAP,
    ensures ({
        let s = needed_upto(bits, keep, n);
        &&& s.len() <= n
        &&& forall|k: int| 0 <= k < s.len() ==> (#[trigger] s[k] as nat) < n && needed(bits, keep, s[k] as nat)
        &&& forall|a: int, b: int| 0 <= a < b < s.len() ==> s[a] < s[b]
        &&& forall|j: nat| j < n && #[trigger] needed(bits, keep, j) ==> in_pv(s, j)
    }),
    decreases n,
{
    if n > 0 {
        lemma_needed_upto(bits, keep, (n - 1) as nat);
        let p = needed_upto(bits, keep, (n - 1) as nat);
        let s = needed_upto(bits, keep, n);
        assert forall|j: nat| j < n && #[trigger] needed(bits, keep, j) implies in_pv(s, j) by {
            if j < n - 1 {
                let w = choose|w: int| 0 <= w < p.len() && p[w] == j;
                assert(s[w] == j);
            } else {
                assert(s[s.len() - 1] == j);
            }
        }
    }
}

/// Marks closed under dependency: what a marked node refers to is marked.
proof fn lemma_marks_closed(bits: Seq<Ops>, keep: Seq<NID>, q: int, seen: Seq<bool>, b: nat)
    requires
        forall|i: int| 0 <= i < bits.len() ==> node_ok(#[trigger] bits[i], i as nat),
        seen.len() == bits.len(),
        forall|j: int| 0 <= j < seen.len() ==> #[trigger] seen[j] == exists|p: int| 0 <= p < q && reaches(bits, #[trigger] keep[p], j as nat),
    ensures closed_below(bits, seen, b),
{
    assert forall|i: int, k: int| 0 <= i < b && i < seen.len() && seen[i] && 0 <= k < bits[i].items().len()
        && is_ixn_spec(#[trigger] bits[i].items()[k]) implies seen[idx_of(bits[i].items()[k]) as int] by {
        let x = bits[i].items()[k];
        let p = choose|p: int| 0 <= p < q && reaches(bits, #[trigger] keep[p], i as nat);
        lemma_reaches_closed(bits, keep[p], i as nat, k);
        lemma_reaches_below(bits, keep[p], idx_of(x));
        assert(seen[idx_of(x) as int]);
    }
}

impl RawASTBase {
    /// A copy of the base with only the nodes needed to define the nodes of
    /// `keep` (in their old relative order), and the new nids of `keep`.
    pub fn gc(&self, keep: Vec<NID>) -> (r: (RawASTBase, Vec<NID>))
        requires
            self.wf(),
            forall|q: int| 0 <= q < keep@.len() ==> is_ixn_spec(#[trigger] keep@[q]) && idx_of(keep@[q]) < self.bits@.len(),
        ensures ({
            let kept = kept_nodes(self.bits@, keep@);
            &&& r.0.wf()
            &&& items_of(r.0.bits@) == moved(items_of(self.bits@), kept)
            &&& r.0.tags.map() == moved_tags(self.tags.map(), kept)
            &&& r.0.cache() == Map::<Seq<NID>, NID>::empty()
            &&& r.1@ == keep@.map_values(|x: NID| renum(kept, x))
        }),
    {
        let n = self.bits.len();
        let mut deps: Vec<bool> = Vec::new();
        let mut i: usize = 0;
        while i < n
            invariant i <= n, n == self.bits@.len(), deps@.len() == i, forall|j: int| 0 <= j < i ==> !deps@[j],
            decreases n - i,
        {
            deps.push(false);
            i = i + 1;
        }
        let mut q: usize = 0;
        while q < keep.len()
            invariant
                self.wf(), n == self.bits@.len(), deps@.len() == n, q <= keep@.len(),
                forall|p: int| 0 <= p < keep@.len() ==> is_ixn_spec(#[trigger] keep@[p]) && idx_of(keep@[p]) < self.bits@.len(),
                forall|j: int| 0 <= j < deps@.len() ==> #[trigger] deps@[j] == exists|p: int| 0 <= p < q && reaches(self.bits@, #[trigger] keep@[p], j as nat),
            decreases keep@.len() - q,
        {
            proof { lemma_marks_closed(self.bits@, keep@, q as int, deps@, idx_of(keep@[q as int]) + 1); }
            let ghost d0 = deps@;
            self.markdeps(keep[q], &mut deps);
            proof {
                assert forall|j: int| 0 <= j < deps@.len() implies #[trigger] deps@[j] == exists|p: int| 0 <= p < q + 1 && reaches(self.bits@, #[trigger] keep@[p], j as nat) by {
                    if reaches(self.bits@, keep@[q as int], j as nat) {
                        assert(0 <= q < q + 1 && reaches(self.bits@, keep@[q as int], j as nat));
                    }
                    if exists|p: int| 0 <= p < q + 1 && reaches(self.bits@, #[trigger] keep@[p], j as nat) {
                        let p = choose|p: int| 0 <= p < q + 1 && reaches(self.bits@, #[trigger] keep@[p], j as nat);
                        if p < q {
                            assert(d0[j]);
                        }
                    }
                }
            }
            q = q + 1;
        }
        let ghost its = items_of(self.bits@);
        let mut kept: Vec<usize> = Vec::new();
        let mut i: usize = 0;
        while i < n
            invariant
                i <= n, n == self.bits@.len(), n <= CAP, deps@.len() == n,
                forall|j: int| 0 <= j < deps@.len() ==> #[trigger] deps@[j] == needed(self.bits@, keep@, j as nat),
                kept@ == needed_upto(self.bits@, keep@, i as nat),
            decreases n - i,
        {
            if deps[i] {
                kept.push(i);
            }
            i = i + 1;
        }
        proof {
            lemma_needed_upto(self.bits@, keep@, n as nat);
            let kk = kept@;
            assert forall|k: int, p: int| 0 <= k < kk.len() && 0 <= p < its[kk[k] as int].len()
                && is_ixn_spec(#[trigger] its[kk[k] as int][p])
                implies in_pv(kk, idx_of(its[kk[k] as int][p])) && pos_in(kk, idx_of(its[kk[k] as int][p])) < k by {
                let j = kk[k] as nat;
                let x = its[j as int][p];
                assert(x == self.bits@[j as int].items()[p]);
                assert(node_ok(self.bits@[j as int], j));
                assert(ref_ok(x, j));
                lemma_ixn_bits(x);
                let w = choose|w: int| 0 <= w < keep@.len() && reaches(self.bits@, #[trigger] keep@[w], j);
                lemma_reaches_closed(self.bits@, keep@[w], j, p);
                assert(needed(self.bits@, keep@, idx_of(x)));
                let t = choose|t: int| 0 <= t < kk.len() && kk[t] == idx_of(x);
                lemma_pos_in(kk, t);
            }
        }
        let base = self.permute(kept.as_slice());
        let table = positions(kept.as_slice(), n);
        let mut out: Vec<NID> = Vec::new();
        let mut q: usize = 0;
        while q < keep.len()
            invariant
                n == self.bits@.len(), n <= CAP, q <= keep@.len(), out@.len() == q,
                kept@ == kept_nodes(self.bits@, keep@), distinct(kept@), kept@.len() <= n,
                pos_table(table@, kept@), table@.len() == n,
                forall|p: int| 0 <= p < keep@.len() ==> is_ixn_spec(#[trigger] keep@[p]) && idx_of(keep@[p]) < self.bits@.len(),
                forall|j: nat| j < n && #[trigger] needed(self.bits@, keep@, j) ==> in_pv(kept@, j),
                forall|p: int| 0 <= p < q ==> out@[p] == renum(kept@, #[trigger] keep@[p]),
            decreases keep@.len() - q,
        {
            let x = keep[q];
            proof {
                assert(reaches(self.bits@, keep@[q as int], idx_of(x)));
                assert(needed(self.bits@, keep@, idx_of(x)));
            }
            out.push(renum_nid(&table, x, Ghost(kept@)));
            q = q + 1;
        }
        proof {
            assert(out@ =~= keep@.map_values(|x: NID| renum(kept@, x)));
        }
        (base, out)
    }
}

/// `perm` orders the positions of `costs` by cost, keeping equal costs in
/// their order (a stable sort).
pub open spec fn sorts(costs: Seq<u64>, perm: Seq<usize>) -> bool {
    &&& perm.len() == costs.len()
    &&& forall|k: int| 0 <= k < perm.len() ==> (#[trigger] perm[k] as int) < costs.len()
    &&& forall|k: nat| k < costs.len() ==> #[trigger] in_pv(perm, k)
    &&& forall|a: int, b: int| 0 <= a < b < perm.len() ==> goes_before(costs, perm[a], perm[b])
}

proof fn lemma_cost_vec(items: Seq<Seq<NID>>, n: nat)
    requires n <= CAP,
    ensures
        cost_vec(items, n).len() == n,
        forall|j: int| 0 <= j < n ==> #[trigger] cost_vec(items, n)[j] <= j + 2,
        forall|m: nat, j: int| m <= n && 0 <= j < m ==> cost_vec(items, n)[j] == #[trigger] cost_vec(items, m)[j],
    decreases n,
{
    if n > 0 {
        lemma_cost_vec(items, (n - 1) as nat);
        let c = cost_vec(items, (n - 1) as nat);
        lemma_max_cost_bound(c, items[n - 1], items[n - 1].len(), n as u64);
    }
}

proof fn lemma_max_cost_ge(costs: Seq<u64>, items: Seq<NID>, k: nat, q: int)
    requires 0 <= q < k,
    ensures max_cost(costs, items, k) >= item_cost(costs, items[q]),
    decreases k,
{
    if q < k - 1 {
        lemma_max_cost_ge(costs, items, (k - 1) as nat, q);
    }
}

/// A node costs more than each node it refers to.
proof fn lemma_cost_order(items: Seq<Seq<NID>>, n: nat, i: int, q: int)
    requires
        n <= CAP, 0 <= i < n, 0 <= q < items[i].len(), is_ixn_spec(items[i][q]), idx_of(items[i][q]) < i,
    ensures cost_vec(items, n)[idx_of(items[i][q]) as int] < cost_vec(items, n)[i],
{
    let x = items[i][q];
    let j = idx_of(x) as int;
    lemma_cost_vec(items, n);
    lemma_cost_vec(items, (i + 1) as nat);
    lemma_cost_vec(items, i as nat);
    let c = cost_vec(items, i as nat);
    lemma_ixn_bits(x);
    lemma_max_cost_ge(c, items[i], items[i].len(), q);
    lemma_max_cost_bound(c, items[i], items[i].len(), (i + 1) as u64);
    assert(item_cost(c, x) == c[j]);
    assert(cost_vec(items, (i + 1) as nat) == c.push((1 + max_cost(c, items[i], items[i].len())) as u64));
    assert(cost_vec(items, n)[i] == cost_vec(items, (i + 1) as nat)[i]);
    assert(cost_vec(items, n)[j] == cost_vec(items, i as nat)[j]);
}

impl RawASTBase {
    /// A copy of the base with only the nodes needed to define the nodes of
    /// `keep` (as `gc` makes it), with the nodes then reordered by increasing
    /// cost (cheapest first, equal costs keeping their order); and the new
    /// nids of `keep`.
    pub fn repack(&self, keep: Vec<NID>) -> (r: (RawASTBase, Vec<NID>))
        requires
            self.wf(),
            forall|q: int| 0 <= q < keep@.len() ==> is_ixn_spec(#[trigger] keep@[q]) && idx_of(keep@[q]) < self.bits@.len(),
        ensures ({
            let kept = kept_nodes(self.bits@, keep@);
            let gi = moved(items_of(self.bits@), kept);
            &&& r.0.wf()
            &&& r.0.cache() == Map::<Seq<NID>, NID>::empty()
            &&& exists|perm: Seq<usize>| #[trigger] sorts(cost_vec(gi, gi.len()), perm)
                && items_of(r.0.bits@) == moved(gi, perm)
                && r.0.tags.map() == moved_tags(moved_tags(self.tags.map(), kept), perm)
                && r.1@ == keep@.map_values(|x: NID| renum(perm, renum(kept, x)))
        }),
    {
        let ghost kept = kept_nodes(self.bits@, keep@);
        let ghost gi = moved(items_of(self.bits@), kept);
        let (base, kept_nids) = self.gc(keep);
        let n = base.len();
        proof {
            lemma_needed_upto(self.bits@, keep@, self.bits@.len());
            assert(items_of(base.bits@).len() == base.bits@.len());
            assert(gi.len() == kept.len());
            assert(kept.len() == n);
        }
        if base.is_empty() {
            proof {
                let e = Seq::<usize>::empty();
                assert(keep@.len() == 0) by {
                    if keep@.len() > 0 {
                        assert(reaches(self.bits@, keep@[0], idx_of(keep@[0])));
                        assert(needed(self.bits@, keep@, idx_of(keep@[0])));
                        assert(in_pv(kept, idx_of(keep@[0])));
                    }
                }
                assert(sorts(cost_vec(gi, gi.len()), e));
                assert(items_of(base.bits@) =~= moved(gi, e));
                assert forall|k: Seq<char>| #[trigger] base.tags.map().contains_key(k) implies tag_kept(e, base.tags.map()[k])
                    && renum(e, base.tags.map()[k]) == base.tags.map()[k] by {
                    lemma_ixn_bits(base.tags.map()[k]);
                }
                assert(base.tags.map() =~= moved_tags(base.tags.map(), e));
                assert(kept_nids@ =~= keep@.map_values(|x: NID| renum(e, renum(kept, x))));
            }
            return (base, kept_nids);
        }
        let costs = base.node_costs();
        let perm = gradeup(costs.as_slice());
        let ghost c = costs@;
        let ghost gb = items_of(base.bits@);
        proof {
            assert(gb == gi);
            lemma_cost_vec(gi, n as nat);
            assert forall|a: int, b: int| 0 <= a < b < perm@.len() implies perm@[a] != perm@[b] by {
                assert(goes_before(c, perm@[a], perm@[b]));
            }
            assert forall|k: nat| k < c.len() implies #[trigger] in_pv(perm@, k) by {
                assert(perm@.contains(k as usize));
            }
            assert(sorts(c, perm@));
            assert forall|k: int, q: int| 0 <= k < perm@.len() && 0 <= q < gb[perm@[k] as int].len()
                && is_ixn_spec(#[trigger] gb[perm@[k] as int][q])
                implies in_pv(perm@, idx_of(gb[perm@[k] as int][q])) && pos_in(perm@, idx_of(gb[perm@[k] as int][q])) < k by {
                let i = perm@[k] as int;
                let x = gb[i][q];
                assert(x == base.bits@[i].items()[q]);
                assert(node_ok(base.bits@[i], i as nat));
                assert(ref_ok(x, i as nat));
                lemma_ixn_bits(x);
                let j = idx_of(x) as int;
                assert(in_pv(perm@, j as nat));
                let p = choose|p: int| 0 <= p < perm@.len() && perm@[p] == j;
                lemma_pos_in(perm@, p);
                lemma_cost_order(gb, n as nat, i, q);
                if p > k {
                    assert(goes_before(c, perm@[k], perm@[p]));
                }
            }
        }
        let table = positions(perm.as_slice(), n);
        let mut out: Vec<NID> = Vec::new();
        let mut q: usize = 0;
        while q < kept_nids.len()
            invariant
                n == base.bits@.len(), n <= CAP, q <= kept_nids@.len(), out@.len() == q,
                distinct(perm@), perm@.len() == n, pos_table(table@, perm@), table@.len() == n,
                forall|k: nat| k < n ==> #[trigger] in_pv(perm@, k),
                kept_nids@ == keep@.map_values(|x: NID| renum(kept, x)),
                kept.len() == n,
                forall|p: int| 0 <= p < keep@.len() ==> is_ixn_spec(#[trigger] keep@[p]) && idx_of(keep@[p]) < self.bits@.len(),
                forall|j: nat| j < self.bits@.len() && #[trigger] needed(self.bits@, keep@, j) ==> in_pv(kept, j),
                forall|p: int| 0 <= p < q ==> out@[p] == renum(perm@, #[trigger] kept_nids@[p]),
            decreases kept_nids@.len() - q,
        {
            let x = kept_nids[q];
            proof {
                let y = keep@[q as int];
                assert(reaches(self.bits@, y, idx_of(y)));
                assert(needed(self.bits@, keep@, idx_of(y)));
                let w = choose|w: int| 0 <= w < kept.len() && kept[w] == idx_of(y);
                let p = pos_in(kept, idx_of(y));
                assert(0 <= p < kept.len());
                lemma_ixn(p as u64);
                lemma_ixn_not(ixn_spec(p as nat));
            }
            out.push(renum_nid(&table, x, Ghost(perm@)));
            q = q + 1;
        }
        let packed = base.permute(perm.as_slice());
        proof {
            assert(kept_nids@.len() == keep@.len());
            assert forall|p: int| 0 <= p < keep@.len() implies out@[p] == renum(perm@, renum(kept, keep@[p])) by {
                assert(kept_nids@[p] == renum(kept, keep@[p]));
            }
            assert(out@ =~= keep@.map_values(|x: NID| renum(perm@, renum(kept, x))));
            assert(sorts(cost_vec(gi, gi.len()), perm@));
        }
        (packed, out)
    }
}

/// The mask of an item, given the masks of the nodes before it and the
/// masks of the variables: tables and constants have none.
pub open spec fn item_mask(masks: Seq<u64>, vm: spec_fn(VID) -> u64, x: NID) -> u64 {
    if x.n & F == F { 0 }
    else if x.n & T != 0 { 0 }
    else if x.n & VAR != 0 { vm(x.vid_spec()) }
    else if is_ixn_spec(x) && idx_of(x) < masks.len() { masks[idx_of(x) as int] }
    else { 0 }
}

/// The union of the masks of the first `k` items.
pub open spec fn or_masks(masks: Seq<u64>, vm: spec_fn(VID) -> u64, items: Seq<NID>, k: nat) -> u64
    decreases k,
{
    if k == 0 { 0 } else { or_masks(masks, vm, items, (k - 1) as nat) | item_mask(masks, vm, items[k - 1]) }
}

/// The masks of the first `n` nodes: each the union of the masks of its items.
pub open spec fn mask_vec(items: Seq<Seq<NID>>, vm: spec_fn(VID) -> u64, n: nat) -> Seq<u64>
    decreases n,
{
    if n == 0 {
        seq![]
    } else {
        let m = mask_vec(items, vm, (n - 1) as nat);
        m.push(or_masks(m, vm, items[n - 1], items[n - 1].len()))
    }
}

impl RawASTBase {
    /// Given a function that maps each input variable to a 64-bit mask, the
    /// mask of each node: the union of the masks of its inputs (so each
    /// node is colored by the inputs, or groups of inputs, it depends on).
    /// The masks are those `vm` computes, one per variable (`ast_mask`).
    pub fn node_masks<VM: Fn(&RawASTBase, VID) -> u64>(&self, vm: VM) -> (r: Vec<u64>)
        requires
            self.wf(),
            forall|v: VID| #[trigger] vm.requires((self, v)),
            forall|v: VID, m1: u64, m2: u64| #![trigger vm.ensures((self, v), m1), vm.ensures((self, v), m2)]
                vm.ensures((self, v), m1) && vm.ensures((self, v), m2) ==> m1 == m2,
        ensures r@ == mask_vec(items_of(self.bits@), ast_mask(vm, self), self.bits@.len()),
    {
        let ghost vmask = ast_mask(vm, self);
        proof {
            assert forall|v: VID, m: u64| #[trigger] vm.ensures((self, v), m) implies m == vmask(v) by {
                assert(vm.ensures((self, v), vmask(v)));
            }
        }
        let ghost its = items_of(self.bits@);
        let mut masks: Vec<u64> = Vec::new();
        let mut i: usize = 0;
        while i < self.bits.len()
            invariant
                i <= self.bits@.len(), its == items_of(self.bits@),
                masks@ == mask_vec(its, vmask, i as nat), masks@.len() == i,
                forall|v: VID| #[trigger] vm.requires((self, v)),
                forall|v: VID, m: u64| #[trigger] vm.ensures((self, v), m) ==> m == vmask(v),
            decreases self.bits@.len() - i,
        {
            let items = self.bits[i].to_rpn();
            let mut mask: u64 = 0;
            let mut k: usize = 0;
            while k < items.len()
                invariant
                    k <= items@.len(), items@ == self.bits@[i as int].items(), masks@.len() == i,
                    mask == or_masks(masks@, vmask, items@, k as nat),
                    forall|v: VID| #[trigger] vm.requires((self, v)),
                    forall|v: VID, m: u64| #[trigger] vm.ensures((self, v), m) ==> m == vmask(v),
                decreases items@.len() - k,
            {
                let op = items[k];
                let op_mask: u64 = if op.is_fun() { 0 }
                    else if op.is_const() { 0 }
                    else if op.is_vid() { vm(self, op.vid()) }
                    else if op.is_ixn() && op.idx() < masks.len() { masks[op.idx()] }
                    else { 0 };
                mask = mask | op_mask;
                k = k + 1;
            }
            proof { assert(its[i as int] == items@); }
            masks.push(mask);
            i = i + 1;
        }
        masks
    }
}

} // verus!
