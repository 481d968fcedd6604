//! Optional name registry for nodes in any base.
use vstd::prelude::*;
use vstd::string::*;
use crate::nid::NID;
use crate::vid::{VID, vid_text};

verus! {

/// The map that a list of names and a list of nodes make (a later entry
/// for the same name wins).
pub open spec fn names_map<T>(keys: Seq<String>, vals: Seq<T>) -> Map<Seq<char>, T>
    decreases keys.len(),
{
    if keys.len() == 0 {
        Map::empty()
    } else {
        names_map(keys.drop_last(), vals).insert(keys.last()@, vals[keys.len() - 1])
    }
}

/// A registry of named nodes.
pub struct Names<T> {
    keys: Vec<String>,
    vals: Vec<T>,
}

pub proof fn lemma_names_map_absent<T>(keys: Seq<String>, vals: Seq<T>, k: Seq<char>)
    requires forall|i: int| 0 <= i < keys.len() ==> keys[i]@ != k,
    ensures !names_map(keys, vals).contains_key(k),
    decreases keys.len(),
{
    if keys.len() > 0 {
        lemma_names_map_absent(keys.drop_last(), vals, k);
    }
}

pub proof fn lemma_names_map_at<T>(keys: Seq<String>, vals: Seq<T>, i: int)
    requires
        0 <= i < keys.len(),
        forall|a: int, b: int| 0 <= a < b < keys.len() ==> keys[a]@ != keys[b]@,
    ensures
        names_map(keys, vals).contains_key(keys[i]@),
        names_map(keys, vals)[keys[i]@] == vals[i],
    decreases keys.len(),
{
    if i < keys.len() - 1 {
        lemma_names_map_at(keys.drop_last(), vals, i);
    }
}

proof fn lemma_names_map_update<T>(keys: Seq<String>, vals: Seq<T>, i: int, v: T)
    requires
        0 <= i < keys.len() <= vals.len(),
        forall|a: int, b: int| 0 <= a < b < keys.len() ==> keys[a]@ != keys[b]@,
    ensures names_map(keys, vals.update(i, v)) == names_map(keys, vals).insert(keys[i]@, v),
    decreases keys.len(),
{
    let n = keys.len();
    if i == n - 1 {
        assert forall|j: int| 0 <= j < n - 1 implies keys.drop_last()[j]@ != keys[i]@ by {}
        lemma_names_map_absent(keys.drop_last(), vals, keys[i]@);
        lemma_names_map_absent(keys.drop_last(), vals.update(i, v), keys[i]@);
        lemma_names_map_same(keys.drop_last(), vals, vals.update(i, v));
        assert(names_map(keys, vals.update(i, v)) =~= names_map(keys, vals).insert(keys[i]@, v));
    } else {
        lemma_names_map_update(keys.drop_last(), vals, i, v);
        assert(names_map(keys, vals.update(i, v)) =~= names_map(keys, vals).insert(keys[i]@, v));
    }
}

proof fn lemma_names_map_same<T>(keys: Seq<String>, a: Seq<T>, b: Seq<T>)
    requires forall|j: int| 0 <= j < keys.len() ==> a[j] == b[j],
    ensures names_map(keys, a) == names_map(keys, b),
    decreases keys.len(),
{
    if keys.len() > 0 {
        lemma_names_map_same(keys.drop_last(), a, b);
    }
}

impl<T: Copy> Names<T> {
    /// Every name occurs once, with one node.
    pub closed spec fn wf(&self) -> bool {
        &&& self.keys@.len() == self.vals@.len()
        &&& forall|a: int, b: int| 0 <= a < b < self.keys@.len() ==> self.keys@[a]@ != self.keys@[b]@
    }

    /// The names and the nodes they stand for.
    pub closed spec fn map(&self) -> Map<Seq<char>, T> {
        names_map(self.keys@, self.vals@)
    }

    /// An empty registry.
    pub fn new() -> (r: Names<T>)
        ensures r.wf(), r.map() == Map::<Seq<char>, T>::empty(),
    {
        Names { keys: Vec::new(), vals: Vec::new() }
    }

    fn position(&self, k: &String) -> (r: Option<usize>)
        requires self.wf(),
        ensures
            match r {
                Some(i) => (i as int) < self.keys@.len() && self.keys@[i as int]@ == k@,
                None => forall|i: int| 0 <= i < self.keys@.len() ==> self.keys@[i]@ != k@,
            },
    {
        let mut i: usize = 0;
        while i < self.keys.len()
            invariant
                i <= self.keys@.len(),
                forall|j: int| 0 <= j < i ==> self.keys@[j]@ != k@,
            decreases self.keys@.len() - i,
        {
            if self.keys[i] == *k {
                return Some(i);
            }
            i = i + 1;
        }
        None
    }

    /// Give node `n` the name `s` (replacing any node of that name); returns `n`.
    pub fn tag(&mut self, n: T, s: String) -> (r: T)
        requires old(self).wf(),
        ensures
            r == n,
            final(self).wf(),
            final(self).map() == old(self).map().insert(s@, n),
    {
        match self.position(&s) {
            Some(i) => {
                proof { lemma_names_map_update(self.keys@, self.vals@, i as int, n); }
                self.vals.set(i, n);
            },
            None => {
                let ghost (ok, ov) = (self.keys@, self.vals@);
                self.keys.push(s);
                self.vals.push(n);
                proof {
                    assert(self.keys@.drop_last() =~= ok);
                    lemma_names_map_same(ok, ov, self.vals@);
                }
            },
        }
        n
    }

    /// The node with the given name, if there is one.
    pub fn get(&self, s: &str) -> (r: Option<T>)
        requires self.wf(),
        ensures
            r == if self.map().contains_key(s@) { Some(self.map()[s@]) } else { None::<T> },
    {
        let k = s.to_owned();
        match self.position(&k) {
            Some(i) => {
                proof { lemma_names_map_at(self.keys@, self.vals@, i as int); }
                Some(self.vals[i])
            },
            None => {
                proof { lemma_names_map_absent(self.keys@, self.vals@, k@); }
                None
            },
        }
    }

}

impl Names<NID> {
    /// Name the node of variable `v` with `s` followed by the variable's name,
    /// and return that node.
    pub fn def(&mut self, s: String, v: VID) -> (r: NID)
        requires old(self).wf(),
        ensures
            r == NID::from_vid_spec(v),
            final(self).wf(),
            final(self).map() == old(self).map().insert(s@ + vid_text(v), r),
    {
        let n = NID::from_vid(v);
        let mut name = s;
        let vs = v.to_string();
        name.append(vs.as_str());
        self.tag(n, name)
    }
}


impl Names<NID> {
    /// The names and their nodes, as two lists (no name twice).
    pub fn entries(&self) -> (r: (Vec<String>, Vec<NID>))
        requires self.wf(),
        ensures
            r.0@.len() == r.1@.len(),
            forall|a: int, b: int| 0 <= a < b < r.0@.len() ==> r.0@[a]@ != r.0@[b]@,
            names_map(r.0@, r.1@) == self.map(),
    {
        let mut ks: Vec<String> = Vec::new();
        let mut vs: Vec<NID> = Vec::new();
        let mut i: usize = 0;
        while i < self.keys.len()
            invariant
                self.wf(), i <= self.keys@.len(),
                ks@.len() == i, vs@.len() == i,
                forall|j: int| 0 <= j < i ==> ks@[j] == self.keys@[j] && vs@[j] == self.vals@[j],
            decreases self.keys@.len() - i,
        {
            ks.push(self.keys[i].clone());
            vs.push(self.vals[i]);
            i = i + 1;
        }
        proof {
            assert(ks@ =~= self.keys@);
            assert(vs@ =~= self.vals@);
        }
        (ks, vs)
    }
}

} // verus!
