//! Snapshot records: what kind of store a snapshot holds and where it came from.
use vstd::prelude::*;
use crate::vid::VID;

verus! {

/// Identifies a snapshot.
#[derive(Clone, Copy, Debug, PartialEq, Eq, Structural)]
pub struct SnapshotId(pub i64);

/// The kind of store a snapshot holds.
#[derive(Clone, Copy, Debug, PartialEq, Eq, Structural)]
pub enum SnapshotKind {
    Scaffold,
    Bdd,
    Anf,
}

/// The name a kind is stored under.
pub open spec fn kind_text(k: SnapshotKind) -> Seq<char> {
    match k {
        SnapshotKind::Scaffold => "scaffold"@,
        SnapshotKind::Bdd => "bdd"@,
        SnapshotKind::Anf => "anf"@,
    }
}

impl SnapshotKind {
    /// The name of the kind.
    pub fn as_str(&self) -> (r: &'static str)
        ensures r@ == kind_text(*self),
    {
        match self {
            SnapshotKind::Scaffold => "scaffold",
            SnapshotKind::Bdd => "bdd",
            SnapshotKind::Anf => "anf",
        }
    }

    /// The kind with the given name (the name must be one of the three).
    pub fn from_str_kind(s: &str) -> (r: SnapshotKind)
        requires s@ == "scaffold"@ || s@ == "bdd"@ || s@ == "anf"@,
        ensures kind_text(r) == s@,
    {
        proof { lemma_kind_names(); }
        let cs = crate::text::chars_of(s);
        if cs.len() == 8 {
            SnapshotKind::Scaffold
        } else if cs.len() == 3 && cs[0] == 'b' {
            SnapshotKind::Bdd
        } else {
            SnapshotKind::Anf
        }
    }
}

/// The three names.
proof fn lemma_kind_names()
    ensures
        "scaffold"@ == seq!['s', 'c', 'a', 'f', 'f', 'o', 'l', 'd'],
        "bdd"@ == seq!['b', 'd', 'd'],
        "anf"@ == seq!['a', 'n', 'f'],
{
    reveal_strlit("scaffold");
    reveal_strlit("bdd");
    reveal_strlit("anf");
}

/// Reading back the name of a kind gives the kind: different kinds have
/// different names.
pub proof fn lemma_kind_roundtrip(a: SnapshotKind, b: SnapshotKind)
    ensures kind_text(a) == kind_text(b) ==> a == b,
{
    lemma_kind_names();
    if kind_text(a) == kind_text(b) {
        assert(kind_text(a).len() == kind_text(b).len());
        assert(kind_text(a)[0] == kind_text(b)[0]);
    }
}

/// What is recorded about a snapshot.
#[derive(Clone, Debug)]
pub struct SnapshotMeta {
    pub id: SnapshotId,
    pub parent: Option<SnapshotId>,
    pub kind: SnapshotKind,
    pub step: Option<u32>,
    pub rv: Option<VID>,
    pub note: Option<String>,
    pub created_at: i64,
    pub vids: Vec<VID>,
    pub num_nodes: usize,
}

/// What a caller gives when making a snapshot (the id and the time are filled in).
pub struct SnapshotMetaInput {
    pub parent: Option<SnapshotId>,
    pub step: Option<u32>,
    pub rv: Option<VID>,
    pub note: Option<String>,
}

} // verus!
