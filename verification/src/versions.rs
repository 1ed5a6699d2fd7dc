//! The version catalog and the preflight checks on the target version.
//!
//! The catalog maps schema ids to names and classifies each as a release or
//! a snapshot. The external catalog is handed in as plain data, ordered by
//! id, so every lookup the driver makes is checked here.
use vstd::prelude::*;

use crate::nbt::bytes_eq;

verus! {

/// One catalog row: a schema id, its display name, its classification.
pub struct VersionEntry {
    pub id: u32,
    pub name: Vec<u8>,
    /// True for snapshot builds, false for releases.
    pub snapshot: bool,
}

/// The whole catalog, ordered by ascending id.
pub struct VersionCatalog {
    pub entries: Vec<VersionEntry>,
}

/// Why a target version is refused before any work starts.
#[derive(Debug, PartialEq, Eq, Structural, Clone, Copy)]
pub enum PreflightError {
    /// The requested name is not in the catalog.
    UnknownVersion,
    /// The requested name is a snapshot and snapshots were not allowed.
    SnapshotRefused,
}

impl VersionCatalog {
    /// Ids strictly increase along the catalog.
    pub open spec fn wf(self) -> bool {
        forall|i: int, j: int|
            0 <= i < j < self.entries@.len() ==> (#[trigger] self.entries@[i]).id < (
            #[trigger] self.entries@[j]).id
    }

    /// Whether some row carries this id.
    pub open spec fn knows(self, id: u32) -> bool {
        exists|i: int| 0 <= i < self.entries@.len() && (#[trigger] self.entries@[i]).id == id
    }

    /// The first row whose name is `n`, if any.
    pub open spec fn by_name(self, n: Seq<u8>) -> Option<(u32, bool)> {
        by_name_seq(self.entries@, n)
    }

    /// The newest id the catalog knows.
    pub open spec fn spec_latest(self) -> u32
        recommends
            self.entries@.len() > 0,
    {
        self.entries@.last().id
    }

    /// Whether some row carries this id.
    pub fn contains_id(&self, id: u32) -> (r: bool)
        ensures
            r == self.knows(id),
    {
        let n = self.entries.len();
        let mut i: usize = 0;
        while i < n
            invariant
                n == self.entries@.len(),
                0 <= i <= n,
                forall|j: int| 0 <= j < i ==> (#[trigger] self.entries@[j]).id != id,
            decreases n - i,
        {
            if self.entries[i].id == id {
                return true;
            }
            i += 1;
        }
        false
    }

    /// The first row named `n`: its id and whether it is a snapshot.
    pub fn find_by_name(&self, n: &[u8]) -> (r: Option<(u32, bool)>)
        ensures
            r == self.by_name(n@),
    {
        let cnt = self.entries.len();
        let mut i: usize = 0;
        while i < cnt
            invariant
                cnt == self.entries@.len(),
                0 <= i <= cnt,
                forall|j: int| 0 <= j < i ==> (#[trigger] self.entries@[j]).name@ != n@,
            decreases cnt - i,
        {
            if bytes_eq(self.entries[i].name.as_slice(), n) {
                proof {
                    lemma_by_name_skip(self.entries@, n@, i as int);
                    assert(self.entries@.skip(i as int)[0] == self.entries@[i as int]);
                }
                return Some((self.entries[i].id, self.entries[i].snapshot));
            }
            i += 1;
        }
        proof {
            lemma_by_name_skip(self.entries@, n@, cnt as int);
        }
        None
    }

    /// The newest id the catalog knows.
    pub fn latest(&self) -> (r: u32)
        requires
            self.entries@.len() > 0,
        ensures
            r == self.spec_latest(),
    {
        self.entries[self.entries.len() - 1].id
    }

    /// Resolve the operator's target: the named version's id, refused when
    /// the name is unknown, or a snapshot without leave to use snapshots.
    pub fn resolve_target(&self, name: &[u8], allow_snapshots: bool) -> (r: Result<
        u32,
        PreflightError,
    >)
        ensures
            match self.by_name(name@) {
                None => r == Err::<u32, PreflightError>(PreflightError::UnknownVersion),
                Some((id, snapshot)) => if snapshot && !allow_snapshots {
                    r == Err::<u32, PreflightError>(PreflightError::SnapshotRefused)
                } else {
                    r == Ok::<u32, PreflightError>(id)
                },
            },
    {
        match self.find_by_name(name) {
            None => Err(PreflightError::UnknownVersion),
            Some((id, snapshot)) => {
                if snapshot && !allow_snapshots {
                    Err(PreflightError::SnapshotRefused)
                } else {
                    Ok(id)
                }
            },
        }
    }
}

/// The first row named `n` among the given rows.
pub open spec fn by_name_seq(s: Seq<VersionEntry>, n: Seq<u8>) -> Option<(u32, bool)>
    decreases s,
{
    if s.len() == 0 {
        None
    } else if s[0].name@ == n {
        Some((s[0].id, s[0].snapshot))
    } else {
        by_name_seq(s.skip(1), n)
    }
}

/// While no row among the first `i` is named `n`, the search is decided by
/// the remaining rows.
proof fn lemma_by_name_skip(s: Seq<VersionEntry>, n: Seq<u8>, i: int)
    requires
        0 <= i <= s.len(),
        forall|j: int| 0 <= j < i ==> (#[trigger] s[j]).name@ != n,
    ensures
        by_name_seq(s, n) == by_name_seq(s.skip(i), n),
    decreases i,
{
    if i == 0 {
        assert(s.skip(0) =~= s);
    } else {
        assert(s[0].name@ != n);
        assert forall|j: int| 0 <= j < i - 1 implies (#[trigger] s.skip(1)[j]).name@ != n by {
            assert(s.skip(1)[j] == s[j + 1]);
        }
        lemma_by_name_skip(s.skip(1), n, i - 1);
        assert(s.skip(1).skip(i - 1) =~= s.skip(i));
    }
}

} // verus!
