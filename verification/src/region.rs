//! Region sharding for the parallel region-folder traversal.
//!
//! Chunks are grouped by the region file that holds them, the 32-by-32
//! grid cell of their coordinates. Workers each take whole shards, so no
//! two of them ever write to one region file: shards carry pairwise
//! distinct region coordinates, and together exactly the chunks given.
use vstd::prelude::*;

use vstd::multiset::Multiset;

verus! {

broadcast use vstd::multiset::group_multiset_axioms, vstd::multiset::group_multiset_properties;

/// The region file cell holding a chunk: each axis shifted down by five.
pub open spec fn region_of(p: (i32, i32)) -> (i32, i32) {
    (p.0 >> 5, p.1 >> 5)
}

/// One worker's share: every listed chunk lies in the one region file.
pub struct Shard {
    pub rx: i32,
    pub rz: i32,
    pub chunks: Vec<(i32, i32)>,
}

impl Shard {
    /// The region coordinates of the shard.
    pub open spec fn region(self) -> (i32, i32) {
        (self.rx, self.rz)
    }

    /// Every chunk of the shard lies in its region.
    pub open spec fn wf(self) -> bool {
        forall|a: int|
            0 <= a < self.chunks@.len() ==> region_of(#[trigger] self.chunks@[a]) == self.region()
    }
}

/// All chunks across a sequence of shards, with multiplicity.
pub open spec fn shards_mset(r: Seq<Shard>) -> Multiset<(i32, i32)>
    decreases r,
{
    if r.len() == 0 {
        Multiset::empty()
    } else {
        r[0].chunks@.to_multiset().add(shards_mset(r.skip(1)))
    }
}

/// The multiset of no chunks is empty.
proof fn lemma_empty_mset()
    ensures
        Seq::<(i32, i32)>::empty().to_multiset() == Multiset::<(i32, i32)>::empty(),
{
    let e = Seq::<(i32, i32)>::empty();
    e.to_multiset_ensures();
    assert forall|x: (i32, i32)| e.to_multiset().count(x) == 0 by {
        assert(!e.contains(x));
    }
    assert(e.to_multiset() =~= Multiset::<(i32, i32)>::empty());
}

/// Pushing a chunk into one shard adds exactly that chunk.
proof fn lemma_shards_mset_update(r: Seq<Shard>, i: int, s2: Shard, p: (i32, i32))
    requires
        0 <= i < r.len(),
        s2.chunks@ == r[i].chunks@.push(p),
    ensures
        shards_mset(r.update(i, s2)) == shards_mset(r).insert(p),
    decreases i,
{
    let t = r.update(i, s2);
    if i == 0 {
        assert(t[0] == s2);
        assert(t.skip(1) =~= r.skip(1));
        r[0].chunks@.to_multiset_ensures();
        assert(s2.chunks@.to_multiset() =~= r[0].chunks@.to_multiset().insert(p));
        assert(shards_mset(t) =~= shards_mset(r).insert(p));
    } else {
        assert(t[0] == r[0]);
        assert(t.skip(1) =~= r.skip(1).update(i - 1, s2));
        assert(r.skip(1)[i - 1] == r[i]);
        lemma_shards_mset_update(r.skip(1), i - 1, s2, p);
        assert(shards_mset(t) =~= shards_mset(r).insert(p));
    }
}

/// Appending a one-chunk shard adds exactly that chunk.
proof fn lemma_shards_mset_push(r: Seq<Shard>, s2: Shard, p: (i32, i32))
    requires
        s2.chunks@ == Seq::<(i32, i32)>::empty().push(p),
    ensures
        shards_mset(r.push(s2)) == shards_mset(r).insert(p),
    decreases r,
{
    let t = r.push(s2);
    if r.len() == 0 {
        assert(t[0] == s2);
        assert(t.skip(1) =~= Seq::<Shard>::empty());
        Seq::<(i32, i32)>::empty().to_multiset_ensures();
        lemma_empty_mset();
        assert(s2.chunks@.to_multiset() =~= Multiset::<(i32, i32)>::empty().insert(p));
        assert(shards_mset(t) == s2.chunks@.to_multiset().add(shards_mset(t.skip(1))));
        assert(shards_mset(t.skip(1)) == Multiset::<(i32, i32)>::empty());
        assert(shards_mset(r) == Multiset::<(i32, i32)>::empty());
        assert(shards_mset(t) =~= shards_mset(r).insert(p));
    } else {
        assert(t[0] == r[0]);
        assert(t.skip(1) =~= r.skip(1).push(s2));
        lemma_shards_mset_push(r.skip(1), s2, p);
        assert(shards_mset(t) =~= shards_mset(r).insert(p));
    }
}

/// Group chunks by their region file.
///
/// The shards carry pairwise distinct region coordinates and, together,
/// exactly the given chunks; every chunk sits in the shard of its region.
/// Workers that each take whole shards therefore never touch one region
/// file concurrently.
pub fn partition_chunks(positions: &Vec<(i32, i32)>) -> (r: Vec<Shard>)
    ensures
        forall|i: int| 0 <= i < r@.len() ==> (#[trigger] r@[i]).wf(),
        forall|i: int, j: int|
            0 <= i < j < r@.len() ==> (#[trigger] r@[i]).region() != (#[trigger] r@[j]).region(),
        shards_mset(r@) == positions@.to_multiset(),
{
    let mut shards: Vec<Shard> = Vec::new();
    let n = positions.len();
    let mut i: usize = 0;
    proof {
        positions@.to_multiset_ensures();
        assert(positions@.take(0) =~= Seq::<(i32, i32)>::empty());
        lemma_empty_mset();
        assert(shards_mset(shards@) =~= positions@.take(0).to_multiset());
    }
    while i < n
        invariant
            n == positions@.len(),
            0 <= i <= n,
            forall|a: int| 0 <= a < shards@.len() ==> (#[trigger] shards@[a]).wf(),
            forall|a: int, b: int|
                0 <= a < b < shards@.len() ==> (#[trigger] shards@[a]).region() != (
                #[trigger] shards@[b]).region(),
            shards_mset(shards@) == positions@.take(i as int).to_multiset(),
        decreases n - i,
    {
        let p = positions[i];
        let rx = p.0 >> 5;
        let rz = p.1 >> 5;
        let mut found: Option<usize> = None;
        let m = shards.len();
        let mut j: usize = 0;
        while j < m && found.is_none()
            invariant
                m == shards@.len(),
                0 <= j <= m,
                match found {
                    Some(f) => f < m && shards@[f as int].region() == (rx as i32, rz as i32),
                    None => forall|a: int|
                        0 <= a < j ==> (#[trigger] shards@[a]).region() != (rx as i32, rz as i32),
                },
            decreases m - j, (if found is None { 1int } else { 0int }),
        {
            if shards[j].rx == rx && shards[j].rz == rz {
                found = Some(j);
            } else {
                j += 1;
            }
        }
        let ghost before = shards@;
        match found {
            Some(f) => {
                let shard = &mut shards[f];
                proof {
                    assert(before[f as int].region() == (rx as i32, rz as i32));
                }
                shard.chunks.push(p);
                proof {
                    assert(shards@ =~= before.update(
                        f as int,
                        Shard {
                            rx: before[f as int].rx,
                            rz: before[f as int].rz,
                            chunks: shards@[f as int].chunks,
                        },
                    ));
                    lemma_shards_mset_update(before, f as int, shards@[f as int], p);
                    assert forall|a: int| 0 <= a < shards@.len() implies (
                    #[trigger] shards@[a]).region() == before[a].region() by {}
                    assert forall|a: int| 0 <= a < shards@.len() implies (
                    #[trigger] shards@[a]).wf() by {
                        if a == f as int {
                            assert(region_of(p) == shards@[a].region());
                            assert forall|b: int|
                                0 <= b < shards@[a].chunks@.len() implies region_of(
                                #[trigger] shards@[a].chunks@[b]) == shards@[a].region() by {
                                if b < before[a].chunks@.len() {
                                    assert(shards@[a].chunks@[b] == before[a].chunks@[b]);
                                }
                            }
                        }
                    }
                }
            },
            None => {
                let mut chunks: Vec<(i32, i32)> = Vec::new();
                chunks.push(p);
                let s2 = Shard { rx, rz, chunks };
                proof {
                    assert(s2.chunks@ =~= Seq::<(i32, i32)>::empty().push(p));
                }
                shards.push(s2);
                proof {
                    assert(shards@ == before.push(s2));
                    assert(shards@.len() == before.len() + 1);
                    lemma_shards_mset_push(before, s2, p);
                    assert forall|a: int, b: int|
                        0 <= a < b < shards@.len() implies (#[trigger] shards@[a]).region() != (
                    #[trigger] shards@[b]).region() by {
                        assert(shards@[a] == before[a]);
                        if b == before.len() as int {
                            assert(shards@[b] == s2);
                            assert(before[a].region() != (rx as i32, rz as i32));
                        } else {
                            assert(shards@[b] == before[b]);
                        }
                    }
                    assert forall|a: int| 0 <= a < shards@.len() implies (
                    #[trigger] shards@[a]).wf() by {
                        if a == before.len() as int {
                            assert(shards@[a] == s2);
                            assert(s2.chunks@[0] == p);
                        } else {
                            assert(shards@[a] == before[a]);
                        }
                    }
                }
            },
        }
        proof {
            positions@.to_multiset_ensures();
            assert(positions@.take(i + 1) =~= positions@.take(i as int).push(p));
            positions@.take(i as int).to_multiset_ensures();
            assert(positions@.take(i + 1).to_multiset() =~= positions@.take(
                i as int,
            ).to_multiset().insert(p));
        }
        i += 1;
    }
    proof {
        assert(positions@.take(n as int) =~= positions@);
    }
    shards
}

} // verus!
