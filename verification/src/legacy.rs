//! The legacy monolithic-structure data and its per-chunk back-fill.
//!
//! Before the per-chunk structure registry, each dimension kept world-global
//! feature maps in a handful of `.dat` files, with optional index files
//! packing chunk coordinates into long arrays. The handler built here holds
//! that data in memory, keyed by the structure ids in use today, and the
//! back-fill copies the feature of a chunk into its `Structures.Starts` and
//! builds its `Structures.References` arrays over the surrounding square.
use vstd::prelude::*;
use vstd::string::StringSliceAdditionalSpecFns;

use crate::nbt::{bytes_eq, key, Compound, CompoundModel, Value, ValueModel};

verus! {

/// A chunk coordinate pair packed into one 64-bit value: the zero-extended
/// unsigned reading of `x` in the low half and of `z` in the high half.
pub open spec fn spec_pack(x: i32, z: i32) -> u64 {
    ((x as u32) as u64) | (((z as u32) as u64) << 32)
}

/// Pack a chunk coordinate pair.
pub fn pack_coords(x: i32, z: i32) -> (r: u64)
    ensures
        r == spec_pack(x, z),
{
    ((x as u32) as u64) | (((z as u32) as u64) << 32)
}

/// The low half of a packed pair, read back as a signed coordinate.
pub fn unpack_x(p: u64) -> (r: i32)
    ensures
        r == (p as u32) as i32,
{
    #[verifier::truncate] ((p as u32) as i32)
}

/// The high half of a packed pair, read back as a signed coordinate.
pub fn unpack_z(p: u64) -> (r: i32)
    ensures
        r == ((p >> 32) as u32) as i32,
{
    #[verifier::truncate] (((p >> 32) as u32) as i32)
}

/// Packing loses nothing: distinct coordinate pairs pack apart.
pub proof fn lemma_pack_injective(x1: i32, z1: i32, x2: i32, z2: i32)
    ensures
        spec_pack(x1, z1) == spec_pack(x2, z2) ==> x1 == x2 && z1 == z2,
{
    assert((((x1 as u32) as u64) | (((z1 as u32) as u64) << 32)) == (((x2 as u32) as u64) | (((
    z2 as u32) as u64) << 32)) ==> x1 == x2 && z1 == z2) by (bit_vector);
}

/// Packing then unpacking gives the coordinates back.
pub proof fn lemma_pack_unpack(x: i32, z: i32)
    ensures
        (spec_pack(x, z) as u32) as i32 == x,
        ((spec_pack(x, z) >> 32) as u32) as i32 == z,
{
    assert(((((x as u32) as u64) | (((z as u32) as u64) << 32)) as u32) as i32 == x && (((((
    x as u32) as u64) | (((z as u32) as u64) << 32)) >> 32) as u32) as i32 == z) by (bit_vector);
}

/// The legacy file that fed a structure id in use today.
pub open spec fn spec_current_to_legacy(k: Seq<u8>) -> Option<Seq<u8>> {
    if k == "Village".spec_bytes() {
        Some("Village".spec_bytes())
    } else if k == "Mineshaft".spec_bytes() {
        Some("Mineshaft".spec_bytes())
    } else if k == "Mansion".spec_bytes() {
        Some("Mansion".spec_bytes())
    } else if k == "Igloo".spec_bytes() {
        Some("Temple".spec_bytes())
    } else if k == "Desert_Pyramid".spec_bytes() {
        Some("Temple".spec_bytes())
    } else if k == "Jungle_Pyramid".spec_bytes() {
        Some("Temple".spec_bytes())
    } else if k == "Swamp_Hut".spec_bytes() {
        Some("Temple".spec_bytes())
    } else if k == "Stronghold".spec_bytes() {
        Some("Stronghold".spec_bytes())
    } else if k == "Monument".spec_bytes() {
        Some("Monument".spec_bytes())
    } else if k == "Fortress".spec_bytes() {
        Some("Fortress".spec_bytes())
    } else if k == "EndCity".spec_bytes() {
        Some("EndCity".spec_bytes())
    } else {
        None
    }
}

/// The legacy file that fed a structure id in use today.
pub fn current_to_legacy(k: &[u8]) -> (r: Option<Vec<u8>>)
    ensures
        match r {
            Some(v) => spec_current_to_legacy(k@) == Some(v@) && v@.len()
                <= crate::nbt::MAX_TEXT_LEN,
            None => spec_current_to_legacy(k@) is None,
        },
{
    proof {
        reveal_strlit("Village");
        reveal_strlit("Mineshaft");
        reveal_strlit("Mansion");
        reveal_strlit("Igloo");
        reveal_strlit("Desert_Pyramid");
        reveal_strlit("Jungle_Pyramid");
        reveal_strlit("Swamp_Hut");
        reveal_strlit("Stronghold");
        reveal_strlit("Monument");
        reveal_strlit("Fortress");
        reveal_strlit("EndCity");
        reveal_strlit("Temple");
    }
    if bytes_eq(k, key("Village").as_slice()) {
        Some(key("Village"))
    } else if bytes_eq(k, key("Mineshaft").as_slice()) {
        Some(key("Mineshaft"))
    } else if bytes_eq(k, key("Mansion").as_slice()) {
        Some(key("Mansion"))
    } else if bytes_eq(k, key("Igloo").as_slice()) {
        Some(key("Temple"))
    } else if bytes_eq(k, key("Desert_Pyramid").as_slice()) {
        Some(key("Temple"))
    } else if bytes_eq(k, key("Jungle_Pyramid").as_slice()) {
        Some(key("Temple"))
    } else if bytes_eq(k, key("Swamp_Hut").as_slice()) {
        Some(key("Temple"))
    } else if bytes_eq(k, key("Stronghold").as_slice()) {
        Some(key("Stronghold"))
    } else if bytes_eq(k, key("Monument").as_slice()) {
        Some(key("Monument"))
    } else if bytes_eq(k, key("Fortress").as_slice()) {
        Some(key("Fortress"))
    } else if bytes_eq(k, key("EndCity").as_slice()) {
        Some(key("EndCity"))
    } else {
        None
    }
}

/// The rename from a legacy feature id to the id in use today.
pub open spec fn spec_legacy_to_current(k: Seq<u8>) -> Option<Seq<u8>> {
    if k == "Iglu".spec_bytes() {
        Some("Igloo".spec_bytes())
    } else if k == "TeDP".spec_bytes() {
        Some("Desert_Pyramid".spec_bytes())
    } else if k == "TeJP".spec_bytes() {
        Some("Jungle_Pyramid".spec_bytes())
    } else if k == "TeSH".spec_bytes() {
        Some("Swamp_Hut".spec_bytes())
    } else {
        None
    }
}

/// The rename from a legacy feature id to the id in use today.
pub fn legacy_to_current(k: &[u8]) -> (r: Option<Vec<u8>>)
    ensures
        match r {
            Some(v) => spec_legacy_to_current(k@) == Some(v@) && v@.len()
                <= crate::nbt::MAX_TEXT_LEN,
            None => spec_legacy_to_current(k@) is None,
        },
{
    proof {
        reveal_strlit("Iglu");
        reveal_strlit("TeDP");
        reveal_strlit("TeJP");
        reveal_strlit("TeSH");
        reveal_strlit("Igloo");
        reveal_strlit("Desert_Pyramid");
        reveal_strlit("Jungle_Pyramid");
        reveal_strlit("Swamp_Hut");
    }
    if bytes_eq(k, key("Iglu").as_slice()) {
        Some(key("Igloo"))
    } else if bytes_eq(k, key("TeDP").as_slice()) {
        Some(key("Desert_Pyramid"))
    } else if bytes_eq(k, key("TeJP").as_slice()) {
        Some(key("Jungle_Pyramid"))
    } else if bytes_eq(k, key("TeSH").as_slice()) {
        Some(key("Swamp_Hut"))
    } else {
        None
    }
}

/// An ASCII byte, lowercased.
pub open spec fn spec_lower_byte(b: u8) -> u8 {
    if b >= 65 && b <= 90 {
        (b + 32) as u8
    } else {
        b
    }
}

/// A byte string with its ASCII letters lowercased.
pub open spec fn spec_lower(s: Seq<u8>) -> Seq<u8> {
    Seq::new(s.len(), |i: int| spec_lower_byte(s[i]))
}

/// Lowercase the ASCII letters of a byte string.
pub fn lower_ascii(s: &[u8]) -> (r: Vec<u8>)
    ensures
        r@ == spec_lower(s@),
{
    let mut r: Vec<u8> = Vec::new();
    let n = s.len();
    let mut i: usize = 0;
    while i < n
        invariant
            n == s@.len(),
            0 <= i <= n,
            r@ =~= spec_lower(s@).subrange(0, i as int),
        decreases n - i,
    {
        let b = s[i];
        if b >= 65 && b <= 90 {
            r.push(b + 32);
        } else {
            r.push(b);
        }
        proof {
            assert(r@ =~= spec_lower(s@).subrange(0, i + 1));
        }
        i += 1;
    }
    proof {
        assert(r@ =~= spec_lower(s@));
    }
    r
}

/// Whether a lowercased id names a structure of the old per-chunk registry.
pub open spec fn spec_in_old_registry(k: Seq<u8>) -> bool {
    ||| k == "pillager_outpost".spec_bytes()
    ||| k == "mineshaft".spec_bytes()
    ||| k == "mansion".spec_bytes()
    ||| k == "jungle_pyramid".spec_bytes()
    ||| k == "desert_pyramid".spec_bytes()
    ||| k == "igloo".spec_bytes()
    ||| k == "ruined_portal".spec_bytes()
    ||| k == "shipwreck".spec_bytes()
    ||| k == "swamp_hut".spec_bytes()
    ||| k == "stronghold".spec_bytes()
    ||| k == "monument".spec_bytes()
    ||| k == "ocean_ruin".spec_bytes()
    ||| k == "fortress".spec_bytes()
    ||| k == "endcity".spec_bytes()
    ||| k == "buried_treasure".spec_bytes()
    ||| k == "village".spec_bytes()
    ||| k == "nether_fossil".spec_bytes()
    ||| k == "bastion_remnant".spec_bytes()
}

/// Whether a lowercased id names a structure of the old per-chunk registry.
pub fn in_old_registry(k: &[u8]) -> (r: bool)
    ensures
        r == spec_in_old_registry(k@),
{
    proof {
        reveal_strlit("pillager_outpost");
        reveal_strlit("mineshaft");
        reveal_strlit("mansion");
        reveal_strlit("jungle_pyramid");
        reveal_strlit("desert_pyramid");
        reveal_strlit("igloo");
        reveal_strlit("ruined_portal");
        reveal_strlit("shipwreck");
        reveal_strlit("swamp_hut");
        reveal_strlit("stronghold");
        reveal_strlit("monument");
        reveal_strlit("ocean_ruin");
        reveal_strlit("fortress");
        reveal_strlit("endcity");
        reveal_strlit("buried_treasure");
        reveal_strlit("village");
        reveal_strlit("nether_fossil");
        reveal_strlit("bastion_remnant");
    }
    bytes_eq(k, key("pillager_outpost").as_slice()) || bytes_eq(k, key("mineshaft").as_slice())
        || bytes_eq(k, key("mansion").as_slice()) || bytes_eq(k, key("jungle_pyramid").as_slice())
        || bytes_eq(k, key("desert_pyramid").as_slice()) || bytes_eq(k, key("igloo").as_slice())
        || bytes_eq(k, key("ruined_portal").as_slice()) || bytes_eq(k, key("shipwreck").as_slice())
        || bytes_eq(k, key("swamp_hut").as_slice()) || bytes_eq(k, key("stronghold").as_slice())
        || bytes_eq(k, key("monument").as_slice()) || bytes_eq(k, key("ocean_ruin").as_slice())
        || bytes_eq(k, key("fortress").as_slice()) || bytes_eq(k, key("endcity").as_slice())
        || bytes_eq(k, key("buried_treasure").as_slice()) || bytes_eq(
        k,
        key("village").as_slice(),
    ) || bytes_eq(k, key("nether_fossil").as_slice()) || bytes_eq(
        k,
        key("bastion_remnant").as_slice(),
    )
}

/// The unsigned reading of an integral field, or zero: how chunk
/// coordinates are read off legacy features and chunk records.
pub open spec fn spec_i32_field(c: CompoundModel, k: Seq<u8>) -> i32 {
    match c.lookup(k) {
        Some(ValueModel::Int(x)) => x,
        Some(ValueModel::Byte(x)) => x as i32,
        Some(ValueModel::Short(x)) => x as i32,
        Some(ValueModel::Long(x)) => x as i32,
        _ => 0,
    }
}

/// Read an integral field of a node, or zero.
pub fn i32_field(c: &Compound, k: &[u8]) -> (r: i32)
    ensures
        r == spec_i32_field(c.model(), k@),
{
    match c.get(k) {
        Some(Value::Int(x)) => *x,
        Some(Value::Byte(x)) => *x as i32,
        Some(Value::Short(x)) => *x as i32,
        Some(Value::Long(x)) => #[verifier::truncate] (*x as i32),
        _ => 0,
    }
}

/// The `All` and `Remaining` chunk sets of one legacy key, as packed
/// coordinates.
pub struct IndexData {
    pub all: Vec<u64>,
    pub remaining: Vec<u64>,
}

impl IndexData {
    /// Whether the feature ever covered this packed chunk.
    pub open spec fn spec_has_start(self, p: u64) -> bool {
        self.all@.contains(p)
    }

    /// Whether this packed chunk's starts are still to be migrated.
    pub open spec fn spec_has_unhandled(self, p: u64) -> bool {
        self.remaining@.contains(p)
    }

    pub fn new() -> (r: IndexData)
        ensures
            r.all@.len() == 0,
            r.remaining@.len() == 0,
    {
        IndexData { all: Vec::new(), remaining: Vec::new() }
    }

    /// Record a chunk in both sets.
    pub fn add_index(&mut self, x: i32, z: i32)
        ensures
            final(self).all@ == old(self).all@.push(spec_pack(x, z)),
            final(self).remaining@ == old(self).remaining@.push(spec_pack(x, z)),
            forall|p: u64|
                final(self).spec_has_start(p) == (old(self).spec_has_start(p) || p == spec_pack(
                    x,
                    z,
                )),
            forall|p: u64|
                final(self).spec_has_unhandled(p) == (old(self).spec_has_unhandled(p) || p
                    == spec_pack(x, z)),
    {
        let p = pack_coords(x, z);
        self.all.push(p);
        self.remaining.push(p);
        proof {
            assert forall|q: u64| final(self).spec_has_start(q) == (old(self).spec_has_start(q) || q
                == spec_pack(x, z)) by {
                assert(final(self).all@ == old(self).all@.push(p));
                if q == p {
                    assert(final(self).all@[final(self).all@.len() - 1] == q);
                } else if old(self).all@.contains(q) {
                    let i = choose|i: int|
                        0 <= i < old(self).all@.len() && old(self).all@[i] == q;
                    assert(final(self).all@[i] == q);
                } else if final(self).all@.contains(q) {
                    let i = choose|i: int|
                        0 <= i < final(self).all@.len() && final(self).all@[i] == q;
                    assert(old(self).all@[i] == q);
                }
            }
            assert forall|q: u64|
                final(self).spec_has_unhandled(q) == (old(self).spec_has_unhandled(q) || q
                    == spec_pack(x, z)) by {
                assert(final(self).remaining@ == old(self).remaining@.push(p));
                if q == p {
                    assert(final(self).remaining@[final(self).remaining@.len() - 1] == q);
                } else if old(self).remaining@.contains(q) {
                    let i = choose|i: int|
                        0 <= i < old(self).remaining@.len() && old(self).remaining@[i] == q;
                    assert(final(self).remaining@[i] == q);
                } else if final(self).remaining@.contains(q) {
                    let i = choose|i: int|
                        0 <= i < final(self).remaining@.len() && final(self).remaining@[i] == q;
                    assert(old(self).remaining@[i] == q);
                }
            }
        }
    }

    pub fn has_start_index(&self, x: i32, z: i32) -> (r: bool)
        ensures
            r == self.spec_has_start(spec_pack(x, z)),
    {
        contains_u64(&self.all, pack_coords(x, z))
    }

    pub fn has_unhandled_index(&self, x: i32, z: i32) -> (r: bool)
        ensures
            r == self.spec_has_unhandled(spec_pack(x, z)),
    {
        contains_u64(&self.remaining, pack_coords(x, z))
    }

    /// The sets read off an upgraded index record's long arrays, each long
    /// reinterpreted as a packed coordinate.
    pub fn from_record(rec: &Compound) -> (r: IndexData)
        ensures
            forall|p: u64|
                r.spec_has_start(p) == match rec.lookup("All".spec_bytes()) {
                    Some(ValueModel::Longs(s)) => s.contains(p as i64),
                    _ => false,
                },
            forall|p: u64|
                r.spec_has_unhandled(p) == match rec.lookup("Remaining".spec_bytes()) {
                    Some(ValueModel::Longs(s)) => s.contains(p as i64),
                    _ => false,
                },
            (match rec.lookup("All".spec_bytes()) {
                Some(ValueModel::Longs(s)) => r.all@.len() == s.len(),
                _ => r.all@.len() == 0,
            }),
    {
        proof {
            reveal_strlit("All");
            reveal_strlit("Remaining");
        }
        let mut r = IndexData::new();
        match rec.get(key("All").as_slice()) {
            Some(Value::Longs(s)) => {
                r.all = longs_as_packed(s);
            },
            _ => {},
        }
        match rec.get(key("Remaining").as_slice()) {
            Some(Value::Longs(s)) => {
                r.remaining = longs_as_packed(s);
            },
            _ => {},
        }
        r
    }
}

/// Reinterpret each long as an unsigned packed coordinate.
fn longs_as_packed(s: &Vec<i64>) -> (r: Vec<u64>)
    ensures
        r@.len() == s@.len(),
        forall|i: int| 0 <= i < s@.len() ==> #[trigger] r@[i] == s@[i] as u64,
        forall|p: u64| r@.contains(p) == s@.contains(p as i64),
{
    let mut r: Vec<u64> = Vec::new();
    let n = s.len();
    let mut i: usize = 0;
    while i < n
        invariant
            n == s@.len(),
            0 <= i <= n,
            r@.len() == i,
            forall|j: int| 0 <= j < i ==> #[trigger] r@[j] == s@[j] as u64,
        decreases n - i,
    {
        r.push(#[verifier::truncate] (s[i] as u64));
        i += 1;
    }
    proof {
        assert forall|p: u64| r@.contains(p) == s@.contains(p as i64) by {
            assert forall|j: int| 0 <= j < n implies ((#[trigger] s@[j]) as u64 == p) == (s@[j]
                == p as i64) by {
                let x = s@[j];
                assert((x as u64 == p) == (x == p as i64)) by (bit_vector);
            }
            if r@.contains(p) {
                let j = choose|j: int| 0 <= j < r@.len() && r@[j] == p;
                assert(s@[j] == p as i64);
            }
            if s@.contains(p as i64) {
                let j = choose|j: int| 0 <= j < s@.len() && s@[j] == p as i64;
                assert(r@[j] == p);
            }
        }
    }
    r
}

/// The models of a list of names.
pub open spec fn names_model(s: Seq<Vec<u8>>) -> Seq<Seq<u8>> {
    Seq::new(s.len(), |i: int| s[i]@)
}

/// The legacy file names of the overworld.
pub open spec fn overworld_legacy_keys() -> Seq<Seq<u8>> {
    seq![
        "Monument".spec_bytes(),
        "Stronghold".spec_bytes(),
        "Village".spec_bytes(),
        "Mineshaft".spec_bytes(),
        "Temple".spec_bytes(),
        "Mansion".spec_bytes(),
    ]
}

/// The overworld structure ids in use today.
pub open spec fn overworld_current_keys() -> Seq<Seq<u8>> {
    seq![
        "Village".spec_bytes(),
        "Mineshaft".spec_bytes(),
        "Mansion".spec_bytes(),
        "Igloo".spec_bytes(),
        "Desert_Pyramid".spec_bytes(),
        "Jungle_Pyramid".spec_bytes(),
        "Swamp_Hut".spec_bytes(),
        "Monument".spec_bytes(),
    ]
}

/// The nether's one legacy structure.
pub open spec fn nether_keys() -> Seq<Seq<u8>> {
    seq!["Fortress".spec_bytes()]
}

/// The end's one legacy structure.
pub open spec fn end_keys() -> Seq<Seq<u8>> {
    seq!["EndCity".spec_bytes()]
}

/// The first entry of an index list holding a key, if any.
pub open spec fn idx_first(s: Seq<(Vec<u8>, IndexData)>, k: Seq<u8>) -> int
    decreases s,
{
    if s.len() == 0 {
        -1
    } else if s[0].0@ == k {
        0
    } else {
        let r = idx_first(s.skip(1), k);
        if r < 0 {
            -1
        } else {
            r + 1
        }
    }
}

/// `idx_first` finds an entry with the key, or reports that none exists.
pub proof fn lemma_idx_first(s: Seq<(Vec<u8>, IndexData)>, k: Seq<u8>)
    ensures
        idx_first(s, k) >= 0 ==> idx_first(s, k) < s.len() && s[idx_first(s, k)].0@ == k,
        idx_first(s, k) < 0 ==> forall|i: int| 0 <= i < s.len() ==> (#[trigger] s[i]).0@ != k,
    decreases s,
{
    if s.len() > 0 && s[0].0@ != k {
        lemma_idx_first(s.skip(1), k);
        assert forall|i: int| 1 <= i < s.len() implies s.skip(1)[i - 1] == s[i] by {}
    }
}

/// The in-memory legacy structure data of one dimension.
pub struct LegacyStructureDataHandler {
    /// Whether any structure id in use today has legacy data here.
    pub has_legacy_data: bool,
    /// Structure id in use today, to a node keyed by the eight big-endian
    /// bytes of a packed chunk coordinate, holding that chunk's feature.
    pub data_map: Compound,
    /// Legacy file name to its chunk index sets.
    pub index_map: Vec<(Vec<u8>, IndexData)>,
    /// The legacy file names of this dimension.
    pub legacy_keys: Vec<Vec<u8>>,
    /// The structure ids in use today in this dimension.
    pub current_keys: Vec<Vec<u8>>,
}

/// The eight big-endian bytes of a packed coordinate, as a map key.
pub fn coord_key(p: u64) -> (r: Vec<u8>)
    ensures
        r@ == crate::codec::be64(p),
{
    let mut r: Vec<u8> = Vec::new();
    r.push(#[verifier::truncate] ((p >> 56) as u8));
    r.push(#[verifier::truncate] ((p >> 48) as u8));
    r.push(#[verifier::truncate] ((p >> 40) as u8));
    r.push(#[verifier::truncate] ((p >> 32) as u8));
    r.push(#[verifier::truncate] ((p >> 24) as u8));
    r.push(#[verifier::truncate] ((p >> 16) as u8));
    r.push(#[verifier::truncate] ((p >> 8) as u8));
    r.push(#[verifier::truncate] (p as u8));
    proof {
        assert(r@ =~= crate::codec::be64(p));
    }
    r
}

impl LegacyStructureDataHandler {
    /// The feature map is a well-formed node of nodes and each legacy file
    /// has at most one index entry.
    pub open spec fn wf(self) -> bool {
        &&& self.data_map.wf()
        &&& forall|i: int|
            0 <= i < self.data_map.model().entries.len() ==> (
            #[trigger] self.data_map.model().entries[i]).1 is Compound
        &&& forall|i: int, j: int|
            0 <= i < j < self.index_map@.len() ==> (#[trigger] self.index_map@[i]).0@ != (
            #[trigger] self.index_map@[j]).0@
        &&& forall|i: int|
            0 <= i < self.current_keys@.len() ==> (#[trigger] self.current_keys@[i])@.len()
                <= crate::nbt::MAX_TEXT_LEN
        &&& forall|i: int|
            0 <= i < self.legacy_keys@.len() ==> (#[trigger] self.legacy_keys@[i])@.len()
                <= crate::nbt::MAX_TEXT_LEN
    }

    /// The feature stored for a structure id at a packed chunk coordinate.
    pub open spec fn feature_at(self, id: Seq<u8>, p: u64) -> Option<ValueModel> {
        match self.data_map.lookup(id) {
            Some(ValueModel::Compound(m)) => m.lookup(crate::codec::be64(p)),
            _ => None,
        }
    }

    /// Whether the legacy file's `All` set covers a packed chunk.
    pub open spec fn spec_has_start(self, legacy: Seq<u8>, p: u64) -> bool {
        let i = idx_first(self.index_map@, legacy);
        i >= 0 && self.index_map@[i].1.spec_has_start(p)
    }

    /// Whether the legacy file's `Remaining` set covers a packed chunk.
    pub open spec fn spec_has_unhandled(self, legacy: Seq<u8>, p: u64) -> bool {
        let i = idx_first(self.index_map@, legacy);
        i >= 0 && self.index_map@[i].1.spec_has_unhandled(p)
    }

    /// Whether a structure id has a legacy start covering this chunk.
    pub open spec fn spec_has_legacy_start(self, typ: Seq<u8>, p: u64) -> bool {
        &&& self.has_legacy_data
        &&& self.data_map.has_key(typ)
        &&& match spec_current_to_legacy(typ) {
            Some(lk) => self.spec_has_start(lk, p),
            None => false,
        }
    }

    /// Whether some structure id of this dimension still has unmigrated
    /// starts covering this chunk.
    pub open spec fn spec_is_unhandled(self, p: u64) -> bool {
        &&& self.has_legacy_data
        &&& exists|i: int|
            0 <= i < self.current_keys@.len() && self.data_map.has_key(
                (#[trigger] self.current_keys@[i])@,
            ) && match spec_current_to_legacy(self.current_keys@[i]@) {
                Some(lk) => self.spec_has_unhandled(lk, p),
                None => false,
            }
    }

    /// The index entry for a legacy file, scanning in order.
    fn find_index(&self, legacy: &[u8]) -> (r: Option<usize>)
        ensures
            match r {
                Some(i) => i as int == idx_first(self.index_map@, legacy@),
                None => idx_first(self.index_map@, legacy@) < 0,
            },
    {
        let n = self.index_map.len();
        let mut i: usize = 0;
        while i < n
            invariant
                n == self.index_map@.len(),
                0 <= i <= n,
                forall|j: int| 0 <= j < i ==> (#[trigger] self.index_map@[j]).0@ != legacy@,
            decreases n - i,
        {
            if bytes_eq(self.index_map[i].0.as_slice(), legacy) {
                proof {
                    lemma_idx_first_at(self.index_map@, legacy@, i as int);
                }
                return Some(i);
            }
            i += 1;
        }
        proof {
            lemma_idx_first(self.index_map@, legacy@);
            if idx_first(self.index_map@, legacy@) >= 0 {
                assert(self.index_map@[idx_first(self.index_map@, legacy@)].0@ == legacy@);
            }
        }
        None
    }

    /// Whether a structure id has a legacy start covering this chunk.
    pub fn has_legacy_start(&self, chunk_x: i32, chunk_z: i32, typ: &[u8]) -> (r: bool)
        ensures
            r == self.spec_has_legacy_start(typ@, spec_pack(chunk_x, chunk_z)),
    {
        if !self.has_legacy_data {
            return false;
        }
        if !self.data_map.contains_key(typ) {
            return false;
        }
        let legacy = match current_to_legacy(typ) {
            Some(l) => l,
            None => {
                return false;
            },
        };
        match self.find_index(legacy.as_slice()) {
            Some(i) => {
                proof {
                    lemma_idx_first(self.index_map@, legacy@);
                }
                self.index_map[i].1.has_start_index(chunk_x, chunk_z)
            },
            None => false,
        }
    }

    /// Whether some structure id still has unmigrated starts covering this
    /// chunk.
    pub fn is_unhandled_structure_start(&self, chunk_x: i32, chunk_z: i32) -> (r: bool)
        ensures
            r == self.spec_is_unhandled(spec_pack(chunk_x, chunk_z)),
    {
        if !self.has_legacy_data {
            return false;
        }
        let n = self.current_keys.len();
        let mut i: usize = 0;
        while i < n
            invariant
                n == self.current_keys@.len(),
                self.has_legacy_data,
                0 <= i <= n,
                forall|j: int|
                    0 <= j < i ==> !(self.data_map.has_key((#[trigger] self.current_keys@[j])@)
                        && match spec_current_to_legacy(self.current_keys@[j]@) {
                        Some(lk) => self.spec_has_unhandled(lk, spec_pack(chunk_x, chunk_z)),
                        None => false,
                    }),
            decreases n - i,
        {
            let ck = &self.current_keys[i];
            if self.data_map.contains_key(ck.as_slice()) {
                if let Some(legacy) = current_to_legacy(ck.as_slice()) {
                    if let Some(j) = self.find_index(legacy.as_slice()) {
                        proof {
                            lemma_idx_first(self.index_map@, legacy@);
                        }
                        if self.index_map[j].1.has_unhandled_index(chunk_x, chunk_z) {
                            return true;
                        }
                    }
                }
            }
            i += 1;
        }
        false
    }
}

/// The rename a legacy feature asks for: the id in use today of its first
/// child, where that id is in the rename table.
pub open spec fn spec_child_rename(f: CompoundModel) -> Option<Seq<u8>> {
    match f.lookup("Children".spec_bytes()) {
        Some(ValueModel::List(_, items)) => if items.len() > 0 {
            match items[0] {
                ValueModel::Compound(c) => match c.lookup("id".spec_bytes()) {
                    Some(ValueModel::Text(t)) => spec_legacy_to_current(t),
                    _ => None,
                },
                _ => None,
            }
        } else {
            None
        },
        _ => None,
    }
}

/// The structure id a legacy feature is stored under: its first child's
/// renamed id where the rename applies, else its own id.
pub open spec fn spec_feature_id(f: CompoundModel) -> Option<Seq<u8>> {
    match spec_child_rename(f) {
        Some(cur) => Some(cur),
        None => match f.lookup("id".spec_bytes()) {
            Some(ValueModel::Text(t)) => Some(t),
            _ => None,
        },
    }
}

/// The packed chunk coordinate a legacy feature names.
pub open spec fn spec_feature_pos(f: CompoundModel) -> u64 {
    spec_pack(
        spec_i32_field(f, "ChunkX".spec_bytes()),
        spec_i32_field(f, "ChunkZ".spec_bytes()),
    )
}

/// Whether one entry of a legacy file's feature map lands on this
/// structure id and packed chunk.
pub open spec fn entry_targets(e: (Seq<u8>, ValueModel), id: Seq<u8>, p: u64) -> bool {
    match e.1 {
        ValueModel::Compound(f) => spec_feature_id(f) == Some(id) && spec_feature_pos(f) == p,
        _ => false,
    }
}

/// Whether some listed chunk packs to `p`.
pub open spec fn chunks_cover(chunks: Seq<(i32, i32)>, p: u64) -> bool {
    exists|a: int| 0 <= a < chunks.len() && spec_pack((#[trigger] chunks[a]).0, chunks[a].1) == p
}

/// Whether some feature among the first `i` entries sits at packed chunk
/// `p`.
pub open spec fn prefix_covers(feats: Seq<(Seq<u8>, ValueModel)>, i: int, p: u64) -> bool {
    exists|j: int|
        0 <= j < i && match (#[trigger] feats[j]).1 {
            ValueModel::Compound(f) => spec_feature_pos(f) == p,
            _ => false,
        }
}

/// Whether an upgraded index record carries a non-empty `All` array.
pub open spec fn spec_index_loaded(rec: CompoundModel) -> bool {
    match rec.lookup("All".spec_bytes()) {
        Some(ValueModel::Longs(s)) => s.len() > 0,
        _ => false,
    }
}

impl LegacyStructureDataHandler {
    /// An empty handler for one of the three fixed dimensions; any other
    /// dimension has no legacy structure data to offer.
    pub fn for_dimension(dim_id: &[u8]) -> (r: Option<LegacyStructureDataHandler>)
        ensures
            match r {
                Some(h) => {
                    &&& h.wf()
                    &&& !h.has_legacy_data
                    &&& h.data_map.model().entries.len() == 0
                    &&& h.index_map@.len() == 0
                    &&& if dim_id@ == "minecraft:overworld".spec_bytes() {
                        names_model(h.legacy_keys@) == overworld_legacy_keys() && names_model(
                            h.current_keys@,
                        ) == overworld_current_keys()
                    } else if dim_id@ == "minecraft:the_nether".spec_bytes() {
                        names_model(h.legacy_keys@) == nether_keys() && names_model(
                            h.current_keys@,
                        ) == nether_keys()
                    } else {
                        dim_id@ == "minecraft:the_end".spec_bytes() && names_model(h.legacy_keys@)
                            == end_keys() && names_model(h.current_keys@) == end_keys()
                    }
                },
                None => dim_id@ != "minecraft:overworld".spec_bytes() && dim_id@
                    != "minecraft:the_nether".spec_bytes() && dim_id@
                    != "minecraft:the_end".spec_bytes(),
            },
    {
        proof {
            reveal_strlit("minecraft:overworld");
            reveal_strlit("minecraft:the_nether");
            reveal_strlit("minecraft:the_end");
            reveal_strlit("Monument");
            reveal_strlit("Stronghold");
            reveal_strlit("Village");
            reveal_strlit("Mineshaft");
            reveal_strlit("Temple");
            reveal_strlit("Mansion");
            reveal_strlit("Igloo");
            reveal_strlit("Desert_Pyramid");
            reveal_strlit("Jungle_Pyramid");
            reveal_strlit("Swamp_Hut");
            reveal_strlit("Fortress");
            reveal_strlit("EndCity");
        }
        if bytes_eq(dim_id, key("minecraft:overworld").as_slice()) {
            let mut legacy: Vec<Vec<u8>> = Vec::new();
            legacy.push(key("Monument"));
            legacy.push(key("Stronghold"));
            legacy.push(key("Village"));
            legacy.push(key("Mineshaft"));
            legacy.push(key("Temple"));
            legacy.push(key("Mansion"));
            let mut current: Vec<Vec<u8>> = Vec::new();
            current.push(key("Village"));
            current.push(key("Mineshaft"));
            current.push(key("Mansion"));
            current.push(key("Igloo"));
            current.push(key("Desert_Pyramid"));
            current.push(key("Jungle_Pyramid"));
            current.push(key("Swamp_Hut"));
            current.push(key("Monument"));
            let h = LegacyStructureDataHandler {
                has_legacy_data: false,
                data_map: Compound::new(),
                index_map: Vec::new(),
                legacy_keys: legacy,
                current_keys: current,
            };
            proof {
                assert(names_model(h.legacy_keys@) =~= overworld_legacy_keys());
                assert(names_model(h.current_keys@) =~= overworld_current_keys());
            }
            Some(h)
        } else if bytes_eq(dim_id, key("minecraft:the_nether").as_slice()) {
            let mut legacy: Vec<Vec<u8>> = Vec::new();
            legacy.push(key("Fortress"));
            let mut current: Vec<Vec<u8>> = Vec::new();
            current.push(key("Fortress"));
            let h = LegacyStructureDataHandler {
                has_legacy_data: false,
                data_map: Compound::new(),
                index_map: Vec::new(),
                legacy_keys: legacy,
                current_keys: current,
            };
            proof {
                assert(names_model(h.legacy_keys@) =~= nether_keys());
                assert(names_model(h.current_keys@) =~= nether_keys());
            }
            Some(h)
        } else if bytes_eq(dim_id, key("minecraft:the_end").as_slice()) {
            let mut legacy: Vec<Vec<u8>> = Vec::new();
            legacy.push(key("EndCity"));
            let mut current: Vec<Vec<u8>> = Vec::new();
            current.push(key("EndCity"));
            let h = LegacyStructureDataHandler {
                has_legacy_data: false,
                data_map: Compound::new(),
                index_map: Vec::new(),
                legacy_keys: legacy,
                current_keys: current,
            };
            proof {
                assert(names_model(h.legacy_keys@) =~= end_keys());
                assert(names_model(h.current_keys@) =~= end_keys());
            }
            Some(h)
        } else {
            None
        }
    }

    /// Store one feature under a structure id at a packed chunk, replacing
    /// whatever that chunk held for the id and touching nothing else.
    pub fn store_feature(&mut self, id: &[u8], p: u64, feature: Compound)
        requires
            old(self).wf(),
            feature.wf(),
            id@.len() <= crate::nbt::MAX_TEXT_LEN,
        ensures
            final(self).wf(),
            final(self).has_legacy_data == old(self).has_legacy_data,
            final(self).legacy_keys == old(self).legacy_keys,
            final(self).current_keys == old(self).current_keys,
            final(self).index_map == old(self).index_map,
            forall|id2: Seq<u8>, p2: u64|
                #[trigger] final(self).feature_at(id2, p2) == if id2 == id@ && p2 == p {
                    Some(ValueModel::Compound(feature.model()))
                } else {
                    old(self).feature_at(id2, p2)
                },
    {
        let ghost dm0 = self.data_map.model();
        let mut inner: Compound = match self.data_map.remove(id) {
            Some(Value::Compound(m)) => m,
            _ => Compound::new(),
        };
        proof {
            if dm0.lookup(id@) is Some {
                crate::nbt::lemma_lookup_wf(dm0, id@);
            }
        }
        let ghost inner0 = inner.model();
        let ghost fm = feature.model();
        let ck = coord_key(p);
        let ghost ckv = ck@;
        inner.insert(ck, Value::Compound(feature));
        let ghost innerm = inner.model();
        proof {
            assert(ckv == crate::codec::be64(p));
            assert(inner.lookup(ckv) == Some(ValueModel::Compound(fm)));
            assert(innerm.lookup(ckv) == Some(ValueModel::Compound(fm)));
            assert forall|k2: Seq<u8>| k2 != ckv implies #[trigger] innerm.lookup(k2)
                == inner0.lookup(k2) by {
                assert(inner.lookup(k2) == innerm.lookup(k2));
            }
        }
        self.data_map.insert(vstd::slice::slice_to_vec(id), Value::Compound(inner));
        proof {
            assert forall|id2: Seq<u8>, p2: u64|
                #[trigger] final(self).feature_at(id2, p2) == (if id2 == id@ && p2 == p {
                    Some(ValueModel::Compound(feature.model()))
                } else {
                    old(self).feature_at(id2, p2)
                }) by {
                if id2 == id@ {
                    assert(self.data_map.lookup(id2) == Some(ValueModel::Compound(innerm)));
                    if p2 == p {
                        assert(innerm.lookup(crate::codec::be64(p2)) == Some(
                            ValueModel::Compound(fm),
                        ));
                        assert(fm == feature.model());
                    } else {
                        crate::codec::lemma_be64_injective(p, p2);
                        assert(crate::codec::be64(p2) != crate::codec::be64(p));
                        assert(innerm.lookup(crate::codec::be64(p2)) == inner0.lookup(
                            crate::codec::be64(p2),
                        ));
                        assert(old(self).feature_at(id2, p2) == inner0.lookup(
                            crate::codec::be64(p2),
                        ));
                    }
                } else {
                    assert(self.data_map.lookup(id2) == dm0.lookup(id2));
                }
            }
            let dmf = self.data_map.model();
            assert forall|i: int|
                0 <= i < dmf.entries.len() implies (#[trigger] dmf.entries[i]).1 is Compound by {
                crate::nbt::lemma_lookup_at_unique(dmf.entries, i);
                let k = dmf.entries[i].0;
                assert(self.data_map.lookup(k) == Some(dmf.entries[i].1));
                if k != id@ {
                    assert(self.data_map.lookup(k) == dm0.lookup(k));
                    crate::nbt::lemma_lookup_some_index(dm0.entries, k);
                    let j = choose|j: int|
                        0 <= j < dm0.entries.len() && (#[trigger] dm0.entries[j]).0 == k
                            && crate::nbt::lookup_seq(dm0.entries, k) == Some(dm0.entries[j].1);
                }
            }
        }
    }

    /// Replace the index sets of one legacy file, touching nothing else.
    pub fn set_index(&mut self, legacy_key: &[u8], idx: IndexData)
        requires
            old(self).wf(),
        ensures
            final(self).wf(),
            final(self).has_legacy_data == old(self).has_legacy_data,
            final(self).legacy_keys == old(self).legacy_keys,
            final(self).current_keys == old(self).current_keys,
            final(self).data_map == old(self).data_map,
            forall|lk: Seq<u8>, p: u64|
                #[trigger] final(self).spec_has_start(lk, p) == if lk == legacy_key@ {
                    idx.spec_has_start(p)
                } else {
                    old(self).spec_has_start(lk, p)
                },
            forall|lk: Seq<u8>, p: u64|
                #[trigger] final(self).spec_has_unhandled(lk, p) == if lk == legacy_key@ {
                    idx.spec_has_unhandled(p)
                } else {
                    old(self).spec_has_unhandled(lk, p)
                },
    {
        let ghost s0 = self.index_map@;
        match self.find_index(legacy_key) {
            Some(i) => {
                proof {
                    lemma_idx_first(s0, legacy_key@);
                }
                self.index_map.remove(i);
            },
            None => {},
        }
        let ghost s1 = self.index_map@;
        proof {
            assert forall|a: int| 0 <= a < s1.len() implies (#[trigger] s1[a]).0@ != legacy_key@
                by {
                if idx_first(s0, legacy_key@) >= 0 {
                    let i = idx_first(s0, legacy_key@);
                    lemma_idx_first(s0, legacy_key@);
                    assert(s1[a] == if a < i {
                        s0[a]
                    } else {
                        s0[a + 1]
                    });
                    if a < i {
                        lemma_idx_first_unique(s0, legacy_key@, a);
                    } else {
                        assert(s0[i].0@ == legacy_key@);
                        assert((#[trigger] s0[a + 1]).0@ != s0[i].0@);
                    }
                } else {
                    lemma_idx_first(s0, legacy_key@);
                }
            }
        }
        let ghost idxv = idx;
        self.index_map.push((vstd::slice::slice_to_vec(legacy_key), idx));
        proof {
            let s2 = self.index_map@;
            let last = s2.len() - 1;
            assert(s2 == s1.push(s2[last]));
            assert(s2[last].0@ == legacy_key@ && s2[last].1 == idxv);
            assert forall|a: int, b: int|
                0 <= a < b < s2.len() implies (#[trigger] s2[a]).0@ != (#[trigger] s2[b]).0@ by {
                assert(s2[a] == s1[a]);
                if b < last {
                    assert(s2[b] == s1[b]);
                    if idx_first(s0, legacy_key@) >= 0 {
                        let i = idx_first(s0, legacy_key@);
                        assert(s1[a] == if a < i { s0[a] } else { s0[a + 1] });
                        assert(s1[b] == if b < i { s0[b] } else { s0[b + 1] });
                    }
                } else {
                    assert(s2[b].0@ == legacy_key@);
                }
            }
            assert forall|lk: Seq<u8>, p: u64|
                #[trigger] final(self).spec_has_start(lk, p) == (if lk == legacy_key@ {
                    idxv.spec_has_start(p)
                } else {
                    old(self).spec_has_start(lk, p)
                }) by {
                lemma_set_index_shape(s0, s1, s2, legacy_key@, lk);
                lemma_idx_first(s0, lk);
                lemma_idx_first(s2, lk);
            }
            assert forall|lk: Seq<u8>, p: u64|
                #[trigger] final(self).spec_has_unhandled(lk, p) == (if lk == legacy_key@ {
                    idxv.spec_has_unhandled(p)
                } else {
                    old(self).spec_has_unhandled(lk, p)
                }) by {
                lemma_set_index_shape(s0, s1, s2, legacy_key@, lk);
                lemma_idx_first(s0, lk);
                lemma_idx_first(s2, lk);
            }
        }
    }

    /// Fold one legacy file into the handler: its upgraded feature map and
    /// its upgraded index record.
    ///
    /// Every feature that names a structure id (its first child's id
    /// renamed to the name in use today where the rename table applies,
    /// else its own) lands under that id at its chunk, carrying the id it
    /// was stored under; the feature map changes nowhere else. The file's
    /// index sets are taken as loaded, or rebuilt from the features' own
    /// chunks when the loaded `All` set is empty.
    #[verifier::loop_isolation(false)]
    pub fn add_legacy_file(&mut self, legacy_key: &[u8], features: &Compound, index_rec: &Compound)
        requires
            old(self).wf(),
            features.wf(),
            legacy_key@.len() <= crate::nbt::MAX_TEXT_LEN,
        ensures
            final(self).wf(),
            final(self).has_legacy_data == old(self).has_legacy_data,
            final(self).legacy_keys == old(self).legacy_keys,
            final(self).current_keys == old(self).current_keys,
            features.model().entries.len() == 0 ==> *final(self) == *old(self),
            features.model().entries.len() > 0 ==> {
                &&& forall|p: u64|
                    #[trigger] final(self).spec_has_start(legacy_key@, p) == if spec_index_loaded(
                        index_rec.model(),
                    ) {
                        match index_rec.lookup("All".spec_bytes()) {
                            Some(ValueModel::Longs(s)) => s.contains(p as i64),
                            _ => false,
                        }
                    } else {
                        prefix_covers(
                            features.model().entries,
                            features.model().entries.len() as int,
                            p,
                        )
                    }
                &&& forall|p: u64|
                    #[trigger] final(self).spec_has_unhandled(legacy_key@, p)
                        == if spec_index_loaded(index_rec.model()) {
                        match index_rec.lookup("Remaining".spec_bytes()) {
                            Some(ValueModel::Longs(s)) => s.contains(p as i64),
                            _ => false,
                        }
                    } else {
                        prefix_covers(
                            features.model().entries,
                            features.model().entries.len() as int,
                            p,
                        )
                    }
                &&& forall|lk: Seq<u8>, p: u64|
                    lk != legacy_key@ ==> #[trigger] final(self).spec_has_start(lk, p) == old(
                        self,
                    ).spec_has_start(lk, p)
                &&& forall|lk: Seq<u8>, p: u64|
                    lk != legacy_key@ ==> #[trigger] final(self).spec_has_unhandled(lk, p) == old(
                        self,
                    ).spec_has_unhandled(lk, p)
            },
            // the feature map changes only where this file lands something,
            // and what lands there carries the id it is stored under
            forall|id: Seq<u8>, p: u64|
                (forall|j: int|
                    0 <= j < features.model().entries.len() ==> !entry_targets(
                        #[trigger] features.model().entries[j],
                        id,
                        p,
                    )) ==> #[trigger] final(self).feature_at(id, p) == old(self).feature_at(id, p),
            forall|id: Seq<u8>, p: u64|
                (exists|j: int|
                    0 <= j < features.model().entries.len() && entry_targets(
                        #[trigger] features.model().entries[j],
                        id,
                        p,
                    )) ==> match #[trigger] final(self).feature_at(id, p) {
                    Some(ValueModel::Compound(g)) => g.lookup("id".spec_bytes()) == Some(
                        ValueModel::Text(id),
                    ) && exists|j: int|
                        0 <= j < features.model().entries.len() && entry_targets(
                            #[trigger] features.model().entries[j],
                            id,
                            p,
                        ) && (match features.model().entries[j].1 {
                            ValueModel::Compound(f) => forall|k2: Seq<u8>|
                                k2 != "id".spec_bytes() ==> #[trigger] g.lookup(k2) == f.lookup(
                                    k2,
                                ),
                            _ => false,
                        }),
                    _ => false,
                },
    {
        proof {
            reveal_strlit("ChunkX");
            reveal_strlit("ChunkZ");
            reveal_strlit("Children");
            reveal_strlit("id");
            crate::nbt::lemma_entries_model(features.entries@);
        }
        let ghost feats = features.model().entries;
        if features.len() == 0 {
            return ;
        }
        let mut chunks: Vec<(i32, i32)> = Vec::new();
        let n = features.entries.len();
        let mut i: usize = 0;
        while i < n
            invariant
                n == features.entries@.len(),
                n == feats.len(),
                feats == features.model().entries,
                features.wf(),
                0 <= i <= n,
                self.wf(),
                self.has_legacy_data == old(self).has_legacy_data,
                self.legacy_keys == old(self).legacy_keys,
                self.current_keys == old(self).current_keys,
                self.index_map == old(self).index_map,
                forall|j: int|
                    0 <= j < feats.len() ==> #[trigger] feats[j] == (
                        features.entries@[j].0@,
                        features.entries@[j].1.model(),
                    ),
                forall|p: u64| #[trigger] chunks_cover(chunks@, p) == prefix_covers(
                    feats,
                    i as int,
                    p,
                ),
                forall|id: Seq<u8>, p: u64|
                    (forall|j: int| 0 <= j < i ==> !entry_targets(#[trigger] feats[j], id, p))
                        ==> #[trigger] self.feature_at(id, p) == old(self).feature_at(id, p),
                forall|id: Seq<u8>, p: u64|
                    (exists|j: int| 0 <= j < i && entry_targets(#[trigger] feats[j], id, p))
                        ==> match #[trigger] self.feature_at(id, p) {
                        Some(ValueModel::Compound(g)) => g.lookup("id".spec_bytes()) == Some(
                            ValueModel::Text(id),
                        ) && exists|j: int|
                            0 <= j < i && entry_targets(#[trigger] feats[j], id, p) && (match feats[j].1 {
                                ValueModel::Compound(f) => forall|k2: Seq<u8>|
                                    k2 != "id".spec_bytes() ==> #[trigger] g.lookup(k2)
                                        == f.lookup(k2),
                                _ => false,
                            }),
                        _ => false,
                    },
            decreases n - i,
        {
            let ghost self_before = *self;
            let ghost chunks_before = chunks@;
            let fv = &features.entries[i].1;
            proof {
                crate::nbt::lemma_entries_wf_index(feats, i as int);
                assert(feats[i as int].1 == fv.model());
            }
            match fv {
                Value::Compound(f) => {
                    let cx = i32_field(f, key("ChunkX").as_slice());
                    let cz = i32_field(f, key("ChunkZ").as_slice());
                    let p = pack_coords(cx, cz);
                    proof {
                        assert(spec_feature_pos(f.model()) == spec_pack(cx, cz));
                    }
                    chunks.push((cx, cz));
                    let mut target: Option<Vec<u8>> = None;
                    match f.get(key("Children").as_slice()) {
                        Some(Value::List(l)) => {
                            if l.items.len() > 0 {
                                proof {
                                    crate::nbt::lemma_items_model(l.items@);
                                }
                                match &l.items[0] {
                                    Value::Compound(c0) => {
                                        match c0.get(key("id").as_slice()) {
                                            Some(Value::Text(t)) => {
                                                target = legacy_to_current(t.as_slice());
                                            },
                                            _ => {},
                                        }
                                    },
                                    _ => {},
                                }
                            }
                        },
                        _ => {},
                    }
                    proof {
                        match target {
                            Some(ref v) => {
                                assert(spec_child_rename(f.model()) == Some(v@));
                            },
                            None => {
                                assert(spec_child_rename(f.model()) is None);
                            },
                        }
                    }
                    let target_id: Option<Vec<u8>> = match target {
                        Some(v) => Some(v),
                        None => match f.get(key("id").as_slice()) {
                            Some(Value::Text(t)) => {
                                proof {
                                    crate::nbt::lemma_lookup_wf(f.model(), "id".spec_bytes());
                                }
                                Some(crate::nbt::copy_vec(t))
                            },
                            _ => None,
                        },
                    };
                    match target_id {
                        Some(idv) => {
                            proof {
                                assert(spec_feature_id(f.model()) == Some(idv@));
                            }
                            let mut f2 = crate::nbt::clone_compound(f);
                            let idk = key("id");
                            f2.insert(idk, Value::Text(crate::nbt::copy_vec(&idv)));
                            let ghost f2c = f2;
                            let ghost f2m = f2.model();
                            proof {
                                assert(f2.lookup("id".spec_bytes()) == Some(
                                    ValueModel::Text(idv@),
                                ));
                                assert forall|k2: Seq<u8>| k2 != "id".spec_bytes()
                                    implies #[trigger] f2m.lookup(k2) == f.model().lookup(k2) by {
                                    assert(f2c.lookup(k2) == f2m.lookup(k2));
                                }
                            }
                            self.store_feature(idv.as_slice(), p, f2);
                            proof {
                                assert(self.feature_at(idv@, p) == Some(
                                    ValueModel::Compound(f2m),
                                ));
                                assert(entry_targets(feats[i as int], idv@, p));
                            }
                        },
                        None => {
                            proof {
                                assert(spec_feature_id(f.model()) is None);
                                assert forall|id: Seq<u8>, p2: u64|
                                    !#[trigger] entry_targets(feats[i as int], id, p2) by {}
                            }
                        },
                    }
                },
                _ => {
                    proof {
                        assert forall|id: Seq<u8>, p2: u64|
                            !#[trigger] entry_targets(feats[i as int], id, p2) by {}
                    }
                },
            }
            proof {
                assert forall|p: u64| #[trigger] chunks_cover(chunks@, p) == prefix_covers(
                    feats,
                    i + 1,
                    p,
                ) by {
                    if chunks_cover(chunks@, p) {
                        let b = choose|b: int|
                            0 <= b < chunks@.len() && spec_pack(
                                (#[trigger] chunks@[b]).0,
                                chunks@[b].1,
                            ) == p;
                        if b < chunks_before.len() {
                            assert(chunks_before[b] == chunks@[b]);
                            assert(spec_pack((#[trigger] chunks_before[b]).0, chunks_before[b].1)
                                == p);
                            assert(chunks_cover(chunks_before, p));
                            let j = choose|j: int|
                                0 <= j < i && match (#[trigger] feats[j]).1 {
                                    ValueModel::Compound(f) => spec_feature_pos(f) == p,
                                    _ => false,
                                };
                            assert(prefix_covers(feats, i + 1, p));
                        } else {
                            assert(match feats[i as int].1 {
                                ValueModel::Compound(f) => spec_feature_pos(f) == p,
                                _ => false,
                            });
                            assert(prefix_covers(feats, i + 1, p));
                        }
                    }
                    if prefix_covers(feats, i + 1, p) {
                        let j = choose|j: int|
                            0 <= j < i + 1 && match (#[trigger] feats[j]).1 {
                                ValueModel::Compound(f) => spec_feature_pos(f) == p,
                                _ => false,
                            };
                        if j < i {
                            assert(prefix_covers(feats, i as int, p));
                            assert(chunks_cover(chunks_before, p));
                            let b = choose|b: int|
                                0 <= b < chunks_before.len() && spec_pack(
                                    (#[trigger] chunks_before[b]).0,
                                    chunks_before[b].1,
                                ) == p;
                            assert(chunks@[b] == chunks_before[b]);
                            assert(spec_pack((#[trigger] chunks@[b]).0, chunks@[b].1) == p);
                        } else {
                            assert(feats[i as int].1 is Compound);
                            let last = chunks@.len() - 1;
                            assert(spec_pack((#[trigger] chunks@[last]).0, chunks@[last].1) == p);
                        }
                    }
                }
            }
            i += 1;
        }
        let ghost hmid = *self;
        let mut idx = IndexData::from_record(index_rec);
        let ghost loaded = idx.all@.len() > 0;
        if idx.all.len() == 0 {
            idx = IndexData::new();
            proof {
                assert forall|p: u64| #[trigger] idx.spec_has_start(p) == chunks_cover(
                    chunks@.take(0),
                    p,
                ) by {
                    assert(!idx.all@.contains(p));
                    if chunks_cover(chunks@.take(0), p) {
                        let b = choose|b: int|
                            0 <= b < chunks@.take(0).len() && spec_pack(
                                (#[trigger] chunks@.take(0)[b]).0,
                                chunks@.take(0)[b].1,
                            ) == p;
                    }
                }
            }
            let m = chunks.len();
            let mut a: usize = 0;
            while a < m
                invariant
                    m == chunks@.len(),
                    0 <= a <= m,
                    idx.remaining@ == idx.all@,
                    forall|p: u64| #[trigger] idx.spec_has_start(p) == chunks_cover(
                        chunks@.take(a as int),
                        p,
                    ),
                decreases m - a,
            {
                let (cx, cz) = chunks[a];
                idx.add_index(cx, cz);
                a += 1;
                proof {
                    assert forall|p: u64| #[trigger] idx.spec_has_start(p) == chunks_cover(
                        chunks@.take(a as int),
                        p,
                    ) by {
                        let t = chunks@.take(a as int);
                        let t0 = chunks@.take(a - 1);
                        assert(t0 =~= t.take(a - 1));
                        if idx.spec_has_start(p) {
                            if p == spec_pack(chunks@[a - 1].0, chunks@[a - 1].1) {
                                assert(t[a - 1] == chunks@[a - 1]);
                                assert(spec_pack((#[trigger] t[a - 1]).0, t[a - 1].1) == p);
                            } else {
                                let b = choose|b: int|
                                    0 <= b < t0.len() && spec_pack(
                                        (#[trigger] t0[b]).0,
                                        t0[b].1,
                                    ) == p;
                                assert(t[b] == t0[b]);
                                assert(spec_pack((#[trigger] t[b]).0, t[b].1) == p);
                            }
                        } else {
                            if chunks_cover(t, p) {
                                let b = choose|b: int|
                                    0 <= b < t.len() && spec_pack((#[trigger] t[b]).0, t[b].1)
                                        == p;
                                if b < a - 1 {
                                    assert(t0[b] == t[b]);
                                    assert(spec_pack((#[trigger] t0[b]).0, t0[b].1) == p);
                                }
                            }
                        }
                    }
                }
            }
        }
        let ghost idxm = idx;
        self.set_index(legacy_key, idx);
        proof {
            assert(spec_index_loaded(index_rec.model()) == loaded);
            assert forall|id: Seq<u8>, p: u64|
                (forall|j: int|
                    0 <= j < feats.len() ==> !entry_targets(#[trigger] feats[j], id, p))
                    implies #[trigger] final(self).feature_at(id, p) == old(self).feature_at(
                    id,
                    p,
                ) by {
                assert(hmid.feature_at(id, p) == old(self).feature_at(id, p));
                assert(final(self).data_map == hmid.data_map);
                assert(final(self).feature_at(id, p) == hmid.feature_at(id, p));
            }
            assert forall|id: Seq<u8>, p: u64|
                (exists|j: int| 0 <= j < feats.len() && entry_targets(#[trigger] feats[j], id, p))
                    implies match #[trigger] final(self).feature_at(id, p) {
                    Some(ValueModel::Compound(g)) => g.lookup("id".spec_bytes()) == Some(
                        ValueModel::Text(id),
                    ) && exists|j: int|
                        0 <= j < feats.len() && entry_targets(#[trigger] feats[j], id, p) && (
                        match feats[j].1 {
                            ValueModel::Compound(f) => forall|k2: Seq<u8>|
                                k2 != "id".spec_bytes() ==> #[trigger] g.lookup(k2) == f.lookup(
                                    k2,
                                ),
                            _ => false,
                        }),
                    _ => false,
                } by {
                assert(match hmid.feature_at(id, p) {
                    Some(ValueModel::Compound(g)) => g.lookup("id".spec_bytes()) == Some(
                        ValueModel::Text(id),
                    ) && exists|j: int|
                        0 <= j < feats.len() && entry_targets(#[trigger] feats[j], id, p) && (
                        match feats[j].1 {
                            ValueModel::Compound(f) => forall|k2: Seq<u8>|
                                k2 != "id".spec_bytes() ==> #[trigger] g.lookup(k2) == f.lookup(
                                    k2,
                                ),
                            _ => false,
                        }),
                    _ => false,
                });
                assert(final(self).data_map == hmid.data_map);
                assert(final(self).feature_at(id, p) == hmid.feature_at(id, p));
            }
            if !loaded {
                assert(chunks@.take(chunks@.len() as int) =~= chunks@);
                assert forall|p: u64| #[trigger] idxm.spec_has_start(p) == prefix_covers(
                    feats,
                    feats.len() as int,
                    p,
                ) by {
                    assert(idxm.spec_has_start(p) == chunks_cover(chunks@, p));
                }
                assert forall|p: u64| #[trigger] idxm.spec_has_unhandled(p) == prefix_covers(
                    feats,
                    feats.len() as int,
                    p,
                ) by {
                    assert(idxm.remaining@ == idxm.all@);
                    assert(idxm.spec_has_unhandled(p) == idxm.spec_has_start(p));
                }
            }
        }
    }

    /// Record whether any structure id in use today has legacy data here.
    pub fn finish(&mut self)
        requires
            old(self).wf(),
        ensures
            final(self).wf(),
            final(self).data_map == old(self).data_map,
            final(self).index_map == old(self).index_map,
            final(self).legacy_keys == old(self).legacy_keys,
            final(self).current_keys == old(self).current_keys,
            final(self).has_legacy_data == exists|i: int|
                0 <= i < old(self).current_keys@.len() && old(self).data_map.has_key(
                    (#[trigger] old(self).current_keys@[i])@,
                ),
    {
        let n = self.current_keys.len();
        let mut i: usize = 0;
        let mut found = false;
        while i < n
            invariant
                n == self.current_keys@.len(),
                0 <= i <= n,
                self.data_map == old(self).data_map,
                self.index_map == old(self).index_map,
                self.legacy_keys == old(self).legacy_keys,
                self.current_keys == old(self).current_keys,
                self.has_legacy_data == old(self).has_legacy_data,
                found == exists|j: int|
                    0 <= j < i && self.data_map.has_key((#[trigger] self.current_keys@[j])@),
            decreases n - i,
        {
            if !found && self.data_map.contains_key(self.current_keys[i].as_slice()) {
                found = true;
            }
            i += 1;
        }
        self.has_legacy_data = found;
    }

}

/// How replacing one key's index entry moves the first-match structure:
/// the new key is found at the appended entry, and every other key keeps
/// the entry it had.
proof fn lemma_set_index_shape(
    s0: Seq<(Vec<u8>, IndexData)>,
    s1: Seq<(Vec<u8>, IndexData)>,
    s2: Seq<(Vec<u8>, IndexData)>,
    kk: Seq<u8>,
    lk: Seq<u8>,
)
    requires
        forall|i: int, j: int|
            0 <= i < j < s0.len() ==> (#[trigger] s0[i]).0@ != (#[trigger] s0[j]).0@,
        if idx_first(s0, kk) >= 0 {
            s1 == s0.remove(idx_first(s0, kk))
        } else {
            s1 == s0
        },
        s2.len() == s1.len() + 1,
        forall|i: int| 0 <= i < s1.len() ==> #[trigger] s2[i] == s1[i],
        s2.last().0@ == kk,
    ensures
        lk == kk ==> idx_first(s2, lk) == s2.len() - 1,
        lk != kk && idx_first(s0, lk) >= 0 ==> idx_first(s2, lk) >= 0 && s2[idx_first(s2, lk)]
            == s0[idx_first(s0, lk)],
        lk != kk && idx_first(s0, lk) < 0 ==> idx_first(s2, lk) < 0,
{
    let last = s2.len() - 1;
    lemma_idx_first(s0, kk);
    lemma_idx_first(s0, lk);
    assert forall|a: int| 0 <= a < s1.len() implies (#[trigger] s1[a]).0@ != kk by {
        if idx_first(s0, kk) >= 0 {
            let i = idx_first(s0, kk);
            assert(s1[a] == if a < i {
                s0[a]
            } else {
                s0[a + 1]
            });
            if a < i {
                lemma_idx_first_unique(s0, kk, a);
            } else {
                assert(s0[i].0@ == kk);
                assert((#[trigger] s0[a + 1]).0@ != s0[i].0@);
            }
        } else {
            lemma_idx_first_unique2(s0, kk, a);
        }
    }
    if lk == kk {
        assert forall|a: int| 0 <= a < last implies (#[trigger] s2[a]).0@ != lk by {
            assert(s2[a] == s1[a]);
        }
        lemma_idx_first_at(s2, lk, last);
    } else {
        if idx_first(s0, lk) >= 0 {
            let i0 = idx_first(s0, lk);
            assert(s0[i0].0@ == lk);
            let ik = idx_first(s0, kk);
            let i1: int = if ik >= 0 && i0 > ik {
                i0 - 1
            } else {
                i0
            };
            assert(s1[i1] == s0[i0]);
            assert(i1 < s1.len() && s2[i1] == s1[i1]);
            assert forall|a: int| 0 <= a < i1 implies (#[trigger] s2[a]).0@ != lk by {
                assert(s2[a] == s1[a]);
                if ik >= 0 && a >= ik {
                    assert(s1[a] == s0[a + 1]);
                    lemma_idx_first_unique(s0, lk, a + 1);
                } else {
                    assert(s1[a] == s0[a]);
                    lemma_idx_first_unique(s0, lk, a);
                }
            }
            lemma_idx_first_at(s2, lk, i1);
        } else {
            assert forall|a: int| 0 <= a < s2.len() implies (#[trigger] s2[a]).0@ != lk by {
                if a < last {
                    assert(s2[a] == s1[a]);
                    let ik = idx_first(s0, kk);
                    if ik >= 0 && a >= ik {
                        assert(s1[a] == s0[a + 1]);
                        lemma_idx_first_unique2(s0, lk, a + 1);
                    } else {
                        assert(s1[a] == s0[a]);
                        lemma_idx_first_unique2(s0, lk, a);
                    }
                } else {
                    assert(s2[a].0@ == kk);
                }
            }
            lemma_idx_first(s2, lk);
            if idx_first(s2, lk) >= 0 {
                assert(s2[idx_first(s2, lk)].0@ == lk);
            }
        }
    }
}

/// Where `idx_first` found nothing, no entry holds the key.
proof fn lemma_idx_first_unique2(s: Seq<(Vec<u8>, IndexData)>, k: Seq<u8>, a: int)
    requires
        0 <= a < s.len(),
        idx_first(s, k) < 0,
    ensures
        s[a].0@ != k,
{
    lemma_idx_first_unique(s, k, a);
}

/// No entry before `idx_first` holds the key; in particular, where some
/// entry does, `idx_first` is not negative.
proof fn lemma_idx_first_unique(s: Seq<(Vec<u8>, IndexData)>, k: Seq<u8>, a: int)
    requires
        0 <= a < s.len(),
        idx_first(s, k) < 0 || a < idx_first(s, k),
    ensures
        s[a].0@ != k,
    decreases a,
{
    if s[a].0@ == k {
        lemma_idx_first(s, k);
        if idx_first(s, k) < 0 {
        } else {
            if a > 0 {
                assert(s.skip(1)[a - 1] == s[a]);
                lemma_idx_first_unique(s.skip(1), k, a - 1);
            }
        }
    }
}

/// The empty inner node.
pub open spec fn empty_node() -> CompoundModel {
    CompoundModel { entries: Seq::empty() }
}

/// The long array the back-fill writes for one structure over the 17-by-17
/// chunk square centred on `(cx, cz)`: the packed coordinate of every
/// covered chunk with a legacy start, x varying slowest, from entry `n` of
/// the square on.
pub open spec fn refs_from(
    h: LegacyStructureDataHandler,
    k: Seq<u8>,
    cx: i32,
    cz: i32,
    n: int,
) -> Seq<i64>
    decreases 289 - n,
{
    if n < 0 || n >= 289 {
        Seq::empty()
    } else {
        let x = (cx as int - 8 + n / 17) as i32;
        let z = (cz as int - 8 + n % 17) as i32;
        (if h.spec_has_legacy_start(k, spec_pack(x, z)) {
            seq![spec_pack(x, z) as i64]
        } else {
            Seq::empty()
        }) + refs_from(h, k, cx, cz, n + 1)
    }
}

impl LegacyStructureDataHandler {
    /// Whether a key is one of this dimension's structure ids.
    pub open spec fn key_in_current(self, k: Seq<u8>) -> bool {
        exists|i: int| 0 <= i < self.current_keys@.len() && (#[trigger] self.current_keys@[i])@ == k
    }

    /// Whether the back-fill copies a feature into `Starts` under this key.
    pub open spec fn spec_start_hit(self, k: Seq<u8>, p: u64) -> bool {
        &&& self.key_in_current(k)
        &&& match spec_current_to_legacy(k) {
            Some(lk) => self.spec_has_unhandled(lk, p),
            None => false,
        }
        &&& self.feature_at(k, p) is Some
    }

    /// Copy each structure id's pending feature at this chunk into
    /// `starts`, leaving every other binding alone.
    #[verifier::loop_isolation(false)]
    pub fn update_structure_start(&self, starts: &mut Compound, chunk_x: i32, chunk_z: i32)
        requires
            self.wf(),
            old(starts).wf(),
        ensures
            final(starts).wf(),
            forall|k2: Seq<u8>|
                #[trigger] final(starts).lookup(k2) == if self.spec_start_hit(
                    k2,
                    spec_pack(chunk_x, chunk_z),
                ) {
                    self.feature_at(k2, spec_pack(chunk_x, chunk_z))
                } else {
                    old(starts).lookup(k2)
                },
    {
        let p = pack_coords(chunk_x, chunk_z);
        let n = self.current_keys.len();
        let mut i: usize = 0;
        while i < n
            invariant
                n == self.current_keys@.len(),
                0 <= i <= n,
                starts.wf(),
                forall|k2: Seq<u8>|
                    #[trigger] starts.lookup(k2) == if (exists|j: int|
                        0 <= j < i && (#[trigger] self.current_keys@[j])@ == k2)
                        && self.spec_start_hit(k2, p) {
                        self.feature_at(k2, p)
                    } else {
                        old(starts).lookup(k2)
                    },
            decreases n - i,
        {
            let ck = &self.current_keys[i];
            let ghost starts_before = *starts;
            if self.data_map.contains_key(ck.as_slice()) {
                let mut unhandled = false;
                match current_to_legacy(ck.as_slice()) {
                    Some(legacy) => {
                        match self.find_index(legacy.as_slice()) {
                            Some(j) => {
                                proof {
                                    lemma_idx_first(self.index_map@, legacy@);
                                }
                                unhandled = self.index_map[j].1.has_unhandled_index(
                                    chunk_x,
                                    chunk_z,
                                );
                            },
                            None => {},
                        }
                    },
                    None => {},
                }
                if unhandled {
                    match self.data_map.get(ck.as_slice()) {
                        Some(Value::Compound(m)) => {
                            proof {
                                crate::nbt::lemma_lookup_wf(self.data_map.model(), ck@);
                            }
                            match m.get(coord_key(p).as_slice()) {
                                Some(v) => {
                                    proof {
                                        crate::nbt::lemma_lookup_wf(
                                            m.model(),
                                            crate::codec::be64(p),
                                        );
                                        assert(self.feature_at(ck@, p) == Some(v.model()));
                                        assert(self.spec_start_hit(ck@, p));
                                    }
                                    let fv = crate::nbt::clone_value(v);
                                    starts.insert(crate::nbt::copy_vec(ck), fv);
                                },
                                None => {
                                    proof {
                                        assert(self.feature_at(ck@, p) is None);
                                    }
                                },
                            }
                        },
                        _ => {
                            proof {
                                assert(self.feature_at(ck@, p) is None);
                            }
                        },
                    }
                }
            }
            proof {
                let ii = i as int;
                assert(0 <= ii < self.current_keys@.len() && (self.current_keys@[ii])@ == ck@);
            }
            i += 1;
        }
    }

    /// Write the 17-by-17 reference array of each structure id of the old
    /// per-chunk registry, where the chunk does not already carry one.
    #[verifier::loop_isolation(false)]
    pub fn build_references(&self, references: &mut Compound, chunk_x: i32, chunk_z: i32)
        requires
            self.wf(),
            old(references).wf(),
        ensures
            final(references).wf(),
            forall|k2: Seq<u8>|
                #[trigger] final(references).lookup(k2) == if self.key_in_current(k2) && !(old(
                    references,
                ).lookup(k2) matches Some(ValueModel::Longs(_))) && spec_in_old_registry(
                    spec_lower(k2),
                ) {
                    Some(ValueModel::Longs(refs_from(*self, k2, chunk_x, chunk_z, 0)))
                } else {
                    old(references).lookup(k2)
                },
    {
        let n = self.current_keys.len();
        let mut i: usize = 0;
        while i < n
            invariant
                n == self.current_keys@.len(),
                0 <= i <= n,
                references.wf(),
                forall|k2: Seq<u8>|
                    #[trigger] references.lookup(k2) == if (exists|j: int|
                        0 <= j < i && (#[trigger] self.current_keys@[j])@ == k2) && !(old(
                        references,
                    ).lookup(k2) matches Some(ValueModel::Longs(_))) && spec_in_old_registry(
                        spec_lower(k2),
                    ) {
                        Some(ValueModel::Longs(refs_from(*self, k2, chunk_x, chunk_z, 0)))
                    } else {
                        old(references).lookup(k2)
                    },
            decreases n - i,
        {
            let ck = &self.current_keys[i];
            let lower = lower_ascii(ck.as_slice());
            let is_old = in_old_registry(lower.as_slice());
            let mut already = false;
            match references.get(ck.as_slice()) {
                Some(Value::Longs(_)) => {
                    already = true;
                },
                _ => {},
            }
            if !already && is_old {
                let mut starts: Vec<i64> = Vec::new();
                let mut m: usize = 0;
                while m < 289
                    invariant
                        0 <= m <= 289,
                        starts@.len() <= m,
                        refs_from(*self, ck@, chunk_x, chunk_z, 0) =~= starts@ + refs_from(
                            *self,
                            ck@,
                            chunk_x,
                            chunk_z,
                            m as int,
                        ),
                    decreases 289 - m,
                {
                    let x: i32 = #[verifier::truncate] (((chunk_x as i64) - 8 + (m / 17) as i64)
                        as i32);
                    let z: i32 = #[verifier::truncate] (((chunk_z as i64) - 8 + (m % 17) as i64)
                        as i32);
                    proof {
                        assert(x == (chunk_x as int - 8 + (m as int) / 17) as i32);
                        assert(z == (chunk_z as int - 8 + (m as int) % 17) as i32);
                    }
                    if self.has_legacy_start(x, z, ck.as_slice()) {
                        starts.push(#[verifier::truncate] (pack_coords(x, z) as i64));
                    }
                    proof {
                        assert(refs_from(*self, ck@, chunk_x, chunk_z, 0) =~= starts@ + refs_from(
                            *self,
                            ck@,
                            chunk_x,
                            chunk_z,
                            m + 1,
                        ));
                    }
                    m += 1;
                }
                proof {
                    assert(refs_from(*self, ck@, chunk_x, chunk_z, 289) =~= Seq::<i64>::empty());
                    assert(starts@ =~= refs_from(*self, ck@, chunk_x, chunk_z, 0));
                }
                references.insert(crate::nbt::copy_vec(ck), Value::Longs(starts));
            }
            proof {
                let ii = i as int;
                assert(0 <= ii < self.current_keys@.len() && (self.current_keys@[ii])@ == ck@);
            }
            i += 1;
        }
    }
}

impl LegacyStructureDataHandler {
    /// Back-fill one world chunk from the legacy data: copy its pending
    /// feature starts into `Level.Structures.Starts` and write the missing
    /// 17-by-17 reference arrays into `Level.Structures.References`.
    ///
    /// The chunk keeps every other binding; a chunk without a `Level` node
    /// is left untouched.
    pub fn update_from_legacy(&self, chunk: &mut Compound)
        requires
            self.wf(),
            old(chunk).wf(),
        ensures
            final(chunk).wf(),
            forall|k: Seq<u8>|
                k != "Level".spec_bytes() ==> #[trigger] final(chunk).lookup(k) == old(
                    chunk,
                ).lookup(k),
            !(old(chunk).lookup("Level".spec_bytes()) matches Some(ValueModel::Compound(_)))
                ==> *final(chunk) == *old(chunk),
            old(chunk).lookup("Level".spec_bytes()) matches Some(ValueModel::Compound(lv0))
                ==> match final(chunk).lookup("Level".spec_bytes()) {
                Some(ValueModel::Compound(lv1)) => {
                    let cx = spec_i32_field(lv0, "xPos".spec_bytes());
                    let cz = spec_i32_field(lv0, "zPos".spec_bytes());
                    let p = spec_pack(cx, cz);
                    let st0 = match lv0.lookup("Structures".spec_bytes()) {
                        Some(ValueModel::Compound(s)) => s,
                        _ => empty_node(),
                    };
                    let sts0 = match st0.lookup("Starts".spec_bytes()) {
                        Some(ValueModel::Compound(s)) => s,
                        _ => empty_node(),
                    };
                    let rf0 = match st0.lookup("References".spec_bytes()) {
                        Some(ValueModel::Compound(s)) => s,
                        _ => empty_node(),
                    };
                    &&& forall|k: Seq<u8>|
                        k != "Structures".spec_bytes() ==> #[trigger] lv1.lookup(k) == lv0.lookup(
                            k,
                        )
                    &&& match lv1.lookup("Structures".spec_bytes()) {
                        Some(ValueModel::Compound(st1)) => {
                            &&& forall|k: Seq<u8>|
                                k != "Starts".spec_bytes() && k != "References".spec_bytes()
                                    ==> #[trigger] st1.lookup(k) == st0.lookup(k)
                            &&& match st1.lookup("References".spec_bytes()) {
                                Some(ValueModel::Compound(rf1)) => forall|k: Seq<u8>|
                                    #[trigger] rf1.lookup(k) == if self.key_in_current(k) && !(
                                    rf0.lookup(k) matches Some(ValueModel::Longs(_)))
                                        && spec_in_old_registry(spec_lower(k)) {
                                        Some(ValueModel::Longs(refs_from(*self, k, cx, cz, 0)))
                                    } else {
                                        rf0.lookup(k)
                                    },
                                _ => false,
                            }
                            &&& if self.spec_is_unhandled(p) {
                                match st1.lookup("Starts".spec_bytes()) {
                                    Some(ValueModel::Compound(sts1)) => forall|k: Seq<u8>|
                                        #[trigger] sts1.lookup(k) == if self.spec_start_hit(
                                            k,
                                            p,
                                        ) {
                                            self.feature_at(k, p)
                                        } else {
                                            sts0.lookup(k)
                                        },
                                    _ => false,
                                }
                            } else {
                                st1.lookup("Starts".spec_bytes()) == st0.lookup(
                                    "Starts".spec_bytes(),
                                )
                            }
                        },
                        _ => false,
                    }
                },
                _ => false,
            },
    {
        proof {
            reveal_strlit("Level");
            reveal_strlit("xPos");
            reveal_strlit("zPos");
            reveal_strlit("Structures");
            reveal_strlit("Starts");
            reveal_strlit("References");
        }
        let lk = key("Level");
        let is_level = match chunk.get(lk.as_slice()) {
            Some(Value::Compound(_)) => true,
            _ => false,
        };
        if !is_level {
            return ;
        }
        proof {
            crate::nbt::lemma_lookup_wf(chunk.model(), "Level".spec_bytes());
        }
        let mut level = match chunk.remove(lk.as_slice()) {
            Some(Value::Compound(l)) => l,
            _ => Compound::new(),
        };
        let ghost lv0 = level.model();
        let chunk_x = i32_field(&level, key("xPos").as_slice());
        let chunk_z = i32_field(&level, key("zPos").as_slice());
        let ghost p = spec_pack(chunk_x, chunk_z);
        let has_structs = match level.get(key("Structures").as_slice()) {
            Some(Value::Compound(_)) => true,
            _ => false,
        };
        let mut structures = if has_structs {
            proof {
                crate::nbt::lemma_lookup_wf(lv0, "Structures".spec_bytes());
            }
            match level.remove(key("Structures").as_slice()) {
                Some(Value::Compound(s)) => s,
                _ => Compound::new(),
            }
        } else {
            let _ = level.remove(key("Structures").as_slice());
            Compound::new()
        };
        let ghost st0 = structures.model();
        proof {
            if !has_structs {
                assert(st0 =~= empty_node());
                assert forall|k: Seq<u8>| #[trigger] st0.lookup(k) is None by {
                    crate::nbt::lemma_lookup_none(st0.entries, k);
                }
            }
        }
        let unhandled = self.is_unhandled_structure_start(chunk_x, chunk_z);
        if unhandled {
            let has_starts = match structures.get(key("Starts").as_slice()) {
                Some(Value::Compound(_)) => true,
                _ => false,
            };
            let mut starts = if has_starts {
                proof {
                    crate::nbt::lemma_lookup_wf(st0, "Starts".spec_bytes());
                }
                match structures.remove(key("Starts").as_slice()) {
                    Some(Value::Compound(s)) => s,
                    _ => Compound::new(),
                }
            } else {
                let _ = structures.remove(key("Starts").as_slice());
                Compound::new()
            };
            let ghost sts0m = starts.model();
            proof {
                if !has_starts {
                    assert forall|k: Seq<u8>| #[trigger] starts.lookup(k) is None by {
                        crate::nbt::lemma_lookup_none(starts.model().entries, k);
                    }
                }
            }
            self.update_structure_start(&mut starts, chunk_x, chunk_z);
            let ghost stsc = starts;
            structures.insert(key("Starts"), Value::Compound(starts));
            proof {
                assert(structures.lookup("Starts".spec_bytes()) == Some(
                    ValueModel::Compound(stsc.model()),
                ));
                assert forall|k: Seq<u8>|
                    #[trigger] stsc.model().lookup(k) == if self.spec_start_hit(
                        k,
                        spec_pack(chunk_x, chunk_z),
                    ) {
                        self.feature_at(k, spec_pack(chunk_x, chunk_z))
                    } else {
                        sts0m.lookup(k)
                    } by {
                    assert(stsc.lookup(k) == stsc.model().lookup(k));
                }
            }
        }
        let ghost st_mid = structures.model();
        let has_refs = match structures.get(key("References").as_slice()) {
            Some(Value::Compound(_)) => true,
            _ => false,
        };
        let mut references = if has_refs {
            proof {
                crate::nbt::lemma_lookup_wf(st_mid, "References".spec_bytes());
            }
            match structures.remove(key("References").as_slice()) {
                Some(Value::Compound(s)) => s,
                _ => Compound::new(),
            }
        } else {
            let _ = structures.remove(key("References").as_slice());
            Compound::new()
        };
        proof {
            if !has_refs {
                assert forall|k: Seq<u8>| #[trigger] references.lookup(k) is None by {
                    crate::nbt::lemma_lookup_none(references.model().entries, k);
                }
            }
        }
        let ghost rf0m = references.model();
        self.build_references(&mut references, chunk_x, chunk_z);
        let ghost refc = references;
        proof {
            assert forall|k: Seq<u8>|
                #[trigger] refc.model().lookup(k) == if self.key_in_current(k) && !(rf0m.lookup(k)
                    matches Some(ValueModel::Longs(_))) && spec_in_old_registry(spec_lower(k)) {
                    Some(ValueModel::Longs(refs_from(*self, k, chunk_x, chunk_z, 0)))
                } else {
                    rf0m.lookup(k)
                } by {
                assert(refc.lookup(k) == refc.model().lookup(k));
            }
        }
        structures.insert(key("References"), Value::Compound(references));
        let ghost stc = structures;
        level.insert(key("Structures"), Value::Compound(structures));
        let ghost lvc = level;
        chunk.insert(lk, Value::Compound(level));
        proof {
            assert(vstd::string::is_ascii("Starts"));
            assert(vstd::string::is_ascii("References"));
            vstd::string::is_ascii_spec_bytes("Starts");
            vstd::string::is_ascii_spec_bytes("References");
            assert("Starts".spec_bytes().len() == 6);
            assert("References".spec_bytes().len() == 10);
            assert("Starts".spec_bytes() != "References".spec_bytes());
            assert(final(chunk).lookup("Level".spec_bytes()) == Some(
                ValueModel::Compound(lvc.model()),
            ));
            assert(lvc.lookup("Structures".spec_bytes()) == Some(
                ValueModel::Compound(stc.model()),
            ));
            assert forall|k: Seq<u8>| k != "Structures".spec_bytes()
                implies #[trigger] lvc.model().lookup(k) == lv0.lookup(k) by {
                assert(lvc.lookup(k) == lvc.model().lookup(k));
            }
            assert(stc.model().lookup("References".spec_bytes()) == Some(
                ValueModel::Compound(refc.model()),
            )) by {
                assert(stc.lookup("References".spec_bytes()) == stc.model().lookup(
                    "References".spec_bytes(),
                ));
            }
            assert forall|k: Seq<u8>|
                k != "Starts".spec_bytes() && k != "References".spec_bytes()
                    implies #[trigger] stc.model().lookup(k) == st0.lookup(k) by {
                assert(stc.lookup(k) == stc.model().lookup(k));
            }
            if !unhandled {
                assert(stc.model().lookup("Starts".spec_bytes()) == st0.lookup(
                    "Starts".spec_bytes(),
                )) by {
                    assert(stc.lookup("Starts".spec_bytes()) == stc.model().lookup(
                        "Starts".spec_bytes(),
                    ));
                }
            } else {
                assert(stc.lookup("Starts".spec_bytes()) == stc.model().lookup(
                    "Starts".spec_bytes(),
                ));
            }
        }
    }
}

/// `idx_first` is the first match.
proof fn lemma_idx_first_at(s: Seq<(Vec<u8>, IndexData)>, k: Seq<u8>, i: int)
    requires
        0 <= i < s.len(),
        s[i].0@ == k,
        forall|j: int| 0 <= j < i ==> (#[trigger] s[j]).0@ != k,
    ensures
        idx_first(s, k) == i,
    decreases i,
{
    if i > 0 {
        assert forall|j: int| 0 <= j < i - 1 implies (#[trigger] s.skip(1)[j]).0@ != k by {
            assert(s.skip(1)[j] == s[j + 1]);
        }
        assert(s.skip(1)[i - 1] == s[i]);
        lemma_idx_first_at(s.skip(1), k, i - 1);
    }
}

/// Whether a vector holds a value.
pub fn contains_u64(v: &Vec<u64>, x: u64) -> (r: bool)
    ensures
        r == v@.contains(x),
{
    let n = v.len();
    let mut i: usize = 0;
    while i < n
        invariant
            n == v@.len(),
            0 <= i <= n,
            forall|j: int| 0 <= j < i ==> v@[j] != x,
        decreases n - i,
    {
        if v[i] == x {
            return true;
        }
        i += 1;
    }
    false
}

} // verus!
