//! The `level.dat` upgrade and what the dimension driver reads off it.
//!
//! The migrated map lives under the root's `Data` child. For new enough
//! targets the seven legacy generator keys move into `WorldGenSettings`
//! before that child is driven through its own converter. Custom dimensions
//! are the non-builtin keys of `Data.WorldGenSettings.dimensions`, each
//! visited exactly once, and a dimension's generator type is looked up
//! there, with a fixed default where any step of the path is missing.
use vstd::prelude::*;
use vstd::string::StringSliceAdditionalSpecFns;

use crate::nbt::{key, Compound, CompoundModel, Value, ValueModel};
use crate::upgrade::{data_version_of, dv_key};
use crate::versions::VersionCatalog;

verus! {

/// The first schema whose level data nests generator settings under
/// `WorldGenSettings`.
pub const WORLD_GEN_SETTINGS_VERSION: u32 = 2554;

/// The first schema with raid registries.
pub const FIRST_RAIDS_VERSION: u32 = 1912;

/// The schema that folded the nether raid registry into the plain name.
pub const NETHER_RAIDS_RENAME_VERSION: u32 = 2972;

/// The first schema with advancement and statistics files.
pub const ADVANCEMENTS_AND_STATS_VERSION: u32 = 1343;

/// What the driver decides for the level data before any conversion.
#[derive(Debug, PartialEq, Eq, Structural, Clone, Copy)]
pub enum LevelDecision {
    /// The embedded version is not in the catalog; the run stops.
    UnknownVersion(u32),
    /// Drive the converter from this version. `persist` is false when the
    /// level data is already newer than the target: the disk then stays
    /// untouched and only the in-memory copy is advanced, so dimension
    /// discovery can still proceed.
    Proceed { from: u32, persist: bool },
}

/// Take the migrated map out of the root: its `Data` child.
pub fn take_level_data(root: &mut Compound) -> (r: Option<Compound>)
    requires
        old(root).wf(),
    ensures
        final(root).wf(),
        match r {
            Some(d) => d.wf() && old(root).lookup("Data".spec_bytes()) == Some(
                ValueModel::Compound(d.model()),
            ) && final(root).lookup("Data".spec_bytes()) is None && forall|k: Seq<u8>|
                k != "Data".spec_bytes() ==> #[trigger] final(root).lookup(k) == old(root).lookup(
                    k,
                ),
            None => !(old(root).lookup("Data".spec_bytes()) matches Some(ValueModel::Compound(_)))
                && *final(root) == *old(root),
        },
{
    proof {
        reveal_strlit("Data");
    }
    let is_data = match root.get(key("Data").as_slice()) {
        Some(Value::Compound(_)) => true,
        _ => false,
    };
    if !is_data {
        return None;
    }
    proof {
        crate::nbt::lemma_lookup_wf(root.model(), "Data".spec_bytes());
    }
    match root.remove(key("Data").as_slice()) {
        Some(Value::Compound(d)) => Some(d),
        _ => None,
    }
}

/// Put the migrated map back under the root's `Data` child.
pub fn put_level_data(root: &mut Compound, data: Compound)
    requires
        old(root).wf(),
        data.wf(),
    ensures
        final(root).wf(),
        final(root).lookup("Data".spec_bytes()) == Some(ValueModel::Compound(data.model())),
        forall|k: Seq<u8>|
            k != "Data".spec_bytes() ==> #[trigger] final(root).lookup(k) == old(root).lookup(k),
{
    proof {
        reveal_strlit("Data");
    }
    root.insert(key("Data"), Value::Compound(data));
}

/// Read and remove the level data's version, and decide how the run
/// proceeds: stop on an unknown version, convert and persist on an
/// upgrade, convert the in-memory copy only on a downgrade.
pub fn level_dat_decision(cat: &VersionCatalog, data: &mut Compound, target: u32) -> (r:
    LevelDecision)
    requires
        old(data).wf(),
    ensures
        final(data).wf(),
        final(data).lookup(dv_key()) is None,
        forall|k: Seq<u8>|
            k != dv_key() ==> #[trigger] final(data).lookup(k) == old(data).lookup(k),
        r == {
            let v = data_version_of(old(data).model(), 99);
            if !cat.knows(v) {
                LevelDecision::UnknownVersion(v)
            } else {
                LevelDecision::Proceed { from: v, persist: v <= target }
            }
        },
{
    let step = crate::upgrade::upgrade_begin(cat, data, target, 99);
    match step {
        crate::upgrade::UpgradeStep::UnknownVersion(v) => LevelDecision::UnknownVersion(v),
        crate::upgrade::UpgradeStep::DowngradeRefused(v) => LevelDecision::Proceed {
            from: v,
            persist: false,
        },
        crate::upgrade::UpgradeStep::Convert { from, to } => LevelDecision::Proceed {
            from,
            persist: true,
        },
    }
}

/// Drop the level data's transient `Player` child before conversion.
pub fn level_update_pre(data: &mut Compound)
    requires
        old(data).wf(),
    ensures
        final(data).wf(),
        final(data).lookup("Player".spec_bytes()) is None,
        forall|k: Seq<u8>|
            k != "Player".spec_bytes() ==> #[trigger] final(data).lookup(k) == old(data).lookup(k),
{
    proof {
        reveal_strlit("Player");
    }
    let _ = data.remove(key("Player").as_slice());
}

/// Whether a key is one of the seven legacy generator settings.
pub open spec fn is_legacy_setting(k: Seq<u8>) -> bool {
    ||| k == "RandomSeed".spec_bytes()
    ||| k == "generatorName".spec_bytes()
    ||| k == "generatorOptions".spec_bytes()
    ||| k == "generatorVersion".spec_bytes()
    ||| k == "legacy_custom_options".spec_bytes()
    ||| k == "MapFeatures".spec_bytes()
    ||| k == "BonusChest".spec_bytes()
}

/// After the level converter ran, stamp the version; for new enough
/// targets, relocate the seven legacy generator keys into
/// `WorldGenSettings` and hand that child out so the caller can drive it
/// through its own converter, then put it back with
/// `level_update_set_world_gen`.
pub fn level_update_post(data: &mut Compound, to_version: u32) -> (r: Option<Compound>)
    requires
        old(data).wf(),
    ensures
        final(data).wf(),
        final(data).lookup(dv_key()) == Some(ValueModel::Int(to_version as i32)),
        to_version < WORLD_GEN_SETTINGS_VERSION ==> r is None && forall|k: Seq<u8>|
            k != dv_key() ==> #[trigger] final(data).lookup(k) == old(data).lookup(k),
        to_version >= WORLD_GEN_SETTINGS_VERSION ==> match r {
            Some(wgs) => {
                let wgs0 = match old(data).lookup("WorldGenSettings".spec_bytes()) {
                    Some(ValueModel::Compound(w)) => w,
                    _ => crate::legacy::empty_node(),
                };
                &&& wgs.wf()
                &&& forall|k: Seq<u8>|
                    is_legacy_setting(k) ==> #[trigger] final(data).lookup(k) is None
                &&& final(data).lookup("WorldGenSettings".spec_bytes()) is None
                &&& forall|k: Seq<u8>|
                    k != dv_key() && !is_legacy_setting(k) && k != "WorldGenSettings".spec_bytes()
                        ==> #[trigger] final(data).lookup(k) == old(data).lookup(k)
                &&& forall|k: Seq<u8>|
                    #[trigger] wgs.lookup(k) == if is_legacy_setting(k) && old(data).lookup(
                        k,
                    ) is Some {
                        old(data).lookup(k)
                    } else {
                        wgs0.lookup(k)
                    }
            },
            None => false,
        },
{
    proof {
        reveal_strlit("DataVersion");
        reveal_strlit("WorldGenSettings");
        reveal_strlit("RandomSeed");
        reveal_strlit("generatorName");
        reveal_strlit("generatorOptions");
        reveal_strlit("generatorVersion");
        reveal_strlit("legacy_custom_options");
        reveal_strlit("MapFeatures");
        reveal_strlit("BonusChest");
        lemma_legacy_settings_distinct();
    }
    crate::upgrade::upgrade_finish(data, to_version);
    if to_version < WORLD_GEN_SETTINGS_VERSION {
        return None;
    }
    let has_wgs = match data.get(key("WorldGenSettings").as_slice()) {
        Some(Value::Compound(_)) => true,
        _ => false,
    };
    let mut wgs = if has_wgs {
        proof {
            crate::nbt::lemma_lookup_wf(data.model(), "WorldGenSettings".spec_bytes());
        }
        match data.remove(key("WorldGenSettings").as_slice()) {
            Some(Value::Compound(w)) => w,
            _ => Compound::new(),
        }
    } else {
        let _ = data.remove(key("WorldGenSettings").as_slice());
        Compound::new()
    };
    proof {
        if !has_wgs {
            assert forall|k: Seq<u8>| #[trigger] wgs.lookup(k) is None by {
                crate::nbt::lemma_lookup_none(wgs.model().entries, k);
            }
        }
    }
    move_setting(data, &mut wgs, "RandomSeed");
    move_setting(data, &mut wgs, "generatorName");
    move_setting(data, &mut wgs, "generatorOptions");
    move_setting(data, &mut wgs, "generatorVersion");
    move_setting(data, &mut wgs, "legacy_custom_options");
    move_setting(data, &mut wgs, "MapFeatures");
    move_setting(data, &mut wgs, "BonusChest");
    Some(wgs)
}

/// The seven legacy generator keys differ pairwise; none is the version
/// key or the settings key.
proof fn lemma_legacy_settings_distinct()
    ensures
        "RandomSeed".spec_bytes().len() == 10,
        "generatorName".spec_bytes().len() == 13,
        "generatorOptions".spec_bytes().len() == 16,
        "generatorVersion".spec_bytes().len() == 16,
        "legacy_custom_options".spec_bytes().len() == 21,
        "MapFeatures".spec_bytes().len() == 11,
        "BonusChest".spec_bytes().len() == 10,
        "WorldGenSettings".spec_bytes().len() == 16,
        "RandomSeed".spec_bytes() != "BonusChest".spec_bytes(),
        "generatorOptions".spec_bytes() != "generatorVersion".spec_bytes(),
        "generatorOptions".spec_bytes() != "WorldGenSettings".spec_bytes(),
        "generatorVersion".spec_bytes() != "WorldGenSettings".spec_bytes(),
        !is_legacy_setting(dv_key()),
        !is_legacy_setting("WorldGenSettings".spec_bytes()),
        dv_key().len() == 11,
        dv_key() != "WorldGenSettings".spec_bytes(),
{
    reveal_strlit("RandomSeed");
    reveal_strlit("generatorName");
    reveal_strlit("generatorOptions");
    reveal_strlit("generatorVersion");
    reveal_strlit("legacy_custom_options");
    reveal_strlit("MapFeatures");
    reveal_strlit("BonusChest");
    reveal_strlit("WorldGenSettings");
    reveal_strlit("DataVersion");
    assert(vstd::string::is_ascii("RandomSeed"));
    assert(vstd::string::is_ascii("generatorName"));
    assert(vstd::string::is_ascii("generatorOptions"));
    assert(vstd::string::is_ascii("generatorVersion"));
    assert(vstd::string::is_ascii("legacy_custom_options"));
    assert(vstd::string::is_ascii("MapFeatures"));
    assert(vstd::string::is_ascii("BonusChest"));
    assert(vstd::string::is_ascii("WorldGenSettings"));
    assert(vstd::string::is_ascii("DataVersion"));
    vstd::string::is_ascii_spec_bytes("RandomSeed");
    vstd::string::is_ascii_spec_bytes("generatorName");
    vstd::string::is_ascii_spec_bytes("generatorOptions");
    vstd::string::is_ascii_spec_bytes("generatorVersion");
    vstd::string::is_ascii_spec_bytes("legacy_custom_options");
    vstd::string::is_ascii_spec_bytes("MapFeatures");
    vstd::string::is_ascii_spec_bytes("BonusChest");
    vstd::string::is_ascii_spec_bytes("WorldGenSettings");
    vstd::string::is_ascii_spec_bytes("DataVersion");
    assert("RandomSeed".spec_bytes()[0] == 82);
    assert("BonusChest".spec_bytes()[0] == 66);
    assert("generatorOptions".spec_bytes()[9] == 79);
    assert("generatorVersion".spec_bytes()[9] == 86);
    assert("WorldGenSettings".spec_bytes()[0] == 87);
    assert("generatorOptions".spec_bytes()[0] == 103);
    assert("DataVersion".spec_bytes().len() == 11);
    assert("MapFeatures".spec_bytes()[0] == 77);
    assert("DataVersion".spec_bytes()[0] == 68);
}

/// Move one legacy generator key from the level data into the settings.
fn move_setting(data: &mut Compound, wgs: &mut Compound, name: &str)
    requires
        old(data).wf(),
        old(wgs).wf(),
        name@.len() <= 30,
    ensures
        final(data).wf(),
        final(wgs).wf(),
        final(data).lookup(name.spec_bytes()) is None,
        forall|k: Seq<u8>|
            k != name.spec_bytes() ==> #[trigger] final(data).lookup(k) == old(data).lookup(k),
        forall|k: Seq<u8>|
            #[trigger] final(wgs).lookup(k) == if k == name.spec_bytes() && old(data).lookup(
                k,
            ) is Some {
                old(data).lookup(k)
            } else {
                old(wgs).lookup(k)
            },
{
    proof {
        crate::nbt::lemma_encode_utf8_len(name@);
    }
    let has = data.contains_key(key(name).as_slice());
    if has {
        proof {
            crate::nbt::lemma_lookup_wf(data.model(), name.spec_bytes());
        }
        match data.remove(key(name).as_slice()) {
            Some(v) => {
                wgs.insert(key(name), v);
            },
            None => {},
        }
    }
}

/// Put the converted settings back under `WorldGenSettings`.
pub fn level_update_set_world_gen(data: &mut Compound, wgs: Compound)
    requires
        old(data).wf(),
        wgs.wf(),
    ensures
        final(data).wf(),
        final(data).lookup("WorldGenSettings".spec_bytes()) == Some(
            ValueModel::Compound(wgs.model()),
        ),
        forall|k: Seq<u8>|
            k != "WorldGenSettings".spec_bytes() ==> #[trigger] final(data).lookup(k) == old(
                data,
            ).lookup(k),
{
    proof {
        reveal_strlit("WorldGenSettings");
    }
    data.insert(key("WorldGenSettings"), Value::Compound(wgs));
}

} // verus!
