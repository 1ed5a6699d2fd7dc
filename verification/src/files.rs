//! Per-file decisions: saved-data names, the raids registry, the map
//! series, and the legacy files deleted at the end of a run.
use vstd::prelude::*;
use vstd::string::StringSliceAdditionalSpecFns;

use crate::level::{FIRST_RAIDS_VERSION, NETHER_RAIDS_RENAME_VERSION};
use crate::nbt::{key, Compound, Value, ValueModel};

verus! {

/// A raids registry file name.
#[derive(Debug, PartialEq, Eq, Structural, Clone, Copy)]
pub enum RaidsName {
    /// `raids.dat`.
    Raids,
    /// `raids_nether.dat`.
    RaidsNether,
    /// `raids_end.dat`.
    RaidsEnd,
}

/// What the raids upgrade of one dimension does.
#[derive(Debug, PartialEq, Eq, Structural, Clone, Copy)]
pub enum RaidsPlan {
    /// The target predates raid registries: nothing happens.
    Skip,
    /// Upgrade this one registry file in place.
    Upgrade(RaidsName),
    /// Move `raids_nether.dat` to `raids.dat` (a missing source is
    /// tolerated, any other rename failure abandons the raids upgrade),
    /// then upgrade `raids.dat`.
    RenameThenUpgrade,
    /// The dry run's stand-in for the rename: upgrade `raids_nether.dat`
    /// in place, then upgrade `raids.dat`.
    DryRunRenameStandIn,
}

/// Decide the raids upgrade of a dimension: nothing before raids existed;
/// in the nether at a renamed-registry target, the old registry moves to
/// the plain name first, unless the plain file already exists; the end
/// keeps its own name; everything else uses the plain name.
pub fn raids_plan(dim_id: &[u8], target: u32, dry_run: bool, raids_dat_exists: bool) -> (r:
    RaidsPlan)
    ensures
        target < FIRST_RAIDS_VERSION ==> r == RaidsPlan::Skip,
        target >= FIRST_RAIDS_VERSION ==> {
            if dim_id@ == "minecraft:the_nether".spec_bytes() && target
                >= NETHER_RAIDS_RENAME_VERSION && !raids_dat_exists {
                r == if dry_run {
                    RaidsPlan::DryRunRenameStandIn
                } else {
                    RaidsPlan::RenameThenUpgrade
                }
            } else if dim_id@ == "minecraft:the_end".spec_bytes() {
                r == RaidsPlan::Upgrade(RaidsName::RaidsEnd)
            } else if dim_id@ == "minecraft:the_nether".spec_bytes() && target
                < NETHER_RAIDS_RENAME_VERSION {
                r == RaidsPlan::Upgrade(RaidsName::RaidsNether)
            } else {
                r == RaidsPlan::Upgrade(RaidsName::Raids)
            }
        },
{
    proof {
        reveal_strlit("minecraft:the_nether");
        reveal_strlit("minecraft:the_end");
        assert(vstd::string::is_ascii("minecraft:the_nether"));
        assert(vstd::string::is_ascii("minecraft:the_end"));
        vstd::string::is_ascii_spec_bytes("minecraft:the_nether");
        vstd::string::is_ascii_spec_bytes("minecraft:the_end");
        assert("minecraft:the_nether".spec_bytes().len() == 20);
        assert("minecraft:the_end".spec_bytes().len() == 17);
    }
    if target < FIRST_RAIDS_VERSION {
        return RaidsPlan::Skip;
    }
    let is_nether = crate::nbt::bytes_eq(dim_id, key("minecraft:the_nether").as_slice());
    let is_end = crate::nbt::bytes_eq(dim_id, key("minecraft:the_end").as_slice());
    if is_nether && target >= NETHER_RAIDS_RENAME_VERSION && !raids_dat_exists {
        if dry_run {
            RaidsPlan::DryRunRenameStandIn
        } else {
            RaidsPlan::RenameThenUpgrade
        }
    } else if is_end {
        RaidsPlan::Upgrade(RaidsName::RaidsEnd)
    } else if is_nether && target < NETHER_RAIDS_RENAME_VERSION {
        RaidsPlan::Upgrade(RaidsName::RaidsNether)
    } else {
        RaidsPlan::Upgrade(RaidsName::Raids)
    }
}

/// The highest allocated map id of `idcounts.dat`, if its `map` field is
/// integral; without one there are no maps to upgrade.
pub fn map_count(idcounts: &Compound) -> (r: Option<i32>)
    ensures
        r == match idcounts.lookup("map".spec_bytes()) {
            Some(ValueModel::Int(x)) => Some(x),
            Some(ValueModel::Byte(x)) => Some(x as i32),
            Some(ValueModel::Short(x)) => Some(x as i32),
            Some(ValueModel::Long(x)) => Some(x as i32),
            _ => None::<i32>,
        },
{
    proof {
        reveal_strlit("map");
    }
    match idcounts.get(key("map").as_slice()) {
        Some(Value::Int(x)) => Some(*x),
        Some(Value::Byte(x)) => Some(*x as i32),
        Some(Value::Short(x)) => Some(*x as i32),
        Some(Value::Long(x)) => Some(#[verifier::truncate] (*x as i32)),
        _ => None,
    }
}

/// The names of the legacy monolithic-structure files deleted under the
/// world's `data` folder once every dimension is upgraded: the six
/// overworld files, the nether's and the end's.
pub fn delete_legacy_dat_files() -> (r: Vec<Vec<u8>>)
    ensures
        crate::legacy::names_model(r@) == crate::legacy::overworld_legacy_keys() + crate::legacy::nether_keys()
            + crate::legacy::end_keys(),
{
    proof {
        reveal_strlit("Monument");
        reveal_strlit("Stronghold");
        reveal_strlit("Village");
        reveal_strlit("Mineshaft");
        reveal_strlit("Temple");
        reveal_strlit("Mansion");
        reveal_strlit("Fortress");
        reveal_strlit("EndCity");
    }
    let mut r: Vec<Vec<u8>> = Vec::new();
    r.push(key("Monument"));
    r.push(key("Stronghold"));
    r.push(key("Village"));
    r.push(key("Mineshaft"));
    r.push(key("Temple"));
    r.push(key("Mansion"));
    r.push(key("Fortress"));
    r.push(key("EndCity"));
    proof {
        assert(crate::legacy::names_model(r@) =~= crate::legacy::overworld_legacy_keys()
            + crate::legacy::nether_keys() + crate::legacy::end_keys());
    }
    r
}

} // verus!
