//! The record upgrader: version resolution, downgrade refusal, stamping.
//!
//! The schema converter itself is an external collaborator, so one upgrade
//! is two steps. `upgrade_begin` reads and removes the record's embedded
//! version, resolves it against the catalog, and either refuses (unknown
//! version, or newer than the target: no downgrade) or asks the caller to
//! drive the converter over the record from the resolved version to the
//! target. `upgrade_finish` then stamps the target version into whatever
//! the converter returned. A refused record is never handed on, so callers
//! persist nothing for it.
use vstd::prelude::*;
use vstd::string::StringSliceAdditionalSpecFns;

use crate::nbt::{key, Compound, CompoundModel, Value, ValueModel};
use crate::versions::VersionCatalog;

verus! {

/// The key of the embedded schema version.
pub open spec fn dv_key() -> Seq<u8> {
    "DataVersion".spec_bytes()
}

/// The key of the embedded schema version.
pub fn dv_key_vec() -> (r: Vec<u8>)
    ensures
        r@ == dv_key(),
        r@.len() <= crate::nbt::MAX_TEXT_LEN,
{
    proof {
        reveal_strlit("DataVersion");
    }
    key("DataVersion")
}

/// The schema version embedded in a record, as the unsigned reading of its
/// integral `DataVersion` field; records without one carry the default.
pub open spec fn data_version_of(c: CompoundModel, default_version: u32) -> u32 {
    match c.lookup(dv_key()) {
        Some(ValueModel::Int(x)) => x as u32,
        Some(ValueModel::Byte(x)) => (x as i32) as u32,
        Some(ValueModel::Short(x)) => (x as i32) as u32,
        Some(ValueModel::Long(x)) => (x as i32) as u32,
        _ => default_version,
    }
}

/// What the upgrader decides for a record.
#[derive(Debug, PartialEq, Eq, Structural, Clone, Copy)]
pub enum UpgradeStep {
    /// The embedded version is not in the catalog; the record is refused.
    UnknownVersion(u32),
    /// The record is newer than the target; it is never downgraded.
    DowngradeRefused(u32),
    /// Drive the external converter over the record between these versions,
    /// then stamp it with `upgrade_finish`.
    Convert { from: u32, to: u32 },
}

/// The upgrader's decision on a record: read the version, then refuse an
/// unknown or too-new record, or convert toward the target.
pub open spec fn upgrade_decision(
    cat: VersionCatalog,
    c: CompoundModel,
    target: u32,
    default_version: u32,
) -> UpgradeStep {
    let v = data_version_of(c, default_version);
    if !cat.knows(v) {
        UpgradeStep::UnknownVersion(v)
    } else if v > target {
        UpgradeStep::DowngradeRefused(v)
    } else {
        UpgradeStep::Convert { from: v, to: target }
    }
}

/// No downgrade: a record whose embedded version exceeds the target is
/// refused, never handed to the converter, so its persisted bytes stay as
/// they are.
pub proof fn lemma_no_downgrade(
    cat: VersionCatalog,
    c: CompoundModel,
    target: u32,
    default_version: u32,
)
    ensures
        data_version_of(c, default_version) > target ==> !(upgrade_decision(
            cat,
            c,
            target,
            default_version,
        ) is Convert),
{
}

/// Read and remove the embedded version, then decide: refuse, or hand the
/// caller a conversion request toward the target.
pub fn upgrade_begin(
    cat: &VersionCatalog,
    rec: &mut Compound,
    target: u32,
    default_version: u32,
) -> (r: UpgradeStep)
    requires
        old(rec).wf(),
    ensures
        final(rec).wf(),
        r == upgrade_decision(*cat, old(rec).model(), target, default_version),
        final(rec).lookup(dv_key()) is None,
        forall|k2: Seq<u8>|
            k2 != dv_key() ==> #[trigger] final(rec).lookup(k2) == old(rec).lookup(k2),
        !old(rec).has_key(dv_key()) ==> *final(rec) == *old(rec),
{
    let dv = dv_key_vec();
    let removed = rec.remove(dv.as_slice());
    let version: u32 = match removed {
        Some(Value::Int(x)) => #[verifier::truncate] (x as u32),
        Some(Value::Byte(x)) => #[verifier::truncate] ((x as i32) as u32),
        Some(Value::Short(x)) => #[verifier::truncate] ((x as i32) as u32),
        Some(Value::Long(x)) => #[verifier::truncate] ((x as i32) as u32),
        _ => default_version,
    };
    if !cat.contains_id(version) {
        UpgradeStep::UnknownVersion(version)
    } else if version > target {
        UpgradeStep::DowngradeRefused(version)
    } else {
        UpgradeStep::Convert { from: version, to: target }
    }
}

/// Stamp the target version into a converted record.
///
/// Every record the upgrader touches successfully leaves with
/// `DataVersion` equal to the target.
pub fn upgrade_finish(rec: &mut Compound, target: u32)
    requires
        old(rec).wf(),
    ensures
        final(rec).wf(),
        final(rec).lookup(dv_key()) == Some(ValueModel::Int(target as i32)),
        forall|k2: Seq<u8>|
            k2 != dv_key() ==> #[trigger] final(rec).lookup(k2) == old(rec).lookup(k2),
{
    let dv = dv_key_vec();
    rec.insert(dv, Value::Int(#[verifier::truncate] (target as i32)));
}

} // verus!
