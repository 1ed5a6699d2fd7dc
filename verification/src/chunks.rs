//! The per-chunk pipeline of the world-region upgrade.
//!
//! A chunk that predates the end of the monolithic structure data is first
//! driven to that boundary, back-filled from the legacy handler when its
//! level node asks for it, and only then driven to the target. The second
//! conversion sees a transient `__context` child naming the dimension and
//! generator, which is scrubbed before the chunk is persisted. A chunk
//! crossing the entity-separation boundary with a fully generated status
//! gives its entity list up into a sibling entity chunk.
//!
//! The schema converter is driven by the caller: each `upgrade_begin`
//! asking for a conversion is answered by converting the record and calling
//! the matching finish step.
use vstd::prelude::*;
use vstd::string::StringSliceAdditionalSpecFns;

use crate::nbt::{key, Compound, CompoundModel, Value, ValueModel};
use crate::upgrade::{data_version_of, dv_key, upgrade_begin, upgrade_decision, UpgradeStep};
use crate::versions::VersionCatalog;

verus! {

/// The last schema that kept world-global monolithic structure data.
pub const LAST_MONOLITH_VERSION: u32 = 1493;

/// The first schema with entities split into their own region folder.
pub const SEPARATE_ENTITIES_VERSION: u32 = 2681;

/// The first schema with point-of-interest region folders.
pub const FIRST_POI_VERSION: u32 = 1937;

/// The version a record without a `DataVersion` is taken to have.
pub const DEFAULT_DATA_VERSION: u32 = 99;

/// The key of the transient conversion context.
pub open spec fn context_key() -> Seq<u8> {
    "__context".spec_bytes()
}

/// Read a record's embedded version without touching the record.
pub fn peek_data_version(c: &Compound, default_version: u32) -> (r: u32)
    ensures
        r == data_version_of(c.model(), default_version),
{
    proof {
        reveal_strlit("DataVersion");
    }
    match c.get(key("DataVersion").as_slice()) {
        Some(Value::Int(x)) => #[verifier::truncate] (*x as u32),
        Some(Value::Byte(x)) => #[verifier::truncate] ((*x as i32) as u32),
        Some(Value::Short(x)) => #[verifier::truncate] ((*x as i32) as u32),
        Some(Value::Long(x)) => #[verifier::truncate] ((*x as i32) as u32),
        _ => default_version,
    }
}

/// The version the first conversion phase drives an old chunk to.
pub fn first_phase_target(target: u32) -> (r: u32)
    ensures
        r == if target < LAST_MONOLITH_VERSION {
            target
        } else {
            LAST_MONOLITH_VERSION
        },
{
    if target < LAST_MONOLITH_VERSION {
        target
    } else {
        LAST_MONOLITH_VERSION
    }
}

/// Whether an old chunk's level node still points at legacy structure
/// data.
pub open spec fn spec_has_legacy_flag(c: CompoundModel) -> bool {
    match c.lookup("Level".spec_bytes()) {
        Some(ValueModel::Compound(lv)) => match lv.lookup("hasLegacyStructureData".spec_bytes()) {
            Some(ValueModel::Byte(x)) => x != 0,
            Some(ValueModel::Short(x)) => (x as i8) != 0,
            Some(ValueModel::Int(x)) => (x as i8) != 0,
            Some(ValueModel::Long(x)) => (x as i8) != 0,
            _ => false,
        },
        _ => false,
    }
}

/// Whether the chunk's level node still points at legacy structure data.
pub fn has_legacy_flag(c: &Compound) -> (r: bool)
    ensures
        r == spec_has_legacy_flag(c.model()),
{
    proof {
        reveal_strlit("Level");
        reveal_strlit("hasLegacyStructureData");
    }
    match c.get(key("Level").as_slice()) {
        Some(Value::Compound(lv)) => match lv.get(key("hasLegacyStructureData").as_slice()) {
            Some(Value::Byte(x)) => *x != 0,
            Some(Value::Short(x)) => (#[verifier::truncate] (*x as i8)) != 0,
            Some(Value::Int(x)) => (#[verifier::truncate] (*x as i8)) != 0,
            Some(Value::Long(x)) => (#[verifier::truncate] (*x as i8)) != 0,
            _ => false,
        },
        _ => false,
    }
}

/// Whether the back-fill phase applies: the chunk started before the
/// monolithic boundary and the target lies at or past it.
pub fn needs_backfill(initial_version: u32, target: u32) -> (r: bool)
    ensures
        r == (initial_version < LAST_MONOLITH_VERSION && target >= LAST_MONOLITH_VERSION),
{
    initial_version < LAST_MONOLITH_VERSION && target >= LAST_MONOLITH_VERSION
}

/// Whether the entity split applies: the chunk started before the
/// separation boundary and the target lies at or past it.
pub fn crosses_entity_split(initial_version: u32, target: u32) -> (r: bool)
    ensures
        r == (initial_version < SEPARATE_ENTITIES_VERSION && target >= SEPARATE_ENTITIES_VERSION),
{
    initial_version < SEPARATE_ENTITIES_VERSION && target >= SEPARATE_ENTITIES_VERSION
}

/// Give the chunk its transient conversion context: the dimension id and
/// the generator type, under the `__context` child.
pub fn set_context(chunk: &mut Compound, dim_id: &[u8], generator: &[u8])
    requires
        old(chunk).wf(),
        dim_id@.len() <= crate::nbt::MAX_TEXT_LEN,
        generator@.len() <= crate::nbt::MAX_TEXT_LEN,
    ensures
        final(chunk).wf(),
        match final(chunk).lookup(context_key()) {
            Some(ValueModel::Compound(ctx)) => ctx.lookup("dimension".spec_bytes()) == Some(
                ValueModel::Text(dim_id@),
            ) && ctx.lookup("generator".spec_bytes()) == Some(ValueModel::Text(generator@)),
            _ => false,
        },
        forall|k: Seq<u8>|
            k != context_key() ==> #[trigger] final(chunk).lookup(k) == old(chunk).lookup(k),
{
    proof {
        reveal_strlit("__context");
        reveal_strlit("dimension");
        reveal_strlit("generator");
    }
    proof {
        assert(vstd::string::is_ascii("dimension"));
        assert(vstd::string::is_ascii("generator"));
        vstd::string::is_ascii_spec_bytes("dimension");
        vstd::string::is_ascii_spec_bytes("generator");
        assert("dimension".spec_bytes().len() == 9);
        assert("dimension".spec_bytes()[0] == 100);
        assert("generator".spec_bytes()[0] == 103);
        assert("dimension".spec_bytes() != "generator".spec_bytes());
    }
    let mut ctx = Compound::new();
    ctx.insert(key("dimension"), Value::Text(vstd::slice::slice_to_vec(dim_id)));
    ctx.insert(key("generator"), Value::Text(vstd::slice::slice_to_vec(generator)));
    proof {
        assert(ctx.lookup("dimension".spec_bytes()) == Some(ValueModel::Text(dim_id@)));
        assert(ctx.lookup("generator".spec_bytes()) == Some(ValueModel::Text(generator@)));
    }
    let ghost ctxc = ctx;
    let ghost ctxm = ctx.model();
    chunk.insert(key("__context"), Value::Compound(ctx));
    proof {
        assert(final(chunk).lookup(context_key()) == Some(ValueModel::Compound(ctxm)));
        assert(ctxm.lookup("dimension".spec_bytes()) == Some(ValueModel::Text(dim_id@))) by {
            assert(ctxc.lookup("dimension".spec_bytes()) == ctxm.lookup("dimension".spec_bytes()));
        }
        assert(ctxm.lookup("generator".spec_bytes()) == Some(ValueModel::Text(generator@))) by {
            assert(ctxc.lookup("generator".spec_bytes()) == ctxm.lookup("generator".spec_bytes()));
        }
    }
}

/// Scrub the transient conversion context: after this, the chunk record
/// holds no `__context` child.
pub fn scrub_context(chunk: &mut Compound)
    requires
        old(chunk).wf(),
    ensures
        final(chunk).wf(),
        final(chunk).lookup(context_key()) is None,
        !final(chunk).has_key(context_key()),
        forall|k: Seq<u8>|
            k != context_key() ==> #[trigger] final(chunk).lookup(k) == old(chunk).lookup(k),
{
    proof {
        reveal_strlit("__context");
    }
    let _ = chunk.remove(key("__context").as_slice());
}

/// Whether a chunk's generation status allows its entities to move out.
pub open spec fn spec_status_full(c: CompoundModel) -> bool {
    match c.lookup("Status".spec_bytes()) {
        Some(ValueModel::Text(t)) => t == "full".spec_bytes() || t
            == "minecraft:full".spec_bytes(),
        _ => false,
    }
}

/// Whether a node's generation status allows its entities to move out.
pub fn status_full(c: &Compound) -> (r: bool)
    ensures
        r == spec_status_full(c.model()),
{
    proof {
        reveal_strlit("Status");
        reveal_strlit("full");
        reveal_strlit("minecraft:full");
    }
    match c.get(key("Status").as_slice()) {
        Some(Value::Text(t)) => crate::nbt::bytes_eq(t.as_slice(), key("full").as_slice())
            || crate::nbt::bytes_eq(t.as_slice(), key("minecraft:full").as_slice()),
        _ => false,
    }
}

/// Lift the entity list out of a world chunk crossing the entity split.
///
/// A fully generated chunk gives up its entity list, from `Level.Entities`
/// in its old shape or from the root `entities` in the flattened one, and
/// the result is the entity chunk to write beside it: a node holding that
/// very list under `Entities`. Any other chunk keeps its entity list, and
/// everything else of the chunk stays as it was.
pub fn extract_entities(chunk: &mut Compound) -> (r: Option<Compound>)
    requires
        old(chunk).wf(),
    ensures
        final(chunk).wf(),
        match old(chunk).lookup("Level".spec_bytes()) {
            Some(ValueModel::Compound(lv0)) => {
                if spec_status_full(lv0) && lv0.lookup("Entities".spec_bytes()) is Some {
                    &&& match r {
                        Some(out) => out.wf() && out.model().entries.len() == 1 && out.lookup(
                            "Entities".spec_bytes(),
                        ) == lv0.lookup("Entities".spec_bytes()),
                        None => false,
                    }
                    &&& match final(chunk).lookup("Level".spec_bytes()) {
                        Some(ValueModel::Compound(lv1)) => lv1.lookup("Entities".spec_bytes())
                            is None && forall|k: Seq<u8>|
                            k != "Entities".spec_bytes() ==> #[trigger] lv1.lookup(k) == lv0.lookup(
                                k,
                            ),
                        _ => false,
                    }
                    &&& forall|k: Seq<u8>|
                        k != "Level".spec_bytes() ==> #[trigger] final(chunk).lookup(k) == old(
                            chunk,
                        ).lookup(k)
                } else {
                    r is None && *final(chunk) == *old(chunk)
                }
            },
            _ => {
                if spec_status_full(old(chunk).model()) && old(chunk).lookup(
                    "entities".spec_bytes(),
                ) is Some {
                    &&& match r {
                        Some(out) => out.wf() && out.model().entries.len() == 1 && out.lookup(
                            "Entities".spec_bytes(),
                        ) == old(chunk).lookup("entities".spec_bytes()),
                        None => false,
                    }
                    &&& final(chunk).lookup("entities".spec_bytes()) is None
                    &&& forall|k: Seq<u8>|
                        k != "entities".spec_bytes() ==> #[trigger] final(chunk).lookup(k) == old(
                            chunk,
                        ).lookup(k)
                } else {
                    r is None && *final(chunk) == *old(chunk)
                }
            },
        },
{
    proof {
        reveal_strlit("Level");
        reveal_strlit("Entities");
        reveal_strlit("entities");
    }
    let is_level = match chunk.get(key("Level").as_slice()) {
        Some(Value::Compound(_)) => true,
        _ => false,
    };
    if is_level {
        proof {
            crate::nbt::lemma_lookup_wf(chunk.model(), "Level".spec_bytes());
        }
        let ghost lv0 = match old(chunk).lookup("Level".spec_bytes()) {
            Some(ValueModel::Compound(l)) => l,
            _ => crate::legacy::empty_node(),
        };
        let mut take = false;
        match chunk.get(key("Level").as_slice()) {
            Some(Value::Compound(lv)) => {
                if status_full(lv) && lv.contains_key(key("Entities").as_slice()) {
                    take = true;
                }
            },
            _ => {},
        }
        if !take {
            return None;
        }
        let mut level = match chunk.remove(key("Level").as_slice()) {
            Some(Value::Compound(l)) => l,
            _ => Compound::new(),
        };
        let ents = match level.remove(key("Entities").as_slice()) {
            Some(e) => e,
            None => Value::Byte(0),
        };
        proof {
            crate::nbt::lemma_lookup_wf(lv0, "Entities".spec_bytes());
        }
        let ghost lvc = level;
        let ghost lvc_model = level.model();
        let ghost em = ents.model();
        chunk.insert(key("Level"), Value::Compound(level));
        let mut out = Compound::new();
        out.insert(key("Entities"), ents);
        proof {
            assert(out.lookup("Entities".spec_bytes()) == Some(em));
            assert(final(chunk).lookup("Level".spec_bytes()) == Some(
                ValueModel::Compound(lvc_model),
            ));
            assert(lvc_model.lookup("Entities".spec_bytes()) is None) by {
                assert(lvc.lookup("Entities".spec_bytes()) == lvc_model.lookup(
                    "Entities".spec_bytes(),
                ));
            }
            assert forall|k: Seq<u8>| k != "Entities".spec_bytes()
                implies #[trigger] lvc_model.lookup(k) == lv0.lookup(k) by {
                assert(lvc.lookup(k) == lvc_model.lookup(k));
            }
        }
        Some(out)
    } else {
        if !(status_full(chunk) && chunk.contains_key(key("entities").as_slice())) {
            return None;
        }
        proof {
            crate::nbt::lemma_lookup_wf(chunk.model(), "entities".spec_bytes());
        }
        let ents = match chunk.remove(key("entities").as_slice()) {
            Some(e) => e,
            None => Value::Byte(0),
        };
        let ghost em = ents.model();
        let mut out = Compound::new();
        out.insert(key("Entities"), ents);
        proof {
            assert(out.lookup("Entities".spec_bytes()) == Some(em));
        }
        Some(out)
    }
}

/// Begin the second conversion phase: the context is already in place,
/// the embedded version comes out, and the caller is told to convert to
/// the target or why the chunk is refused.
pub fn chunk_upgrade_begin(
    cat: &VersionCatalog,
    chunk: &mut Compound,
    target: u32,
) -> (r: UpgradeStep)
    requires
        old(chunk).wf(),
    ensures
        final(chunk).wf(),
        r == upgrade_decision(*cat, old(chunk).model(), target, DEFAULT_DATA_VERSION),
        final(chunk).lookup(dv_key()) is None,
        forall|k: Seq<u8>|
            k != dv_key() ==> #[trigger] final(chunk).lookup(k) == old(chunk).lookup(k),
{
    upgrade_begin(cat, chunk, target, DEFAULT_DATA_VERSION)
}

/// Finish a chunk conversion phase: stamp the version the converter was
/// driven to, and scrub the transient context. After this the chunk
/// carries the stamped version and no `__context` child.
pub fn chunk_upgrade_finish(chunk: &mut Compound, to_version: u32)
    requires
        old(chunk).wf(),
    ensures
        final(chunk).wf(),
        final(chunk).lookup(dv_key()) == Some(ValueModel::Int(to_version as i32)),
        !final(chunk).has_key(context_key()),
        forall|k: Seq<u8>|
            k != dv_key() && k != context_key() ==> #[trigger] final(chunk).lookup(k) == old(
                chunk,
            ).lookup(k),
{
    proof {
        reveal_strlit("DataVersion");
        reveal_strlit("__context");
        assert(vstd::string::is_ascii("DataVersion"));
        assert(vstd::string::is_ascii("__context"));
        vstd::string::is_ascii_spec_bytes("DataVersion");
        vstd::string::is_ascii_spec_bytes("__context");
        assert(dv_key().len() == 11);
        assert(context_key().len() == 9);
        assert(dv_key() != context_key());
    }
    crate::upgrade::upgrade_finish(chunk, to_version);
    scrub_context(chunk);
}

} // verus!
