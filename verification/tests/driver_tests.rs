//! The record upgrader, the preflight, sharding, and per-file decisions.
use world_upgrader::chunks::{
    chunk_upgrade_begin, chunk_upgrade_finish, crosses_entity_split, extract_entities,
    first_phase_target, has_legacy_flag, needs_backfill, peek_data_version, scrub_context,
    set_context, status_full,
};
use world_upgrader::files::{delete_legacy_dat_files, map_count, raids_plan, RaidsName, RaidsPlan};
use world_upgrader::indent::Indent;
use world_upgrader::level::{
    level_dat_decision, level_update_post, level_update_pre, level_update_set_world_gen,
    put_level_data, take_level_data, LevelDecision,
};
use world_upgrader::nbt::{Compound, NbtList, Value};
use world_upgrader::region::partition_chunks;
use world_upgrader::upgrade::{upgrade_begin, upgrade_finish, UpgradeStep};
use world_upgrader::legacy::LegacyStructureDataHandler;
use world_upgrader::versions::{PreflightError, VersionCatalog, VersionEntry};

fn k(s: &str) -> Vec<u8> {
    s.as_bytes().to_vec()
}

fn catalog() -> VersionCatalog {
    let rows = vec![
        (99u32, "old", false),
        (1343u32, "1.12.2", false),
        (1400u32, "17w48a", true),
        (1493u32, "18w20c", true),
        (2500u32, "20w15a", true),
        (2681u32, "20w45a", true),
        (3120u32, "1.19", false),
        (3700u32, "1.20.4", false),
    ];
    let mut entries = Vec::new();
    for (id, name, snapshot) in rows {
        entries.push(VersionEntry { id, name: k(name), snapshot });
    }
    VersionCatalog { entries }
}

#[test]
fn resolve_target_checks_names_and_snapshots() {
    let cat = catalog();
    assert_eq!(cat.resolve_target(b"1.20.4", false), Ok(3700));
    assert_eq!(cat.resolve_target(b"20w45a", true), Ok(2681));
    assert_eq!(
        cat.resolve_target(b"20w45a", false),
        Err(PreflightError::SnapshotRefused)
    );
    assert_eq!(
        cat.resolve_target(b"9.9.9", true),
        Err(PreflightError::UnknownVersion)
    );
    assert_eq!(cat.latest(), 3700);
}

#[test]
fn upgrader_refuses_downgrades_and_unknown_versions() {
    let cat = catalog();
    // a record newer than the target is refused: no downgrade
    let mut rec = Compound::new();
    rec.insert(k("DataVersion"), Value::Int(3700));
    rec.insert(k("payload"), Value::Byte(1));
    let step = upgrade_begin(&cat, &mut rec, 1343, 99);
    assert_eq!(step, UpgradeStep::DowngradeRefused(3700));
    // a version outside the catalog is refused untouched beyond the version
    let mut rec = Compound::new();
    rec.insert(k("DataVersion"), Value::Int(99999));
    let step = upgrade_begin(&cat, &mut rec, 3700, 99);
    assert_eq!(step, UpgradeStep::UnknownVersion(99999));
    // a record without a version gets the default
    let mut rec = Compound::new();
    let step = upgrade_begin(&cat, &mut rec, 3700, 99);
    assert_eq!(step, UpgradeStep::Convert { from: 99, to: 3700 });
}

#[test]
fn upgrader_stamps_the_target() {
    let cat = catalog();
    let mut rec = Compound::new();
    rec.insert(k("DataVersion"), Value::Int(1343));
    rec.insert(k("payload"), Value::Byte(1));
    let step = upgrade_begin(&cat, &mut rec, 3700, 99);
    assert_eq!(step, UpgradeStep::Convert { from: 1343, to: 3700 });
    assert!(rec.get(b"DataVersion").is_none());
    // the caller would drive the converter here; the record comes back
    upgrade_finish(&mut rec, 3700);
    match rec.get(b"DataVersion") {
        Some(Value::Int(v)) => assert_eq!(*v, 3700),
        _ => panic!("the upgrader must stamp the target version"),
    }
    match rec.get(b"payload") {
        Some(Value::Byte(1)) => {}
        _ => panic!("the payload must survive"),
    }
}

#[test]
fn already_at_target_converts_from_equal_versions() {
    let cat = catalog();
    let mut rec = Compound::new();
    rec.insert(k("DataVersion"), Value::Int(3700));
    let step = upgrade_begin(&cat, &mut rec, 3700, 99);
    assert_eq!(step, UpgradeStep::Convert { from: 3700, to: 3700 });
    upgrade_finish(&mut rec, 3700);
    match rec.get(b"DataVersion") {
        Some(Value::Int(v)) => assert_eq!(*v, 3700),
        _ => panic!("equal versions still stamp"),
    }
}

#[test]
fn sharding_groups_chunks_by_region_file() {
    let positions = vec![
        (0, 0),
        (31, 31),
        (32, 0),
        (-1, 0),
        (0, -1),
        (5, 7),
        (-33, -33),
    ];
    let shards = partition_chunks(&positions);
    let mut total = 0;
    for s in &shards {
        total += s.chunks.len();
        for c in &s.chunks {
            assert_eq!((c.0 >> 5, c.1 >> 5), (s.rx, s.rz));
        }
    }
    assert_eq!(total, positions.len());
    for i in 0..shards.len() {
        for j in 0..shards.len() {
            if i != j {
                assert!((shards[i].rx, shards[i].rz) != (shards[j].rx, shards[j].rz));
            }
        }
    }
    // (0,0), (31,31) and (5,7) share r.0.0; the rest are alone
    assert_eq!(shards.len(), 5);
}

#[test]
fn chunk_context_is_set_and_scrubbed() {
    let cat = catalog();
    let mut chunk = Compound::new();
    chunk.insert(k("DataVersion"), Value::Int(2500));
    set_context(&mut chunk, b"minecraft:overworld", b"minecraft:noise");
    match chunk.get(b"__context") {
        Some(Value::Compound(ctx)) => {
            match ctx.get(b"dimension") {
                Some(Value::Text(t)) => assert_eq!(t, &k("minecraft:overworld")),
                _ => panic!("the context must name the dimension"),
            }
        }
        _ => panic!("the context child must exist"),
    }
    let step = chunk_upgrade_begin(&cat, &mut chunk, 2681);
    assert_eq!(step, UpgradeStep::Convert { from: 2500, to: 2681 });
    chunk_upgrade_finish(&mut chunk, 2681);
    assert!(chunk.get(b"__context").is_none());
    match chunk.get(b"DataVersion") {
        Some(Value::Int(v)) => assert_eq!(*v, 2681),
        _ => panic!("the chunk must carry the target"),
    }
}

#[test]
fn scrub_alone_removes_the_context() {
    let mut chunk = Compound::new();
    set_context(&mut chunk, b"minecraft:the_end", b"minecraft:noise");
    scrub_context(&mut chunk);
    assert!(chunk.get(b"__context").is_none());
}

#[test]
fn entity_split_boundaries_and_phase_targets() {
    assert!(crosses_entity_split(2500, 2681));
    assert!(!crosses_entity_split(2681, 3700));
    assert!(!crosses_entity_split(2500, 2600));
    assert!(needs_backfill(1400, 3120));
    assert!(!needs_backfill(1493, 3120));
    assert!(!needs_backfill(1400, 1480));
    assert_eq!(first_phase_target(3120), 1493);
    assert_eq!(first_phase_target(1300), 1300);
}

fn full_chunk_with_entities() -> Compound {
    let mut level = Compound::new();
    level.insert(k("Status"), Value::Text(k("full")));
    let mut e1 = Compound::new();
    e1.insert(k("id"), Value::Text(k("minecraft:pig")));
    let mut e2 = Compound::new();
    e2.insert(k("id"), Value::Text(k("minecraft:cow")));
    level.insert(
        k("Entities"),
        Value::List(NbtList { elem: 10, items: vec![Value::Compound(e1), Value::Compound(e2)] }),
    );
    level.insert(k("xPos"), Value::Int(0));
    let mut chunk = Compound::new();
    chunk.insert(k("DataVersion"), Value::Int(2500));
    chunk.insert(k("Level"), Value::Compound(level));
    chunk
}

#[test]
fn entities_of_a_full_chunk_move_to_an_entity_chunk() {
    let mut chunk = full_chunk_with_entities();
    let out = extract_entities(&mut chunk).expect("a full chunk gives its entities up");
    match out.get(b"Entities") {
        Some(Value::List(l)) => assert_eq!(l.items.len(), 2),
        _ => panic!("the entity chunk must hold the list"),
    }
    assert_eq!(out.len(), 1);
    match chunk.get(b"Level") {
        Some(Value::Compound(lv)) => {
            assert!(lv.get(b"Entities").is_none());
            assert!(lv.get(b"Status").is_some());
        }
        _ => panic!("the level node must survive"),
    }
}

#[test]
fn entities_of_an_unfinished_chunk_stay_in_place() {
    let mut chunk = full_chunk_with_entities();
    // downgrade the status: the chunk is not fully generated
    match chunk.remove(b"Level") {
        Some(Value::Compound(mut lv)) => {
            lv.insert(k("Status"), Value::Text(k("features")));
            chunk.insert(k("Level"), Value::Compound(lv));
        }
        _ => panic!(),
    }
    assert!(extract_entities(&mut chunk).is_none());
    match chunk.get(b"Level") {
        Some(Value::Compound(lv)) => assert!(lv.get(b"Entities").is_some()),
        _ => panic!(),
    }
}

#[test]
fn flattened_chunks_give_entities_up_from_the_root() {
    let mut chunk = Compound::new();
    chunk.insert(k("Status"), Value::Text(k("minecraft:full")));
    chunk.insert(
        k("entities"),
        Value::List(NbtList { elem: 10, items: vec![Value::Compound(Compound::new())] }),
    );
    let out = extract_entities(&mut chunk).expect("a flattened full chunk extracts too");
    assert!(out.get(b"Entities").is_some());
    assert!(chunk.get(b"entities").is_none());
}

#[test]
fn status_and_flags_read_like_the_records_say() {
    let mut c = Compound::new();
    c.insert(k("Status"), Value::Text(k("full")));
    assert!(status_full(&c));
    c.insert(k("Status"), Value::Text(k("empty")));
    assert!(!status_full(&c));
    let mut level = Compound::new();
    level.insert(k("hasLegacyStructureData"), Value::Byte(1));
    let mut chunk = Compound::new();
    chunk.insert(k("Level"), Value::Compound(level));
    assert!(has_legacy_flag(&chunk));
    assert_eq!(peek_data_version(&chunk, 99), 99);
    chunk.insert(k("DataVersion"), Value::Int(1400));
    assert_eq!(peek_data_version(&chunk, 99), 1400);
}

#[test]
fn raids_files_follow_dimension_and_target() {
    // before raids existed nothing happens at all
    assert_eq!(
        raids_plan(b"minecraft:overworld", 1800, false, false),
        RaidsPlan::Skip
    );
    // the end always keeps its own registry
    assert_eq!(
        raids_plan(b"minecraft:the_end", 3700, false, false),
        RaidsPlan::Upgrade(RaidsName::RaidsEnd)
    );
    // the old nether name holds below the rename
    assert_eq!(
        raids_plan(b"minecraft:the_nether", 2500, false, false),
        RaidsPlan::Upgrade(RaidsName::RaidsNether)
    );
    // at the rename, the old registry moves unless the new file exists
    assert_eq!(
        raids_plan(b"minecraft:the_nether", 2972, false, false),
        RaidsPlan::RenameThenUpgrade
    );
    assert_eq!(
        raids_plan(b"minecraft:the_nether", 2972, false, true),
        RaidsPlan::Upgrade(RaidsName::Raids)
    );
    assert_eq!(
        raids_plan(b"minecraft:the_nether", 2972, true, false),
        RaidsPlan::DryRunRenameStandIn
    );
    assert_eq!(
        raids_plan(b"minecraft:overworld", 3700, false, false),
        RaidsPlan::Upgrade(RaidsName::Raids)
    );
}

#[test]
fn map_series_bound_comes_from_idcounts() {
    let mut idc = Compound::new();
    idc.insert(k("map"), Value::Int(2));
    assert_eq!(map_count(&idc), Some(2));
    let empty = Compound::new();
    assert_eq!(map_count(&empty), None);
}

#[test]
fn level_data_round_trip_and_decision() {
    let cat = catalog();
    let mut data = Compound::new();
    data.insert(k("DataVersion"), Value::Int(1343));
    data.insert(k("LevelName"), Value::Text(k("world")));
    let mut root = Compound::new();
    root.insert(k("Data"), Value::Compound(data));
    let mut taken = take_level_data(&mut root).expect("the Data child must come out");
    assert!(root.get(b"Data").is_none());
    let d = level_dat_decision(&cat, &mut taken, 3700);
    assert_eq!(d, LevelDecision::Proceed { from: 1343, persist: true });
    put_level_data(&mut root, taken);
    assert!(root.get(b"Data").is_some());
}

#[test]
fn level_data_newer_than_target_is_not_persisted() {
    let cat = catalog();
    let mut data = Compound::new();
    data.insert(k("DataVersion"), Value::Int(3700));
    let d = level_dat_decision(&cat, &mut data, 1343);
    assert_eq!(d, LevelDecision::Proceed { from: 3700, persist: false });
    let mut data = Compound::new();
    data.insert(k("DataVersion"), Value::Int(99999));
    let d = level_dat_decision(&cat, &mut data, 3700);
    assert_eq!(d, LevelDecision::UnknownVersion(99999));
}

#[test]
fn legacy_generator_keys_move_into_world_gen_settings() {
    let mut data = Compound::new();
    data.insert(k("RandomSeed"), Value::Long(12345));
    data.insert(k("generatorName"), Value::Text(k("flat")));
    data.insert(k("MapFeatures"), Value::Byte(1));
    data.insert(k("LevelName"), Value::Text(k("world")));
    level_update_pre(&mut data);
    // the caller would run the level converter here
    let wgs = level_update_post(&mut data, 3700).expect("new targets relocate the settings");
    assert!(data.get(b"RandomSeed").is_none());
    assert!(data.get(b"generatorName").is_none());
    assert!(data.get(b"MapFeatures").is_none());
    assert!(data.get(b"LevelName").is_some());
    match data.get(b"DataVersion") {
        Some(Value::Int(v)) => assert_eq!(*v, 3700),
        _ => panic!("the level data must carry the target"),
    }
    match wgs.get(b"RandomSeed") {
        Some(Value::Long(v)) => assert_eq!(*v, 12345),
        _ => panic!("the seed must move into the settings"),
    }
    match wgs.get(b"generatorName") {
        Some(Value::Text(t)) => assert_eq!(t, &k("flat")),
        _ => panic!("the generator name must move"),
    }
    // the caller would run the settings converter here
    let mut data2 = data;
    level_update_set_world_gen(&mut data2, wgs);
    assert!(data2.get(b"WorldGenSettings").is_some());
}

#[test]
fn old_targets_keep_the_legacy_generator_keys() {
    let mut data = Compound::new();
    data.insert(k("RandomSeed"), Value::Long(5));
    assert!(level_update_post(&mut data, 1343).is_none());
    assert!(data.get(b"RandomSeed").is_some());
}

#[test]
fn deleted_legacy_files_cover_all_three_dimensions() {
    let names = delete_legacy_dat_files();
    let expect: Vec<Vec<u8>> = vec![
        k("Monument"),
        k("Stronghold"),
        k("Village"),
        k("Mineshaft"),
        k("Temple"),
        k("Mansion"),
        k("Fortress"),
        k("EndCity"),
    ];
    assert_eq!(names, expect);
}

#[test]
fn the_chunk_pipeline_composes_end_to_end() {
    let cat = catalog();
    let target = 3120;

    // the dimension's legacy data: one village at the origin
    let mut feature = Compound::new();
    feature.insert(k("ChunkX"), Value::Int(0));
    feature.insert(k("ChunkZ"), Value::Int(0));
    feature.insert(k("id"), Value::Text(k("Village")));
    let mut features = Compound::new();
    features.insert(k("[0,0]"), Value::Compound(feature));
    let mut handler = LegacyStructureDataHandler::for_dimension(b"minecraft:overworld").unwrap();
    handler.add_legacy_file(b"Village", &features, &Compound::new());
    handler.finish();

    // a fully generated pre-monolith chunk with one entity and the flag
    let mut level = Compound::new();
    level.insert(k("xPos"), Value::Int(0));
    level.insert(k("zPos"), Value::Int(0));
    level.insert(k("hasLegacyStructureData"), Value::Byte(1));
    level.insert(k("Status"), Value::Text(k("full")));
    level.insert(
        k("Entities"),
        Value::List(NbtList { elem: 10, items: vec![Value::Compound(Compound::new())] }),
    );
    let mut chunk = Compound::new();
    chunk.insert(k("DataVersion"), Value::Int(1400));
    chunk.insert(k("Level"), Value::Compound(level));

    let initial = peek_data_version(&chunk, 99);
    assert_eq!(initial, 1400);

    // first phase: drive the converter to the monolith boundary
    assert!(initial < 1493);
    let step = upgrade_begin(&cat, &mut chunk, first_phase_target(target), 99);
    assert_eq!(step, UpgradeStep::Convert { from: 1400, to: 1493 });
    // the external converter runs here
    upgrade_finish(&mut chunk, 1493);

    // the back-fill between the phases
    assert!(needs_backfill(initial, target));
    assert!(has_legacy_flag(&chunk));
    handler.update_from_legacy(&mut chunk);

    // second phase: context in, converter to the target, context out
    set_context(&mut chunk, b"minecraft:overworld", b"minecraft:noise");
    let step = chunk_upgrade_begin(&cat, &mut chunk, target);
    assert_eq!(step, UpgradeStep::Convert { from: 1493, to: target });
    // the external converter runs here
    chunk_upgrade_finish(&mut chunk, target);
    assert!(chunk.get(b"__context").is_none());
    match chunk.get(b"DataVersion") {
        Some(Value::Int(v)) => assert_eq!(*v as u32, target),
        _ => panic!("the chunk must carry the target"),
    }

    // the target sits past the entity split: the entities move out
    assert!(crosses_entity_split(initial, target));
    let entity_chunk = extract_entities(&mut chunk).expect("a full chunk extracts");
    match entity_chunk.get(b"Entities") {
        Some(Value::List(l)) => assert_eq!(l.items.len(), 1),
        _ => panic!("the entity chunk holds the list"),
    }

    // and the back-fill left the village start and its references behind
    let lv = match chunk.get(b"Level") {
        Some(Value::Compound(l)) => l,
        _ => panic!(),
    };
    assert!(lv.get(b"Entities").is_none());
    let st = match lv.get(b"Structures") {
        Some(Value::Compound(s)) => s,
        _ => panic!("Structures must exist after the back-fill"),
    };
    match st.get(b"Starts") {
        Some(Value::Compound(starts)) => assert!(starts.get(b"Village").is_some()),
        _ => panic!("Starts must exist"),
    }
    match st.get(b"References") {
        Some(Value::Compound(refs)) => match refs.get(b"Village") {
            Some(Value::Longs(v)) => assert_eq!(v, &vec![0i64]),
            _ => panic!("the village references must be packed longs"),
        },
        _ => panic!("References must exist"),
    }
}

#[test]
fn indent_counts_and_renders() {
    let mut ind = Indent::new();
    assert_eq!(ind.count, 0);
    assert_eq!(ind.render(), Vec::<u8>::new());
    ind.indent();
    ind.indent();
    assert_eq!(ind.count, 2);
    assert_eq!(ind.render(), b"---- ".to_vec());
}
