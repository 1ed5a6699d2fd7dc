//! The legacy structure handler, the back-fill, and dimension discovery.
use world_upgrader::dims::{builtin_dim, custom_dimensions, generator_type, split_dimension_id};
use world_upgrader::legacy::{
    current_to_legacy, legacy_to_current, lower_ascii, pack_coords, unpack_x, unpack_z,
    IndexData, LegacyStructureDataHandler,
};
use world_upgrader::nbt::{Compound, NbtList, Value};

fn k(s: &str) -> Vec<u8> {
    s.as_bytes().to_vec()
}

#[test]
fn packed_coordinates_keep_both_halves() {
    assert_eq!(pack_coords(0, 0), 0);
    assert_eq!(pack_coords(1, 0), 1);
    assert_eq!(pack_coords(0, 1), 1u64 << 32);
    assert_eq!(pack_coords(-1, 0), 0xffff_ffff);
    assert_eq!(pack_coords(1, -1), 0xffff_ffff_0000_0001);
    for (x, z) in [(0, 0), (5, -7), (i32::MIN, i32::MAX), (-1, -1)] {
        let p = pack_coords(x, z);
        assert_eq!(unpack_x(p), x);
        assert_eq!(unpack_z(p), z);
    }
}

#[test]
fn rename_tables_match_the_registry() {
    assert_eq!(legacy_to_current(b"Iglu"), Some(k("Igloo")));
    assert_eq!(legacy_to_current(b"TeDP"), Some(k("Desert_Pyramid")));
    assert_eq!(legacy_to_current(b"TeJP"), Some(k("Jungle_Pyramid")));
    assert_eq!(legacy_to_current(b"TeSH"), Some(k("Swamp_Hut")));
    assert_eq!(legacy_to_current(b"Village"), None);
    assert_eq!(current_to_legacy(b"Igloo"), Some(k("Temple")));
    assert_eq!(current_to_legacy(b"Village"), Some(k("Village")));
    assert_eq!(current_to_legacy(b"nonsense"), None);
    assert_eq!(lower_ascii(b"Desert_Pyramid"), k("desert_pyramid"));
}

fn village_features_at_origin() -> Compound {
    let mut feature = Compound::new();
    feature.insert(k("ChunkX"), Value::Int(0));
    feature.insert(k("ChunkZ"), Value::Int(0));
    feature.insert(k("id"), Value::Text(k("Village")));
    feature.insert(k("BB"), Value::Ints(vec![0, 0, 0, 16, 16, 16]));
    let mut features = Compound::new();
    features.insert(k("[0,0]"), Value::Compound(feature));
    features
}

fn overworld_handler_with_village() -> LegacyStructureDataHandler {
    let mut h = LegacyStructureDataHandler::for_dimension(b"minecraft:overworld")
        .expect("the overworld has legacy data");
    // an empty index record: the sets are rebuilt from the features
    h.add_legacy_file(b"Village", &village_features_at_origin(), &Compound::new());
    h.finish();
    h
}

#[test]
fn handlers_exist_for_the_three_builtin_dimensions_only() {
    assert!(LegacyStructureDataHandler::for_dimension(b"minecraft:overworld").is_some());
    assert!(LegacyStructureDataHandler::for_dimension(b"minecraft:the_nether").is_some());
    assert!(LegacyStructureDataHandler::for_dimension(b"minecraft:the_end").is_some());
    assert!(LegacyStructureDataHandler::for_dimension(b"my:dim").is_none());
}

#[test]
fn a_loaded_village_is_pending_at_its_chunk() {
    let h = overworld_handler_with_village();
    assert!(h.has_legacy_data);
    assert!(h.is_unhandled_structure_start(0, 0));
    assert!(!h.is_unhandled_structure_start(9, 9));
    assert!(h.has_legacy_start(0, 0, b"Village"));
    assert!(!h.has_legacy_start(1, 0, b"Village"));
    assert!(!h.has_legacy_start(0, 0, b"Monument"));
}

#[test]
fn the_backfill_writes_starts_and_references() {
    let h = overworld_handler_with_village();
    let mut level = Compound::new();
    level.insert(k("xPos"), Value::Int(0));
    level.insert(k("zPos"), Value::Int(0));
    level.insert(k("hasLegacyStructureData"), Value::Byte(1));
    let mut chunk = Compound::new();
    chunk.insert(k("Level"), Value::Compound(level));
    h.update_from_legacy(&mut chunk);
    let lv = match chunk.get(b"Level") {
        Some(Value::Compound(l)) => l,
        _ => panic!("the level node must survive"),
    };
    let st = match lv.get(b"Structures") {
        Some(Value::Compound(s)) => s,
        _ => panic!("the back-fill must create Structures"),
    };
    let starts = match st.get(b"Starts") {
        Some(Value::Compound(s)) => s,
        _ => panic!("the back-fill must create Starts"),
    };
    match starts.get(b"Village") {
        Some(Value::Compound(f)) => {
            match f.get(b"id") {
                Some(Value::Text(t)) => assert_eq!(t, &k("Village")),
                _ => panic!("the feature keeps its id"),
            }
            assert!(f.get(b"BB").is_some());
        }
        _ => panic!("the village start must be copied in"),
    }
    let refs = match st.get(b"References") {
        Some(Value::Compound(r)) => r,
        _ => panic!("the back-fill must create References"),
    };
    match refs.get(b"Village") {
        Some(Value::Longs(v)) => assert_eq!(v, &vec![0i64]),
        _ => panic!("the village reference array must list the origin chunk"),
    }
    // Monument has no legacy data here: its reference array is empty
    match refs.get(b"Monument") {
        Some(Value::Longs(v)) => assert!(v.is_empty()),
        _ => panic!("registry structures get an array even when empty"),
    }
}

#[test]
fn running_the_backfill_twice_changes_nothing_more() {
    let h = overworld_handler_with_village();
    let mut level = Compound::new();
    level.insert(k("xPos"), Value::Int(0));
    level.insert(k("zPos"), Value::Int(0));
    let mut chunk = Compound::new();
    chunk.insert(k("Level"), Value::Compound(level));
    h.update_from_legacy(&mut chunk);
    let once = world_upgrader::codec::encode_named(&k(""), &chunk);
    h.update_from_legacy(&mut chunk);
    let twice = world_upgrader::codec::encode_named(&k(""), &chunk);
    assert_eq!(once, twice);
}

#[test]
fn a_chunk_without_the_flag_keeps_its_level_untouched() {
    let h = overworld_handler_with_village();
    // the pipeline consults the flag before the back-fill; a chunk without
    // a level node is left alone by the back-fill itself
    let mut chunk = Compound::new();
    chunk.insert(k("Status"), Value::Text(k("full")));
    h.update_from_legacy(&mut chunk);
    assert!(chunk.get(b"Structures").is_none());
    assert_eq!(chunk.len(), 1);
}

#[test]
fn legacy_feature_ids_are_renamed_on_the_way_in() {
    let mut child = Compound::new();
    child.insert(k("id"), Value::Text(k("TeDP")));
    let mut feature = Compound::new();
    feature.insert(k("ChunkX"), Value::Int(3));
    feature.insert(k("ChunkZ"), Value::Int(-2));
    feature.insert(
        k("Children"),
        Value::List(NbtList { elem: 10, items: vec![Value::Compound(child)] }),
    );
    let mut features = Compound::new();
    features.insert(k("[3,-2]"), Value::Compound(feature));
    let mut h = LegacyStructureDataHandler::for_dimension(b"minecraft:overworld").unwrap();
    h.add_legacy_file(b"Temple", &features, &Compound::new());
    h.finish();
    assert!(h.has_legacy_data);
    assert!(h.has_legacy_start(3, -2, b"Desert_Pyramid"));
    assert!(!h.has_legacy_start(3, -2, b"Swamp_Hut"));
    assert!(h.is_unhandled_structure_start(3, -2));
}

#[test]
fn loaded_index_arrays_override_the_feature_chunks() {
    let mut index = Compound::new();
    index.insert(k("All"), Value::Longs(vec![pack_coords(0, 0) as i64, pack_coords(4, 4) as i64]));
    index.insert(k("Remaining"), Value::Longs(vec![pack_coords(4, 4) as i64]));
    let mut h = LegacyStructureDataHandler::for_dimension(b"minecraft:overworld").unwrap();
    h.add_legacy_file(b"Village", &village_features_at_origin(), &index);
    h.finish();
    // (0,0) was already migrated per the index: it is a start but not pending
    assert!(h.has_legacy_start(0, 0, b"Village"));
    assert!(!h.is_unhandled_structure_start(0, 0));
    assert!(h.is_unhandled_structure_start(4, 4));
}

#[test]
fn empty_feature_files_contribute_nothing() {
    let mut h = LegacyStructureDataHandler::for_dimension(b"minecraft:the_nether").unwrap();
    h.add_legacy_file(b"Fortress", &Compound::new(), &Compound::new());
    h.finish();
    assert!(!h.has_legacy_data);
    assert!(!h.is_unhandled_structure_start(0, 0));
}

#[test]
fn index_sets_answer_membership() {
    let mut idx = IndexData::new();
    idx.add_index(1, 2);
    assert!(idx.has_start_index(1, 2));
    assert!(idx.has_unhandled_index(1, 2));
    assert!(!idx.has_start_index(2, 1));
}

#[test]
fn custom_dimensions_are_the_non_builtin_keys_once_each() {
    let mut dims = Compound::new();
    dims.insert(k("minecraft:overworld"), Value::Compound(Compound::new()));
    dims.insert(k("my:skyworld"), Value::Compound(Compound::new()));
    dims.insert(k("the_nether"), Value::Compound(Compound::new()));
    dims.insert(k("other"), Value::Compound(Compound::new()));
    let mut wgs = Compound::new();
    wgs.insert(k("dimensions"), Value::Compound(dims));
    let mut data = Compound::new();
    data.insert(k("WorldGenSettings"), Value::Compound(wgs));
    let custom = custom_dimensions(&data);
    assert_eq!(custom, vec![k("my:skyworld"), k("other")]);
    assert!(builtin_dim(b"the_end"));
    assert!(!builtin_dim(b"my:skyworld"));
    // a level without the registry has no custom dimensions
    assert!(custom_dimensions(&Compound::new()).is_empty());
}

#[test]
fn generator_types_come_from_the_registry_with_a_default() {
    let mut gen = Compound::new();
    gen.insert(k("type"), Value::Text(k("minecraft:flat")));
    let mut dim = Compound::new();
    dim.insert(k("generator"), Value::Compound(gen));
    let mut dims = Compound::new();
    dims.insert(k("my:skyworld"), Value::Compound(dim));
    let mut wgs = Compound::new();
    wgs.insert(k("dimensions"), Value::Compound(dims));
    let mut data = Compound::new();
    data.insert(k("WorldGenSettings"), Value::Compound(wgs));
    assert_eq!(generator_type(&data, b"my:skyworld"), k("minecraft:flat"));
    assert_eq!(generator_type(&data, b"minecraft:overworld"), k("minecraft:noise"));
    assert_eq!(generator_type(&Compound::new(), b"any"), k("minecraft:noise"));
}

#[test]
fn dimension_ids_split_at_the_first_colon() {
    let (ns, path) = split_dimension_id(b"my:sky/world");
    assert_eq!(ns, k("my"));
    assert_eq!(path, k("sky/world"));
    let (ns, path) = split_dimension_id(b"plain");
    assert_eq!(ns, k("minecraft"));
    assert_eq!(path, k("plain"));
}
