use dorfromantik_calculator::game_core::tile_topology::{
    compute_canonical_edges_from_name, get_relative_pattern_offsets, MetadataDatabase, RawTileMetadata, TerrainType, TileTopology,
};

fn codes(e: &[TerrainType; 6]) -> String {
    e.iter().map(|t| t.to_code()).collect::<Vec<_>>().join(" ")
}

#[test]
fn canonical_edges_examples() {
    let (e, s) = compute_canonical_edges_from_name("QuestTile_3BF-1AV");
    assert_eq!(codes(&e), "F V F _ F _");
    assert_eq!(s, "3 F, 1 V");
    let (e, s) = compute_canonical_edges_from_name("2AW 2CT");
    assert_eq!(codes(&e), "W W T _ _ T");
    assert_eq!(s, "2 T, 2 W");
    let (e, s) = compute_canonical_edges_from_name("QuestTile_6AF");
    assert_eq!(codes(&e), "F F F F F F");
    assert_eq!(s, "6 F");
    let (e, s) = compute_canonical_edges_from_name("1AV-1AV-1AV");
    assert_eq!(codes(&e), "V V V _ _ _");
    assert_eq!(s, "3 V");
    let (e, s) = compute_canonical_edges_from_name("QuestTile_2AT_Locomotive");
    assert_eq!(codes(&e), "T T _ _ _ _");
    assert_eq!(s, "2 T");
    let (e, _) = compute_canonical_edges_from_name("3bf");
    assert_eq!(codes(&e), "F _ F _ F _");
}

#[test]
fn unparsable_name_gives_empty_tile() {
    let (e, s) = compute_canonical_edges_from_name("xx");
    assert_eq!(e, [TerrainType::Empty; 6]);
    assert_eq!(s, "Trống");
    let (e, _) = compute_canonical_edges_from_name("");
    assert_eq!(e, [TerrainType::Empty; 6]);
}

#[test]
fn codes_and_icons() {
    assert_eq!(TerrainType::Empty.to_code(), "_");
    assert_eq!(TerrainType::TrainTrack.to_code(), "T");
    assert_eq!(TerrainType::Water.icon(), "🌊");
    assert_eq!(TerrainType::Empty.icon(), "⬜");
}

fn topo(name: &str, village: usize, water: usize) -> TileTopology {
    let (edges, summary) = compute_canonical_edges_from_name(name);
    TileTopology { name: name.to_string(), edges, summary, village, forest: 0, agriculture: 0, train_tracks: 0, water }
}

#[test]
fn rotations_shift_the_edges() {
    let t = topo("QuestTile_3BF-1AV", 0, 0);
    assert_eq!(t.format_edges(), "F V F _ F _");
    let rots = t.format_rotations();
    assert_eq!(rots, vec!["F V F _ F _", "V F _ F _ F", "F _ F _ F V", "_ F _ F V F", "F _ F V F _", "_ F V F _ F"]);
    let all = t.get_all_rotations();
    assert_eq!(all[0], t.edges);
    assert_eq!(all[1][0], TerrainType::Village);
}

#[test]
fn exact_objects_text() {
    assert_eq!(topo("xx", 2, 1).format_exact_objects(), "🏠 2 Village | 🌊 1 Water");
    assert_eq!(topo("xx", 0, 0).format_exact_objects(), "Trống");
    let mut t = topo("xx", 0, 0);
    t.forest = 3;
    t.train_tracks = 1;
    assert_eq!(t.format_exact_objects(), "🌲 3 Forest | 🚂 1 TrainTracks");
}

fn meta(name: &str, sub: Option<&str>, village: usize) -> RawTileMetadata {
    RawTileMetadata {
        tile_type: "Quest".to_string(),
        name: name.to_string(),
        sub_collection: sub.map(|s| s.to_string()),
        village,
        forest: 1,
        agriculture: 0,
        train_tracks: 0,
        water: 0,
    }
}

#[test]
fn metadata_lookup_by_name_and_sub_collection() {
    let db = MetadataDatabase::from_tiles(vec![meta("QuestTile_2AV", Some("2AV"), 4), meta("Other", None, 1)]);
    let t = db.get_topology("QuestTile_2AV");
    assert_eq!(t.village, 4);
    assert_eq!(t.forest, 1);
    assert_eq!(codes(&t.edges), "V V _ _ _ _");
    assert_eq!(t.name, "QuestTile_2AV");
    assert_eq!(db.get_topology("2AV").village, 4);
    let unknown = db.get_topology("1AW");
    assert_eq!(unknown.village, 0);
    assert_eq!(unknown.forest, 0);
    assert_eq!(codes(&unknown.edges), "W _ _ _ _ _");
}

#[test]
fn later_metadata_wins() {
    let db = MetadataDatabase::from_tiles(vec![meta("A", None, 1), meta("A", None, 7)]);
    assert_eq!(db.get_topology("A").village, 7);
    assert_eq!(db.get("A").unwrap().village, 7);
    assert!(db.get("B").is_none());
}

#[test]
fn pattern_offsets_by_count_and_shape() {
    assert_eq!(get_relative_pattern_offsets(1, 'Q'), vec![0]);
    assert_eq!(get_relative_pattern_offsets(2, 'A'), vec![0, 1]);
    assert_eq!(get_relative_pattern_offsets(2, 'B'), vec![0, 4]);
    assert_eq!(get_relative_pattern_offsets(2, 'C'), vec![0, 3]);
    assert_eq!(get_relative_pattern_offsets(3, 'B'), vec![0, 2, 4]);
    assert_eq!(get_relative_pattern_offsets(4, 'B'), vec![0, 1, 3, 5]);
    assert_eq!(get_relative_pattern_offsets(5, 'Z'), vec![0, 1, 2, 3, 4]);
    assert_eq!(get_relative_pattern_offsets(6, 'A'), vec![0, 1, 2, 3, 4, 5]);
    // the shape letter is expected in upper case
    assert_eq!(get_relative_pattern_offsets(2, 'a'), vec![0]);
    assert_eq!(get_relative_pattern_offsets(7, 'A'), vec![0]);
    assert_eq!(get_relative_pattern_offsets(0, 'A'), vec![0]);
}

#[test]
fn lower_case_codes_are_read_like_upper_case() {
    let (e, s) = compute_canonical_edges_from_name("2cw-1aT");
    assert_eq!(codes(&e), "W T _ W _ _");
    assert_eq!(s, "1 T, 2 W");
}
