use dorfromantik_calculator::board::Board;
use dorfromantik_calculator::config::tile_gen_configuration::TileGenFilter;
use dorfromantik_calculator::game_core::quest_manager::QuestManager;
use dorfromantik_calculator::game_core::tile_generator::{ordinary_tile_seed, GeneratedTileInfo, TileGenerator};
use dorfromantik_calculator::game_state::GameState;
use dorfromantik_calculator::group::GroupManager;
use dorfromantik_calculator::hex::AxialPos;
use dorfromantik_calculator::prng::{build_deck_tile, non_grass_segments, preset_edges, TileDeckGenerator};
use dorfromantik_calculator::tile::{Quest, QuestType, SegmentType, Tile};
use rand::Rng;
use rand::SeedableRng;

const G: SegmentType = SegmentType::Grass;
const F: SegmentType = SegmentType::Forest;

fn grass() -> Tile {
    Tile::new([G; 6], None)
}

#[test]
fn first_tile_must_go_to_the_origin() {
    let mut b = Board::new();
    assert!(!b.can_place(AxialPos::new(1, 0)));
    assert!(b.place_tile(AxialPos::new(1, 0), grass()).is_none());
    assert!(b.can_place(AxialPos::zero()));
    let r = b.place_tile(AxialPos::zero(), grass()).unwrap();
    assert_eq!(r.points_awarded, 0);
    assert_eq!(r.tiles_added_to_deck, 0);
    assert!(!r.is_perfect);
    assert_eq!(b.tiles.len(), 1);
    assert_eq!(b.valid_slots.len(), 6);
    assert!(!b.can_place(AxialPos::zero()));
    for d in 0..6usize {
        assert!(b.can_place(AxialPos::zero().neighbor(d)));
    }
    assert!(!b.can_place(AxialPos::new(2, 0)));
}

#[test]
fn matching_edges_score_ten_and_a_full_ring_is_perfect() {
    let mut b = Board::new();
    let ring = [(0, 0, 0u32), (1, -1, 10), (2, -1, 10), (2, 0, 10), (1, 1, 10), (0, 1, 20)];
    for (q, r, pts) in ring.iter() {
        let res = b.place_tile(AxialPos::new(*q, *r), grass()).unwrap();
        assert_eq!(res.points_awarded, *pts);
        assert!(!res.is_perfect);
    }
    let res = b.place_tile(AxialPos::new(1, 0), grass()).unwrap();
    assert!(res.is_perfect);
    assert_eq!(res.points_awarded, 120);
    assert_eq!(res.tiles_added_to_deck, 1);
    assert_eq!(res.quests_completed, 0);
    assert_eq!(res.flags_completed, 0);
    assert!(b.tiles.iter().any(|(p, t)| *p == AxialPos::new(1, 0) && t.is_perfect));
}

#[test]
fn mismatched_edges_score_nothing() {
    let mut b = Board::new();
    b.place_tile(AxialPos::zero(), grass()).unwrap();
    // the new tile faces the origin with its edge 3
    let t = Tile::new([G, G, G, F, G, G], None);
    let res = b.place_tile(AxialPos::new(1, -1), t).unwrap();
    assert_eq!(res.points_awarded, 0);
}

fn forest_quest(count: usize) -> Quest {
    Quest { target_type: F, quest_type: QuestType::MoreThan, target_count: count, is_fulfilled: false, is_flag: false }
}

#[test]
fn completed_quest_turns_into_a_flag() {
    let mut b = Board::new();
    let t = Tile::new([F, G, G, G, G, G], Some(forest_quest(1)));
    let res = b.place_tile(AxialPos::zero(), t).unwrap();
    assert_eq!(res.points_awarded, 100);
    assert_eq!(res.tiles_added_to_deck, 5);
    assert_eq!(res.quests_completed, 1);
    assert_eq!(res.flags_completed, 0);
    let q = b.tiles[0].1.tile.quest.unwrap();
    assert!(q.is_flag);
    assert!(!q.is_fulfilled);
}

#[test]
fn flag_is_completed_on_a_later_placement() {
    let mut b = Board::new();
    b.place_tile(AxialPos::zero(), Tile::new([F, G, G, G, G, G], Some(forest_quest(1)))).unwrap();
    let res = b.place_tile(AxialPos::new(1, -1), Tile::new([G, G, G, F, G, G], None)).unwrap();
    assert_eq!(res.points_awarded, 110);
    assert_eq!(res.tiles_added_to_deck, 5);
    assert_eq!(res.quests_completed, 0);
    assert_eq!(res.flags_completed, 1);
    let q = b.tiles[0].1.tile.quest.unwrap();
    assert!(q.is_flag && q.is_fulfilled);
    // nothing more to settle afterwards
    let res = b.place_tile(AxialPos::new(-1, 0), grass()).unwrap();
    assert_eq!(res.flags_completed, 0);
    assert_eq!(res.points_awarded, 10);
}

#[test]
fn unmet_quest_stays_open() {
    let mut b = Board::new();
    let res = b.place_tile(AxialPos::zero(), Tile::new([F, G, G, G, G, G], Some(forest_quest(3)))).unwrap();
    assert_eq!(res.quests_completed, 0);
    assert_eq!(res.points_awarded, 0);
    let q = b.tiles[0].1.tile.quest.unwrap();
    assert!(!q.is_flag && !q.is_fulfilled);
}

#[test]
fn groups_join_across_matching_edges() {
    let mut gm = GroupManager::new();
    let o = AxialPos::zero();
    let n = AxialPos::new(1, -1);
    let e0 = [F, G, G, G, G, G];
    gm.add_tile_segments(o, &e0, &vec![(o, e0)]);
    assert_eq!(gm.get_group_size(o, F), 1);
    assert!(!gm.is_group_closed(o, F));
    assert_eq!(gm.get_group_size(o, SegmentType::Water), 0);
    assert!(!gm.is_group_closed(o, SegmentType::Water));
    let e1 = [G, G, G, F, G, G];
    gm.add_tile_segments(n, &e1, &vec![(o, e0), (n, e1)]);
    assert_eq!(gm.get_group_size(o, F), 2);
    assert_eq!(gm.get_group_size(n, F), 2);
    assert!(gm.is_group_closed(n, F));
    // the grass of the two tiles does not meet: only the forest edges face each other
    assert_eq!(gm.get_group_size(o, G), 1);
    assert!(!gm.is_group_closed(o, G));
}

#[test]
fn union_find_merges_classes() {
    let mut gm = GroupManager::new();
    let a = AxialPos::new(0, 0);
    let b = AxialPos::new(5, 5);
    gm.add_tile_segments(a, &[F; 6], &vec![]);
    gm.add_tile_segments(b, &[F; 6], &vec![]);
    assert_ne!(gm.find(0), gm.find(1));
    gm.union(0, 1);
    assert_eq!(gm.find(0), gm.find(1));
    assert_eq!(gm.get_group_size(b, F), 2);
    assert!(!gm.is_group_closed(a, F));
}

#[test]
fn game_starts_with_two_tiles_in_hand() {
    let g = GameState::new(42, Some(50));
    assert_eq!(g.tiles_remaining, 50);
    assert_eq!(g.score, 0);
    assert!(!g.game_over);
    assert_eq!(g.current_tile.rotation, 0);
    assert_eq!(g.board.tiles.len(), 0);
    let g2 = GameState::new(42, None);
    assert_eq!(g2.tiles_remaining, 40);
    assert_eq!(g2.current_tile, g.current_tile);
    assert_eq!(g2.next_tile, g.next_tile);
}

#[test]
fn placing_advances_the_hand_and_counters() {
    let mut g = GameState::new(7, Some(3));
    let next = g.next_tile;
    assert!(!g.place_current_tile(AxialPos::new(4, 4)));
    assert_eq!(g.tiles_placed_count, 0);
    assert!(g.place_current_tile(AxialPos::zero()));
    assert_eq!(g.tiles_placed_count, 1);
    assert_eq!(g.tiles_remaining, 2);
    assert_eq!(g.current_tile, next);
    assert!(!g.game_over);
    assert!(g.place_current_tile(AxialPos::new(1, 0)));
    assert!(g.place_current_tile(AxialPos::new(-1, 0)));
    assert_eq!(g.tiles_remaining, 0);
    assert!(g.game_over);
    assert!(!g.place_current_tile(AxialPos::new(0, 1)));
    assert_eq!(g.tiles_placed_count, 3);
}

#[test]
fn classic_mode_spends_one_tile_per_placement() {
    let mut g = GameState::new(11, None);
    assert!(g.place_current_tile(AxialPos::zero()));
    assert!(g.tiles_remaining >= 39);
    assert_eq!(g.score % 10, 0);
}

#[test]
fn rotating_the_hand() {
    let mut g = GameState::new(3, None);
    let before = g.current_tile;
    g.rotate_current_tile();
    assert_eq!(g.current_tile.rotation, 1);
    assert_eq!(g.current_tile.edges[1], before.edges[0]);
    for _ in 0..5 {
        g.rotate_current_tile();
    }
    assert_eq!(g.current_tile, before);
}

fn reference_draw(rng: &mut rand_pcg::Pcg32) -> ([SegmentType; 6], Option<Quest>) {
    let idx = rng.gen_range(0..14usize);
    let edges = preset_edges(idx);
    let quest = if rng.gen_bool(0.20) {
        let ng: Vec<SegmentType> = edges.iter().cloned().filter(|&s| s != G).collect();
        let target_type = if !ng.is_empty() {
            ng[rng.gen_range(0..ng.len())]
        } else {
            match rng.gen_range(0..3) {
                0 => F,
                1 => SegmentType::Village,
                _ => SegmentType::Agriculture,
            }
        };
        let quest_type = if rng.gen_bool(0.7) { QuestType::MoreThan } else { QuestType::Exactly };
        let target_count: usize = match target_type {
            SegmentType::Forest => rng.gen_range(10..=30),
            SegmentType::Village => rng.gen_range(5..=20),
            SegmentType::Agriculture => rng.gen_range(8..=25),
            SegmentType::Water => rng.gen_range(4..=12),
            SegmentType::Train => rng.gen_range(4..=12),
            SegmentType::Grass => 10,
        };
        Some(Quest { target_type, quest_type, target_count, is_fulfilled: false, is_flag: false })
    } else {
        None
    };
    (edges, quest)
}

#[test]
fn deck_matches_the_reference_draws() {
    for seed in 0..20u64 {
        let mut deck = TileDeckGenerator::new(seed);
        let mut rng = rand_pcg::Pcg32::seed_from_u64(seed);
        for _ in 0..40 {
            let t = deck.draw_next_tile();
            let (edges, quest) = reference_draw(&mut rng);
            assert_eq!(t.edges, edges);
            assert_eq!(t.quest, quest);
            assert_eq!(t.rotation, 0);
        }
        assert_eq!(deck.seed, seed);
    }
}

#[test]
fn deck_is_deterministic_and_varied() {
    let mut a = TileDeckGenerator::new(1234);
    let mut b = TileDeckGenerator::new(1234);
    let mut kinds = std::collections::HashSet::new();
    let mut quests = 0;
    for _ in 0..200 {
        let ta = a.draw_next_tile();
        assert_eq!(ta, b.draw_next_tile());
        kinds.insert(format!("{:?}", ta.edges));
        if ta.quest.is_some() {
            quests += 1;
        }
    }
    assert!(kinds.len() > 5);
    assert!(quests > 0 && quests < 200);
}

#[test]
fn presets_and_non_grass() {
    assert_eq!(preset_edges(0), [G; 6]);
    assert_eq!(preset_edges(13), [SegmentType::Agriculture, SegmentType::Agriculture, SegmentType::Water, G, SegmentType::Water, G]);
    assert_eq!(non_grass_segments(&preset_edges(12)), vec![F, F, SegmentType::Village]);
    assert!(non_grass_segments(&preset_edges(0)).is_empty());
}

#[test]
fn tile_generator_seeds() {
    let mut g = TileGenerator::new(100, 7);
    let mut qm = QuestManager::new();
    let d1 = g.next_draw();
    assert_eq!(d1.tile_index, 1);
    assert_eq!(d1.base_seed, 100);
    assert_eq!(d1.roll_seed, 107);
    assert_eq!(d1.filter, TileGenFilter::AtLeastTwoEmptyEdges);
    assert_eq!(g.start_quest_tile(&mut qm), 200);
    assert_eq!(qm.active_quest_count, 1);
    assert_eq!(g.generated_quest_count, 1);
    let d2 = g.next_draw();
    assert_eq!(d2.base_seed, 100);
    assert_eq!(d2.roll_seed, 114);
    assert_eq!(ordinary_tile_seed(&d2), 200);
    let d3 = g.next_draw();
    assert_eq!(d3.base_seed, 107);
    assert_eq!(g.start_quest_tile(&mut qm), 214);
    for _ in 0..3 {
        g.next_draw();
    }
    let d7 = g.next_draw();
    assert_eq!(d7.tile_index, 7);
    assert_eq!(d7.filter, TileGenFilter::Unfiltered);
}

#[test]
fn tile_generator_wraps_in_32_bits() {
    let mut g = TileGenerator::new(i32::MAX, 1);
    let d = g.next_draw();
    assert_eq!(d.roll_seed, i32::MIN);
    assert_eq!(ordinary_tile_seed(&d), -2);
    let mut h = TileGenerator::new(0, 5);
    h.set_step(-3);
    assert_eq!(h.tile_seed_increment_step, -3);
    assert_eq!(h.next_draw().roll_seed, -3);
}

#[test]
fn quest_manager_counts() {
    let mut q = QuestManager::new();
    q.complete_or_remove_quest();
    assert_eq!(q.active_quest_count, 0);
    q.add_quest();
    q.add_quest();
    q.complete_or_remove_quest();
    assert_eq!(q.active_quest_count, 1);
    assert_eq!(q.total_quests_generated, 2);
    q.reset();
    assert_eq!(q, QuestManager::new());
}

#[test]
fn consecutive_ordinary_seeds_are_one_step_apart() {
    let mut g = TileGenerator::new(i32::MAX - 3, 2);
    let seeds: Vec<i32> = (0..3).map(|_| g.next_draw().base_seed).collect();
    assert_eq!(seeds, vec![i32::MAX - 3, i32::MAX - 1, i32::MIN]);
    for w in seeds.windows(2) {
        assert_eq!(w[1], w[0].wrapping_add(2));
    }
}

#[test]
fn isolated_tile_features_hold_only_that_tile() {
    let mut gm = GroupManager::new();
    let p = AxialPos::new(4, -2);
    let e = [F, F, G, SegmentType::Water, G, G];
    gm.add_tile_segments(p, &e, &vec![(p, e)]);
    assert_eq!(gm.get_group_size(p, F), 1);
    assert_eq!(gm.get_group_size(p, G), 1);
    assert_eq!(gm.get_group_size(p, SegmentType::Water), 1);
    assert!(!gm.is_group_closed(p, F));
    assert_eq!(gm.get_group_size(p, SegmentType::Village), 0);
}

#[test]
fn feature_sizes_never_shrink_while_placing() {
    let mut b = Board::new();
    let cells = [(0, 0), (1, -1), (1, 0), (0, 1), (-1, 1), (-1, 0), (0, -1)];
    let mut last = 0usize;
    for (q, r) in cells.iter() {
        b.place_tile(AxialPos::new(*q, *r), Tile::new([F; 6], None)).unwrap();
        let size = b.group_manager.get_group_size(AxialPos::zero(), F);
        assert!(size >= last);
        last = size;
    }
    assert_eq!(last, 7);
}

#[test]
fn deck_tile_from_drawn_values() {
    let t = build_deck_tile(12, Some((2, true, 7)));
    assert_eq!(t.edges, [F, F, SegmentType::Village, G, G, G]);
    assert_eq!(t.rotation, 0);
    let q = t.quest.unwrap();
    assert_eq!(q.target_type, SegmentType::Village);
    assert_eq!(q.quest_type, QuestType::MoreThan);
    assert_eq!(q.target_count, 7);
    assert!(!q.is_fulfilled && !q.is_flag);
    let plain = build_deck_tile(9, None);
    assert_eq!(plain.edges, [SegmentType::Water, SegmentType::Water, G, G, G, G]);
    assert!(plain.quest.is_none());
    let exact = build_deck_tile(0, Some((1, false, 3)));
    assert_eq!(exact.quest.unwrap().target_type, SegmentType::Village);
    assert_eq!(exact.quest.unwrap().quest_type, QuestType::Exactly);
}

#[test]
fn new_board_holds_no_feature() {
    let mut b = Board::new();
    assert!(b.tiles.is_empty());
    assert_eq!(b.valid_slots, vec![AxialPos::new(0, 0)]);
    assert!(b.can_place(AxialPos::new(0, 0)));
    assert!(!b.can_place(AxialPos::new(1, 0)));
    assert_eq!(b.group_manager.get_group_size(AxialPos::new(0, 0), F), 0);
    assert!(!b.group_manager.is_group_closed(AxialPos::new(0, 0), G));
}

#[test]
fn slots_are_the_free_cells_next_to_tiles() {
    let mut b = Board::new();
    let o = AxialPos::new(0, 0);
    b.place_tile(o, grass()).unwrap();
    let n = o.neighbor(0);
    b.place_tile(n, grass()).unwrap();
    for q in -4..=4 {
        for r in -4..=4 {
            let p = AxialPos::new(q, r);
            let placed = p == o || p == n;
            let next_to = (0..6).any(|d| p.neighbor(d) == o || p.neighbor(d) == n);
            assert_eq!(b.valid_slots.contains(&p), !placed && next_to, "cell ({}, {})", q, r);
        }
    }
    let mut sorted = b.valid_slots.clone();
    sorted.sort_by_key(|p| (p.q, p.r));
    sorted.dedup();
    assert_eq!(sorted.len(), b.valid_slots.len());
    assert_eq!(b.valid_slots.len(), 8);
}

#[test]
fn find_of_a_root_is_the_root() {
    let mut gm = GroupManager::new();
    gm.add_tile_segments(AxialPos::new(0, 0), &[F; 6], &vec![]);
    gm.add_tile_segments(AxialPos::new(5, 5), &[F; 6], &vec![]);
    gm.union(0, 1);
    let r = gm.find(1);
    assert_eq!(gm.find(r), r);
    assert_eq!(gm.find(1), r);
    assert_eq!(gm.find(0), r);
    assert_eq!(gm.get_group_size(AxialPos::new(5, 5), F), 2);
}

#[test]
fn generated_tile_records() {
    let gen = TileGenerator::new(1000, 7);
    let mut g2 = gen;
    let draw = g2.next_draw();
    let q = GeneratedTileInfo::quest_tile(&draw, 99, "Quest_A".to_string());
    assert!(q.is_quest);
    assert_eq!(q.tile_seed, 99);
    assert_eq!(q.tile_index, draw.tile_index);
    assert_eq!(q.occupied_edges, 2);
    assert_eq!(q.rotation, 0);
    assert_eq!(q.preset_name, "Quest_A");
    let t = GeneratedTileInfo::ordinary_tile(&draw, "Tile_B".to_string(), 4, 5);
    assert!(!t.is_quest);
    assert_eq!(t.tile_seed, draw.base_seed);
    assert_eq!(t.occupied_edges, 4);
    assert_eq!(t.rotation, 5);
}

#[test]
fn placement_needs_room_in_the_counters() {
    let mut g = GameState::new(42, Some(50));
    assert!(g.has_room());
    assert_eq!(g.try_place_current_tile(AxialPos::new(i32::MAX, 0)), Some(false));
    assert_eq!(g.tiles_placed_count, 0);
    assert_eq!(g.try_place_current_tile(AxialPos::new(3, 3)), Some(false));
    assert_eq!(g.try_place_current_tile(AxialPos::new(0, 0)), Some(true));
    assert_eq!(g.tiles_placed_count, 1);
    g.score = u32::MAX - 400;
    assert!(!g.has_room());
    let before_score = g.score;
    assert_eq!(g.try_place_current_tile(AxialPos::new(1, 0)), None);
    assert_eq!(g.score, before_score);
    assert_eq!(g.tiles_placed_count, 1);
    g.score = u32::MAX - 520;
    assert!(g.has_room());
    g.perfect_count = u32::MAX;
    assert!(!g.has_room());
}

#[test]
fn a_border_cell_that_is_not_free_is_refused() {
    let mut b = Board::new();
    assert!(b.place_tile(AxialPos::new(i32::MAX, i32::MIN), grass()).is_none());
    assert!(b.tiles.is_empty());
    assert_eq!(b.valid_slots, vec![AxialPos::new(0, 0)]);
    let mut g = GameState::new(7, None);
    let before = g.score;
    assert!(!g.place_current_tile(AxialPos::new(i32::MIN, 0)));
    assert_eq!(g.score, before);
    assert_eq!(g.tiles_placed_count, 0);
    assert!(!g.game_over);
}

#[test]
fn find_keeps_feature_answers() {
    let mut gm = GroupManager::new();
    let a = AxialPos::new(0, 0);
    let b = AxialPos::new(5, 5);
    gm.add_tile_segments(a, &[F; 6], &vec![]);
    gm.add_tile_segments(b, &[F; 6], &vec![]);
    gm.union(0, 1);
    let size = gm.get_group_size(a, F);
    let closed = gm.is_group_closed(b, F);
    gm.find(1);
    gm.find(0);
    assert_eq!(gm.get_group_size(a, F), size);
    assert_eq!(gm.get_group_size(b, F), 2);
    assert_eq!(gm.is_group_closed(b, F), closed);
}
