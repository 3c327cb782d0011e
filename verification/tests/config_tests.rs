use dorfromantik_calculator::config::custom_rule_level_configuration::{level_value, CustomRuleType, RuleLevelValues};
use dorfromantik_calculator::config::quest_system_configuration::UnityGroupTypeRef;
use dorfromantik_calculator::config::tile_gen_configuration::{
    filtered_preset_indices, preset_order_index, stable_order_by_key, tile_preset_sort_order, TileGenFilter,
};
use dorfromantik_calculator::game_core::group_type::GroupType;

#[test]
fn rule_numbers() {
    assert_eq!(CustomRuleType::VillageProbability.id(), 1);
    assert_eq!(CustomRuleType::TrainTrackProbability.id(), 5);
    assert_eq!(CustomRuleType::TileStackHeight.id(), 10);
    assert_eq!(CustomRuleType::TileLimit.id(), 11);
    assert_eq!(CustomRuleType::WorldBorderRadius.id(), 16);
}

#[test]
fn rule_from_number_round_trips() {
    let all = [
        CustomRuleType::VillageProbability, CustomRuleType::ForestProbability, CustomRuleType::AgricultureProbability,
        CustomRuleType::WaterProbability, CustomRuleType::TrainTrackProbability, CustomRuleType::TileStackHeight,
        CustomRuleType::TileLimit, CustomRuleType::Density, CustomRuleType::QuestProbability,
        CustomRuleType::QuestDifficulty, CustomRuleType::FlagQuestProbability, CustomRuleType::WorldBorderRadius,
    ];
    for t in all.iter() {
        assert_eq!(CustomRuleType::from_id(t.id()), Some(*t));
    }
    assert_eq!(CustomRuleType::from_id(12), Some(CustomRuleType::Density));
    assert_eq!(CustomRuleType::from_id(0), None);
    assert_eq!(CustomRuleType::from_id(6), None);
    assert_eq!(CustomRuleType::from_id(17), None);
}

#[test]
fn level_values_come_from_the_first_matching_rule() {
    let entries = vec![
        RuleLevelValues { rule_type: CustomRuleType::ForestProbability, values_by_level: vec![0.5f32, 1.0, 1.5] },
        RuleLevelValues { rule_type: CustomRuleType::WaterProbability, values_by_level: vec![2.0f32] },
        RuleLevelValues { rule_type: CustomRuleType::ForestProbability, values_by_level: vec![9.0f32, 9.0, 9.0, 9.0] },
    ];
    assert_eq!(level_value(&entries, CustomRuleType::ForestProbability, 2), Some(1.5));
    assert_eq!(level_value(&entries, CustomRuleType::ForestProbability, 3), None);
    assert_eq!(level_value(&entries, CustomRuleType::WaterProbability, 0), Some(2.0));
    assert_eq!(level_value(&entries, CustomRuleType::Density, 0), None);
}

#[test]
fn filter_keeps_presets_with_two_empty_edges() {
    assert!(TileGenFilter::AtLeastTwoEmptyEdges.allows(4));
    assert!(!TileGenFilter::AtLeastTwoEmptyEdges.allows(5));
    assert!(TileGenFilter::Unfiltered.allows(6));
    let occ = vec![0usize, 5, 4, 6, 2];
    assert_eq!(filtered_preset_indices(TileGenFilter::AtLeastTwoEmptyEdges, &occ), vec![0, 2, 4]);
    assert_eq!(filtered_preset_indices(TileGenFilter::Unfiltered, &occ), vec![0, 1, 2, 3, 4]);
    assert_eq!(filtered_preset_indices(TileGenFilter::AtLeastTwoEmptyEdges, &vec![]), Vec::<usize>::new());
}

#[test]
fn preset_memory_order() {
    assert_eq!(preset_order_index("0A"), 0);
    assert_eq!(preset_order_index("2B"), 16);
    assert_eq!(preset_order_index("3A_2B_1A"), 40);
    assert_eq!(preset_order_index("6A"), 70);
    assert_eq!(preset_order_index("7A"), 999);
    assert_eq!(preset_order_index(""), 999);
}

#[test]
fn presets_sort_stably_by_memory_order() {
    let names: Vec<String> = vec!["6A", "0A", "zz", "2B", "0A"].into_iter().map(|s| s.to_string()).collect();
    assert_eq!(tile_preset_sort_order(&names), vec![1, 4, 3, 0, 2]);
    assert_eq!(tile_preset_sort_order(&vec![]), Vec::<usize>::new());
}

#[test]
fn stable_order_keeps_ties_in_place() {
    assert_eq!(stable_order_by_key(&vec![3, 1, 3, 0, 1]), vec![3, 1, 4, 0, 2]);
    assert_eq!(stable_order_by_key(&vec![5, 5, 5]), vec![0, 1, 2]);
}

#[test]
fn quest_collection_group_types() {
    let r = |p: i32| UnityGroupTypeRef { m_file_id: 0, m_path_id: p }.group_type();
    assert_eq!(r(41478), Some(GroupType::Forest));
    assert_eq!(r(41479), Some(GroupType::Agriculture));
    assert_eq!(r(41480), Some(GroupType::TrainTrack));
    assert_eq!(r(41481), Some(GroupType::Village));
    assert_eq!(r(41482), Some(GroupType::Water));
    assert_eq!(r(1), None);
}

#[test]
fn group_type_names() {
    assert_eq!(GroupType::TrainTrack.to_string(), "TrainTrack");
    assert_eq!(GroupType::Agriculture.to_string(), "Agriculture");
    assert_eq!(GroupType::Water.to_string(), "Water");
}
