use vstd::prelude::*;

verus! {

/// The custom rules of a Dorfromantik session. Each has a fixed number (see `id`).
#[derive(Debug, Clone, Copy, PartialEq, Eq, Hash, Structural)]
pub enum CustomRuleType {
    VillageProbability,
    ForestProbability,
    AgricultureProbability,
    WaterProbability,
    TrainTrackProbability,
    TileStackHeight,
    TileLimit,
    Density,
    QuestProbability,
    QuestDifficulty,
    FlagQuestProbability,
    WorldBorderRadius,
}

/// The number of a rule: 1 to 5 for the five probabilities, 10 to 16 for the others.
pub open spec fn rule_id(t: CustomRuleType) -> i32 {
    match t {
        CustomRuleType::VillageProbability => 1,
        CustomRuleType::ForestProbability => 2,
        CustomRuleType::AgricultureProbability => 3,
        CustomRuleType::WaterProbability => 4,
        CustomRuleType::TrainTrackProbability => 5,
        CustomRuleType::TileStackHeight => 10,
        CustomRuleType::TileLimit => 11,
        CustomRuleType::Density => 12,
        CustomRuleType::QuestProbability => 13,
        CustomRuleType::QuestDifficulty => 14,
        CustomRuleType::FlagQuestProbability => 15,
        CustomRuleType::WorldBorderRadius => 16,
    }
}

impl CustomRuleType {
    /// The number of this rule.
    pub fn id(&self) -> (n: i32)
        ensures
            n == rule_id(*self),
    {
        match self {
            CustomRuleType::VillageProbability => 1,
            CustomRuleType::ForestProbability => 2,
            CustomRuleType::AgricultureProbability => 3,
            CustomRuleType::WaterProbability => 4,
            CustomRuleType::TrainTrackProbability => 5,
            CustomRuleType::TileStackHeight => 10,
            CustomRuleType::TileLimit => 11,
            CustomRuleType::Density => 12,
            CustomRuleType::QuestProbability => 13,
            CustomRuleType::QuestDifficulty => 14,
            CustomRuleType::FlagQuestProbability => 15,
            CustomRuleType::WorldBorderRadius => 16,
        }
    }

    /// The rule with the given number, if there is one.
    pub fn from_id(n: i32) -> (t: Option<CustomRuleType>)
        ensures
            t matches Some(r) ==> rule_id(r) == n,
            t is None <==> (forall|r: CustomRuleType| rule_id(r) != n),
    {
        let t = if n == 1 { Some(CustomRuleType::VillageProbability) }
            else if n == 2 { Some(CustomRuleType::ForestProbability) }
            else if n == 3 { Some(CustomRuleType::AgricultureProbability) }
            else if n == 4 { Some(CustomRuleType::WaterProbability) }
            else if n == 5 { Some(CustomRuleType::TrainTrackProbability) }
            else if n == 10 { Some(CustomRuleType::TileStackHeight) }
            else if n == 11 { Some(CustomRuleType::TileLimit) }
            else if n == 12 { Some(CustomRuleType::Density) }
            else if n == 13 { Some(CustomRuleType::QuestProbability) }
            else if n == 14 { Some(CustomRuleType::QuestDifficulty) }
            else if n == 15 { Some(CustomRuleType::FlagQuestProbability) }
            else if n == 16 { Some(CustomRuleType::WorldBorderRadius) }
            else { None };
        proof {
            if t is Some {
                assert(rule_id(t->0) == n);
            }
            if t is None {
                assert forall|r: CustomRuleType| rule_id(r) != n by {
                    match r {
                        CustomRuleType::VillageProbability => {},
                        _ => {},
                    }
                }
            }
        }
        t
    }
}

/// Law: two rules with the same number are the same rule, so a rule's number names it.
pub proof fn lemma_rule_id_injective(a: CustomRuleType, b: CustomRuleType)
    ensures
        rule_id(a) == rule_id(b) <==> a == b,
{
}

/// The values of one rule, indexed by level.
#[derive(Debug, Clone)]
pub struct RuleLevelValues<V> {
    pub rule_type: CustomRuleType,
    pub values_by_level: Vec<V>,
}

/// Index of the first entry for `t` at or after `i`.
pub open spec fn first_entry_for<V>(entries: Seq<RuleLevelValues<V>>, t: CustomRuleType, i: int) -> Option<int>
    decreases entries.len() - i,
{
    if i < 0 || i >= entries.len() {
        None
    } else if entries[i].rule_type == t {
        Some(i)
    } else {
        first_entry_for(entries, t, i + 1)
    }
}

/// The value at `level` in the first entry for `t`, if that entry has one.
pub open spec fn spec_level_value<V>(entries: Seq<RuleLevelValues<V>>, t: CustomRuleType, level: int) -> Option<V> {
    match first_entry_for(entries, t, 0) {
        Some(i) => if 0 <= level < entries[i].values_by_level@.len() {
            Some(entries[i].values_by_level@[level])
        } else {
            None
        },
        None => None,
    }
}

/// Looks a rule's value up by level: the first entry for the rule decides; `None` when no
/// entry is for the rule or its list has no value at that level.
pub fn level_value<V: Copy>(entries: &Vec<RuleLevelValues<V>>, rule_type: CustomRuleType, level: usize) -> (r: Option<V>)
    ensures
        r == spec_level_value(entries@, rule_type, level as int),
{
    let mut i: usize = 0;
    while i < entries.len()
        invariant
            0 <= i <= entries@.len(),
            first_entry_for(entries@, rule_type, 0) == first_entry_for(entries@, rule_type, i as int),
        decreases entries@.len() - i,
    {
        if entries[i].rule_type == rule_type {
            if level < entries[i].values_by_level.len() {
                return Some(entries[i].values_by_level[level]);
            }
            return None;
        }
        i = i + 1;
    }
    None
}

} // verus!
