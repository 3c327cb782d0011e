use vstd::prelude::*;

verus! {

/// The kinds of landscape groups that tiles and quests are made of.
#[derive(Debug, Clone, Copy, PartialEq, Eq, Hash, Structural)]
pub enum GroupType {
    Agriculture,
    Forest,
    Village,
    TrainTrack,
    Water,
}

/// The display name of a group type.
pub open spec fn group_type_name(g: GroupType) -> Seq<char> {
    match g {
        GroupType::Agriculture => "Agriculture"@,
        GroupType::Forest => "Forest"@,
        GroupType::Village => "Village"@,
        GroupType::TrainTrack => "TrainTrack"@,
        GroupType::Water => "Water"@,
    }
}

impl GroupType {
    /// The display name of this group type, as `to_string` shows it.
    pub fn to_string(&self) -> (s: String)
        ensures
            s@ == group_type_name(*self),
    {
        let n = match self {
            GroupType::Agriculture => "Agriculture",
            GroupType::Forest => "Forest",
            GroupType::Village => "Village",
            GroupType::TrainTrack => "TrainTrack",
            GroupType::Water => "Water",
        };
        String::from_str(n)
    }
}

} // verus!
