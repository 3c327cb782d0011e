use vstd::prelude::*;
use crate::game_core::group_type::GroupType;

verus! {

/// A reference to a Unity asset, as the quest configuration stores a group type.
#[derive(Debug, Clone, Copy, Default, PartialEq, Eq, Structural)]
pub struct UnityGroupTypeRef {
    pub m_file_id: i32,
    pub m_path_id: i32,
}

/// The group type that a quest collection's asset path id stands for: 41478 forest,
/// 41479 agriculture, 41480 train track, 41481 village, 41482 water.
pub open spec fn spec_group_type_of_path(path_id: i32) -> Option<GroupType> {
    if path_id == 41478 { Some(GroupType::Forest) }
    else if path_id == 41479 { Some(GroupType::Agriculture) }
    else if path_id == 41480 { Some(GroupType::TrainTrack) }
    else if path_id == 41481 { Some(GroupType::Village) }
    else if path_id == 41482 { Some(GroupType::Water) }
    else { None }
}

impl UnityGroupTypeRef {
    /// The group type this reference stands for in the quest configuration, if any; the
    /// session settings give a collection the probability of that group type.
    pub fn group_type(&self) -> (g: Option<GroupType>)
        ensures
            g == spec_group_type_of_path(self.m_path_id),
    {
        let p = self.m_path_id;
        if p == 41478 { Some(GroupType::Forest) }
        else if p == 41479 { Some(GroupType::Agriculture) }
        else if p == 41480 { Some(GroupType::TrainTrack) }
        else if p == 41481 { Some(GroupType::Village) }
        else if p == 41482 { Some(GroupType::Water) }
        else { None }
    }
}

} // verus!
