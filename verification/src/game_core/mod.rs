pub mod group_type;
pub mod quest_manager;
pub mod tile_generator;
pub mod tile_topology;
