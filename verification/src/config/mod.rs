pub mod config_string;
pub mod custom_rule_level_configuration;
pub mod quest_system_configuration;
pub mod rule_table;
pub mod tile_gen_configuration;
