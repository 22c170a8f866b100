//! Extracting packets from the data of a node.
pub mod config;
pub mod name_order;
pub mod pack;
pub mod blocks;
pub mod frequency;
pub mod table_law;
pub mod tables;
pub mod packet;
pub mod packet_law;
pub mod flag_run;
pub mod flagpatch;
pub mod reward_patch;
pub mod reward_json;
pub mod scan_law;
pub mod reward_law;
pub mod db;
pub mod stored_law;
pub mod shards;
pub mod flag_law;
