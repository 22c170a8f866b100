//! The `.cfxpack` packet format: compact blocks and transactions of a range of
//! epochs, and the containers that hold several packets.
pub mod block_law;
pub mod body;
pub mod code_law;
pub mod codec;
pub mod container;
pub mod container_law;
pub mod decimal;
pub mod decode;
pub mod decode_law;
pub mod encode;
pub mod error;
pub mod file_law;
pub mod files;
pub mod format_law;
pub mod identity_law;
pub mod input_law;
pub mod item_law;
pub mod names;
pub mod packet;
pub mod read_law;
pub mod record;
pub mod rlp_form;
pub mod roundtrip;
pub mod roundtrip_tables;
pub mod roundtrip_tx;
pub mod shape;
pub mod site_law;
pub mod snappy;
pub mod table;
pub mod txdecode;
pub mod txform;
pub mod types;
pub mod verify;
