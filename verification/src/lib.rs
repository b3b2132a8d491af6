//! Per-station temperature data over `station;temperature` measurement files.
pub mod decimal;
pub mod float_text;
pub mod line;
pub mod shards;
pub mod size;
pub mod table;
pub mod groups;
pub mod stations;
