//! Verified core logic of a collection of small file, text and data tools.

pub mod text;
pub mod sorting;
pub mod duration;
pub mod version;
pub mod paths;
pub mod garbro;
pub mod collision;
pub mod chunks;
pub mod buckets;
pub mod mods;
pub mod xfoil;
pub mod yolo;
pub mod thesis;
pub mod startup;
pub mod citations;
pub mod table;
pub mod downloads;
pub mod lines;
pub mod media;
pub mod listing;
pub mod folders;
pub mod series;
pub mod markdown;
pub mod outline;
pub mod choices;
