//! Readers and decoders for Black Desert Online client data: archive
//! indexes, the ICE block cipher, the client's LZ-style compression,
//! PABR region maps and the gamecommondata tables around them.

mod bytes;
pub mod text;
pub mod archive;
pub mod compression;
pub mod ice;
pub mod wildcard;
pub mod fishing_workbooks;
pub mod pabr;
pub mod gcdata;
pub mod ingest;
pub mod tiles;
pub mod stringtable;
pub mod array_waypoint;
pub mod waypoint_xml;
pub mod region_sources;
pub mod hotspots;
pub mod trade_npcs;
pub mod ranking;
pub mod extract;

pub use wildcard::{wild_match, wild_match_any};
