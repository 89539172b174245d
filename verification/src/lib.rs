//! Decision core of a desktop ADS-B radar gadget.
pub mod airports;
pub mod alerts;
pub mod classify;
pub mod clock;
pub mod config;
pub mod desktop;
pub mod double;
pub mod feeds;
pub mod globe;
pub mod milestones;
pub mod number;
pub mod operators;
pub mod order;
pub mod radar;
pub mod rarity;
pub mod routes;
pub mod sighting;
pub mod snapshots;
pub mod store;
pub mod table;
pub mod text;
pub mod toast;
pub mod weather;
