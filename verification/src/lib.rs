//! The deterministic core of a mesh-hosted space game.
pub mod aabb;
pub mod ai;
pub mod auth;
pub mod autoscale;
pub mod blueprint;
pub mod cell;
pub mod client;
pub mod cloud_hetzner;
pub mod commit;
pub mod coords;
pub mod cosmos;
pub mod director;
pub mod domain;
pub mod editor;
pub mod effects;
pub mod fleet;
pub mod frontier;
pub mod galaxy;
pub mod galaxymap;
pub mod galaxywire;
pub mod gateway;
pub mod hash;
pub mod hazard;
pub mod hosting;
pub mod json;
pub mod leaderboard;
pub mod mapview;
pub mod node;
pub mod noise;
pub mod orchestrator;
pub mod order;
pub mod partition;
pub mod physics;
pub mod procgen;
pub mod replica;
pub mod replication;
pub mod room;
pub mod shard;
pub mod sim;
pub mod sort;
pub mod tech;
pub mod text;
pub mod wire;

pub use hosting::SectorConfig;
