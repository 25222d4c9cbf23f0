//! Traffic on a road network: which vehicle may go, when, and where to.

pub mod agreement;
pub mod backend;
pub mod boundary;
pub mod boxes;
pub mod concord;
pub mod context;
pub mod control;
pub mod corridor;
pub mod crashes;
pub mod crossing;
pub mod fleet;
pub mod groups;
pub mod infrastructure;
pub mod intent;
pub mod lanes;
pub mod laws;
pub mod leading;
pub mod neighbors;
pub mod network;
pub mod occupancy;
pub mod paths;
pub mod quantity;
pub mod queue;
pub mod regions;
pub mod resolution;
pub mod rooms;
pub mod router;
pub mod search;
pub mod shards;
pub mod sideways;
pub mod solver;
pub mod sorting;
pub mod spawning;
pub mod step;
pub mod stride;
pub mod tick;
pub mod topology;
pub mod validate;
pub mod world;
pub mod yielding;

pub use backend::AccelBackend;
pub use fleet::NetVehicle;
pub use network::Network;
pub use quantity::Quantity;
pub use world::{CrashKind, CrashRecord, NetWorld};
