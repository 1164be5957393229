pub mod journey;
pub mod network;
pub mod occupancy;
pub mod simulation;
pub mod capacity;
pub mod import;
pub mod crowding;
pub mod bin_format;
