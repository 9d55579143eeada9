//! The choices the command line offers: areas, travel profiles, tasks.
pub mod area;
pub mod profile;
pub mod task;
