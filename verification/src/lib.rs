//! Verified core of a flash-media inspection and salvage tool.

pub mod bytes;
pub mod text;
pub mod geometry;
pub mod sector_map;
pub mod fat32;
pub mod planner;
pub mod mbr;
pub mod health;
pub mod pattern;
pub mod device;
pub mod safety;
pub mod history;
pub mod simulator;
pub mod scan;
pub mod apply;
pub mod session;
pub mod views;
pub mod bus_codes;
pub mod wide;
pub mod format;
