//! A point-in-time inventory of block devices: the parsers for the attribute
//! files, the mount and swap tables and the device-manager records, and the
//! assembly of disks and their partitions from what was read.

pub mod attr;
pub mod decimal;
pub mod majmin;
pub mod mounts;
pub mod order;
pub mod render;
pub mod scan;
pub mod text;
pub mod udev;
