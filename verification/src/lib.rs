//! An in-memory XML model of the udev device database.
//!
//! Devices are kept in a tree that follows their sysfs ancestry. The tree
//! logic, the attribute layout and the coalescing of hotplug events are
//! verified here; the asynchronous plumbing lives outside this crate.

pub mod config;
pub mod device;
pub mod xml;
pub mod attrs;
pub mod keys;
pub mod subsystems;
pub mod udev_tree;
pub mod window;

pub use config::{UdevTreeBuilder, WhichAttributes, WhichProperties};
