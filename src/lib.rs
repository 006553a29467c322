//! Dependency resolution, lock snapshots and install planning for a package
//! ecosystem, with every rule proved by Verus.
pub mod graph;
pub mod lockfile;
pub mod names;
pub mod package;
pub mod resolver;
pub mod scan;
pub mod sync;
pub mod version;
