//! An in-memory snapshot of a directory tree.
//!
//! A tree of [`Dir`], [`File`] and [`DirEntry`] values mirrors a directory
//! that was scanned once on the build host.  The tree is immutable after
//! construction; this crate provides path-based lookup, glob-pattern search
//! and re-extraction onto a destination, each with a verified contract.

pub mod extract;
pub mod fs;
pub mod globs;
pub mod lookup;
pub mod metadata;
pub mod paths;
pub mod resolve;
pub mod tree;

pub use extract::{ExtractError, ExtractMode, FsModel};
pub use fs::FileSystem;
pub use globs::{Options, PatternError};
pub use metadata::Metadata;
pub use paths::{escape, normalize_path};
pub use resolve::{parse_identifier, resolve_path, take_while, EnvVar, ResolveError};
pub use tree::{Dir, DirEntry, File};
