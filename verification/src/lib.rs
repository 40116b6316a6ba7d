//! Static dependency mapping for trees of Python modules.
//!
//! For every source file under a set of include paths the crate records a
//! fingerprint of the file's bytes and the project files its import
//! statements resolve to, and from such a map it computes everything an
//! entry file depends on.
//!
//! The crate performs no I/O. A [`builder::MapBuilder`] issues one
//! [`requests::Request`] at a time; a driver carries it out against a real or
//! imagined file tree and hands back the [`requests::Answer`].
//!
//! - [`fingerprint`]: content fingerprints.
//! - [`imports`]: from source text to the module names it imports.
//! - [`paths`]: from module names to the files they can stand for.
//! - [`project`]: the records and the maps that hold them.
//! - [`builder`]: the build pass, as a function from state and answer to
//!   state and request.
//! - [`world`]: the map that belongs to a file tree, stated directly.
//! - [`refinement`]: a pass driven by an unchanging tree ends with that map.
//! - [`graph`]: the files reachable from an entry file.

pub mod builder;
pub mod fingerprint;
pub mod graph;
pub mod imports;
pub mod path_map;
pub mod paths;
pub mod project;
pub mod refinement;
pub mod requests;
pub mod text;
pub mod world;
