//! Enumerate the executables reachable through a `PATH` value.
//!
//! The caller splits `PATH` into directories ([`search_dirs`]), reads each
//! directory into a [`Listing`], hands the listings to [`list_executables`]
//! and prints what [`render`] makes of the names: every command once, in
//! ascending byte order, one to a line.

pub mod entry;
pub mod name_set;
pub mod names;
pub mod order;
pub mod output;
pub mod path_list;
pub mod scan;

pub use entry::{executable_file_filter, find_executables, is_executable, Entry, Listing};
pub use name_set::NameSet;
pub use order::{compare, Rank};
pub use output::render;
pub use path_list::{search_dirs, split_paths, PathError};
pub use scan::list_executables;
