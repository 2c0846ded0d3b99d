//! A read-only synthetic filesystem core: a tree of directories and symlinks
//! built from a flat list of (logical path, target path) associations, served
//! through identity, attribute, symlink-target and directory-listing queries.
pub mod attr;
pub mod paths;
pub mod model;
pub mod symlinkfs;
pub mod laws;
