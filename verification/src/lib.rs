//! Directory listings and git status reports, normalised for a file-tree
//! view: sorted tree entries, branch lists and path-keyed status maps.
pub mod files;
pub mod git;
pub mod status;
pub mod text;
