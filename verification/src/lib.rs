//! Recognition of local file paths in terminal text, the hover state built on
//! it, and the checks that resolve an agent session's working directory.

mod text;
mod token;
mod width;
mod scan;
mod file_uri;
pub mod local_path;
pub mod surface;
pub mod hover;
pub mod session;

pub use local_path::{path_at_column, path_from_file_uri, path_match_at_column, PathMatch};
