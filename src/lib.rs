//! A small static-site generator: a table of routes is turned into the exact
//! list of filesystem operations that materialise it under an output directory.

pub mod files;
pub mod path;
pub mod site;
pub mod walk;
pub mod order;

pub use path::{has_extension, is_absolute_path, join_path, to_final_path, trim_separators};
pub use site::{App, BuildError, Content, Op, OpView, Route, RouteError, ServeDir};
pub use walk::Walk;
