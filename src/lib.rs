//! A request router: route patterns with typed parameters, resolved over a
//! static table, depth-indexed tries and prefix locations.

pub mod fxmap;
pub mod handler;
pub mod laws;
pub mod order;
pub mod path;
pub mod router;
pub mod text;
pub mod trie;

pub use path::{Param, Path, PathParser, RouteError, Validator};
pub use router::SquallRouter;
