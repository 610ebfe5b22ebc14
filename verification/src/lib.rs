//! Build orchestration for typesetting projects: engine selection with
//! fallback, build command construction and artifact lookup, debounced
//! rebuild triggering, and marker-based section splicing.

pub mod builder;
pub mod engine;
pub mod splice;
pub mod text;
pub mod watch;
