//! A minimal task runner core: named recipes (shell commands with optional
//! argument lists), an ordered lookup index over recipe names, a registry
//! that loads from and saves to a structured text format, and the argument
//! composition and reporting rules of the execution engine.

pub mod codec;
pub mod engine;
pub mod index;
pub mod registry;
pub mod recipe;
pub mod text;
