//! Declarative command-line parsing for shell scripts: a schema compiler
//! that checks a command description, and a resolver that turns the
//! matched arguments into shell assignments.
pub mod compile;
pub mod completion;
pub mod laws;
pub mod names;
pub mod resolve;
pub mod schema;
pub mod settings;
pub mod shape;
pub mod text;
