//! Code-graph analysis for TypeScript, JavaScript and C# sources.

pub mod text;
pub mod paths;
pub mod models;
pub mod syntax;
pub mod extract;
pub mod graph;
pub mod grammar;
pub mod parser;
pub mod scan;
pub mod server;
