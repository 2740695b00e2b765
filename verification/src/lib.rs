pub mod parser;
pub mod resolution;
pub mod utils;
pub mod config;
pub mod diagnostics;
pub mod completion;
pub mod cli;
pub mod lsp;
