pub mod path;
pub mod strs;
pub mod text;
pub mod workspace;
