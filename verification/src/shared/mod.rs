pub mod assoc;
pub mod binops;
pub mod callgraph;
pub mod definitions;
pub mod depgraph;
pub mod tables;
pub mod text;
pub mod tokens;
pub mod typing;
