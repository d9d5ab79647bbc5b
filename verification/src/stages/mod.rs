pub mod ast;
pub mod cmir;
pub mod hir;
pub mod lir;
pub mod mir;
