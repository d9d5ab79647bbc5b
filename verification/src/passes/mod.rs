pub mod cmir_to_lir;
pub mod concretize_mir;
pub mod hir_to_mir;
pub mod lexing;
pub mod lir_codegen;
pub mod make_hir;
pub mod pareto;
pub mod parse;
