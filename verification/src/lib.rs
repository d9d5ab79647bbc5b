pub mod passes;
pub mod shared;
pub mod stages;
