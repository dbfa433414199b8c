pub mod operator;
pub mod plan;
