pub mod codes;
pub mod evaluator;
pub mod keys;
pub mod patterns;
