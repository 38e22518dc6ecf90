pub mod encoding;
pub mod error;
pub mod field_operations;
pub mod randomness;
