pub mod error;
pub mod invoke;
pub mod resolve;
pub mod text;
pub mod tree;
