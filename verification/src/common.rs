pub mod bound;
pub mod count;
pub mod rid;
