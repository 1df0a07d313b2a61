pub mod buffer;
pub mod catalog;
pub mod common;
pub mod error;
pub mod storage;

pub use error::BustubxError;
pub use error::BustubxResult;
