pub mod schema;

pub use schema::Column;
pub use schema::DataType;
pub use schema::Schema;
