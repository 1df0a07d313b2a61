pub mod buffer_pool;
pub mod page;
pub mod page_table;
pub mod replacer;
pub mod typed_fetch;

pub use page::Page;
pub use page::PageRef;
pub use replacer::LRUKReplacer;
pub use buffer_pool::BufferPoolManager;
