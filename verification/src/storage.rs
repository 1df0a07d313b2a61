pub mod codec;
pub mod disk_manager;
pub mod index;
pub mod index_lookup;
pub mod index_model;
pub mod index_page;
pub mod index_rebalance;
pub mod index_rebalance_inner;
pub mod table_heap;
pub mod table_page;
pub mod tuple;

pub use tuple::KeyOrder;
pub use tuple::ScalarValue;
pub use tuple::Tuple;
pub use disk_manager::DiskManager;
pub use table_page::TablePage;
pub use table_heap::TableHeap;
pub use table_heap::TableIterator;
pub use index_page::BPlusTreeInternalPage;
pub use index_page::BPlusTreeLeafPage;
pub use index_page::BPlusTreePage;
pub use index_page::InternalKV;
pub use index_page::LeafKV;
pub use index::BPlusTreeIndex;
pub use index::Context;
pub use index::TreeIndexIterator;
