pub mod index_page_codec;
pub mod table_page_codec;
pub mod tuple_codec;
pub mod wire;

pub use tuple_codec::TupleCodec;
pub use table_page_codec::TablePageCodec;
pub use index_page_codec::BPlusTreeInternalPageCodec;
pub use index_page_codec::BPlusTreeLeafPageCodec;
pub use index_page_codec::BPlusTreePageCodec;
