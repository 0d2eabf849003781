pub mod block;
pub mod builder;
pub mod cache;
pub mod chunks;
pub mod reader;
pub mod stream;

pub use block::{Block, BlockBuilder};
pub use builder::{BlockMeta, SsTableBuilder};
pub use cache::{BlockCache, BlockKey};
pub use reader::SsTableReader;
