pub mod bloom;

pub use bloom::BloomFilter;
