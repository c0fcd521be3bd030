pub mod lru_cache;
pub mod queue;
pub mod stack;
pub mod trie;
pub mod uf;
