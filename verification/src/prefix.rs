pub mod matcher;
pub mod trie;
