pub mod event;
pub mod executor;
pub mod future;
pub mod password;
pub mod positions;
pub mod trie;
pub mod vectors;
pub mod words;
