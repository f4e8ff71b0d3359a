pub mod db;
pub mod http;
pub mod key;
pub mod memtable;
pub mod model;
pub mod node;
pub mod skiplist;
pub mod text;
pub mod wal;
