pub mod bytes;
pub mod memory_db;
pub mod node;
pub mod opening;
pub mod order;
pub mod prover;
pub mod storage;
pub mod table;
