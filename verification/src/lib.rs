pub mod block;
pub mod bytecode_serializer;
pub mod errors;
pub mod filesystem;
pub mod in_memory;
pub mod io_handler;
pub mod kvstore;
pub mod log;
pub mod lru_cache;
pub mod operation;
pub mod parser;
pub mod persistent;
pub mod wal_io;
