use vstd::prelude::*;

verus! {

/// Errors of the WAL recovery path.
#[derive(Debug, Clone, PartialEq, Eq)]
pub enum LogError {
    LogParseError(String),
}

/// Errors of the in-memory layer and of the command state machine.
#[derive(Debug, Clone, PartialEq, Eq)]
pub enum MemoryLayerErrors {
    GenericError(String),
}

/// Errors of the record codec. Encoding never fails; decoding reports
/// exactly one of these kinds.
#[derive(Debug, Clone, Copy, PartialEq, Eq, Structural)]
pub enum BytecodeSerializerError {
    /// The input ended before the frame was complete.
    Truncated,
    /// A key or value was not valid UTF-8.
    BadUtf8,
    /// The CRC length field was not 4.
    BadCrcLen,
    /// The stored CRC did not match the one computed over the frame body.
    BadCrc,
    /// The low nibble of the header byte named no known operation.
    UnknownOpcode,
    /// A varint needed a shift past bit 63.
    VarintOverflow,
}

/// Errors of the command parser.
#[derive(Debug, Clone, PartialEq, Eq)]
pub enum ParserError {
    TokenParseError(String),
    CommandParseError(String),
    KeyParseError(String),
    ValueParseError(String),
    NoOperations,
}

/// Errors of the WAL writer.
#[derive(Debug, Clone, PartialEq, Eq)]
pub enum WALError {
    WriteError(String),
    ReadError(String),
}

/// Errors of directory setup.
#[derive(Debug, Clone, PartialEq, Eq)]
pub enum FileSystemError {
    CreateDir(String),
}

/// Errors of the persistent layer's disk path.
#[derive(Debug, Clone, PartialEq, Eq)]
pub enum PersistentLayerError {
    DiskError(String),
    SerializationError(String),
    GenericError(String),
}

/// One error type over the whole store.
#[derive(Debug, Clone, PartialEq, Eq)]
pub enum KVStoreError {
    MemoryLayerError(MemoryLayerErrors),
    BytecodeSerializerError(BytecodeSerializerError),
    ParserError(ParserError),
    WALError(WALError),
    FileSystemError(FileSystemError),
    PersistentLayerError(PersistentLayerError),
    LogError(LogError),
}

} // verus!
