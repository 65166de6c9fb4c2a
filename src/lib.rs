//! Reading, editing and rewriting a PNG-style container at the chunk level: type
//! codes, checksummed chunks, and the ordered chunk list behind a fixed signature.

pub mod chunk;
pub mod chunk_type;
pub mod crc;
pub mod error;
pub mod png;
