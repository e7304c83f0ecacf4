//! Decoder core for QR symbols: codeword extraction from a sampled module
//! grid, Reed-Solomon error correction over GF(2^8), format information
//! recovery, payload parsing, and a generic pipeline that composes the
//! four stages (prepare, detect, extract, decode).

pub mod block_info;
pub mod blocks;
pub mod correct;
pub mod data;
pub mod decode;
pub mod decoder;
pub mod detect;
pub mod extract;
pub mod format;
pub mod galois;
pub mod prepare;
pub mod qr;

pub use decoder::BuilderError;
pub use decoder::Decoder;
pub use decoder::DecoderBuilder;
