//! Variable-length integer codec for 32-bit ("VarInt") and 64-bit ("VarLong")
//! values: seven bits per byte, least significant group first, the high bit of
//! each byte telling whether another byte follows.

pub mod laws;
pub mod var_int;
pub mod wire;
pub mod zigzag;

pub use var_int::{VarInt, VarIntRead, VarIntWrite, VarLong};
pub use wire::VarIntError;
pub use zigzag::{zigzag_decode_32, zigzag_decode_64, zigzag_encode_32, zigzag_encode_64};
