//! The RLP (recursive-length-prefix) codec: canonical byte-string and list
//! encodings, a strict decoder, and a streaming encoder buffer.

pub mod decode;
pub mod encode;
pub mod encoder_buffer;
pub mod model;
pub mod rlp_encoder;
