//! Building blocks for framing: codecs that are made of other codecs.

pub mod cipher;
pub mod enc_dec;
pub mod fixed_size;
pub mod from_into;
