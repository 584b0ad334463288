//! A codec made of an encoder and a decoder.

use vstd::prelude::*;

verus! {

/// An encoder and a decoder that are used as one codec: frames are written
/// by the one and read by the other.
pub struct EncDecCodec<Enc, Dec> {
    pub enc: Enc,
    pub dec: Dec,
}

impl<Enc, Dec> EncDecCodec<Enc, Dec> {
    pub fn new(enc: Enc, dec: Dec) -> (codec: Self)
        ensures
            codec.enc == enc,
            codec.dec == dec,
    {
        EncDecCodec { enc, dec }
    }
}

} // verus!
