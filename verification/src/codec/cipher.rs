//! Ciphering of what an encoder wrote.

use vstd::prelude::*;
use bytes::BytesMut;
use crate::buffer::{buffer_bytes, buffer_set, buffer_slice};
use crate::cipher::{after_ciphering, cipher_stream, Cipher};

verus! {

/// An encoder whose every byte goes through a cipher.
#[derive(Debug)]
pub struct CipherEncoder<Enc, Ciph> {
    pub inner: Enc,
    pub cipher: Ciph,
}

impl<Enc, Ciph> CipherEncoder<Enc, Ciph> {
    pub fn new(inner: Enc, cipher: Ciph) -> (encoder: Self)
        ensures
            encoder.inner == inner,
            encoder.cipher == cipher,
    {
        CipherEncoder { inner, cipher }
    }
}

impl<Enc, Ciph: Cipher> CipherEncoder<Enc, Ciph> {
    /// Ciphers what the inner encoder wrote: every byte of `dst` in turn,
    /// each as the next byte of the cipher's stream.
    pub fn cipher_frame(&mut self, dst: &mut BytesMut)
        ensures
            buffer_bytes(*final(dst)) == cipher_stream(
                old(self).cipher.ops(),
                buffer_bytes(*old(dst)),
            ),
            final(self).cipher.ops() == after_ciphering(
                old(self).cipher.ops(),
                buffer_bytes(*old(dst)).len(),
            ),
            final(self).inner == old(self).inner,
    {
        let ghost start = self.cipher.ops();
        let ghost plain = buffer_bytes(*dst);
        let len = dst.len();
        let mut i: usize = 0;
        while i < len
            invariant
                i <= len,
                len == plain.len(),
                buffer_bytes(*dst).len() == plain.len(),
                self.inner == old(self).inner,
                self.cipher.ops() == after_ciphering(start, i as nat),
                forall|j: int|
                    0 <= j < i ==> buffer_bytes(*dst)[j] == cipher_stream(start, plain)[j],
                forall|j: int| i <= j < plain.len() ==> buffer_bytes(*dst)[j] == plain[j],
            decreases len - i,
        {
            let byte = buffer_slice(dst)[i];
            let ciphered = self.cipher.cipher(byte);
            buffer_set(dst, i, ciphered);
            i += 1;
        }
        assert(buffer_bytes(*dst) =~= cipher_stream(start, plain));
    }
}

} // verus!
