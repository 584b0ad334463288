//! Frames of a fixed number of bytes.

use vstd::prelude::*;
use bytes::BytesMut;
use crate::buffer::{buffer_advance, buffer_bytes, buffer_slice};

verus! {

/// A codec whose every frame is `N` bytes long.
#[derive(Debug)]
pub struct FixedSizeCodec<const N: usize>;

impl<const N: usize> FixedSizeCodec<N> {
    pub fn new() -> (codec: Self) {
        FixedSizeCodec
    }

    /// Takes the next frame from the front of `src`: its first `N` bytes,
    /// once it holds that many. Until then there is no frame and the buffer
    /// stays as it is.
    pub fn decode(&mut self, src: &mut BytesMut) -> (frame: Option<[u8; N]>)
        ensures
            buffer_bytes(*old(src)).len() < N ==> frame is None && buffer_bytes(*final(src))
                == buffer_bytes(*old(src)),
            buffer_bytes(*old(src)).len() >= N ==> {
                &&& frame is Some
                &&& frame->0@ == buffer_bytes(*old(src)).take(N as int)
                &&& buffer_bytes(*final(src)) == buffer_bytes(*old(src)).skip(N as int)
            },
    {
        if src.len() < N {
            return None;
        }
        let mut data: [u8; N] = [0u8; N];
        let bytes = buffer_slice(src);
        let mut i: usize = 0;
        while i < N
            invariant
                i <= N <= bytes@.len(),
                forall|j: int| 0 <= j < i ==> data@[j] == bytes@[j],
            decreases N - i,
        {
            data[i] = bytes[i];
            i += 1;
        }
        assert(data@ =~= bytes@.take(N as int));
        buffer_advance(src, N);
        Some(data)
    }

    /// Appends the frame to `dst`.
    pub fn encode(&mut self, item: [u8; N], dst: &mut BytesMut)
        requires
            buffer_bytes(*old(dst)).len() + N <= usize::MAX,
        ensures
            buffer_bytes(*final(dst)) == buffer_bytes(*old(dst)) + item@,
    {
        dst.reserve(N);
        dst.extend_from_slice(item.as_slice());
    }
}

} // verus!
