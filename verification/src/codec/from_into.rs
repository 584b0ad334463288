//! Codecs that convert the items of another codec.

use vstd::prelude::*;
use std::marker::PhantomData;

verus! {

/// Why a converting decoder gave no item.
#[derive(Debug)]
pub enum TryFromDecoderError<DecErr, TryFromErr> {
    /// The inner decoder failed.
    Decoder(DecErr),
    /// The inner decoder's item could not be converted.
    TryFrom(TryFromErr),
}

/// A decoder that converts each item of an inner decoder into an `Item`.
#[derive(Debug)]
pub struct TryFromDecoder<Dec, Item> {
    pub inner: Dec,
    pub into: PhantomData<Item>,
}

impl<Dec, Item> TryFromDecoder<Dec, Item> {
    pub fn new(inner: Dec) -> (decoder: Self)
        ensures
            decoder.inner == inner,
    {
        TryFromDecoder { inner, into: PhantomData }
    }

    /// What the decoder makes of what the inner decoder gave, where the
    /// inner decoder's item, if it gave one, is already converted: an error
    /// of the inner decoder and a failed conversion are errors, no item is
    /// no item, and a converted item is the item.
    pub fn finish<DecErr, TryFromErr>(
        decoded: Result<Option<Result<Item, TryFromErr>>, DecErr>,
    ) -> (item: Result<Option<Item>, TryFromDecoderError<DecErr, TryFromErr>>)
        ensures
            item == match decoded {
                Err(error) => Err::<Option<Item>, TryFromDecoderError<DecErr, TryFromErr>>(
                    TryFromDecoderError::Decoder(error),
                ),
                Ok(None) => Ok(None),
                Ok(Some(Err(error))) => Err(TryFromDecoderError::TryFrom(error)),
                Ok(Some(Ok(converted))) => Ok(Some(converted)),
            },
    {
        match decoded {
            Err(error) => Err(TryFromDecoderError::Decoder(error)),
            Ok(None) => Ok(None),
            Ok(Some(Err(error))) => Err(TryFromDecoderError::TryFrom(error)),
            Ok(Some(Ok(converted))) => Ok(Some(converted)),
        }
    }
}

/// Why a converting encoder wrote nothing.
#[derive(Debug)]
pub enum TryIntoEncoderError<EncErr, TryIntoErr> {
    /// The inner encoder failed.
    Encoder(EncErr),
    /// The item could not be converted for the inner encoder.
    TryInto(TryIntoErr),
}

/// An encoder that converts each `Item` into an `EncItem` and hands that to
/// an inner encoder.
#[derive(Debug)]
pub struct TryIntoEncoder<Enc, EncItem, Item> {
    pub inner: Enc,
    pub enc_item: PhantomData<EncItem>,
    pub item: PhantomData<Item>,
}

impl<Enc, EncItem, Item> TryIntoEncoder<Enc, EncItem, Item> {
    pub fn new(inner: Enc) -> (encoder: Self)
        ensures
            encoder.inner == inner,
    {
        TryIntoEncoder { inner, enc_item: PhantomData, item: PhantomData }
    }

    /// The item for the inner encoder, given what the conversion gave: a
    /// failed conversion is an error, and nothing is then encoded.
    pub fn converted<EncErr, TryIntoErr>(conversion: Result<EncItem, TryIntoErr>) -> (item:
        Result<EncItem, TryIntoEncoderError<EncErr, TryIntoErr>>)
        ensures
            item == match conversion {
                Ok(converted) => Ok::<EncItem, TryIntoEncoderError<EncErr, TryIntoErr>>(
                    converted,
                ),
                Err(error) => Err(TryIntoEncoderError::TryInto(error)),
            },
    {
        match conversion {
            Ok(converted) => Ok(converted),
            Err(error) => Err(TryIntoEncoderError::TryInto(error)),
        }
    }

    /// What the encoder makes of what the inner encoder gave.
    pub fn finish<EncErr, TryIntoErr>(encoded: Result<(), EncErr>) -> (done: Result<
        (),
        TryIntoEncoderError<EncErr, TryIntoErr>,
    >)
        ensures
            done == match encoded {
                Ok(()) => Ok::<(), TryIntoEncoderError<EncErr, TryIntoErr>>(()),
                Err(error) => Err(TryIntoEncoderError::Encoder(error)),
            },
    {
        match encoded {
            Ok(()) => Ok(()),
            Err(error) => Err(TryIntoEncoderError::Encoder(error)),
        }
    }
}

} // verus!
