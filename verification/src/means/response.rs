//! The answer to a query: a price, in four bytes.

use vstd::prelude::*;
use super::Price;

verus! {

/// The answer to a query.
#[derive(Debug, Clone, Copy, PartialEq, Eq, Structural)]
pub struct Response(pub Price);

/// The four bytes of a price, the highest first, in two's complement.
pub open spec fn price_bytes(price: i32) -> Seq<u8> {
    let unsigned = if price < 0 {
        price + 4294967296
    } else {
        price as int
    };
    seq![
        (unsigned / 16777216) as u8,
        (unsigned / 65536 % 256) as u8,
        (unsigned / 256 % 256) as u8,
        (unsigned % 256) as u8,
    ]
}

impl Response {
    pub fn new(price: Price) -> (response: Self)
        ensures
            response.0 == price,
    {
        Response(price)
    }

    /// The response on the wire.
    pub fn into_bytes(self) -> (bytes: [u8; 4])
        ensures
            bytes@ == price_bytes(self.0),
    {
        let unsigned: i64 = if self.0 < 0 {
            (self.0 as i64) + 4294967296
        } else {
            self.0 as i64
        };
        let bytes: [u8; 4] = [
            (unsigned / 16777216) as u8,
            (unsigned / 65536 % 256) as u8,
            (unsigned / 256 % 256) as u8,
            (unsigned % 256) as u8,
        ];
        assert(bytes@ =~= price_bytes(self.0));
        bytes
    }
}

} // verus!
