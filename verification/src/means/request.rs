//! The requests of the price store, each nine bytes long.

use vstd::prelude::*;
use super::{Price, Timestamp};

verus! {

/// Why nine bytes are no request.
#[derive(Debug, Clone, Copy, PartialEq, Eq, Structural)]
pub enum RequestError {
    /// The first byte is neither `I` nor `Q`.
    BadType(u8),
}

/// A request: to set the price at a moment, or to ask for the mean price of
/// a period.
#[derive(Debug, Clone, Copy, PartialEq, Eq, Structural)]
pub enum Request {
    Insert { timestamp: Timestamp, price: Price },
    Query { mintime: Timestamp, maxtime: Timestamp },
}

/// The number that four bytes at `at` denote, the highest byte first, in
/// two's complement.
pub open spec fn read_i32(bytes: Seq<u8>, at: int) -> i32 {
    let unsigned = bytes[at] * 16777216 + bytes[at + 1] * 65536 + bytes[at + 2] * 256 + bytes[at
        + 3];
    if unsigned >= 2147483648 {
        (unsigned - 4294967296) as i32
    } else {
        unsigned as i32
    }
}

/// The request that nine bytes are.
pub open spec fn request_of(bytes: Seq<u8>) -> Result<Request, RequestError> {
    if bytes[0] == 73 {
        Ok(Request::Insert { timestamp: read_i32(bytes, 1), price: read_i32(bytes, 5) })
    } else if bytes[0] == 81 {
        Ok(Request::Query { mintime: read_i32(bytes, 1), maxtime: read_i32(bytes, 5) })
    } else {
        Err(RequestError::BadType(bytes[0]))
    }
}

fn i32_at(value: &[u8; 9], at: usize) -> (n: i32)
    requires
        at + 4 <= 9,
    ensures
        n == read_i32(value@, at as int),
{
    let unsigned: i64 = (value[at] as i64) * 16777216 + (value[at + 1] as i64) * 65536 + (value[at
        + 2] as i64) * 256 + (value[at + 3] as i64);
    if unsigned >= 2147483648 {
        (unsigned - 4294967296) as i32
    } else {
        unsigned as i32
    }
}

impl Request {
    /// The length of a request, in bytes.
    pub const SIZE: usize = 9;

    /// Reads a request: a byte that says which it is, `I` or `Q`, and two
    /// numbers of four bytes each.
    pub fn try_from(value: [u8; 9]) -> (request: Result<Request, RequestError>)
        ensures
            request == request_of(value@),
    {
        let typ = value[0];
        let field_1 = i32_at(&value, 1);
        let field_2 = i32_at(&value, 5);
        if typ == 73 {
            Ok(Request::Insert { timestamp: field_1, price: field_2 })
        } else if typ == 81 {
            Ok(Request::Query { mintime: field_1, maxtime: field_2 })
        } else {
            Err(RequestError::BadType(typ))
        }
    }
}

} // verus!
