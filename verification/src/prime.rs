//! A service that says whether a number is prime.

use vstd::prelude::*;

verus! {

/// Whether `n` is prime: greater than 1, and divisible by no number between
/// 1 and itself.
pub open spec fn is_prime_spec(n: nat) -> bool {
    n > 1 && forall|d: nat| 1 < d < n ==> #[trigger] (n % d) != 0
}

/// The numbers from here on are not tested: the test would have to square a
/// number that has no square in 64 bits.
pub const TEST_LIMIT: u64 = 0xffff_fffe_0000_0001;

/// `primes::is_prime`: whether `n` is prime. The function tries 2 and then
/// each odd number whose square is at most `n` as a divisor; below
/// `TEST_LIMIT` none of these squares overflows.
#[verifier::external_body]
fn is_prime(n: u64) -> (prime: bool)
    requires
        n < TEST_LIMIT,
    ensures
        prime == is_prime_spec(n as nat),
{
    primes::is_prime(n)
}

/// A request: whether a number is prime. The number is there where the
/// client's number is a whole number from 0 to 2^64 - 1; any other number
/// (a negative one, a fraction, a greater one) is no such number.
#[derive(Debug, Clone, Copy, PartialEq, Eq, Structural)]
pub enum Request {
    IsPrime { number: Option<u64> },
}

/// A response: the answer to a request, or that the request was malformed.
#[derive(Debug, Clone, Copy, PartialEq, Eq, Structural)]
pub enum Response {
    IsPrime { prime: bool },
    Error,
}

impl Response {
    pub fn is_prime(is_prime: bool) -> (response: Self)
        ensures
            response == (Response::IsPrime { prime: is_prime }),
    {
        Response::IsPrime { prime: is_prime }
    }

    pub fn error() -> (response: Self)
        ensures
            response == Response::Error,
    {
        Response::Error
    }
}

/// Whether `n` is prime, for the numbers that can be tested: those below
/// `TEST_LIMIT`.
pub fn test_prime(n: u64) -> (prime: Option<bool>)
    ensures
        prime == if n < TEST_LIMIT {
            Some(is_prime_spec(n as nat))
        } else {
            None
        },
{
    if n < TEST_LIMIT {
        Some(is_prime(n))
    } else {
        None
    }
}

/// The response to a request: a number that is no whole number from 0 on is
/// not prime; a number that can be tested is prime or not; for a number that
/// cannot be tested there is no response.
pub fn respond(request: Request) -> (response: Option<Response>)
    ensures
        response == match request {
            Request::IsPrime { number: None } => Some(Response::IsPrime { prime: false }),
            Request::IsPrime { number: Some(n) } => if n < TEST_LIMIT {
                Some(Response::IsPrime { prime: is_prime_spec(n as nat) })
            } else {
                None
            },
        },
{
    match request {
        Request::IsPrime { number: None } => Some(Response::is_prime(false)),
        Request::IsPrime { number: Some(n) } => match test_prime(n) {
            Some(prime) => Some(Response::is_prime(prime)),
            None => None,
        },
    }
}

} // verus!
