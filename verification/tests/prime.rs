use protohackers::prime::{respond, test_prime, Request, Response, TEST_LIMIT};

#[test]
fn small_numbers() {
    let primes = [2u64, 3, 5, 7, 11, 13, 97, 7919, 1_000_000_007];
    for n in primes {
        assert_eq!(test_prime(n), Some(true), "{}", n);
    }
    let others = [0u64, 1, 4, 6, 8, 9, 15, 21, 25, 49, 7917, 1_000_000_005, 4294967297];
    for n in others {
        assert_eq!(test_prime(n), Some(false), "{}", n);
    }
}

#[test]
fn numbers_that_are_not_tested() {
    assert_eq!(TEST_LIMIT, 4294967295 * 4294967295);
    assert_eq!(test_prime(TEST_LIMIT), None);
    assert_eq!(test_prime(u64::MAX), None);
    assert_eq!(test_prime(TEST_LIMIT - 1), Some(false));
}

#[test]
fn responses() {
    assert_eq!(
        respond(Request::IsPrime { number: Some(13) }),
        Some(Response::IsPrime { prime: true })
    );
    assert_eq!(
        respond(Request::IsPrime { number: Some(12) }),
        Some(Response::IsPrime { prime: false })
    );
    assert_eq!(
        respond(Request::IsPrime { number: None }),
        Some(Response::IsPrime { prime: false })
    );
    assert_eq!(respond(Request::IsPrime { number: Some(u64::MAX) }), None);
    assert_eq!(Response::is_prime(true), Response::IsPrime { prime: true });
    assert_eq!(Response::error(), Response::Error);
}
