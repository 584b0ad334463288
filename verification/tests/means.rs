use protohackers::means::request::{Request, RequestError};
use protohackers::means::response::Response;
use protohackers::means::PriceStore;

#[test]
fn requests_of_nine_bytes() {
    assert_eq!(
        Request::try_from([0x49, 0x00, 0x00, 0x30, 0x39, 0x00, 0x00, 0x00, 0x65]),
        Ok(Request::Insert { timestamp: 12345, price: 101 })
    );
    assert_eq!(
        Request::try_from([0x51, 0x00, 0x00, 0x03, 0xe8, 0x00, 0x01, 0x86, 0xa0]),
        Ok(Request::Query { mintime: 1000, maxtime: 100000 })
    );
    assert_eq!(
        Request::try_from([0x49, 0xff, 0xff, 0xff, 0xff, 0x80, 0x00, 0x00, 0x00]),
        Ok(Request::Insert { timestamp: -1, price: i32::MIN })
    );
    assert_eq!(
        Request::try_from([0x51, 0x7f, 0xff, 0xff, 0xff, 0xff, 0xff, 0xff, 0xfe]),
        Ok(Request::Query { mintime: i32::MAX, maxtime: -2 })
    );
    assert_eq!(Request::try_from([0x50, 0, 0, 0, 0, 0, 0, 0, 0]), Err(RequestError::BadType(0x50)));
    assert_eq!(Request::try_from([0; 9]), Err(RequestError::BadType(0)));
    assert_eq!(Request::SIZE, 9);
}

#[test]
fn request_fields_as_std_reads_them() {
    for bytes in [[0x12u8, 0x34, 0x56, 0x78], [0xfe, 0xdc, 0xba, 0x98], [0x80, 0, 0, 1]] {
        let expected = i32::from_be_bytes(bytes);
        let request = Request::try_from([
            b'I', bytes[0], bytes[1], bytes[2], bytes[3], bytes[3], bytes[2], bytes[1], bytes[0],
        ]);
        let reversed = i32::from_be_bytes([bytes[3], bytes[2], bytes[1], bytes[0]]);
        assert_eq!(request, Ok(Request::Insert { timestamp: expected, price: reversed }));
    }
}

#[test]
fn response_in_four_bytes() {
    assert_eq!(Response::new(101).into_bytes(), [0x00, 0x00, 0x00, 0x65]);
    assert_eq!(Response::new(0).into_bytes(), [0, 0, 0, 0]);
    assert_eq!(Response::new(-1).into_bytes(), [0xff, 0xff, 0xff, 0xff]);
    for price in [i32::MIN, -123456789, -256, 255, 256, 65536, 16777216, i32::MAX] {
        assert_eq!(Response::new(price).into_bytes(), price.to_be_bytes());
    }
    assert_eq!(Response::new(7), Response(7));
}

#[test]
fn mean_of_a_period() {
    let mut store = PriceStore::new();
    store.insert(12345, 101);
    store.insert(12346, 102);
    store.insert(12347, 100);
    store.insert(40960, 5);
    assert_eq!(store.mean(12288, 16384), 101);
    assert_eq!(store.mean(12345, 12345), 101);
    assert_eq!(store.mean(0, 12344), 0);
    assert_eq!(store.mean(16384, 12288), 0);
    assert_eq!(store.mean(i32::MIN, i32::MAX), 77);
    assert_eq!(PriceStore::new().mean(i32::MIN, i32::MAX), 0);
}

#[test]
fn mean_rounds_towards_zero() {
    let mut store = PriceStore::new();
    store.insert(1, -3);
    store.insert(2, -4);
    assert_eq!(store.mean(1, 2), -3);
    store.insert(3, 10);
    assert_eq!(store.mean(1, 3), 1);
    store.insert(4, -4);
    assert_eq!(store.mean(1, 4), 0);
    store.insert(5, -4);
    assert_eq!(store.mean(1, 5), -1);
}

#[test]
fn mean_of_extreme_prices() {
    let mut store = PriceStore::new();
    for timestamp in 0..100 {
        store.insert(timestamp, i32::MAX);
    }
    assert_eq!(store.mean(0, 99), i32::MAX);
    for timestamp in 0..100 {
        store.insert(timestamp, i32::MIN);
    }
    assert_eq!(store.mean(0, 99), i32::MIN);
}

#[test]
fn a_timestamp_has_one_price() {
    let mut store = PriceStore::new();
    store.insert(10, 100);
    store.insert(10, 300);
    store.insert(11, 100);
    assert_eq!(store.mean(10, 10), 300);
    assert_eq!(store.mean(10, 11), 200);
}
