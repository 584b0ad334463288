use protohackers::peer::PeerAddr;
use protohackers::speed_daemon::message::MessageToClient;
use protohackers::speed_daemon::state::{Dispatch, State};

fn addr(port: u16) -> PeerAddr {
    PeerAddr { v6: false, ip: 0x0a00_0001, port, flowinfo: 0, scope_id: 0 }
}

fn ticket(
    plate: &str,
    road: u16,
    mile1: u16,
    timestamp1: u32,
    mile2: u16,
    timestamp2: u32,
    speed: u16,
) -> MessageToClient {
    MessageToClient::Ticket {
        plate: plate.to_owned(),
        road,
        mile1,
        timestamp1,
        mile2,
        timestamp2,
        speed,
    }
}

#[test]
fn speeding_car_gets_a_ticket() {
    let mut state = State::new();
    state.insert_dispatcher(&[123], addr(1));
    assert!(state.report_plate(123, 8, 60, "UN1X".to_owned(), 0).is_empty());
    let dispatches = state.report_plate(123, 9, 60, "UN1X".to_owned(), 45);
    assert_eq!(
        dispatches,
        vec![Dispatch { to: addr(1), ticket: ticket("UN1X", 123, 8, 0, 9, 45, 8000) }]
    );
}

#[test]
fn sightings_may_come_in_any_order() {
    let mut state = State::new();
    state.insert_dispatcher(&[123], addr(1));
    state.report_plate(123, 9, 60, "UN1X".to_owned(), 45);
    let dispatches = state.report_plate(123, 8, 60, "UN1X".to_owned(), 0);
    assert_eq!(
        dispatches,
        vec![Dispatch { to: addr(1), ticket: ticket("UN1X", 123, 8, 0, 9, 45, 8000) }]
    );
}

#[test]
fn car_within_the_limit_gets_none() {
    let mut state = State::new();
    state.insert_dispatcher(&[1], addr(1));
    state.report_plate(1, 0, 60, "SLOW".to_owned(), 0);
    // 60 miles in one hour: exactly the limit.
    assert!(state.report_plate(1, 60, 60, "SLOW".to_owned(), 3600).is_empty());
    // 61 miles in one hour from the first sighting.
    let dispatches = state.report_plate(1, 61, 60, "SLOW".to_owned(), 3600);
    assert_eq!(dispatches.len(), 1);
    assert_eq!(dispatches[0].ticket, ticket("SLOW", 1, 0, 0, 61, 3600, 6100));
}

#[test]
fn other_cars_and_roads_do_not_count() {
    let mut state = State::new();
    state.insert_dispatcher(&[1, 2], addr(1));
    state.report_plate(1, 0, 10, "AAA".to_owned(), 0);
    assert!(state.report_plate(1, 100, 10, "BBB".to_owned(), 60).is_empty());
    assert!(state.report_plate(2, 100, 10, "AAA".to_owned(), 60).is_empty());
    assert_eq!(state.report_plate(1, 100, 10, "AAA".to_owned(), 60).len(), 1);
}

#[test]
fn one_ticket_a_day() {
    let mut state = State::new();
    state.insert_dispatcher(&[1], addr(1));
    state.report_plate(1, 0, 10, "FAST".to_owned(), 0);
    assert_eq!(state.report_plate(1, 100, 10, "FAST".to_owned(), 600).len(), 1);
    // The same day: no second ticket, neither against the first sighting
    // nor against the second.
    assert!(state.report_plate(1, 200, 10, "FAST".to_owned(), 1200).is_empty());
    // The next day, against the sighting at 1200: a ticket that spans both
    // days would be for a day that has one, so there is none.
    assert!(state.report_plate(1, 2000, 10, "FAST".to_owned(), 86400).is_empty());
    // Two sightings on a later day.
    let dispatches = state.report_plate(1, 2100, 10, "FAST".to_owned(), 86400 + 600);
    assert_eq!(dispatches.len(), 1);
    assert_eq!(dispatches[0].ticket, ticket("FAST", 1, 2000, 86400, 2100, 87000, 60000));
}

#[test]
fn sightings_of_one_moment_give_no_ticket() {
    let mut state = State::new();
    state.insert_dispatcher(&[1], addr(1));
    state.report_plate(1, 0, 10, "TWIN".to_owned(), 500);
    assert!(state.report_plate(1, 100, 10, "TWIN".to_owned(), 500).is_empty());
}

#[test]
fn speed_is_cut_to_sixteen_bits() {
    let mut state = State::new();
    state.insert_dispatcher(&[1], addr(1));
    state.report_plate(1, 0, 1, "WARP".to_owned(), 0);
    // 1000 miles in one second: 360000000 hundredths, of which sixteen bits
    // hold 360000000 % 65536 = 10752.
    let dispatches = state.report_plate(1, 1000, 1, "WARP".to_owned(), 1);
    assert_eq!(dispatches.len(), 1);
    assert_eq!(dispatches[0].ticket, ticket("WARP", 1, 0, 0, 1000, 1, 10752));
}

#[test]
fn highest_limit_is_no_overflow() {
    let mut state = State::new();
    state.insert_dispatcher(&[1], addr(1));
    state.report_plate(1, 0, 65535, "CAR".to_owned(), 0);
    assert!(state.report_plate(1, 100, 65535, "CAR".to_owned(), 3600).is_empty());
}

#[test]
fn tickets_wait_for_a_dispatcher() {
    let mut state = State::new();
    state.report_plate(7, 0, 10, "WAIT".to_owned(), 0);
    assert!(state.report_plate(7, 100, 10, "WAIT".to_owned(), 600).is_empty());
    state.report_plate(8, 0, 10, "ELSE".to_owned(), 0);
    assert!(state.report_plate(8, 50, 10, "ELSE".to_owned(), 600).is_empty());
    assert!(state.insert_dispatcher(&[9], addr(1)).is_empty());
    let tickets = state.insert_dispatcher(&[8, 7], addr(2));
    assert_eq!(
        tickets,
        vec![ticket("ELSE", 8, 0, 0, 50, 600, 30000), ticket("WAIT", 7, 0, 0, 100, 600, 60000)]
    );
    assert!(state.insert_dispatcher(&[7, 8], addr(3)).is_empty());
}

#[test]
fn first_dispatcher_of_the_road_gets_the_ticket() {
    let mut state = State::new();
    state.insert_dispatcher(&[5, 6], addr(1));
    state.insert_dispatcher(&[6], addr(2));
    assert!(state.has_dispatcher(6, addr(1)));
    assert!(state.has_dispatcher(6, addr(2)));
    assert!(!state.has_dispatcher(5, addr(2)));
    state.report_plate(6, 0, 10, "A".to_owned(), 0);
    assert_eq!(state.report_plate(6, 100, 10, "A".to_owned(), 600)[0].to, addr(1));
    state.remove_dispatcher(&[5, 6], addr(1));
    assert!(!state.has_dispatcher(6, addr(1)));
    state.report_plate(6, 0, 10, "B".to_owned(), 0);
    assert_eq!(state.report_plate(6, 100, 10, "B".to_owned(), 600)[0].to, addr(2));
    state.remove_dispatcher(&[6], addr(2));
    state.remove_dispatcher(&[6], addr(2));
    state.report_plate(6, 0, 10, "C".to_owned(), 0);
    assert!(state.report_plate(6, 100, 10, "C".to_owned(), 600).is_empty());
    assert_eq!(state.insert_dispatcher(&[6, 6], addr(4)).len(), 1);
    assert!(state.has_dispatcher(6, addr(4)));
}
