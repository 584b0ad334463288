//! The rule by which tickets are issued, and the way they find a
//! dispatcher.
//!
//! A car that is seen twice on one road at an average speed above the
//! road's limit gets a ticket, unless it has one already for a day that the
//! ticket would be for. A ticket goes to a dispatcher of its road; while
//! the road has none, the ticket waits.

use vstd::prelude::*;
use crate::peer::PeerAddr;
use super::message::{ClientMessageView, MessageToClient};
use super::{Mile, Plate, Road, Speed, Timestamp};

verus! {

/// The seconds of a day.
pub const DAY: u32 = 86400;

/// A car seen by a camera.
#[derive(Debug, Clone)]
pub struct Sighting {
    pub plate: Plate,
    pub road: Road,
    pub mile: Mile,
    pub timestamp: Timestamp,
}

/// A sighting as a mathematical value.
pub struct SightingView {
    pub plate: Seq<char>,
    pub road: u16,
    pub mile: u16,
    pub timestamp: u32,
}

impl View for Sighting {
    type V = SightingView;

    open spec fn view(&self) -> SightingView {
        SightingView {
            plate: self.plate@,
            road: self.road,
            mile: self.mile,
            timestamp: self.timestamp,
        }
    }
}

/// A ticket on its way: to the dispatcher that is to get it.
#[derive(Debug, Clone, PartialEq, Eq)]
pub struct Dispatch {
    pub to: PeerAddr,
    pub ticket: MessageToClient,
}

/// The average speed between two sightings, in hundredths of a mile per
/// hour, as far as sixteen bits hold it. There is none between sightings of
/// the same moment.
pub open spec fn speed_between(a: SightingView, b: SightingView) -> Option<u16> {
    let distance = if a.mile > b.mile {
        a.mile - b.mile
    } else {
        b.mile - a.mile
    };
    let time = if a.timestamp > b.timestamp {
        a.timestamp - b.timestamp
    } else {
        b.timestamp - a.timestamp
    };
    if time == 0 {
        None
    } else {
        Some((distance * 3600 * 100 / time % 65536) as u16)
    }
}

/// The ticket for the way between an earlier sighting and a new one of the
/// same car on the same road: the earlier moment comes first in it. There is
/// none where the speed is not above the limit, and none between sightings
/// of the same moment.
pub open spec fn ticket_between(seen: SightingView, new: SightingView, limit: u16) -> Option<
    ClientMessageView,
> {
    match speed_between(seen, new) {
        Some(speed) => if speed > limit * 100 {
            if new.timestamp > seen.timestamp {
                Some(
                    ClientMessageView::Ticket {
                        plate: new.plate,
                        road: new.road,
                        mile1: seen.mile,
                        timestamp1: seen.timestamp,
                        mile2: new.mile,
                        timestamp2: new.timestamp,
                        speed,
                    },
                )
            } else {
                Some(
                    ClientMessageView::Ticket {
                        plate: new.plate,
                        road: new.road,
                        mile1: new.mile,
                        timestamp1: new.timestamp,
                        mile2: seen.mile,
                        timestamp2: seen.timestamp,
                        speed,
                    },
                )
            }
        } else {
            None
        },
        None => None,
    }
}

/// The first and the last day of a ticket.
pub open spec fn days_of(ticket: ClientMessageView) -> (u32, u32) {
    match ticket {
        ClientMessageView::Ticket { timestamp1, timestamp2, .. } => (
            (timestamp1 / 86400) as u32,
            (timestamp2 / 86400) as u32,
        ),
        _ => (0, 0),
    }
}

/// Whether the car has no ticket yet for any of the days `first..=last`.
pub open spec fn days_free(
    ticketed: Seq<(u32, Seq<char>)>,
    plate: Seq<char>,
    first: u32,
    last: u32,
) -> bool {
    forall|i: int|
        0 <= i < ticketed.len() ==> !((#[trigger] ticketed[i]).1 == plate && first
            <= ticketed[i].0 <= last)
}

/// The days `first..=last`, each as a day for which the car has a ticket.
pub open spec fn days_taken(plate: Seq<char>, first: u32, last: u32) -> Seq<(u32, Seq<char>)> {
    if first <= last {
        Seq::new((last - first + 1) as nat, |i: int| ((first + i) as u32, plate))
    } else {
        Seq::<(u32, Seq<char>)>::empty()
    }
}

/// The tickets that a new sighting leads to, and the days ticketed after
/// them: the earlier sightings are gone through in their order; each one of
/// the same car on the same road gives a ticket where the speed is above the
/// limit and the car has no ticket yet for any of the ticket's days.
pub open spec fn tickets_for(
    seen: Seq<SightingView>,
    ticketed: Seq<(u32, Seq<char>)>,
    new: SightingView,
    limit: u16,
) -> (Seq<ClientMessageView>, Seq<(u32, Seq<char>)>)
    decreases seen.len(),
{
    if seen.len() == 0 {
        (Seq::<ClientMessageView>::empty(), ticketed)
    } else {
        let (tickets, taken) = tickets_for(seen.drop_last(), ticketed, new, limit);
        let other = seen.last();
        if other.plate == new.plate && other.road == new.road {
            match ticket_between(other, new, limit) {
                Some(ticket) => if days_free(
                    taken,
                    new.plate,
                    days_of(ticket).0,
                    days_of(ticket).1,
                ) {
                    (
                        tickets.push(ticket),
                        taken + days_taken(new.plate, days_of(ticket).0, days_of(ticket).1),
                    )
                } else {
                    (tickets, taken)
                },
                None => (tickets, taken),
            }
        } else {
            (tickets, taken)
        }
    }
}

/// The first dispatcher of a road, if it has one.
pub open spec fn dispatcher_of(dispatchers: Seq<(u16, PeerAddr)>, road: u16) -> Option<PeerAddr>
    decreases dispatchers.len(),
{
    if dispatchers.len() == 0 {
        None
    } else if dispatchers[0].0 == road {
        Some(dispatchers[0].1)
    } else {
        dispatcher_of(dispatchers.skip(1), road)
    }
}

/// The road of a ticket.
pub open spec fn road_of(ticket: ClientMessageView) -> u16 {
    match ticket {
        ClientMessageView::Ticket { road, .. } => road,
        _ => 0,
    }
}

/// The tickets of a list that are for `road`, in the list's order.
pub open spec fn tickets_of_road(tickets: Seq<ClientMessageView>, road: u16) -> Seq<
    ClientMessageView,
>
    decreases tickets.len(),
{
    if tickets.len() == 0 {
        Seq::<ClientMessageView>::empty()
    } else if road_of(tickets[0]) == road {
        seq![tickets[0]] + tickets_of_road(tickets.skip(1), road)
    } else {
        tickets_of_road(tickets.skip(1), road)
    }
}

/// The tickets of a list that are for another road than `road`, in the
/// list's order.
pub open spec fn tickets_of_other_roads(tickets: Seq<ClientMessageView>, road: u16) -> Seq<
    ClientMessageView,
>
    decreases tickets.len(),
{
    if tickets.len() == 0 {
        Seq::<ClientMessageView>::empty()
    } else if road_of(tickets[0]) != road {
        seq![tickets[0]] + tickets_of_other_roads(tickets.skip(1), road)
    } else {
        tickets_of_other_roads(tickets.skip(1), road)
    }
}

/// The dispatchers without `addr` as a dispatcher of `road`.
pub open spec fn without_dispatcher(dispatchers: Seq<(u16, PeerAddr)>, road: u16, addr: PeerAddr)
    -> Seq<(u16, PeerAddr)>
    decreases dispatchers.len(),
{
    if dispatchers.len() == 0 {
        Seq::<(u16, PeerAddr)>::empty()
    } else if dispatchers[0] == (road, addr) {
        without_dispatcher(dispatchers.skip(1), road, addr)
    } else {
        seq![dispatchers[0]] + without_dispatcher(dispatchers.skip(1), road, addr)
    }
}

/// What the service knows after `addr` has come as a dispatcher of `roads`,
/// and the tickets that `addr` is to get at once: road by road, `addr`
/// becomes a dispatcher of the road, and the tickets that waited for the
/// road wait no longer. A road of which `addr` is a dispatcher already is
/// passed over.
pub open spec fn after_insert(state: StateView, roads: Seq<u16>, addr: PeerAddr) -> (
    StateView,
    Seq<ClientMessageView>,
)
    decreases roads.len(),
{
    if roads.len() == 0 {
        (state, Seq::<ClientMessageView>::empty())
    } else {
        let (before, sent) = after_insert(state, roads.drop_last(), addr);
        let road = roads.last();
        if before.dispatchers.contains((road, addr)) {
            (before, sent)
        } else {
            (
                StateView {
                    dispatchers: before.dispatchers.push((road, addr)),
                    pending: tickets_of_other_roads(before.pending, road),
                    ..before
                },
                sent + tickets_of_road(before.pending, road),
            )
        }
    }
}

/// The dispatchers after `addr` has gone as a dispatcher of `roads`.
pub open spec fn after_remove(dispatchers: Seq<(u16, PeerAddr)>, roads: Seq<u16>, addr: PeerAddr)
    -> Seq<(u16, PeerAddr)>
    decreases roads.len(),
{
    if roads.len() == 0 {
        dispatchers
    } else {
        without_dispatcher(after_remove(dispatchers, roads.drop_last(), addr), roads.last(), addr)
    }
}

/// The messages of a list, each as a mathematical value.
pub open spec fn ticket_views(tickets: Seq<MessageToClient>) -> Seq<ClientMessageView> {
    tickets.map_values(|ticket: MessageToClient| ticket@)
}

/// The sightings of a list, each as a mathematical value.
pub open spec fn sighting_views(sightings: Seq<Sighting>) -> Seq<SightingView> {
    sightings.map_values(|sighting: Sighting| sighting@)
}

/// The ticketed days of a list, each as a mathematical value.
pub open spec fn day_views(days: Seq<(Timestamp, Plate)>) -> Seq<(u32, Seq<char>)> {
    days.map_values(|day: (Timestamp, Plate)| (day.0, day.1@))
}

/// What the service knows.
pub struct StateView {
    /// The dispatchers, each with one of its roads, in the order in which
    /// they came.
    pub dispatchers: Seq<(u16, PeerAddr)>,
    /// The tickets that wait for a dispatcher.
    pub pending: Seq<ClientMessageView>,
    /// The sightings so far.
    pub seen: Seq<SightingView>,
    /// The days for which a car has a ticket.
    pub ticketed: Seq<(u32, Seq<char>)>,
}

/// What the service knows.
#[derive(Debug)]
pub struct State {
    dispatchers: Vec<(Road, PeerAddr)>,
    pending: Vec<MessageToClient>,
    cars_seen: Vec<Sighting>,
    ticketed_per_day: Vec<(Timestamp, Plate)>,
}

impl View for State {
    type V = StateView;

    closed spec fn view(&self) -> StateView {
        StateView {
            dispatchers: self.dispatchers@,
            pending: ticket_views(self.pending@),
            seen: sighting_views(self.cars_seen@),
            ticketed: day_views(self.ticketed_per_day@),
        }
    }
}

fn speed_of(mile: Mile, timestamp: Timestamp, other_mile: Mile, other_timestamp: Timestamp) -> (speed:
    Option<u16>)
    ensures
        speed == speed_between(
            SightingView {
                plate: Seq::<char>::empty(),
                road: 0,
                mile: other_mile,
                timestamp: other_timestamp,
            },
            SightingView { plate: Seq::<char>::empty(), road: 0, mile, timestamp },
        ),
{
    let distance: u64 = if mile > other_mile {
        (mile - other_mile) as u64
    } else {
        (other_mile - mile) as u64
    };
    let time: u64 = if timestamp > other_timestamp {
        (timestamp - other_timestamp) as u64
    } else {
        (other_timestamp - timestamp) as u64
    };
    if time == 0 {
        None
    } else {
        Some((distance * 3600 * 100 / time % 65536) as u16)
    }
}

impl State {
    /// A service that has seen nothing and has no dispatcher.
    pub fn new() -> (state: Self)
        ensures
            state@ == (StateView {
                dispatchers: Seq::<(u16, PeerAddr)>::empty(),
                pending: Seq::<ClientMessageView>::empty(),
                seen: Seq::<SightingView>::empty(),
                ticketed: Seq::<(u32, Seq<char>)>::empty(),
            }),
    {
        let state = State {
            dispatchers: Vec::new(),
            pending: Vec::new(),
            cars_seen: Vec::new(),
            ticketed_per_day: Vec::new(),
        };
        assert(state@.pending =~= Seq::<ClientMessageView>::empty());
        assert(state@.seen =~= Seq::<SightingView>::empty());
        assert(state@.ticketed =~= Seq::<(u32, Seq<char>)>::empty());
        state
    }

    /// Whether `addr` is a dispatcher of `road`.
    pub fn has_dispatcher(&self, road: Road, addr: PeerAddr) -> (found: bool)
        ensures
            found == self@.dispatchers.contains((road, addr)),
    {
        let mut i: usize = 0;
        while i < self.dispatchers.len()
            invariant
                i <= self.dispatchers@.len(),
                forall|j: int| 0 <= j < i ==> self.dispatchers@[j] != (road, addr),
            decreases self.dispatchers@.len() - i,
        {
            let (other_road, other_addr) = self.dispatchers[i];
            if other_road == road && other_addr == addr {
                return true;
            }
            i += 1;
        }
        false
    }

    fn first_dispatcher(&self, road: Road) -> (found: Option<PeerAddr>)
        ensures
            found == dispatcher_of(self@.dispatchers, road),
    {
        let mut i: usize = 0;
        assert(self.dispatchers@.skip(0) =~= self.dispatchers@);
        while i < self.dispatchers.len()
            invariant
                i <= self.dispatchers@.len(),
                dispatcher_of(self.dispatchers@, road) == dispatcher_of(
                    self.dispatchers@.skip(i as int),
                    road,
                ),
            decreases self.dispatchers@.len() - i,
        {
            let ghost here = self.dispatchers@.skip(i as int);
            assert(here[0] == self.dispatchers@[i as int]);
            assert(here.skip(1) =~= self.dispatchers@.skip(i + 1));
            let (other_road, addr) = self.dispatchers[i];
            if other_road == road {
                return Some(addr);
            }
            i += 1;
        }
        None
    }

    fn is_free(&self, plate: &Plate, first: Timestamp, last: Timestamp) -> (free: bool)
        ensures
            free == days_free(self@.ticketed, plate@, first, last),
    {
        let mut i: usize = 0;
        while i < self.ticketed_per_day.len()
            invariant
                i <= self.ticketed_per_day@.len(),
                forall|j: int|
                    0 <= j < i ==> !((#[trigger] self@.ticketed[j]).1 == plate@ && first
                        <= self@.ticketed[j].0 <= last),
            decreases self.ticketed_per_day@.len() - i,
        {
            assert(self@.ticketed[i as int] == (
                self.ticketed_per_day@[i as int].0,
                self.ticketed_per_day@[i as int].1@,
            ));
            if self.ticketed_per_day[i].1 == *plate && first <= self.ticketed_per_day[i].0
                && self.ticketed_per_day[i].0 <= last {
                return false;
            }
            i += 1;
        }
        true
    }

    fn take_days(&mut self, plate: &Plate, first: Timestamp, last: Timestamp)
        ensures
            final(self)@ == (StateView {
                ticketed: old(self)@.ticketed + days_taken(plate@, first, last),
                ..old(self)@
            }),
    {
        if first > last {
            assert(self@.ticketed + days_taken(plate@, first, last) =~= self@.ticketed);
            return ;
        }
        let mut day: Timestamp = first;
        let ghost all = days_taken(plate@, first, last);
        assert(self@.ticketed + all.take(0) =~= self@.ticketed);
        loop
            invariant
                first <= day <= last,
                all == days_taken(plate@, first, last),
                self.dispatchers == old(self).dispatchers,
                self.pending == old(self).pending,
                self.cars_seen == old(self).cars_seen,
                self@.ticketed == old(self)@.ticketed + all.take(day - first),
            decreases last - day,
        {
            let ghost before = self@.ticketed;
            self.ticketed_per_day.push((day, plate.clone()));
            proof {
                assert(self@.ticketed =~= before.push((day, plate@)));
                assert(all.take(day - first + 1) =~= all.take(day - first).push((day, plate@)));
                assert(self@.ticketed =~= old(self)@.ticketed + all.take(day - first + 1));
            }
            if day == last {
                assert(all.take(day - first + 1) =~= all);
                return ;
            }
            day += 1;
        }
    }

    /// A camera on `road` at `mile`, where the limit is `limit` miles per
    /// hour, saw the car `plate` at the moment `timestamp`.
    ///
    /// The sighting is held against each earlier one of the car on the road,
    /// in their order. The tickets that follow from it are handed back, each
    /// with the dispatcher of the road that is to get it; a ticket for a
    /// road without a dispatcher waits instead.
    pub fn report_plate(
        &mut self,
        road: Road,
        mile: Mile,
        limit: Speed,
        plate: Plate,
        timestamp: Timestamp,
    ) -> (dispatches: Vec<Dispatch>)
        ensures
            ({
                let new = SightingView { plate: plate@, road, mile, timestamp };
                let (tickets, taken) = tickets_for(old(self)@.seen, old(self)@.ticketed, new, limit);
                &&& final(self)@.dispatchers == old(self)@.dispatchers
                &&& final(self)@.seen == old(self)@.seen.push(new)
                &&& final(self)@.ticketed == taken
                &&& match dispatcher_of(old(self)@.dispatchers, road) {
                    Some(to) => {
                        &&& final(self)@.pending == old(self)@.pending
                        &&& dispatches@.len() == tickets.len()
                        &&& forall|i: int|
                            0 <= i < tickets.len() ==> (#[trigger] dispatches@[i]).to == to
                                && dispatches@[i].ticket@ == tickets[i]
                    },
                    None => {
                        &&& final(self)@.pending == old(self)@.pending + tickets
                        &&& dispatches@.len() == 0
                    },
                }
            }),
    {
        let ghost new = SightingView { plate: plate@, road, mile, timestamp };
        let ghost seen = self@.seen;
        let ghost ticketed = self@.ticketed;
        let to = self.first_dispatcher(road);
        let mut dispatches: Vec<Dispatch> = Vec::new();
        let ghost mut issued = Seq::<ClientMessageView>::empty();
        let mut i: usize = 0;
        proof {
            assert(seen.take(0) =~= Seq::<SightingView>::empty());
            assert(self@.pending + issued =~= self@.pending);
        }
        while i < self.cars_seen.len()
            invariant
                i <= self.cars_seen@.len(),
                self.cars_seen@.len() == seen.len(),
                new == (SightingView { plate: plate@, road, mile, timestamp }),
                self@.seen == seen,
                self@.dispatchers == old(self)@.dispatchers,
                seen == old(self)@.seen,
                ticketed == old(self)@.ticketed,
                to == dispatcher_of(old(self)@.dispatchers, road),
                (issued, self@.ticketed) == tickets_for(seen.take(i as int), ticketed, new, limit),
                match to {
                    Some(addr) => {
                        &&& self@.pending == old(self)@.pending
                        &&& dispatches@.len() == issued.len()
                        &&& forall|k: int|
                            0 <= k < issued.len() ==> (#[trigger] dispatches@[k]).to == addr
                                && dispatches@[k].ticket@ == issued[k]
                    },
                    None => self@.pending == old(self)@.pending + issued && dispatches@.len() == 0,
                },
            decreases seen.len() - i,
        {
            proof {
                assert(seen.take(i + 1).drop_last() =~= seen.take(i as int));
                assert(seen.take(i + 1).last() == seen[i as int]);
                assert(seen[i as int] == self.cars_seen@[i as int]@);
            }
            let same_car = self.cars_seen[i].plate == plate && self.cars_seen[i].road == road;
            if same_car {
                let other_mile = self.cars_seen[i].mile;
                let other_timestamp = self.cars_seen[i].timestamp;
                match speed_of(mile, timestamp, other_mile, other_timestamp) {
                    Some(speed) => {
                        if (speed as u32) > (limit as u32) * 100 {
                            let (mile1, timestamp1, mile2, timestamp2) = if timestamp
                                > other_timestamp {
                                (other_mile, other_timestamp, mile, timestamp)
                            } else {
                                (mile, timestamp, other_mile, other_timestamp)
                            };
                            let first = timestamp1 / DAY;
                            let last = timestamp2 / DAY;
                            if self.is_free(&plate, first, last) {
                                let ticket = MessageToClient::Ticket {
                                    plate: plate.clone(),
                                    road,
                                    mile1,
                                    timestamp1,
                                    mile2,
                                    timestamp2,
                                    speed,
                                };
                                proof {
                                    assert(ticket_between(seen[i as int], new, limit) == Some(
                                        ticket@,
                                    ));
                                }
                                self.take_days(&plate, first, last);
                                assert(self.cars_seen@.len() == self@.seen.len());
                                let ghost before = self@.pending;
                                let ghost sent = dispatches@;
                                match to {
                                    Some(addr) => {
                                        dispatches.push(Dispatch { to: addr, ticket });
                                    },
                                    None => {
                                        self.pending.push(ticket);
                                        proof {
                                            assert(self@.pending =~= before.push(ticket@));
                                            assert(old(self)@.pending + issued.push(ticket@)
                                                =~= (old(self)@.pending + issued).push(ticket@));
                                        }
                                    },
                                }
                                proof {
                                    issued = issued.push(ticket@);
                                }
                            }
                        }
                    },
                    None => {},
                }
            }
            i += 1;
        }
        proof {
            assert(seen.take(i as int) =~= seen);
        }
        let ghost before = self@.seen;
        self.cars_seen.push(Sighting { plate, road, mile, timestamp });
        proof {
            assert(self@.seen =~= before.push(new));
        }
        dispatches
    }

    /// Takes the tickets that wait for `road` out of those that wait.
    fn take_pending(&mut self, road: Road) -> (taken: Vec<MessageToClient>)
        ensures
            ticket_views(taken@) == tickets_of_road(old(self)@.pending, road),
            final(self)@ == (StateView {
                pending: tickets_of_other_roads(old(self)@.pending, road),
                ..old(self)@
            }),
    {
        let mut rest: Vec<MessageToClient> = Vec::new();
        std::mem::swap(&mut self.pending, &mut rest);
        let mut taken: Vec<MessageToClient> = Vec::new();
        let ghost all = ticket_views(rest@);
        proof {
            assert(ticket_views(taken@) + tickets_of_road(all, road) =~= tickets_of_road(all, road));
            assert(self@.pending + tickets_of_other_roads(all, road) =~= tickets_of_other_roads(
                all,
                road,
            ));
        }
        while rest.len() > 0
            invariant
                all == old(self)@.pending,
                self@.dispatchers == old(self)@.dispatchers,
                self@.seen == old(self)@.seen,
                self@.ticketed == old(self)@.ticketed,
                tickets_of_road(all, road) == ticket_views(taken@) + tickets_of_road(
                    ticket_views(rest@),
                    road,
                ),
                tickets_of_other_roads(all, road) == self@.pending + tickets_of_other_roads(
                    ticket_views(rest@),
                    road,
                ),
            decreases rest@.len(),
        {
            let ghost here = ticket_views(rest@);
            let ghost mine = ticket_views(taken@);
            let ghost kept = self@.pending;
            let ticket = rest.remove(0);
            proof {
                assert(here[0] == ticket@);
                assert(ticket_views(rest@) =~= here.skip(1));
            }
            let ticket_road = match &ticket {
                MessageToClient::Ticket { road, .. } => *road,
                _ => 0,
            };
            if ticket_road == road {
                taken.push(ticket);
                proof {
                    assert(ticket_views(taken@) =~= mine.push(ticket@));
                    assert(mine + (seq![ticket@] + tickets_of_road(here.skip(1), road))
                        =~= mine.push(ticket@) + tickets_of_road(here.skip(1), road));
                }
            } else {
                self.pending.push(ticket);
                proof {
                    assert(self@.pending =~= kept.push(ticket@));
                    assert(kept + (seq![ticket@] + tickets_of_other_roads(here.skip(1), road))
                        =~= kept.push(ticket@) + tickets_of_other_roads(here.skip(1), road));
                }
            }
        }
        proof {
            assert(ticket_views(taken@) + Seq::<ClientMessageView>::empty() =~= ticket_views(
                taken@,
            ));
            assert(self@.pending + Seq::<ClientMessageView>::empty() =~= self@.pending);
        }
        taken
    }

    /// A dispatcher has come: `addr`, for `roads`. It becomes a dispatcher
    /// of each of them, and the tickets that waited for one of them are
    /// handed back for it, roads in the order given. A road of which `addr`
    /// is a dispatcher already is passed over.
    pub fn insert_dispatcher(&mut self, roads: &[Road], addr: PeerAddr) -> (tickets: Vec<
        MessageToClient,
    >)
        ensures
            final(self)@ == after_insert(old(self)@, roads@, addr).0,
            ticket_views(tickets@) == after_insert(old(self)@, roads@, addr).1,
    {
        let mut tickets: Vec<MessageToClient> = Vec::new();
        let mut i: usize = 0;
        proof {
            assert(roads@.take(0) =~= Seq::<u16>::empty());
            assert(ticket_views(tickets@) =~= Seq::<ClientMessageView>::empty());
        }
        while i < roads.len()
            invariant
                i <= roads@.len(),
                self@ == after_insert(old(self)@, roads@.take(i as int), addr).0,
                ticket_views(tickets@) == after_insert(old(self)@, roads@.take(i as int), addr).1,
            decreases roads@.len() - i,
        {
            let road = roads[i];
            proof {
                assert(roads@.take(i + 1).drop_last() =~= roads@.take(i as int));
                assert(roads@.take(i + 1).last() == road);
            }
            if !self.has_dispatcher(road, addr) {
                let ghost before = self@;
                let ghost sent = ticket_views(tickets@);
                let mut taken = self.take_pending(road);
                let ghost mine = ticket_views(taken@);
                self.dispatchers.push((road, addr));
                tickets.append(&mut taken);
                proof {
                    assert(ticket_views(tickets@) =~= sent + mine);
                }
            }
            i += 1;
        }
        proof {
            assert(roads@.take(i as int) =~= roads@);
        }
        tickets
    }

    fn remove_one(&mut self, road: Road, addr: PeerAddr)
        ensures
            final(self)@ == (StateView {
                dispatchers: without_dispatcher(old(self)@.dispatchers, road, addr),
                ..old(self)@
            }),
    {
        let mut rest: Vec<(Road, PeerAddr)> = Vec::new();
        std::mem::swap(&mut self.dispatchers, &mut rest);
        let ghost all = rest@;
        proof {
            assert(self@.dispatchers + without_dispatcher(all, road, addr) =~= without_dispatcher(
                all,
                road,
                addr,
            ));
            assert(rest@.skip(0) =~= rest@);
        }
        let mut i: usize = 0;
        while i < rest.len()
            invariant
                i <= rest@.len(),
                all == rest@,
                all == old(self)@.dispatchers,
                self@.pending == old(self)@.pending,
                self@.seen == old(self)@.seen,
                self@.ticketed == old(self)@.ticketed,
                without_dispatcher(all, road, addr) == self@.dispatchers + without_dispatcher(
                    all.skip(i as int),
                    road,
                    addr,
                ),
            decreases rest@.len() - i,
        {
            let ghost here = all.skip(i as int);
            let ghost kept = self@.dispatchers;
            let entry = rest[i];
            proof {
                assert(here[0] == entry);
                assert(here.skip(1) =~= all.skip(i + 1));
            }
            if !(entry.0 == road && entry.1 == addr) {
                self.dispatchers.push(entry);
                proof {
                    assert(kept + (seq![entry] + without_dispatcher(here.skip(1), road, addr))
                        =~= kept.push(entry) + without_dispatcher(here.skip(1), road, addr));
                }
            }
            i += 1;
        }
        proof {
            assert(all.skip(i as int) =~= Seq::<(u16, PeerAddr)>::empty());
            assert(self@.dispatchers + Seq::<(u16, PeerAddr)>::empty() =~= self@.dispatchers);
        }
    }

    /// A dispatcher has gone: `addr` is no longer a dispatcher of any of
    /// `roads`. Tickets that are issued from now on for a road of which it
    /// was the only dispatcher wait.
    pub fn remove_dispatcher(&mut self, roads: &[Road], addr: PeerAddr)
        ensures
            final(self)@ == (StateView {
                dispatchers: after_remove(old(self)@.dispatchers, roads@, addr),
                ..old(self)@
            }),
    {
        let mut i: usize = 0;
        proof {
            assert(roads@.take(0) =~= Seq::<u16>::empty());
        }
        while i < roads.len()
            invariant
                i <= roads@.len(),
                self@ == (StateView {
                    dispatchers: after_remove(old(self)@.dispatchers, roads@.take(i as int), addr),
                    ..old(self)@
                }),
            decreases roads@.len() - i,
        {
            proof {
                assert(roads@.take(i + 1).drop_last() =~= roads@.take(i as int));
                assert(roads@.take(i + 1).last() == roads@[i as int]);
            }
            self.remove_one(roads[i], addr);
            i += 1;
        }
        proof {
            assert(roads@.take(i as int) =~= roads@);
        }
    }
}

/// A dispatcher that has gone is no dispatcher of the road any more, and
/// the other dispatchers are those that were.
pub proof fn lemma_without_dispatcher(
    dispatchers: Seq<(u16, PeerAddr)>,
    road: u16,
    addr: PeerAddr,
    other: (u16, PeerAddr),
)
    ensures
        without_dispatcher(dispatchers, road, addr).contains(other) <==> dispatchers.contains(
            other,
        ) && other != (road, addr),
    decreases dispatchers.len(),
{
    if dispatchers.len() > 0 {
        let tail = dispatchers.skip(1);
        let rest = without_dispatcher(tail, road, addr);
        lemma_without_dispatcher(tail, road, addr, other);
        if dispatchers.contains(other) {
            let i = choose|i: int| 0 <= i < dispatchers.len() && dispatchers[i] == other;
            if i > 0 {
                assert(tail[i - 1] == other);
            }
        }
        if tail.contains(other) {
            let i = choose|i: int| 0 <= i < tail.len() && tail[i] == other;
            assert(dispatchers[i + 1] == other);
        }
        if dispatchers[0] != (road, addr) {
            let all = seq![dispatchers[0]] + rest;
            assert(all[0] == dispatchers[0]);
            if rest.contains(other) {
                let i = choose|i: int| 0 <= i < rest.len() && rest[i] == other;
                assert(all[i + 1] == other);
            }
            if all.contains(other) {
                let i = choose|i: int| 0 <= i < all.len() && all[i] == other;
                if i > 0 {
                    assert(rest[i - 1] == other);
                }
            }
        }
    }
}

} // verus!
