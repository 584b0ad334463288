//! A chat room: who is in it, and who is told of what.
//!
//! The room decides; its caller tells. Each change of the room hands back
//! the event and the names of those who are to be told of it.

use vstd::prelude::*;
use vstd::string::StringSliceAdditionalSpecFns;

verus! {

/// The name that a client goes by.
pub type ClientName = String;

/// A line that a client wrote.
pub type Message = String;

/// What the clients in the room are told of.
#[derive(Debug, Clone, PartialEq, Eq)]
pub enum Event {
    NewClient(ClientName),
    Message(ClientName, Message),
    Disconnect(ClientName),
}

/// An event as a mathematical value.
pub enum EventView {
    NewClient(Seq<char>),
    Message(Seq<char>, Seq<char>),
    Disconnect(Seq<char>),
}

impl View for Event {
    type V = EventView;

    open spec fn view(&self) -> EventView {
        match *self {
            Event::NewClient(name) => EventView::NewClient(name@),
            Event::Message(from, message) => EventView::Message(from@, message@),
            Event::Disconnect(name) => EventView::Disconnect(name@),
        }
    }
}

/// Why a name is refused.
#[derive(Debug, Clone, Copy, PartialEq, Eq, Structural)]
pub enum NameError {
    Empty,
    IllegalCharacters,
    Taken,
}

impl NameError {
    /// What the client is told.
    pub fn message(&self) -> (text: &'static str)
        ensures
            *self == NameError::Empty ==> text@ == "Your name cannot be empty"@,
            *self == NameError::IllegalCharacters ==> text@
                == "Your name can only have alphanumeric characters (uppercase, lowercase, digits)"@,
            *self == NameError::Taken ==> text@ == "Name already taken"@,
    {
        match self {
            NameError::Empty => "Your name cannot be empty",
            NameError::IllegalCharacters => {
                "Your name can only have alphanumeric characters (uppercase, lowercase, digits)"
            },
            NameError::Taken => "Name already taken",
        }
    }
}

/// Whether the byte is an ASCII letter or digit.
pub open spec fn is_alphanumeric(b: u8) -> bool {
    (97 <= b && b <= 122) || (65 <= b && b <= 90) || (48 <= b && b <= 57)
}

/// Whether every byte is an ASCII letter or digit.
pub open spec fn all_alphanumeric(bytes: Seq<u8>) -> bool {
    forall|i: int| 0 <= i < bytes.len() ==> is_alphanumeric(#[trigger] bytes[i])
}

/// Checks a name that a client asks for: it must not be empty, and it must
/// be made of ASCII letters and digits.
pub fn check_name(name: &str) -> (checked: Result<(), NameError>)
    ensures
        checked == if name.spec_bytes().len() == 0 {
            Err::<(), NameError>(NameError::Empty)
        } else if !all_alphanumeric(name.spec_bytes()) {
            Err(NameError::IllegalCharacters)
        } else {
            Ok(())
        },
{
    let bytes = name.as_bytes();
    if bytes.len() == 0 {
        return Err(NameError::Empty);
    }
    let mut i: usize = 0;
    while i < bytes.len()
        invariant
            i <= bytes@.len(),
            bytes@.len() > 0,
            bytes@ == name.spec_bytes(),
            forall|j: int| 0 <= j < i ==> is_alphanumeric(#[trigger] bytes@[j]),
        decreases bytes@.len() - i,
    {
        let b = bytes[i];
        if !((97 <= b && b <= 122) || (65 <= b && b <= 90) || (48 <= b && b <= 57)) {
            assert(!is_alphanumeric(bytes@[i as int]));
            return Err(NameError::IllegalCharacters);
        }
        i += 1;
    }
    Ok(())
}

/// The names in a list, each as a mathematical value.
pub open spec fn names_of(names: Seq<String>) -> Seq<Seq<char>> {
    names.map_values(|name: String| name@)
}

/// The names of a list other than `name`, in the list's order.
pub open spec fn others(names: Seq<Seq<char>>, name: Seq<char>) -> Seq<Seq<char>>
    decreases names.len(),
{
    if names.len() == 0 {
        Seq::<Seq<char>>::empty()
    } else if names.last() == name {
        others(names.drop_last(), name)
    } else {
        others(names.drop_last(), name).push(names.last())
    }
}

/// An event and the names of those who are to be told of it.
#[derive(Debug)]
pub struct Broadcast {
    pub event: Event,
    pub recipients: Vec<ClientName>,
}

/// The room: the names of the clients in it, in the order in which they
/// came.
#[derive(Debug)]
pub struct State {
    clients: Vec<ClientName>,
}

impl View for State {
    type V = Seq<Seq<char>>;

    closed spec fn view(&self) -> Seq<Seq<char>> {
        names_of(self.clients@)
    }
}

impl Default for State {
    fn default() -> (state: Self)
        ensures
            state@ == Seq::<Seq<char>>::empty(),
            state.well_formed(),
    {
        let state = State { clients: Vec::new() };
        assert(state@ =~= Seq::<Seq<char>>::empty());
        state
    }
}

impl State {
    /// The room's invariant: no name is in it twice.
    pub open spec fn well_formed(&self) -> bool {
        self@.no_duplicates()
    }

    fn position(&self, name: &String) -> (found: Option<usize>)
        ensures
            match found {
                Some(i) => i < self@.len() && self@[i as int] == name@,
                None => !self@.contains(name@),
            },
    {
        let mut i: usize = 0;
        while i < self.clients.len()
            invariant
                i <= self.clients@.len(),
                forall|j: int| 0 <= j < i ==> self@[j] != name@,
            decreases self.clients@.len() - i,
        {
            if self.clients[i] == *name {
                return Some(i);
            }
            i += 1;
        }
        None
    }

    fn copy_without(&self, name: &String) -> (copy: Vec<ClientName>)
        ensures
            names_of(copy@) == others(self@, name@),
    {
        let mut copy: Vec<ClientName> = Vec::new();
        let mut i: usize = 0;
        assert(self@.take(0) =~= Seq::<Seq<char>>::empty());
        assert(names_of(copy@) =~= others(self@.take(0), name@));
        while i < self.clients.len()
            invariant
                i <= self.clients@.len(),
                names_of(copy@) == others(self@.take(i as int), name@),
            decreases self.clients@.len() - i,
        {
            let ghost before = names_of(copy@);
            proof {
                let longer = self@.take(i + 1);
                assert(longer.drop_last() =~= self@.take(i as int));
                assert(longer.last() == self@[i as int]);
            }
            if self.clients[i] != *name {
                copy.push(self.clients[i].clone());
                assert(names_of(copy@) =~= before.push(self@[i as int]));
            }
            i += 1;
        }
        assert(self@.take(i as int) =~= self@);
        copy
    }

    /// A client comes into the room under `name`. A name that is in the
    /// room is refused. Else everyone who was in the room is told.
    pub fn add_client(&mut self, name: ClientName) -> (added: Result<Broadcast, NameError>)
        requires
            old(self).well_formed(),
        ensures
            final(self).well_formed(),
            old(self)@.contains(name@) ==> added == Err::<Broadcast, NameError>(NameError::Taken)
                && final(self)@ == old(self)@,
            !old(self)@.contains(name@) ==> {
                &&& final(self)@ == old(self)@.push(name@)
                &&& added matches Ok(told) && told.event@ == EventView::NewClient(name@)
                    && names_of(told.recipients@) == old(self)@
            },
    {
        match self.position(&name) {
            Some(_) => Err(NameError::Taken),
            None => {
                let recipients = self.copy_without(&name);
                proof {
                    lemma_others_of_absent(self@, name@);
                }
                let event = Event::NewClient(name.clone());
                self.clients.push(name);
                proof {
                    assert(self@ =~= old(self)@.push(name@));
                    assert forall|i: int, j: int|
                        0 <= i < self@.len() && 0 <= j < self@.len() && i != j implies self@[i]
                        != self@[j] by {
                        if i < old(self)@.len() && j < old(self)@.len() {
                            assert(old(self)@[i] != old(self)@[j]);
                        } else if i < old(self)@.len() {
                            assert(old(self)@.contains(old(self)@[i]));
                        } else {
                            assert(old(self)@.contains(old(self)@[j]));
                        }
                    }
                }
                Ok(Broadcast { event, recipients })
            },
        }
    }

    /// The names of those who are in the room.
    pub fn get_present_names(&self) -> (names: Vec<ClientName>)
        ensures
            names_of(names@) == self@,
    {
        let mut names: Vec<ClientName> = Vec::new();
        let mut i: usize = 0;
        while i < self.clients.len()
            invariant
                i <= self.clients@.len(),
                names_of(names@) == self@.take(i as int),
            decreases self.clients@.len() - i,
        {
            let ghost before = names_of(names@);
            names.push(self.clients[i].clone());
            assert(names_of(names@) =~= before.push(self@[i as int]));
            assert(self@.take(i + 1) =~= self@.take(i as int).push(self@[i as int]));
            i += 1;
        }
        assert(self@.take(i as int) =~= self@);
        names
    }

    /// A line that `from` wrote: everyone in the room but `from` is told.
    pub fn broadcast_message(&mut self, from: ClientName, message: Message) -> (told: Broadcast)
        ensures
            final(self)@ == old(self)@,
            told.event@ == EventView::Message(from@, message@),
            names_of(told.recipients@) == others(old(self)@, from@),
    {
        let recipients = self.copy_without(&from);
        Broadcast { event: Event::Message(from, message), recipients }
    }

    /// The client `name` leaves the room: everyone who stays is told.
    pub fn disconnect_client(&mut self, name: ClientName) -> (told: Broadcast)
        requires
            old(self).well_formed(),
        ensures
            final(self).well_formed(),
            final(self)@ == others(old(self)@, name@),
            told.event@ == EventView::Disconnect(name@),
            names_of(told.recipients@) == final(self)@,
    {
        let remaining = self.copy_without(&name);
        let recipients = self.copy_without(&name);
        proof {
            lemma_others_are_distinct(self@, name@);
        }
        self.clients = remaining;
        Broadcast { event: Event::Disconnect(name), recipients }
    }
}

/// The others of a name are those of the list that are not the name.
pub proof fn lemma_others_members(names: Seq<Seq<char>>, name: Seq<char>, other: Seq<char>)
    ensures
        others(names, name).contains(other) <==> names.contains(other) && other != name,
    decreases names.len(),
{
    if names.len() > 0 {
        let shorter = names.drop_last();
        let rest = others(shorter, name);
        lemma_others_members(shorter, name, other);
        if names.contains(other) {
            let i = choose|i: int| 0 <= i < names.len() && names[i] == other;
            if i < shorter.len() {
                assert(shorter[i] == other);
            }
        }
        if shorter.contains(other) {
            let i = choose|i: int| 0 <= i < shorter.len() && shorter[i] == other;
            assert(names[i] == other);
        }
        if names.last() != name {
            let all = rest.push(names.last());
            assert(all.last() == names.last());
            if rest.contains(other) {
                let i = choose|i: int| 0 <= i < rest.len() && rest[i] == other;
                assert(all[i] == other);
            }
            if all.contains(other) {
                let i = choose|i: int| 0 <= i < all.len() && all[i] == other;
                if i < rest.len() {
                    assert(rest[i] == other);
                }
            }
            assert(names[names.len() - 1] == names.last());
        } else {
            assert(names[names.len() - 1] == names.last());
        }
    }
}

/// A name that is not in a list has all of the list as its others.
pub proof fn lemma_others_of_absent(names: Seq<Seq<char>>, name: Seq<char>)
    requires
        !names.contains(name),
    ensures
        others(names, name) == names,
    decreases names.len(),
{
    if names.len() > 0 {
        let shorter = names.drop_last();
        assert forall|i: int| 0 <= i < shorter.len() implies shorter[i] != name by {
            assert(names[i] == shorter[i]);
        }
        lemma_others_of_absent(shorter, name);
        assert(names[names.len() - 1] == names.last());
        assert(shorter.push(names.last()) =~= names);
    }
}

/// The others of a name in a list without duplicates are a list without
/// duplicates, and the name is not among them.
pub proof fn lemma_others_are_distinct(names: Seq<Seq<char>>, name: Seq<char>)
    requires
        names.no_duplicates(),
    ensures
        others(names, name).no_duplicates(),
        !others(names, name).contains(name),
    decreases names.len(),
{
    lemma_others_members(names, name, name);
    if names.len() > 0 {
        let shorter = names.drop_last();
        let rest = others(shorter, name);
        assert forall|i: int, j: int|
            0 <= i < shorter.len() && 0 <= j < shorter.len() && i != j implies shorter[i]
            != shorter[j] by {
            assert(names[i] != names[j]);
        }
        lemma_others_are_distinct(shorter, name);
        if names.last() != name {
            lemma_others_members(shorter, name, names.last());
            if shorter.contains(names.last()) {
                let i = choose|i: int| 0 <= i < shorter.len() && shorter[i] == names.last();
                assert(names[i] == names[names.len() - 1]);
            }
            let all = rest.push(names.last());
            assert forall|i: int, j: int|
                0 <= i < all.len() && 0 <= j < all.len() && i != j implies all[i] != all[j] by {
                if i < rest.len() && j < rest.len() {
                    assert(rest[i] != rest[j]);
                } else if i < rest.len() {
                    assert(rest.contains(rest[i]));
                } else {
                    assert(rest.contains(rest[j]));
                }
            }
        }
    }
}

} // verus!
