//! A key-value store that is spoken to in datagrams: `key=value` sets a
//! value, `key` asks for one, and the key `version` is the store's own.

use vstd::prelude::*;

verus! {

/// The longest datagram that is read or sent.
pub const MAX_MESSAGE_SIZE: usize = 1000;

/// The byte `=`, which ends the key of an insertion.
pub const EQUALS: u8 = 61;

/// The key under which the store tells its name and version: `version`.
pub open spec fn version_key() -> Seq<u8> {
    seq![118u8, 101u8, 114u8, 115u8, 105u8, 111u8, 110u8]
}

/// A request: a key, and for an insertion the value.
#[derive(Debug, Clone, PartialEq, Eq)]
pub struct Request {
    pub key: Vec<u8>,
    pub value: Option<Vec<u8>>,
}

/// The index of the first `=` in a message, or the message's length where
/// it holds none.
pub open spec fn key_end(message: Seq<u8>) -> int
    decreases message.len(),
{
    if message.len() == 0 || message[0] == EQUALS {
        0
    } else {
        1 + key_end(message.skip(1))
    }
}

/// The key of a message: what stands before its first `=`, or all of it.
pub open spec fn key_of(message: Seq<u8>) -> Seq<u8> {
    message.take(key_end(message))
}

/// The value of a message: what stands behind its first `=`, if it has one.
pub open spec fn value_of(message: Seq<u8>) -> Option<Seq<u8>> {
    if key_end(message) < message.len() {
        Some(message.skip(key_end(message) + 1))
    } else {
        None
    }
}

/// The first `=` of a message is where its key ends: no byte before it is
/// one.
pub proof fn lemma_key_end(message: Seq<u8>)
    ensures
        0 <= key_end(message) <= message.len(),
        forall|i: int| 0 <= i < key_end(message) ==> message[i] != EQUALS,
        key_end(message) < message.len() ==> message[key_end(message)] == EQUALS,
    decreases message.len(),
{
    if message.len() > 0 && message[0] != EQUALS {
        let tail = message.skip(1);
        lemma_key_end(tail);
        assert forall|i: int| 0 <= i < key_end(message) implies message[i] != EQUALS by {
            if i > 0 {
                assert(message[i] == tail[i - 1]);
            }
        }
        if key_end(message) < message.len() {
            assert(message[key_end(message)] == tail[key_end(tail)]);
        }
    }
}

/// The index of the first `=` is the one before which no `=` stands.
pub proof fn lemma_key_end_is(message: Seq<u8>, end: int)
    requires
        0 <= end <= message.len(),
        forall|i: int| 0 <= i < end ==> message[i] != EQUALS,
        end < message.len() ==> message[end] == EQUALS,
    ensures
        key_end(message) == end,
{
    lemma_key_end(message);
    let found = key_end(message);
    if found < end {
        assert(message[found] != EQUALS);
    } else if found > end {
        assert(message[end] != EQUALS);
    }
}

/// Reads a request from a datagram.
pub fn parse_request(message: &[u8]) -> (request: Request)
    ensures
        request.key@ == key_of(message@),
        match request.value {
            Some(value) => value_of(message@) == Some(value@),
            None => value_of(message@) is None,
        },
{
    let mut end: usize = 0;
    while end < message.len() && message[end] != EQUALS
        invariant
            end <= message@.len(),
            forall|i: int| 0 <= i < end ==> message@[i] != EQUALS,
        decreases message@.len() - end,
    {
        end += 1;
    }
    proof {
        lemma_key_end_is(message@, end as int);
    }
    let key = vstd::slice::slice_to_vec(vstd::slice::slice_subrange(message, 0, end));
    assert(key@ =~= key_of(message@));
    if end < message.len() {
        let value = vstd::slice::slice_to_vec(
            vstd::slice::slice_subrange(message, end + 1, message.len()),
        );
        assert(value@ =~= message@.skip(end + 1));
        Request { key, value: Some(value) }
    } else {
        Request { key, value: None }
    }
}

/// The datagram that answers a retrieval: the key, `=`, and the value.
pub open spec fn reply_of(key: Seq<u8>, value: Seq<u8>) -> Seq<u8> {
    key + seq![EQUALS] + value
}

/// An answer is too long for a datagram.
#[derive(Debug, Clone, Copy, PartialEq, Eq, Structural)]
pub struct TooLong;

/// Writes the datagram that answers a retrieval. An answer of more than
/// `MAX_MESSAGE_SIZE` bytes is refused.
pub fn write_request(key: &[u8], value: &[u8]) -> (message: Result<Vec<u8>, TooLong>)
    ensures
        match message {
            Ok(bytes) => bytes@ == reply_of(key@, value@) && bytes@.len() <= MAX_MESSAGE_SIZE,
            Err(_) => key@.len() + 1 + value@.len() > MAX_MESSAGE_SIZE,
        },
{
    if key.len() > MAX_MESSAGE_SIZE || value.len() > MAX_MESSAGE_SIZE || key.len() + 1
        + value.len() > MAX_MESSAGE_SIZE {
        return Err(TooLong);
    }
    let mut bytes: Vec<u8> = Vec::new();
    bytes.extend_from_slice(key);
    bytes.push(EQUALS);
    bytes.extend_from_slice(value);
    Ok(bytes)
}

fn same_bytes(a: &[u8], b: &[u8]) -> (same: bool)
    ensures
        same == (a@ == b@),
{
    if a.len() != b.len() {
        return false;
    }
    let mut i: usize = 0;
    while i < a.len()
        invariant
            i <= a@.len(),
            a@.len() == b@.len(),
            forall|j: int| 0 <= j < i ==> a@[j] == b@[j],
        decreases a@.len() - i,
    {
        if a[i] != b[i] {
            return false;
        }
        i += 1;
    }
    assert(a@ =~= b@);
    true
}

/// The store: the keys that were set, each with its last value.
#[derive(Debug)]
pub struct Database {
    entries: Vec<(Vec<u8>, Vec<u8>)>,
    version: Vec<u8>,
}

/// The value that the entries hold for a key: that of the first entry with
/// the key.
pub open spec fn lookup(entries: Seq<(Vec<u8>, Vec<u8>)>, key: Seq<u8>) -> Option<Seq<u8>>
    decreases entries.len(),
{
    if entries.len() == 0 {
        None
    } else if entries[0].0@ == key {
        Some(entries[0].1@)
    } else {
        lookup(entries.skip(1), key)
    }
}

impl Database {
    /// The value that is stored for `key`, if one is.
    pub closed spec fn get(&self, key: Seq<u8>) -> Option<Seq<u8>> {
        lookup(self.entries@, key)
    }

    /// What the store answers under the key `version`.
    pub closed spec fn version(&self) -> Seq<u8> {
        self.version@
    }

    /// An empty store that answers `version` under the key `version`.
    pub fn new(version: Vec<u8>) -> (database: Self)
        ensures
            database.version() == version@,
            forall|key: Seq<u8>| database.get(key) is None,
    {
        Database { entries: Vec::new(), version }
    }

    fn find(&self, key: &[u8]) -> (found: Option<usize>)
        ensures
            match found {
                Some(i) => i < self.entries@.len() && self.entries@[i as int].0@ == key@
                    && lookup(self.entries@, key@) == Some(self.entries@[i as int].1@) && forall|
                    j: int,
                | 0 <= j < i ==> self.entries@[j].0@ != key@,
                None => lookup(self.entries@, key@) is None && forall|j: int|
                    0 <= j < self.entries@.len() ==> self.entries@[j].0@ != key@,
            },
    {
        let mut i: usize = 0;
        assert(self.entries@.skip(0) =~= self.entries@);
        while i < self.entries.len()
            invariant
                i <= self.entries@.len(),
                lookup(self.entries@, key@) == lookup(self.entries@.skip(i as int), key@),
                forall|j: int| 0 <= j < i ==> self.entries@[j].0@ != key@,
            decreases self.entries@.len() - i,
        {
            let ghost here = self.entries@.skip(i as int);
            assert(here[0] == self.entries@[i as int]);
            assert(here.skip(1) =~= self.entries@.skip(i + 1));
            if same_bytes(self.entries[i].0.as_slice(), key) {
                return Some(i);
            }
            i += 1;
        }
        None
    }

    /// One request. An insertion stores its value under its key, unless the
    /// key is `version`, and is not answered. A retrieval is answered with
    /// the key and its value, where it has one; under the key `version`
    /// with the store's version. The answer is `None` where there is none.
    pub fn handle(&mut self, request: Request) -> (reply: Option<(Vec<u8>, Vec<u8>)>)
        ensures
            final(self).version() == old(self).version(),
            match request.value {
                Some(value) => {
                    &&& reply is None
                    &&& forall|key: Seq<u8>|
                        final(self).get(key) == if key == request.key@ && key != version_key() {
                            Some(value@)
                        } else {
                            old(self).get(key)
                        }
                },
                None => {
                    &&& forall|key: Seq<u8>| final(self).get(key) == old(self).get(key)
                    &&& if request.key@ == version_key() {
                        reply matches Some(pair) && pair.0@ == request.key@ && pair.1@ == old(
                            self,
                        ).version()
                    } else {
                        match old(self).get(request.key@) {
                            Some(value) => reply matches Some(pair) && pair.0@ == request.key@
                                && pair.1@ == value,
                            None => reply is None,
                        }
                    }
                },
            },
    {
        let word: [u8; 7] = [118, 101, 114, 115, 105, 111, 110];
        assert(word@ =~= version_key());
        let is_version = same_bytes(request.key.as_slice(), word.as_slice());
        let Request { key, value } = request;
        match value {
            Some(value) => {
                if !is_version {
                    match self.find(key.as_slice()) {
                        Some(i) => {
                            let ghost before = self.entries@;
                            let entry = &mut self.entries[i];
                            entry.1 = value;
                            proof {
                                assert forall|k: Seq<u8>|
                                    lookup(self.entries@, k) == if k == key@ {
                                        Some(value@)
                                    } else {
                                        lookup(before, k)
                                    } by {
                                    lemma_lookup_update(before, self.entries@, i as int, k);
                                }
                            }
                        },
                        None => {
                            let ghost before = self.entries@;
                            self.entries.push((key, value));
                            proof {
                                assert forall|k: Seq<u8>|
                                    lookup(self.entries@, k) == if k == key@ {
                                        Some(value@)
                                    } else {
                                        lookup(before, k)
                                    } by {
                                    lemma_lookup_push(before, (key, value), k);
                                }
                            }
                        },
                    }
                }
                None
            },
            None => {
                if is_version {
                    let version = vstd::slice::slice_to_vec(self.version.as_slice());
                    Some((key, version))
                } else {
                    match self.find(key.as_slice()) {
                        Some(i) => {
                            let value = vstd::slice::slice_to_vec(self.entries[i].1.as_slice());
                            Some((key, value))
                        },
                        None => None,
                    }
                }
            },
        }
    }
}

/// A new value for the first entry of a key changes what the key gives and
/// nothing else.
proof fn lemma_lookup_update(
    before: Seq<(Vec<u8>, Vec<u8>)>,
    after: Seq<(Vec<u8>, Vec<u8>)>,
    i: int,
    key: Seq<u8>,
)
    requires
        0 <= i < before.len(),
        after.len() == before.len(),
        after[i].0 == before[i].0,
        forall|j: int| 0 <= j < before.len() && j != i ==> after[j] == before[j],
        forall|j: int| 0 <= j < i ==> before[j].0@ != before[i].0@,
    ensures
        lookup(after, key) == if key == before[i].0@ {
            Some(after[i].1@)
        } else {
            lookup(before, key)
        },
    decreases i,
{
    if i == 0 {
        assert(after.skip(1) =~= before.skip(1));
    } else {
        let shorter = before.skip(1);
        let changed = after.skip(1);
        assert(after[0] == before[0]);
        assert(shorter[i - 1] == before[i]);
        assert(changed[i - 1] == after[i]);
        assert forall|j: int| 0 <= j < shorter.len() && j != i - 1 implies changed[j]
            == shorter[j] by {
            assert(changed[j] == after[j + 1]);
            assert(shorter[j] == before[j + 1]);
        }
        let moved = shorter[i - 1].0@;
        assert forall|j: int| 0 <= j < i - 1 implies (#[trigger] shorter[j]).0@ != moved by {
            assert(shorter[j] == before[j + 1]);
        }
        lemma_lookup_update(shorter, changed, i - 1, key);
        assert(before[0].0@ != before[i].0@);
    }
}

/// An entry for a key that had none gives the key its value and changes
/// nothing else.
proof fn lemma_lookup_push(
    before: Seq<(Vec<u8>, Vec<u8>)>,
    entry: (Vec<u8>, Vec<u8>),
    key: Seq<u8>,
)
    requires
        forall|j: int| 0 <= j < before.len() ==> before[j].0@ != entry.0@,
    ensures
        lookup(before.push(entry), key) == if key == entry.0@ {
            Some(entry.1@)
        } else {
            lookup(before, key)
        },
    decreases before.len(),
{
    let after = before.push(entry);
    if before.len() == 0 {
        assert(after[0] == entry);
        assert(after.skip(1) =~= Seq::<(Vec<u8>, Vec<u8>)>::empty());
        assert(lookup(after.skip(1), key) is None);
    } else {
        let shorter = before.skip(1);
        assert(after[0] == before[0]);
        assert(after.skip(1) =~= shorter.push(entry));
        assert forall|j: int| 0 <= j < shorter.len() implies shorter[j].0@ != entry.0@ by {
            assert(shorter[j] == before[j + 1]);
        }
        lemma_lookup_push(shorter, entry, key);
        assert(before[0].0@ != entry.0@);
    }
}

} // verus!
