//! Byte ciphers that can be composed: each one turns a byte of a stream into
//! another, some of them depending on the byte's place in the stream.
//!
//! A cipher is described on the wire by a list of operations: `01` reverses
//! the bits, `02 N` is xor with `N`, `03` is xor with the byte's position in
//! the stream, `04 N` adds `N`, `05` adds the position. Additions wrap at
//! 256, and so do positions.

use vstd::prelude::*;

verus! {

/// One operation of a cipher, with the places it has reached in the stream
/// that it ciphers and in the stream that it deciphers.
pub enum CipherOp {
    ReverseBits,
    Xor(u8),
    XorPos { cipher_pos: u8, decipher_pos: u8 },
    Add(u8),
    AddPos { cipher_pos: u8, decipher_pos: u8 },
}

/// The byte with its bits in the opposite order.
pub open spec fn reversed_bits(b: u8) -> u8 {
    ((b & 1) << 7) | ((b & 2) << 5) | ((b & 4) << 3) | ((b & 8) << 1) | ((b & 16) >> 1) | ((b
        & 32) >> 3) | ((b & 64) >> 5) | ((b & 128) >> 7)
}

impl CipherOp {
    /// What the operation makes of a byte that it ciphers.
    pub open spec fn ciphered(self, byte: u8) -> u8 {
        match self {
            CipherOp::ReverseBits => reversed_bits(byte),
            CipherOp::Xor(n) => byte ^ n,
            CipherOp::XorPos { cipher_pos, .. } => byte ^ cipher_pos,
            CipherOp::Add(n) => byte.wrapping_add(n),
            CipherOp::AddPos { cipher_pos, .. } => byte.wrapping_add(cipher_pos),
        }
    }

    /// What the operation makes of a byte that it deciphers.
    pub open spec fn deciphered(self, byte: u8) -> u8 {
        match self {
            CipherOp::ReverseBits => reversed_bits(byte),
            CipherOp::Xor(n) => byte ^ n,
            CipherOp::XorPos { decipher_pos, .. } => byte ^ decipher_pos,
            CipherOp::Add(n) => byte.wrapping_sub(n),
            CipherOp::AddPos { decipher_pos, .. } => byte.wrapping_sub(decipher_pos),
        }
    }

    /// The operation after it has ciphered a byte.
    pub open spec fn after_cipher(self) -> CipherOp {
        match self {
            CipherOp::XorPos { cipher_pos, decipher_pos } => CipherOp::XorPos {
                cipher_pos: cipher_pos.wrapping_add(1),
                decipher_pos,
            },
            CipherOp::AddPos { cipher_pos, decipher_pos } => CipherOp::AddPos {
                cipher_pos: cipher_pos.wrapping_add(1),
                decipher_pos,
            },
            _ => self,
        }
    }

    /// The operation after it has deciphered a byte.
    pub open spec fn after_decipher(self) -> CipherOp {
        match self {
            CipherOp::XorPos { cipher_pos, decipher_pos } => CipherOp::XorPos {
                cipher_pos,
                decipher_pos: decipher_pos.wrapping_add(1),
            },
            CipherOp::AddPos { cipher_pos, decipher_pos } => CipherOp::AddPos {
                cipher_pos,
                decipher_pos: decipher_pos.wrapping_add(1),
            },
            _ => self,
        }
    }

    /// Whether the operation is at the same place in both streams.
    pub open spec fn aligned(self) -> bool {
        match self {
            CipherOp::XorPos { cipher_pos, decipher_pos } => cipher_pos == decipher_pos,
            CipherOp::AddPos { cipher_pos, decipher_pos } => cipher_pos == decipher_pos,
            _ => true,
        }
    }
}

/// What a list of operations makes of a byte that it ciphers: the first
/// operation is applied first.
pub open spec fn cipher_byte(ops: Seq<CipherOp>, byte: u8) -> u8
    decreases ops.len(),
{
    if ops.len() == 0 {
        byte
    } else {
        cipher_byte(ops.skip(1), ops[0].ciphered(byte))
    }
}

/// What a list of operations makes of a byte that it deciphers: the last
/// operation is undone first.
pub open spec fn decipher_byte(ops: Seq<CipherOp>, byte: u8) -> u8
    decreases ops.len(),
{
    if ops.len() == 0 {
        byte
    } else {
        ops[0].deciphered(decipher_byte(ops.skip(1), byte))
    }
}

/// The operations after they have ciphered a byte.
pub open spec fn after_cipher(ops: Seq<CipherOp>) -> Seq<CipherOp> {
    Seq::new(ops.len(), |i: int| ops[i].after_cipher())
}

/// The operations after they have deciphered a byte.
pub open spec fn after_decipher(ops: Seq<CipherOp>) -> Seq<CipherOp> {
    Seq::new(ops.len(), |i: int| ops[i].after_decipher())
}

/// The operations after they have ciphered `count` bytes.
pub open spec fn after_ciphering(ops: Seq<CipherOp>, count: nat) -> Seq<CipherOp>
    decreases count,
{
    if count == 0 {
        ops
    } else {
        after_cipher(after_ciphering(ops, (count - 1) as nat))
    }
}

/// What a list of operations makes of a stream that it ciphers.
pub open spec fn cipher_stream(ops: Seq<CipherOp>, bytes: Seq<u8>) -> Seq<u8> {
    Seq::new(bytes.len(), |i: int| cipher_byte(after_ciphering(ops, i as nat), bytes[i]))
}

/// Whether every operation is at the same place in both streams.
pub open spec fn aligned(ops: Seq<CipherOp>) -> bool {
    forall|i: int| 0 <= i < ops.len() ==> (#[trigger] ops[i]).aligned()
}

/// A cipher: something that turns each byte of a stream into another, and
/// back.
pub trait Cipher {
    /// The operations that the cipher is made of, in the order in which a
    /// byte that is ciphered goes through them.
    spec fn ops(&self) -> Seq<CipherOp>;

    /// Ciphers the next byte of the stream.
    fn cipher(&mut self, byte: u8) -> (out: u8)
        ensures
            out == cipher_byte(old(self).ops(), byte),
            final(self).ops() == after_cipher(old(self).ops()),
    ;

    /// Deciphers the next byte of the stream.
    fn decipher(&mut self, byte: u8) -> (out: u8)
        ensures
            out == decipher_byte(old(self).ops(), byte),
            final(self).ops() == after_decipher(old(self).ops()),
    ;
}

/// A cipher of one operation does to a byte what the operation does.
pub proof fn lemma_single(op: CipherOp, byte: u8)
    ensures
        cipher_byte(seq![op], byte) == op.ciphered(byte),
        decipher_byte(seq![op], byte) == op.deciphered(byte),
        after_cipher(seq![op]) == seq![op.after_cipher()],
        after_decipher(seq![op]) == seq![op.after_decipher()],
{
    let ops = seq![op];
    assert(ops.skip(1) =~= Seq::<CipherOp>::empty());
    assert(cipher_byte(ops.skip(1), op.ciphered(byte)) == op.ciphered(byte));
    assert(decipher_byte(ops.skip(1), byte) == byte);
    assert(after_cipher(ops) =~= seq![op.after_cipher()]);
    assert(after_decipher(ops) =~= seq![op.after_decipher()]);
}

fn reverse_bits(b: u8) -> (out: u8)
    ensures
        out == reversed_bits(b),
{
    ((b & 1) << 7) | ((b & 2) << 5) | ((b & 4) << 3) | ((b & 8) << 1) | ((b & 16) >> 1) | ((b
        & 32) >> 3) | ((b & 64) >> 5) | ((b & 128) >> 7)
}

/// Reverses the bits of each byte.
#[derive(Debug, Clone, Copy)]
pub struct ReverseBitsCipher;

impl Cipher for ReverseBitsCipher {
    open spec fn ops(&self) -> Seq<CipherOp> {
        seq![CipherOp::ReverseBits]
    }

    fn cipher(&mut self, byte: u8) -> (out: u8) {
        proof {
            lemma_single(CipherOp::ReverseBits, byte);
        }
        reverse_bits(byte)
    }

    fn decipher(&mut self, byte: u8) -> (out: u8) {
        proof {
            lemma_single(CipherOp::ReverseBits, byte);
        }
        reverse_bits(byte)
    }
}

/// Xors each byte with a fixed one.
#[derive(Debug, Clone, Copy)]
pub struct XorCipher(pub u8);

impl Cipher for XorCipher {
    open spec fn ops(&self) -> Seq<CipherOp> {
        seq![CipherOp::Xor(self.0)]
    }

    fn cipher(&mut self, byte: u8) -> (out: u8) {
        proof {
            lemma_single(CipherOp::Xor(self.0), byte);
        }
        byte ^ self.0
    }

    fn decipher(&mut self, byte: u8) -> (out: u8) {
        proof {
            lemma_single(CipherOp::Xor(self.0), byte);
        }
        byte ^ self.0
    }
}

/// Xors each byte with its position in the stream.
#[derive(Debug, Clone, Copy)]
pub struct XorPosCipher {
    pub cipher_pos: u8,
    pub decipher_pos: u8,
}

impl Default for XorPosCipher {
    fn default() -> (cipher: Self)
        ensures
            cipher.cipher_pos == 0,
            cipher.decipher_pos == 0,
    {
        XorPosCipher { cipher_pos: 0, decipher_pos: 0 }
    }
}

impl Cipher for XorPosCipher {
    open spec fn ops(&self) -> Seq<CipherOp> {
        seq![CipherOp::XorPos { cipher_pos: self.cipher_pos, decipher_pos: self.decipher_pos }]
    }

    fn cipher(&mut self, byte: u8) -> (out: u8) {
        proof {
            lemma_single(
                CipherOp::XorPos { cipher_pos: self.cipher_pos, decipher_pos: self.decipher_pos },
                byte,
            );
        }
        let ciphered = byte ^ self.cipher_pos;
        self.cipher_pos = self.cipher_pos.wrapping_add(1);
        ciphered
    }

    fn decipher(&mut self, byte: u8) -> (out: u8) {
        proof {
            lemma_single(
                CipherOp::XorPos { cipher_pos: self.cipher_pos, decipher_pos: self.decipher_pos },
                byte,
            );
        }
        let deciphered = byte ^ self.decipher_pos;
        self.decipher_pos = self.decipher_pos.wrapping_add(1);
        deciphered
    }
}

/// Adds a fixed byte to each byte.
#[derive(Debug, Clone, Copy)]
pub struct AddCipher(pub u8);

impl Cipher for AddCipher {
    open spec fn ops(&self) -> Seq<CipherOp> {
        seq![CipherOp::Add(self.0)]
    }

    fn cipher(&mut self, byte: u8) -> (out: u8) {
        proof {
            lemma_single(CipherOp::Add(self.0), byte);
        }
        byte.wrapping_add(self.0)
    }

    fn decipher(&mut self, byte: u8) -> (out: u8) {
        proof {
            lemma_single(CipherOp::Add(self.0), byte);
        }
        byte.wrapping_sub(self.0)
    }
}

/// Adds to each byte its position in the stream.
#[derive(Debug, Clone, Copy)]
pub struct AddPosCipher {
    pub cipher_pos: u8,
    pub decipher_pos: u8,
}

impl Default for AddPosCipher {
    fn default() -> (cipher: Self)
        ensures
            cipher.cipher_pos == 0,
            cipher.decipher_pos == 0,
    {
        AddPosCipher { cipher_pos: 0, decipher_pos: 0 }
    }
}

impl Cipher for AddPosCipher {
    open spec fn ops(&self) -> Seq<CipherOp> {
        seq![CipherOp::AddPos { cipher_pos: self.cipher_pos, decipher_pos: self.decipher_pos }]
    }

    fn cipher(&mut self, byte: u8) -> (out: u8) {
        proof {
            lemma_single(
                CipherOp::AddPos { cipher_pos: self.cipher_pos, decipher_pos: self.decipher_pos },
                byte,
            );
        }
        let ciphered = byte.wrapping_add(self.cipher_pos);
        self.cipher_pos = self.cipher_pos.wrapping_add(1);
        ciphered
    }

    fn decipher(&mut self, byte: u8) -> (out: u8) {
        proof {
            lemma_single(
                CipherOp::AddPos { cipher_pos: self.cipher_pos, decipher_pos: self.decipher_pos },
                byte,
            );
        }
        let deciphered = byte.wrapping_sub(self.decipher_pos);
        self.decipher_pos = self.decipher_pos.wrapping_add(1);
        deciphered
    }
}

/// One operation of a cipher that is made of several.
#[derive(Debug, Clone, Copy)]
pub enum ComposableCipher {
    ReverseBits(ReverseBitsCipher),
    Xor(XorCipher),
    XorPos(XorPosCipher),
    Add(AddCipher),
    AddPos(AddPosCipher),
}

/// The operation that a description begins with, and the rest of the
/// description. There is none where the description is empty, begins with a
/// byte that names no operation, or ends where the operation's operand is
/// due.
pub open spec fn parse_op(description: Seq<u8>) -> Option<(CipherOp, Seq<u8>)> {
    if description.len() == 0 {
        None
    } else if description[0] == 1 {
        Some((CipherOp::ReverseBits, description.skip(1)))
    } else if description[0] == 2 {
        if description.len() >= 2 {
            Some((CipherOp::Xor(description[1]), description.skip(2)))
        } else {
            None
        }
    } else if description[0] == 3 {
        Some((CipherOp::XorPos { cipher_pos: 0, decipher_pos: 0 }, description.skip(1)))
    } else if description[0] == 4 {
        if description.len() >= 2 {
            Some((CipherOp::Add(description[1]), description.skip(2)))
        } else {
            None
        }
    } else if description[0] == 5 {
        Some((CipherOp::AddPos { cipher_pos: 0, decipher_pos: 0 }, description.skip(1)))
    } else {
        None
    }
}

/// The operations that a description lists, if it is a list of operations
/// from its first byte to its last.
pub open spec fn parse_ops(description: Seq<u8>) -> Option<Seq<CipherOp>>
    decreases description.len(),
{
    if description.len() == 0 {
        Some(Seq::<CipherOp>::empty())
    } else {
        match parse_op(description) {
            Some((op, rest)) => if rest.len() < description.len() {
                match parse_ops(rest) {
                    Some(ops) => Some(seq![op] + ops),
                    None => None,
                }
            } else {
                None
            },
            None => None,
        }
    }
}

impl ComposableCipher {
    /// The operation as a mathematical value.
    pub open spec fn op(&self) -> CipherOp {
        match *self {
            ComposableCipher::ReverseBits(_) => CipherOp::ReverseBits,
            ComposableCipher::Xor(c) => CipherOp::Xor(c.0),
            ComposableCipher::XorPos(c) => CipherOp::XorPos {
                cipher_pos: c.cipher_pos,
                decipher_pos: c.decipher_pos,
            },
            ComposableCipher::Add(c) => CipherOp::Add(c.0),
            ComposableCipher::AddPos(c) => CipherOp::AddPos {
                cipher_pos: c.cipher_pos,
                decipher_pos: c.decipher_pos,
            },
        }
    }

    /// Reads the operation that a description begins with, and hands back
    /// the rest of the description.
    pub fn from_spec_slice(spec_slice: &[u8]) -> (parsed: Option<(Self, &[u8])>)
        ensures
            match parsed {
                Some((cipher, rest)) => parse_op(spec_slice@) == Some((cipher.op(), rest@)),
                None => parse_op(spec_slice@) is None,
            },
    {
        if spec_slice.len() == 0 {
            return None;
        }
        let id = spec_slice[0];
        let len = spec_slice.len();
        if id == 1 {
            let rest = vstd::slice::slice_subrange(spec_slice, 1, len);
            assert(rest@ =~= spec_slice@.skip(1));
            Some((ComposableCipher::ReverseBits(ReverseBitsCipher), rest))
        } else if id == 2 {
            if len < 2 {
                return None;
            }
            let rest = vstd::slice::slice_subrange(spec_slice, 2, len);
            assert(rest@ =~= spec_slice@.skip(2));
            Some((ComposableCipher::Xor(XorCipher(spec_slice[1])), rest))
        } else if id == 3 {
            let rest = vstd::slice::slice_subrange(spec_slice, 1, len);
            assert(rest@ =~= spec_slice@.skip(1));
            Some((ComposableCipher::XorPos(XorPosCipher::default()), rest))
        } else if id == 4 {
            if len < 2 {
                return None;
            }
            let rest = vstd::slice::slice_subrange(spec_slice, 2, len);
            assert(rest@ =~= spec_slice@.skip(2));
            Some((ComposableCipher::Add(AddCipher(spec_slice[1])), rest))
        } else if id == 5 {
            let rest = vstd::slice::slice_subrange(spec_slice, 1, len);
            assert(rest@ =~= spec_slice@.skip(1));
            Some((ComposableCipher::AddPos(AddPosCipher::default()), rest))
        } else {
            None
        }
    }
}

impl Cipher for ComposableCipher {
    open spec fn ops(&self) -> Seq<CipherOp> {
        seq![self.op()]
    }

    fn cipher(&mut self, byte: u8) -> (out: u8) {
        proof {
            lemma_single(self.op(), byte);
        }
        match self {
            ComposableCipher::ReverseBits(cipher) => cipher.cipher(byte),
            ComposableCipher::Xor(cipher) => cipher.cipher(byte),
            ComposableCipher::XorPos(cipher) => {
                let out = cipher.cipher(byte);
                proof {
                    lemma_single(old(self).op().after_cipher(), byte);
                }
                out
            },
            ComposableCipher::Add(cipher) => cipher.cipher(byte),
            ComposableCipher::AddPos(cipher) => {
                let out = cipher.cipher(byte);
                proof {
                    lemma_single(old(self).op().after_cipher(), byte);
                }
                out
            },
        }
    }

    fn decipher(&mut self, byte: u8) -> (out: u8) {
        proof {
            lemma_single(self.op(), byte);
        }
        match self {
            ComposableCipher::ReverseBits(cipher) => cipher.decipher(byte),
            ComposableCipher::Xor(cipher) => cipher.decipher(byte),
            ComposableCipher::XorPos(cipher) => {
                let out = cipher.decipher(byte);
                proof {
                    lemma_single(old(self).op().after_decipher(), byte);
                }
                out
            },
            ComposableCipher::Add(cipher) => cipher.decipher(byte),
            ComposableCipher::AddPos(cipher) => {
                let out = cipher.decipher(byte);
                proof {
                    lemma_single(old(self).op().after_decipher(), byte);
                }
                out
            },
        }
    }
}

/// A cipher made of operations, which a byte that is ciphered goes through
/// from the first to the last, and a byte that is deciphered from the last
/// to the first.
#[derive(Debug)]
pub struct ComposedCipher(Vec<ComposableCipher>);

/// The operations of a list of ciphers.
pub open spec fn ops_of(ciphers: Seq<ComposableCipher>) -> Seq<CipherOp> {
    Seq::new(ciphers.len(), |i: int| ciphers[i].op())
}

impl ComposedCipher {
    /// Reads a cipher's description: a list of operations, from its first
    /// byte to its last. Every operation starts at position 0.
    pub fn from_spec_slice(spec_slice: &[u8]) -> (parsed: Option<Self>)
        ensures
            match parsed {
                Some(cipher) => parse_ops(spec_slice@) == Some(cipher.ops()),
                None => parse_ops(spec_slice@) is None,
            },
    {
        let mut ciphers: Vec<ComposableCipher> = Vec::new();
        let mut rest: &[u8] = spec_slice;
        assert(ops_of(ciphers@) =~= Seq::<CipherOp>::empty());
        while rest.len() > 0
            invariant
                parse_ops(spec_slice@) == match parse_ops(rest@) {
                    Some(ops) => Some(ops_of(ciphers@) + ops),
                    None => None,
                },
            decreases rest.len(),
        {
            let ghost before = ops_of(ciphers@);
            match ComposableCipher::from_spec_slice(rest) {
                Some((cipher, shorter)) => {
                    ciphers.push(cipher);
                    proof {
                        assert(ops_of(ciphers@) =~= before.push(cipher.op()));
                        match parse_ops(shorter@) {
                            Some(ops) => {
                                assert(before + (seq![cipher.op()] + ops) =~= ops_of(ciphers@)
                                    + ops);
                            },
                            None => {},
                        }
                    }
                    rest = shorter;
                },
                None => {
                    return None;
                },
            }
        }
        proof {
            assert(ops_of(ciphers@) + Seq::<CipherOp>::empty() =~= ops_of(ciphers@));
        }
        Some(ComposedCipher(ciphers))
    }

    /// A second cipher with the same operations at the same positions.
    pub fn duplicate(&self) -> (copy: Self)
        ensures
            copy.ops() == self.ops(),
    {
        let mut ciphers: Vec<ComposableCipher> = Vec::new();
        let mut i: usize = 0;
        while i < self.0.len()
            invariant
                i <= self.0@.len(),
                ciphers@ == self.0@.take(i as int),
            decreases self.0@.len() - i,
        {
            ciphers.push(self.0[i]);
            assert(ciphers@ =~= self.0@.take(i + 1));
            i += 1;
        }
        assert(ciphers@ =~= self.0@);
        ComposedCipher(ciphers)
    }

    /// Whether the cipher leaves a stream of 255 zero bytes as it is, from
    /// the positions that its operations have reached.
    pub fn check_is_noop(&self) -> (noop: bool)
        ensures
            noop == forall|i: int|
                0 <= i < 255 ==> cipher_byte(#[trigger] after_ciphering(self.ops(), i as nat), 0)
                    == 0,
    {
        let mut cloned = self.duplicate();
        let mut noop = true;
        let mut i: usize = 0;
        while i < 255
            invariant
                i <= 255,
                cloned.ops() == after_ciphering(self.ops(), i as nat),
                noop == forall|j: int|
                    0 <= j < i ==> cipher_byte(
                        #[trigger] after_ciphering(self.ops(), j as nat),
                        0,
                    ) == 0,
            decreases 255 - i,
        {
            let out = cloned.cipher(0);
            if out != 0 {
                noop = false;
            }
            i += 1;
        }
        noop
    }
}

impl Cipher for ComposedCipher {
    closed spec fn ops(&self) -> Seq<CipherOp> {
        ops_of(self.0@)
    }

    fn cipher(&mut self, byte: u8) -> (out: u8) {
        let ghost start = self.ops();
        let ghost first = byte;
        let mut byte = byte;
        let mut i: usize = 0;
        assert(start.skip(0) =~= start);
        while i < self.0.len()
            invariant
                i <= self.0@.len(),
                self.0@.len() == start.len(),
                cipher_byte(start, first) == cipher_byte(start.skip(i as int), byte),
                forall|j: int| 0 <= j < i ==> (#[trigger] self.0@[j]).op() == start[j].after_cipher(),
                forall|j: int| i <= j < start.len() ==> (#[trigger] self.0@[j]).op() == start[j],
            decreases self.0@.len() - i,
        {
            let ghost op = self.0@[i as int].op();
            let ghost input = byte;
            let entry = &mut self.0[i];
            byte = entry.cipher(byte);
            proof {
                lemma_single(op, input);
                let here = start.skip(i as int);
                assert(here[0] == op);
                assert(here.skip(1) =~= start.skip(i + 1));
                assert(self.0@[i as int].ops()[0] == op.after_cipher());
            }
            i += 1;
        }
        assert(self.ops() =~= after_cipher(start));
        byte
    }

    fn decipher(&mut self, byte: u8) -> (out: u8) {
        let ghost start = self.ops();
        let ghost first = byte;
        let mut byte = byte;
        let mut i: usize = self.0.len();
        assert(start.skip(i as int) =~= Seq::<CipherOp>::empty());
        while i > 0
            invariant
                i <= self.0@.len(),
                self.0@.len() == start.len(),
                byte == decipher_byte(start.skip(i as int), first),
                forall|j: int| 0 <= j < i ==> (#[trigger] self.0@[j]).op() == start[j],
                forall|j: int|
                    i <= j < start.len() ==> (#[trigger] self.0@[j]).op()
                        == start[j].after_decipher(),
            decreases i,
        {
            i -= 1;
            let ghost op = self.0@[i as int].op();
            let ghost input = byte;
            let entry = &mut self.0[i];
            byte = entry.decipher(byte);
            proof {
                lemma_single(op, input);
                let here = start.skip(i as int);
                assert(here[0] == op);
                assert(here.skip(1) =~= start.skip(i + 1));
                assert(self.0@[i as int].ops()[0] == op.after_decipher());
            }
        }
        assert(start.skip(0) =~= start);
        assert(self.ops() =~= after_decipher(start));
        byte
    }
}

/// Deciphering undoes ciphering, operation by operation: where an operation
/// is at the same place in both streams, the byte that it ciphered is
/// deciphered to what it was.
pub proof fn lemma_op_inverts(op: CipherOp, byte: u8)
    requires
        op.aligned(),
    ensures
        op.deciphered(op.ciphered(byte)) == byte,
        op.after_cipher().after_decipher().aligned(),
{
    match op {
        CipherOp::ReverseBits => {
            assert(reversed_bits(reversed_bits(byte)) == byte) by (bit_vector);
        },
        CipherOp::Xor(n) => {
            assert((byte ^ n) ^ n == byte) by (bit_vector);
        },
        CipherOp::XorPos { cipher_pos, decipher_pos } => {
            assert((byte ^ cipher_pos) ^ cipher_pos == byte) by (bit_vector);
        },
        CipherOp::Add(n) => {},
        CipherOp::AddPos { cipher_pos, decipher_pos } => {},
    }
}

/// Deciphering undoes ciphering: a cipher whose operations are each at the
/// same place in both streams deciphers the byte that it ciphered to what it
/// was, and its operations are then again at the same place in both
/// streams.
pub proof fn lemma_decipher_inverts(ops: Seq<CipherOp>, byte: u8)
    requires
        aligned(ops),
    ensures
        decipher_byte(ops, cipher_byte(ops, byte)) == byte,
        aligned(after_decipher(after_cipher(ops))),
    decreases ops.len(),
{
    if ops.len() > 0 {
        let tail = ops.skip(1);
        assert forall|i: int| 0 <= i < tail.len() implies (#[trigger] tail[i]).aligned() by {
            assert(tail[i] == ops[i + 1]);
        }
        lemma_op_inverts(ops[0], byte);
        lemma_decipher_inverts(tail, ops[0].ciphered(byte));
    }
    let then = after_decipher(after_cipher(ops));
    assert forall|i: int| 0 <= i < then.len() implies (#[trigger] then[i]).aligned() by {
        lemma_op_inverts(ops[i], byte);
    }
}

} // verus!
