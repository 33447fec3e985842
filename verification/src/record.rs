//! The two kinds of record and their byte encodings.

use vstd::prelude::*;
use vstd::string::StringSliceAdditionalSpecFns;
use crate::wire::{from_le, le_bytes, le_value, lemma_le_round_trip, to_le};

verus! {

/// A 4-byte token that names a physical chip, or the user behind a log.
pub type Id = [u8; 4];

/// A 5-byte label: the leading bytes of a name, zero-padded.
pub type Name = [u8; 5];

/// Bytes of an identifier.
pub const ID_SIZE: usize = 4;

/// Bytes of a name.
pub const NAME_SIZE: usize = 5;

/// Bytes of an encoded chip: identifier, then name.
pub const CHIP_SIZE: usize = 9;

/// Bytes of an encoded log: user identifier, name, gate number, state.
pub const LOG_SIZE: usize = 14;

/// The label made of the first five of `bytes`, padded with zeros.
pub open spec fn padded_name(bytes: Seq<u8>) -> Seq<u8> {
    Seq::new(
        NAME_SIZE as nat,
        |i: int|
            if i < bytes.len() {
                bytes[i]
            } else {
                0u8
            },
    )
}

/// Whether two identifiers hold the same bytes.
pub fn same_id(a: &Id, b: &Id) -> (same: bool)
    ensures
        same == (*a == *b),
{
    let same = a[0] == b[0] && a[1] == b[1] && a[2] == b[2] && a[3] == b[3];
    proof {
        if same {
            assert(*a =~= *b);
        }
    }
    same
}

/// Whether two names hold the same bytes.
pub fn same_name(a: &Name, b: &Name) -> (same: bool)
    ensures
        same == (*a == *b),
{
    let same = a[0] == b[0] && a[1] == b[1] && a[2] == b[2] && a[3] == b[3] && a[4] == b[4];
    proof {
        if same {
            assert(*a =~= *b);
        }
    }
    same
}

/// Packs the leading bytes of `name` into a label.
pub fn name_from(name: &str) -> (label: Name)
    ensures
        label@ == padded_name(name.spec_bytes()),
{
    let mut label = [0u8; NAME_SIZE];
    let bytes = name.as_bytes();
    let mut i: usize = 0;
    while i < NAME_SIZE && i < bytes.len()
        invariant
            i <= NAME_SIZE,
            i <= bytes@.len(),
            bytes@ == name.spec_bytes(),
            forall|j: int|
                0 <= j < NAME_SIZE ==> label@[j] == (if j < i {
                    bytes@[j]
                } else {
                    0u8
                }),
        decreases NAME_SIZE - i,
    {
        label[i] = bytes[i];
        i += 1;
    }
    assert(label@ =~= padded_name(name.spec_bytes()));
    label
}

/// One authorised token.
#[derive(Clone, Copy, Debug)]
pub struct Chip {
    pub id: Id,
    pub name: Name,
}

impl Chip {
    /// The all-zero chip that marks a free slot.
    pub open spec fn vacant() -> Chip {
        Chip { id: [0u8, 0u8, 0u8, 0u8], name: [0u8, 0u8, 0u8, 0u8, 0u8] }
    }

    /// The nine bytes of the chip on the medium.
    pub open spec fn encoded(self) -> Seq<u8> {
        self.id@ + self.name@
    }

    /// The chip that the first nine of `bytes` encode.
    pub open spec fn decoded(bytes: Seq<u8>) -> Chip {
        Chip {
            id: [bytes[0], bytes[1], bytes[2], bytes[3]],
            name: [bytes[4], bytes[5], bytes[6], bytes[7], bytes[8]],
        }
    }

    pub fn new(id: Id, name: &str) -> (chip: Chip)
        ensures
            chip.id == id,
            chip.name@ == padded_name(name.spec_bytes()),
    {
        Chip { id, name: name_from(name) }
    }

    /// The free-slot marker.
    pub fn empty() -> (chip: Chip)
        ensures
            chip == Chip::vacant(),
    {
        let chip = Chip { id: [0, 0, 0, 0], name: [0, 0, 0, 0, 0] };
        proof {
            assert(chip.id =~= Chip::vacant().id);
            assert(chip.name =~= Chip::vacant().name);
        }
        chip
    }

    /// Whether the chip is the free-slot marker.
    pub fn is_empty(&self) -> (vacant: bool)
        ensures
            vacant == (*self == Chip::vacant()),
    {
        *self == Chip::empty()
    }

    /// Writes the encoding of the chip into `buffer`, from `offset` on.
    pub(crate) fn encode(&self, buffer: &mut [u8], offset: usize)
        requires
            offset + CHIP_SIZE <= old(buffer)@.len(),
        ensures
            final(buffer)@.len() == old(buffer)@.len(),
            final(buffer)@.subrange(offset as int, offset + CHIP_SIZE) == self.encoded(),
            forall|k: int|
                0 <= k < offset || offset + CHIP_SIZE <= k < old(buffer)@.len() ==> final(buffer)@[k]
                    == old(buffer)@[k],
    {
        proof {
            vstd::slice::axiom_spec_len(buffer);
        }
        put_bytes(buffer, offset, &self.id, ID_SIZE);
        put_bytes(buffer, offset + ID_SIZE, &self.name, NAME_SIZE);
        assert(buffer@.subrange(offset as int, offset + CHIP_SIZE) =~= self.encoded());
    }

    /// Reads the chip whose encoding starts at `offset` in `buffer`.
    pub(crate) fn decode(buffer: &[u8], offset: usize) -> (chip: Chip)
        requires
            offset + CHIP_SIZE <= buffer@.len(),
        ensures
            chip == Chip::decoded(buffer@.subrange(offset as int, offset + CHIP_SIZE)),
    {
        let chip = Chip {
            id: [buffer[offset], buffer[offset + 1], buffer[offset + 2], buffer[offset + 3]],
            name: [
                buffer[offset + 4],
                buffer[offset + 5],
                buffer[offset + 6],
                buffer[offset + 7],
                buffer[offset + 8],
            ],
        };
        proof {
            let expected = Chip::decoded(buffer@.subrange(offset as int, offset + CHIP_SIZE));
            assert(chip.id =~= expected.id);
            assert(chip.name =~= expected.name);
        }
        chip
    }

    /// Decoding undoes encoding, and on nine bytes encoding undoes decoding.
    pub proof fn lemma_round_trip(self, bytes: Seq<u8>)
        ensures
            self.encoded().len() == CHIP_SIZE,
            Chip::decoded(self.encoded()) == self,
            bytes.len() == CHIP_SIZE ==> Chip::decoded(bytes).encoded() == bytes,
    {
        let back = Chip::decoded(self.encoded());
        assert(back.id =~= self.id);
        assert(back.name =~= self.name);
        if bytes.len() == CHIP_SIZE {
            assert(Chip::decoded(bytes).encoded() =~= bytes);
        }
    }
}

impl PartialEq for Chip {
    fn eq(&self, other: &Chip) -> (same: bool) {
        same_id(&self.id, &other.id) && same_name(&self.name, &other.name)
    }
}

impl vstd::std_specs::cmp::PartialEqSpecImpl for Chip {
    open spec fn obeys_eq_spec() -> bool {
        true
    }

    open spec fn eq_spec(&self, other: &Chip) -> bool {
        *self == *other
    }
}

impl Default for Chip {
    fn default() -> (chip: Chip)
        ensures
            chip == Chip::vacant(),
    {
        Chip::empty()
    }
}

/// One access event: who, at which gate, with what outcome.
#[derive(Clone, Copy, Debug)]
pub struct Log {
    pub user_id: Id,
    pub name: Name,
    pub gate_id: u32,
    pub state: u8,
}

impl Log {
    /// The all-zero log that marks a free slot.
    pub open spec fn vacant() -> Log {
        Log {
            user_id: [0u8, 0u8, 0u8, 0u8],
            name: [0u8, 0u8, 0u8, 0u8, 0u8],
            gate_id: 0,
            state: 0,
        }
    }

    /// The encoding on the medium, fourteen bytes: user identifier, name,
    /// gate number (little-endian), state.
    pub open spec fn encoded(self) -> Seq<u8> {
        self.user_id@ + self.name@ + le_bytes(self.gate_id) + seq![self.state]
    }

    /// The log that the first fourteen of `bytes` encode.
    pub open spec fn decoded(bytes: Seq<u8>) -> Log {
        Log {
            user_id: [bytes[0], bytes[1], bytes[2], bytes[3]],
            name: [bytes[4], bytes[5], bytes[6], bytes[7], bytes[8]],
            gate_id: le_value(bytes.subrange(9, 13)),
            state: bytes[13],
        }
    }

    pub fn new(user_id: Id, name: &str, gate_id: u32, state: u8) -> (log: Log)
        ensures
            log.user_id == user_id,
            log.name@ == padded_name(name.spec_bytes()),
            log.gate_id == gate_id,
            log.state == state,
    {
        Log { user_id, name: name_from(name), gate_id, state }
    }

    /// The free-slot marker.
    pub fn empty() -> (log: Log)
        ensures
            log == Log::vacant(),
    {
        let log = Log { user_id: [0, 0, 0, 0], name: [0, 0, 0, 0, 0], gate_id: 0, state: 0 };
        proof {
            assert(log.user_id =~= Log::vacant().user_id);
            assert(log.name =~= Log::vacant().name);
        }
        log
    }

    /// Whether the log is the free-slot marker.
    pub fn is_empty(&self) -> (vacant: bool)
        ensures
            vacant == (*self == Log::vacant()),
    {
        *self == Log::empty()
    }

    /// Writes the encoding of the log into `buffer`, from `offset` on.
    pub(crate) fn encode(&self, buffer: &mut [u8], offset: usize)
        requires
            offset + LOG_SIZE <= old(buffer)@.len(),
        ensures
            final(buffer)@.len() == old(buffer)@.len(),
            final(buffer)@.subrange(offset as int, offset + LOG_SIZE) == self.encoded(),
            forall|k: int|
                0 <= k < offset || offset + LOG_SIZE <= k < old(buffer)@.len() ==> final(buffer)@[k]
                    == old(buffer)@[k],
    {
        proof {
            vstd::slice::axiom_spec_len(buffer);
        }
        let gate = to_le(self.gate_id);
        put_bytes(buffer, offset, &self.user_id, ID_SIZE);
        put_bytes(buffer, offset + ID_SIZE, &self.name, NAME_SIZE);
        put_bytes(buffer, offset + ID_SIZE + NAME_SIZE, &gate, 4);
        buffer[offset + LOG_SIZE - 1] = self.state;
        assert(buffer@.subrange(offset as int, offset + LOG_SIZE) =~= self.encoded());
    }

    /// Reads the log whose encoding starts at `offset` in `buffer`.
    pub(crate) fn decode(buffer: &[u8], offset: usize) -> (log: Log)
        requires
            offset + LOG_SIZE <= buffer@.len(),
        ensures
            log == Log::decoded(buffer@.subrange(offset as int, offset + LOG_SIZE)),
    {
        let log = Log {
            user_id: [buffer[offset], buffer[offset + 1], buffer[offset + 2], buffer[offset + 3]],
            name: [
                buffer[offset + 4],
                buffer[offset + 5],
                buffer[offset + 6],
                buffer[offset + 7],
                buffer[offset + 8],
            ],
            gate_id: from_le(
                buffer[offset + 9],
                buffer[offset + 10],
                buffer[offset + 11],
                buffer[offset + 12],
            ),
            state: buffer[offset + 13],
        };
        proof {
            let bytes = buffer@.subrange(offset as int, offset + LOG_SIZE);
            let expected = Log::decoded(bytes);
            assert(log.user_id =~= expected.user_id);
            assert(log.name =~= expected.name);
            assert(bytes.subrange(9, 13) =~= seq![bytes[9], bytes[10], bytes[11], bytes[12]]);
        }
        log
    }

    /// Decoding undoes encoding, and on fourteen bytes encoding undoes decoding.
    pub proof fn lemma_round_trip(self, bytes: Seq<u8>)
        ensures
            self.encoded().len() == LOG_SIZE,
            Log::decoded(self.encoded()) == self,
            bytes.len() == LOG_SIZE ==> Log::decoded(bytes).encoded() == bytes,
    {
        lemma_le_round_trip(self.gate_id, bytes.subrange(9, 13));
        let back = Log::decoded(self.encoded());
        assert(back.user_id =~= self.user_id);
        assert(back.name =~= self.name);
        assert(self.encoded().subrange(9, 13) =~= le_bytes(self.gate_id));
        if bytes.len() == LOG_SIZE {
            assert(Log::decoded(bytes).encoded() =~= bytes);
        }
    }
}

impl PartialEq for Log {
    fn eq(&self, other: &Log) -> (same: bool) {
        same_id(&self.user_id, &other.user_id) && same_name(&self.name, &other.name)
            && self.gate_id == other.gate_id && self.state == other.state
    }
}

impl vstd::std_specs::cmp::PartialEqSpecImpl for Log {
    open spec fn obeys_eq_spec() -> bool {
        true
    }

    open spec fn eq_spec(&self, other: &Log) -> bool {
        *self == *other
    }
}

impl Default for Log {
    fn default() -> (log: Log)
        ensures
            log == Log::vacant(),
    {
        Log::empty()
    }
}

/// Copies the first `count` bytes of `source` into `buffer`, from `offset` on.
fn put_bytes(buffer: &mut [u8], offset: usize, source: &[u8], count: usize)
    requires
        count <= source@.len(),
        offset + count <= old(buffer)@.len(),
    ensures
        final(buffer)@.len() == old(buffer)@.len(),
        forall|k: int|
            0 <= k < old(buffer)@.len() ==> final(buffer)@[k] == (if offset <= k < offset + count {
                source@[k - offset]
            } else {
                old(buffer)@[k]
            }),
{
    proof {
        vstd::slice::axiom_spec_len(buffer);
    }
    let mut i: usize = 0;
    while i < count
        invariant
            i <= count <= source@.len(),
            offset + count <= buffer@.len() <= usize::MAX,
            buffer@.len() == old(buffer)@.len(),
            forall|k: int|
                0 <= k < buffer@.len() ==> buffer@[k] == (if offset <= k < offset + i {
                    source@[k - offset]
                } else {
                    old(buffer)@[k]
                }),
        decreases count - i,
    {
        buffer[offset + i] = source[i];
        i += 1;
    }
}

} // verus!
