//! The fixed-capacity record store and its byte-exact image.

use vstd::prelude::*;
use crate::driver::StorageDriver;
use crate::error::Error;
use crate::record::{same_id, Chip, Id, Log, CHIP_SIZE, LOG_SIZE};

verus! {

/// Number of chip slots.
pub const CHIP_COUNT: usize = 10;

/// Number of log slots.
pub const LOG_COUNT: usize = 10;

/// Bytes of the chip slots in the image.
pub const CHIP_AREA_SIZE: usize = CHIP_SIZE * CHIP_COUNT;

/// Bytes of the packed store: all chip slots, then all log slots.
pub const TOTAL_STORE_SIZE: usize = CHIP_SIZE * CHIP_COUNT + LOG_SIZE * LOG_COUNT;

/// What the buffer holds into which an image is read.
pub open spec fn blank_image() -> Seq<u8> {
    Seq::new(TOTAL_STORE_SIZE as nat, |k: int| 0u8)
}

/// What a store holds: its chip slots and its log slots, in slot order.
pub struct Records {
    pub chips: Seq<Chip>,
    pub logs: Seq<Log>,
}

impl Records {
    /// Both slot arrays have their fixed capacity.
    pub open spec fn well_formed(self) -> bool {
        self.chips.len() == CHIP_COUNT && self.logs.len() == LOG_COUNT
    }

    /// The store in which every slot is vacant.
    pub open spec fn empty() -> Records {
        Records {
            chips: Seq::new(CHIP_COUNT as nat, |i: int| Chip::vacant()),
            logs: Seq::new(LOG_COUNT as nat, |i: int| Log::vacant()),
        }
    }

    /// Slot `i` is the first chip slot that is vacant.
    pub open spec fn is_first_vacant_chip(self, i: int) -> bool {
        &&& 0 <= i < self.chips.len()
        &&& self.chips[i] == Chip::vacant()
        &&& forall|j: int| 0 <= j < i ==> self.chips[j] != Chip::vacant()
    }

    /// Slot `i` is the first chip slot whose identifier is `id`.
    pub open spec fn is_first_chip_with(self, id: Id, i: int) -> bool {
        &&& 0 <= i < self.chips.len()
        &&& self.chips[i].id == id
        &&& forall|j: int| 0 <= j < i ==> self.chips[j].id != id
    }

    /// Slot `i` is the first log slot that is vacant.
    pub open spec fn is_first_vacant_log(self, i: int) -> bool {
        &&& 0 <= i < self.logs.len()
        &&& self.logs[i] == Log::vacant()
        &&& forall|j: int| 0 <= j < i ==> self.logs[j] != Log::vacant()
    }

    /// The first vacant chip slot, if there is one.
    pub open spec fn first_vacant_chip(self) -> Option<int> {
        if exists|i: int| self.is_first_vacant_chip(i) {
            Some(choose|i: int| self.is_first_vacant_chip(i))
        } else {
            None
        }
    }

    /// The first chip slot whose identifier is `id`, if there is one.
    pub open spec fn first_chip_with(self, id: Id) -> Option<int> {
        if exists|i: int| self.is_first_chip_with(id, i) {
            Some(choose|i: int| self.is_first_chip_with(id, i))
        } else {
            None
        }
    }

    /// The first vacant log slot, if there is one.
    pub open spec fn first_vacant_log(self) -> Option<int> {
        if exists|i: int| self.is_first_vacant_log(i) {
            Some(choose|i: int| self.is_first_vacant_log(i))
        } else {
            None
        }
    }

    /// The store after `chip` took the first vacant chip slot; `None` when
    /// no chip slot is vacant.
    pub open spec fn with_chip(self, chip: Chip) -> Option<Records> {
        match self.first_vacant_chip() {
            Some(i) => Some(Records { chips: self.chips.update(i, chip), logs: self.logs }),
            None => None,
        }
    }

    /// The store after the first chip slot with identifier `id` was vacated;
    /// `None` when no chip slot carries `id`.
    pub open spec fn without_chip(self, id: Id) -> Option<Records> {
        match self.first_chip_with(id) {
            Some(i) => Some(
                Records { chips: self.chips.update(i, Chip::vacant()), logs: self.logs },
            ),
            None => None,
        }
    }

    /// The store after `log` was recorded: in the first vacant log slot, or,
    /// when none is vacant, behind the others, the oldest having left.
    pub open spec fn with_log(self, log: Log) -> Records {
        match self.first_vacant_log() {
            Some(i) => Records { chips: self.chips, logs: self.logs.update(i, log) },
            None => Records { chips: self.chips, logs: self.logs.skip(1).push(log) },
        }
    }

    /// The image of the store: every chip slot, then every log slot, each in
    /// its encoding.
    pub open spec fn packed(self) -> Seq<u8> {
        Seq::new(
            TOTAL_STORE_SIZE as nat,
            |k: int|
                if k < CHIP_AREA_SIZE {
                    self.chips[k / 9].encoded()[k % 9]
                } else {
                    self.logs[(k - CHIP_AREA_SIZE) / 14].encoded()[(k - CHIP_AREA_SIZE) % 14]
                },
        )
    }

    /// The store whose image is `bytes`.
    pub open spec fn unpacked(bytes: Seq<u8>) -> Records {
        Records {
            chips: Seq::new(
                CHIP_COUNT as nat,
                |i: int| Chip::decoded(bytes.subrange(9 * i, 9 * i + 9)),
            ),
            logs: Seq::new(
                LOG_COUNT as nat,
                |i: int|
                    Log::decoded(
                        bytes.subrange(CHIP_AREA_SIZE + 14 * i, CHIP_AREA_SIZE + 14 * i + 14),
                    ),
            ),
        }
    }

    /// Where each slot lies in the image.
    pub proof fn lemma_packed_slots(self)
        requires
            self.well_formed(),
        ensures
            self.packed().len() == TOTAL_STORE_SIZE,
            forall|i: int|
                0 <= i < CHIP_COUNT ==> #[trigger] self.packed().subrange(9 * i, 9 * i + 9)
                    == self.chips[i].encoded(),
            forall|i: int|
                0 <= i < LOG_COUNT ==> #[trigger] self.packed().subrange(
                    CHIP_AREA_SIZE + 14 * i,
                    CHIP_AREA_SIZE + 14 * i + 14,
                ) == self.logs[i].encoded(),
    {
        assert forall|i: int| 0 <= i < CHIP_COUNT implies #[trigger] self.packed().subrange(
            9 * i,
            9 * i + 9,
        ) == self.chips[i].encoded() by {
            self.chips[i].lemma_round_trip(Seq::empty());
            assert(self.packed().subrange(9 * i, 9 * i + 9) =~= self.chips[i].encoded());
        }
        assert forall|i: int| 0 <= i < LOG_COUNT implies #[trigger] self.packed().subrange(
            CHIP_AREA_SIZE + 14 * i,
            CHIP_AREA_SIZE + 14 * i + 14,
        ) == self.logs[i].encoded() by {
            self.logs[i].lemma_round_trip(Seq::empty());
            assert(self.packed().subrange(CHIP_AREA_SIZE + 14 * i, CHIP_AREA_SIZE + 14 * i + 14)
                =~= self.logs[i].encoded());
        }
    }

    /// Unpacking the image of a store gives the store back.
    pub proof fn lemma_unpack_pack(self)
        requires
            self.well_formed(),
        ensures
            Records::unpacked(self.packed()) == self,
    {
        self.lemma_packed_slots();
        let back = Records::unpacked(self.packed());
        assert forall|i: int| 0 <= i < CHIP_COUNT implies back.chips[i] == self.chips[i] by {
            self.chips[i].lemma_round_trip(Seq::empty());
        }
        assert forall|i: int| 0 <= i < LOG_COUNT implies back.logs[i] == self.logs[i] by {
            self.logs[i].lemma_round_trip(Seq::empty());
        }
        assert(back.chips =~= self.chips);
        assert(back.logs =~= self.logs);
    }

    /// Packing the store that an image unpacks to gives the image back.
    pub proof fn lemma_pack_unpack(bytes: Seq<u8>)
        requires
            bytes.len() == TOTAL_STORE_SIZE,
        ensures
            Records::unpacked(bytes).well_formed(),
            Records::unpacked(bytes).packed() == bytes,
    {
        let records = Records::unpacked(bytes);
        assert forall|k: int| 0 <= k < TOTAL_STORE_SIZE implies records.packed()[k] == bytes[k] by {
            if k < CHIP_AREA_SIZE {
                let i = k / 9;
                let part = bytes.subrange(9 * i, 9 * i + 9);
                records.chips[i].lemma_round_trip(part);
                assert(records.chips[i].encoded() == part);
                assert(part[k % 9] == bytes[k]);
            } else {
                let i = (k - CHIP_AREA_SIZE) / 14;
                let part = bytes.subrange(CHIP_AREA_SIZE + 14 * i, CHIP_AREA_SIZE + 14 * i + 14);
                records.logs[i].lemma_round_trip(part);
                assert(records.logs[i].encoded() == part);
                assert(part[(k - CHIP_AREA_SIZE) % 14] == bytes[k]);
            }
        }
        assert(records.packed() =~= bytes);
    }

    /// Number of vacant slots among `chips`.
    pub open spec fn vacant_chips(chips: Seq<Chip>) -> nat
        decreases chips.len(),
    {
        if chips.len() == 0 {
            0
        } else {
            Records::vacant_chips(chips.drop_last()) + if chips.last() == Chip::vacant() {
                1nat
            } else {
                0nat
            }
        }
    }

    /// There are vacant slots exactly where some slot is vacant, and never
    /// more than there are slots.
    pub proof fn lemma_vacant_chips(chips: Seq<Chip>)
        ensures
            Records::vacant_chips(chips) <= chips.len(),
            Records::vacant_chips(chips) > 0 <==> exists|i: int|
                0 <= i < chips.len() && chips[i] == Chip::vacant(),
        decreases chips.len(),
    {
        if chips.len() > 0 {
            let shorter = chips.drop_last();
            Records::lemma_vacant_chips(shorter);
            if Records::vacant_chips(shorter) > 0 {
                let i = choose|i: int| 0 <= i < shorter.len() && shorter[i] == Chip::vacant();
                assert(chips[i] == Chip::vacant());
            } else if chips.last() == Chip::vacant() {
                assert(chips[chips.len() - 1] == Chip::vacant());
            } else {
                assert forall|i: int| 0 <= i < chips.len() implies chips[i] != Chip::vacant() by {
                    if i < shorter.len() {
                        assert(shorter[i] == chips[i]);
                    }
                }
            }
        }
    }

    /// Putting a chip into a vacant slot leaves one vacant slot fewer,
    /// unless the chip is itself all zero.
    pub proof fn lemma_slot_taken(chips: Seq<Chip>, i: int, chip: Chip)
        requires
            0 <= i < chips.len(),
            chips[i] == Chip::vacant(),
            chip != Chip::vacant(),
        ensures
            Records::vacant_chips(chips.update(i, chip)) + 1 == Records::vacant_chips(chips),
        decreases chips.len(),
    {
        let taken = chips.update(i, chip);
        if i == chips.len() - 1 {
            assert(taken.drop_last() =~= chips.drop_last());
        } else {
            Records::lemma_slot_taken(chips.drop_last(), i, chip);
            assert(taken.drop_last() =~= chips.drop_last().update(i, chip));
        }
    }

    /// Capacity: a chip is taken exactly while a slot is vacant, and each
    /// chip that is not all zero uses one slot up. So a store that was
    /// empty takes ten such chips and refuses the eleventh.
    pub proof fn lemma_capacity(self, chip: Chip)
        requires
            self.well_formed(),
        ensures
            Records::vacant_chips(Records::empty().chips) == CHIP_COUNT,
            self.with_chip(chip).is_some() <==> Records::vacant_chips(self.chips) > 0,
            self.with_chip(chip).is_some() && chip != Chip::vacant() ==> Records::vacant_chips(
                self.with_chip(chip).unwrap().chips,
            ) + 1 == Records::vacant_chips(self.chips),
    {
        Records::lemma_vacant_chips(self.chips);
        if Records::vacant_chips(self.chips) > 0 {
            let j = choose|j: int| 0 <= j < self.chips.len() && self.chips[j] == Chip::vacant();
            self.lemma_vacancy(j);
        }
        if self.with_chip(chip).is_some() {
            let i = self.first_vacant_chip().unwrap();
            assert(self.is_first_vacant_chip(i));
            if chip != Chip::vacant() {
                Records::lemma_slot_taken(self.chips, i, chip);
            }
        }
        Records::lemma_all_vacant(Records::empty().chips);
    }

    /// Where every slot is vacant, as many slots are vacant as there are.
    pub proof fn lemma_all_vacant(chips: Seq<Chip>)
        requires
            forall|i: int| 0 <= i < chips.len() ==> chips[i] == Chip::vacant(),
        ensures
            Records::vacant_chips(chips) == chips.len(),
        decreases chips.len(),
    {
        if chips.len() > 0 {
            Records::lemma_all_vacant(chips.drop_last());
        }
    }

    /// Removal: where no chip slot carries `id`, nothing is removed; where
    /// one does, the first such slot is vacated and every other slot, and
    /// every log, stays as it was.
    pub proof fn lemma_removal(self, id: Id)
        ensures
            (forall|i: int| 0 <= i < self.chips.len() ==> self.chips[i].id != id)
                <==> self.without_chip(id).is_none(),
            self.without_chip(id).is_some() ==> {
                let after = self.without_chip(id).unwrap();
                let at = self.first_chip_with(id).unwrap();
                &&& self.is_first_chip_with(id, at)
                &&& after.logs == self.logs
                &&& after.chips.len() == self.chips.len()
                &&& after.chips[at] == Chip::vacant()
                &&& forall|i: int|
                    0 <= i < self.chips.len() && i != at ==> after.chips[i] == self.chips[i]
            },
    {
        if self.without_chip(id).is_some() {
            let at = self.first_chip_with(id).unwrap();
            assert(self.is_first_chip_with(id, at));
        } else {
            assert forall|i: int| 0 <= i < self.chips.len() implies self.chips[i].id != id by {
                if self.chips[i].id == id {
                    self.lemma_carrier(id, i);
                }
            }
        }
    }

    /// A store with a slot that carries `id` has a first such slot.
    pub proof fn lemma_carrier(self, id: Id, j: int)
        requires
            0 <= j < self.chips.len(),
            self.chips[j].id == id,
        ensures
            self.first_chip_with(id).is_some(),
        decreases j,
    {
        if exists|k: int| 0 <= k < j && self.chips[k].id == id {
            let k = choose|k: int| 0 <= k < j && self.chips[k].id == id;
            self.lemma_carrier(id, k);
        } else {
            assert(self.is_first_chip_with(id, j));
        }
    }

    /// When every chip slot is taken, removing a chip makes room for
    /// exactly one: the next chip goes into the slot that was vacated.
    pub proof fn lemma_add_after_remove(self, id: Id, chip: Chip)
        requires
            self.well_formed(),
            self.first_vacant_chip().is_none(),
            self.without_chip(id).is_some(),
        ensures
            self.with_chip(chip).is_none(),
            self.without_chip(id).unwrap().with_chip(chip) == Some(
                Records {
                    chips: self.chips.update(self.first_chip_with(id).unwrap(), chip),
                    logs: self.logs,
                },
            ),
    {
        let i = self.first_chip_with(id).unwrap();
        assert(self.is_first_chip_with(id, i));
        let removed = self.without_chip(id).unwrap();
        assert forall|j: int| 0 <= j < i implies removed.chips[j] != Chip::vacant() by {
            if self.chips[j] == Chip::vacant() {
                self.lemma_vacancy(j);
            }
        }
        assert(removed.is_first_vacant_chip(i));
        removed.lemma_first(id, i);
        assert(removed.chips.update(i, chip) =~= self.chips.update(i, chip));
    }

    /// A store with a vacant slot has a first vacant slot.
    pub proof fn lemma_vacancy(self, j: int)
        ensures
            0 <= j < self.chips.len() && self.chips[j] == Chip::vacant()
                ==> self.first_vacant_chip().is_some(),
            0 <= j < self.logs.len() && self.logs[j] == Log::vacant()
                ==> self.first_vacant_log().is_some(),
        decreases j,
    {
        if 0 <= j < self.chips.len() && self.chips[j] == Chip::vacant() {
            if exists|k: int| 0 <= k < j && self.chips[k] == Chip::vacant() {
                let k = choose|k: int| 0 <= k < j && self.chips[k] == Chip::vacant();
                self.lemma_vacancy(k);
            } else {
                assert(self.is_first_vacant_chip(j));
            }
        }
        if 0 <= j < self.logs.len() && self.logs[j] == Log::vacant() {
            if exists|k: int| 0 <= k < j && self.logs[k] == Log::vacant() {
                let k = choose|k: int| 0 <= k < j && self.logs[k] == Log::vacant();
                self.lemma_vacancy(k);
            } else {
                assert(self.is_first_vacant_log(j));
            }
        }
    }

    /// With every log slot taken, a new log pushes the oldest out: each log
    /// moves one slot towards the front and the new one takes the last slot.
    pub proof fn lemma_eviction(self, log: Log)
        requires
            self.well_formed(),
            forall|i: int| 0 <= i < LOG_COUNT ==> self.logs[i] != Log::vacant(),
        ensures
            self.with_log(log).well_formed(),
            self.with_log(log).chips == self.chips,
            forall|i: int| 0 <= i < LOG_COUNT - 1 ==> self.with_log(log).logs[i] == self.logs[i + 1],
            self.with_log(log).logs[LOG_COUNT - 1] == log,
    {
        assert(!exists|i: int| self.is_first_vacant_log(i));
    }

    /// A slot that is first of its kind is the one the store picks.
    pub proof fn lemma_first(self, id: Id, i: int)
        ensures
            self.is_first_vacant_chip(i) ==> self.first_vacant_chip() == Some(i),
            self.is_first_chip_with(id, i) ==> self.first_chip_with(id) == Some(i),
            self.is_first_vacant_log(i) ==> self.first_vacant_log() == Some(i),
    {
        if self.is_first_vacant_chip(i) {
            let c = choose|c: int| self.is_first_vacant_chip(c);
            assert(c == i) by {
                if c < i {
                    assert(self.chips[c] != Chip::vacant());
                } else if i < c {
                    assert(self.chips[i] != Chip::vacant());
                }
            }
        }
        if self.is_first_chip_with(id, i) {
            let c = choose|c: int| self.is_first_chip_with(id, c);
            assert(c == i) by {
                if c < i {
                    assert(self.chips[c].id != id);
                } else if i < c {
                    assert(self.chips[i].id != id);
                }
            }
        }
        if self.is_first_vacant_log(i) {
            let c = choose|c: int| self.is_first_vacant_log(c);
            assert(c == i) by {
                if c < i {
                    assert(self.logs[c] != Log::vacant());
                } else if i < c {
                    assert(self.logs[i] != Log::vacant());
                }
            }
        }
    }
}

/// Ten chip slots and ten log slots, held in memory.
#[derive(Clone, Copy, Debug)]
pub struct Store {
    chips: [Chip; CHIP_COUNT],
    logs: [Log; LOG_COUNT],
}

impl View for Store {
    type V = Records;

    closed spec fn view(&self) -> Records {
        Records { chips: self.chips@, logs: self.logs@ }
    }
}

impl Store {
    /// A store always has its ten chip slots and its ten log slots.
    pub proof fn lemma_well_formed(&self)
        ensures
            self@.well_formed(),
    {
    }

    pub fn new() -> (store: Store)
        ensures
            store@ == Records::empty(),
    {
        let store = Store { chips: [Chip::empty(); CHIP_COUNT], logs: [Log::empty(); LOG_COUNT] };
        assert(store@.chips =~= Records::empty().chips);
        assert(store@.logs =~= Records::empty().logs);
        store
    }

    /// The chip slots, in slot order.
    pub fn chips(&self) -> (chips: &[Chip; CHIP_COUNT])
        ensures
            chips@ == self@.chips,
    {
        &self.chips
    }

    /// The log slots, in slot order.
    pub fn logs(&self) -> (logs: &[Log; LOG_COUNT])
        ensures
            logs@ == self@.logs,
    {
        &self.logs
    }

    /// Rebuilds a store from its image, slot by slot.
    pub fn new_from_bytes(buffer: &[u8; TOTAL_STORE_SIZE]) -> (store: Store)
        ensures
            store@ == Records::unpacked(buffer@),
    {
        let mut store = Store::new();
        let mut i: usize = 0;
        while i < CHIP_COUNT
            invariant
                i <= CHIP_COUNT,
                forall|j: int|
                    0 <= j < i ==> store.chips@[j] == Chip::decoded(
                        buffer@.subrange(9 * j, 9 * j + 9),
                    ),
            decreases CHIP_COUNT - i,
        {
            store.chips[i] = Chip::decode(buffer, CHIP_SIZE * i);
            i += 1;
        }
        let mut k: usize = 0;
        while k < LOG_COUNT
            invariant
                k <= LOG_COUNT,
                forall|j: int|
                    0 <= j < CHIP_COUNT ==> store.chips@[j] == Chip::decoded(
                        buffer@.subrange(9 * j, 9 * j + 9),
                    ),
                forall|j: int|
                    0 <= j < k ==> store.logs@[j] == Log::decoded(
                        buffer@.subrange(CHIP_AREA_SIZE + 14 * j, CHIP_AREA_SIZE + 14 * j + 14),
                    ),
            decreases LOG_COUNT - k,
        {
            store.logs[k] = Log::decode(buffer, CHIP_AREA_SIZE + LOG_SIZE * k);
            k += 1;
        }
        assert(store@.chips =~= Records::unpacked(buffer@).chips);
        assert(store@.logs =~= Records::unpacked(buffer@).logs);
        store
    }

    /// Writes the image of the store to the front of `buffer` and returns
    /// its size.
    pub fn to_bytes(&self, buffer: &mut [u8]) -> (result: Result<usize, Error>)
        ensures
            final(buffer)@.len() == old(buffer)@.len(),
            match result {
                Ok(size) => {
                    &&& size == TOTAL_STORE_SIZE
                    &&& size <= old(buffer)@.len()
                    &&& final(buffer)@.subrange(0, size as int) == self@.packed()
                    &&& forall|k: int|
                        size <= k < old(buffer)@.len() ==> final(buffer)@[k] == old(buffer)@[k]
                },
                Err(e) => {
                    &&& e == Error::BufferTooSmall
                    &&& old(buffer)@.len() < TOTAL_STORE_SIZE
                    &&& final(buffer)@ == old(buffer)@
                },
            },
    {
        if buffer.len() < TOTAL_STORE_SIZE {
            return Err(Error::BufferTooSmall);
        }
        let mut i: usize = 0;
        while i < CHIP_COUNT
            invariant
                i <= CHIP_COUNT,
                buffer@.len() == old(buffer)@.len(),
                buffer@.len() >= TOTAL_STORE_SIZE,
                forall|j: int|
                    0 <= j < i ==> #[trigger] buffer@.subrange(9 * j, 9 * j + 9)
                        == self.chips@[j].encoded(),
                forall|k: int| 9 * i <= k < buffer@.len() ==> buffer@[k] == old(buffer)@[k],
            decreases CHIP_COUNT - i,
        {
            let ghost before = buffer@;
            self.chips[i].encode(buffer, CHIP_SIZE * i);
            proof {
                assert forall|j: int| 0 <= j < i implies #[trigger] buffer@.subrange(
                    9 * j,
                    9 * j + 9,
                ) == self.chips@[j].encoded() by {
                    assert(buffer@.subrange(9 * j, 9 * j + 9) =~= before.subrange(9 * j, 9 * j + 9));
                }
            }
            i += 1;
        }
        let mut k: usize = 0;
        while k < LOG_COUNT
            invariant
                k <= LOG_COUNT,
                buffer@.len() == old(buffer)@.len(),
                buffer@.len() >= TOTAL_STORE_SIZE,
                forall|j: int|
                    0 <= j < CHIP_COUNT ==> #[trigger] buffer@.subrange(9 * j, 9 * j + 9)
                        == self.chips@[j].encoded(),
                forall|j: int|
                    0 <= j < k ==> #[trigger] buffer@.subrange(
                        CHIP_AREA_SIZE + 14 * j,
                        CHIP_AREA_SIZE + 14 * j + 14,
                    ) == self.logs@[j].encoded(),
                forall|n: int|
                    CHIP_AREA_SIZE + 14 * k <= n < buffer@.len() ==> buffer@[n] == old(buffer)@[n],
            decreases LOG_COUNT - k,
        {
            let ghost before = buffer@;
            self.logs[k].encode(buffer, CHIP_AREA_SIZE + LOG_SIZE * k);
            proof {
                assert forall|j: int| 0 <= j < CHIP_COUNT implies #[trigger] buffer@.subrange(
                    9 * j,
                    9 * j + 9,
                ) == self.chips@[j].encoded() by {
                    assert(buffer@.subrange(9 * j, 9 * j + 9) =~= before.subrange(9 * j, 9 * j + 9));
                }
                assert forall|j: int| 0 <= j < k implies #[trigger] buffer@.subrange(
                    CHIP_AREA_SIZE + 14 * j,
                    CHIP_AREA_SIZE + 14 * j + 14,
                ) == self.logs@[j].encoded() by {
                    assert(buffer@.subrange(CHIP_AREA_SIZE + 14 * j, CHIP_AREA_SIZE + 14 * j + 14)
                        =~= before.subrange(CHIP_AREA_SIZE + 14 * j, CHIP_AREA_SIZE + 14 * j + 14));
                }
            }
            k += 1;
        }
        proof {
            let image = buffer@.subrange(0, TOTAL_STORE_SIZE as int);
            self@.lemma_packed_slots();
            assert forall|n: int| 0 <= n < TOTAL_STORE_SIZE implies image[n] == self@.packed()[n] by {
                if n < CHIP_AREA_SIZE {
                    let j = n / 9;
                    assert(buffer@.subrange(9 * j, 9 * j + 9)[n % 9] == buffer@[n]);
                    assert(self@.packed().subrange(9 * j, 9 * j + 9)[n % 9] == self@.packed()[n]);
                } else {
                    let j = (n - CHIP_AREA_SIZE) / 14;
                    let from = CHIP_AREA_SIZE + 14 * j;
                    assert(buffer@.subrange(from, from + 14)[n - from] == buffer@[n]);
                    assert(self@.packed().subrange(from, from + 14)[n - from] == self@.packed()[n]);
                }
            }
            assert(image =~= self@.packed());
        }
        Ok(TOTAL_STORE_SIZE)
    }

    /// Packs the store and writes the image through `driver`. A flash
    /// chip has to be erased where the image goes, before this is called.
    pub fn save<D: StorageDriver>(&self, driver: &mut D) -> (result: Result<(), Error>)
        ensures
            old(driver).wrote(self@.packed(), *final(driver), result),
    {
        let mut buffer = [0u8; TOTAL_STORE_SIZE];
        match self.to_bytes(&mut buffer) {
            Ok(_) => {
                assert(buffer@ =~= self@.packed());
                driver.write(&buffer)
            },
            Err(e) => Err(e),
        }
    }

    /// Reads an image through `driver` and takes over what it holds. When
    /// the driver fails, the store stays as it was.
    pub fn load<D: StorageDriver>(&mut self, driver: &mut D) -> (result: Result<(), Error>)
        ensures
            exists|image: Seq<u8>|
                {
                    &&& image.len() == TOTAL_STORE_SIZE
                    &&& #[trigger] old(driver).fetched(
                        blank_image(),
                        *final(driver),
                        image,
                        result,
                    )
                    &&& final(self)@ == (if result is Ok {
                        Records::unpacked(image)
                    } else {
                        old(self)@
                    })
                },
    {
        let mut buffer = [0u8; TOTAL_STORE_SIZE];
        assert(buffer@ =~= blank_image());
        let result = driver.read(&mut buffer);
        if result.is_ok() {
            *self = Store::new_from_bytes(&buffer);
        }
        assert(old(driver).fetched(blank_image(), *driver, buffer@, result));
        result
    }

    pub fn add_chip(&mut self, chip: Chip) -> (result: Result<(), Error>)
        ensures
            match result {
                Ok(()) => old(self)@.with_chip(chip) == Some(final(self)@),
                Err(e) => e == Error::Full && old(self)@.with_chip(chip).is_none() && final(self)@
                    == old(self)@,
            },
    {
        let mut i: usize = 0;
        while i < CHIP_COUNT
            invariant
                i <= CHIP_COUNT,
                *self == *old(self),
                forall|j: int| 0 <= j < i ==> self.chips@[j] != Chip::vacant(),
            decreases CHIP_COUNT - i,
        {
            if self.chips[i].is_empty() {
                proof {
                    self@.lemma_first(chip.id, i as int);
                }
                self.chips[i] = chip;
                return Ok(());
            }
            i += 1;
        }
        assert(!exists|i: int| old(self)@.is_first_vacant_chip(i));
        Err(Error::Full)
    }

    pub fn remove_chip_by_id(&mut self, id: Id) -> (result: Result<(), Error>)
        ensures
            match result {
                Ok(()) => old(self)@.without_chip(id) == Some(final(self)@),
                Err(e) => e == Error::NotFound && old(self)@.without_chip(id).is_none()
                    && final(self)@ == old(self)@,
            },
    {
        let mut i: usize = 0;
        while i < CHIP_COUNT
            invariant
                i <= CHIP_COUNT,
                *self == *old(self),
                forall|j: int| 0 <= j < i ==> self.chips@[j].id != id,
            decreases CHIP_COUNT - i,
        {
            if same_id(&self.chips[i].id, &id) {
                proof {
                    self@.lemma_first(id, i as int);
                }
                self.chips[i] = Chip::empty();
                return Ok(());
            }
            i += 1;
        }
        assert(!exists|i: int| old(self)@.is_first_chip_with(id, i));
        Err(Error::NotFound)
    }

    pub fn add_log(&mut self, log: Log) -> (result: Result<(), Error>)
        ensures
            result is Ok,
            final(self)@ == old(self)@.with_log(log),
    {
        let mut i: usize = 0;
        while i < LOG_COUNT
            invariant
                i <= LOG_COUNT,
                *self == *old(self),
                forall|j: int| 0 <= j < i ==> self.logs@[j] != Log::vacant(),
            decreases LOG_COUNT - i,
        {
            if self.logs[i].is_empty() {
                proof {
                    self@.lemma_first(log.user_id, i as int);
                }
                self.logs[i] = log;
                return Ok(());
            }
            i += 1;
        }
        assert(!exists|i: int| old(self)@.is_first_vacant_log(i));
        let mut k: usize = 0;
        while k < LOG_COUNT - 1
            invariant
                k <= LOG_COUNT - 1,
                self.chips == old(self).chips,
                forall|j: int| 0 <= j < k ==> self.logs@[j] == old(self).logs@[j + 1],
                forall|j: int| k <= j < LOG_COUNT ==> self.logs@[j] == old(self).logs@[j],
            decreases LOG_COUNT - 1 - k,
        {
            self.logs[k] = self.logs[k + 1];
            k += 1;
        }
        self.logs[LOG_COUNT - 1] = log;
        assert(self@.logs =~= old(self)@.logs.skip(1).push(log));
        Ok(())
    }
}

} // verus!
