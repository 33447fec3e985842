//! A flash chip in memory, for running the command-protocol driver without
//! hardware.
//!
//! `FlashModel` says how such a chip answers each transfer; `SimFlash` is
//! the same chip as a value that implements `Registers`.

use vstd::prelude::*;
use crate::bus::{carried, lemma_carried_nothing, lemma_carried_pop, BusOp, Registers};
use crate::driver::StorageDriver;
use crate::error::Error;
use crate::flash::{
    address_ops, busy, chunk, chunk_count, command, data_in, data_out, erase_ops, erase_run,
    fetch_ops, polls, program_ops, read_ops, read_run, ready_after, wait_run, waits_explain,
    write_ops, write_run, DriverView, FlashStorage, Settings, ADDRESS_REGISTER,
    COMMAND_REGISTER, DATA_REGISTER, PAGE_PROGRAM, PAGE_SIZE, READ_DATA, READ_STATUS,
    SECTOR_ERASE, WRITE_ENABLE, WRITE_IN_PROGRESS,
};
use crate::store::{blank_image, Records, TOTAL_STORE_SIZE};
use crate::wire::{from_le, le_bytes, le_value, lemma_le_round_trip};

verus! {

/// Bytes of one sector, the unit of erasure.
pub const SECTOR_SIZE: u32 = 4096;

/// What an erased byte reads as, and what a read returns where the chip
/// has nothing to say.
pub const ERASED: u8 = 0xFF;

/// `memory` after the sector that holds `location` was erased.
pub open spec fn erase(memory: Seq<u8>, location: nat) -> Seq<u8> {
    Seq::new(
        memory.len(),
        |k: int|
            if k / (SECTOR_SIZE as int) == location / (SECTOR_SIZE as nat) {
                ERASED
            } else {
                memory[k]
            },
    )
}

/// The state of the simulated chip.
///
/// The chip programs and reads consecutive locations and does not wrap at
/// page boundaries.
pub struct FlashModel {
    /// What the chip stores.
    pub memory: Seq<u8>,
    /// The opcode that was selected last.
    pub command: u8,
    /// The four address registers, least significant byte first.
    pub address: Seq<u8>,
    /// The location that the next streamed byte goes to or comes from.
    pub cursor: nat,
    /// Whether an erase or a program is allowed to start.
    pub write_enabled: bool,
    /// Whether a page program has taken data and is not yet concluded.
    pub programmed: bool,
    /// Status reads that will still report a write in progress.
    pub busy: nat,
    /// Status reads for which an erase or a program keeps the chip busy.
    pub latency: nat,
    /// Whether the chip is stuck: a stuck chip reports a write in
    /// progress for ever.
    pub jammed: bool,
}

impl FlashModel {
    /// The chip has its four address registers, and is never busy for
    /// longer than an erase or a program takes.
    pub open spec fn well_formed(self) -> bool {
        self.address.len() == 4 && self.busy <= self.latency
    }

    /// An erased chip of `size` bytes to which nothing has been sent yet.
    pub open spec fn blank(size: nat, latency: nat) -> FlashModel {
        FlashModel {
            memory: Seq::new(size, |k: int| ERASED),
            command: 0,
            address: seq![0u8, 0u8, 0u8, 0u8],
            cursor: 0,
            write_enabled: false,
            programmed: false,
            busy: 0,
            latency,
            jammed: false,
        }
    }

    /// Whether the chip takes commands: no write is in progress.
    pub open spec fn ready(self) -> bool {
        self.busy == 0 && !self.jammed
    }

    /// Whether the next streamed byte has a location on the chip.
    pub open spec fn in_reach(self) -> bool {
        self.cursor < self.memory.len()
    }

    /// The status byte.
    pub open spec fn status(self) -> u8 {
        if self.ready() {
            0
        } else {
            WRITE_IN_PROGRESS
        }
    }

    /// What a read of the register at `address` returns.
    pub open spec fn response(self, address: u32) -> u8 {
        if address != DATA_REGISTER {
            ERASED
        } else if self.command == READ_STATUS {
            self.status()
        } else if self.command == READ_DATA && self.ready() && self.in_reach() {
            self.memory[self.cursor as int]
        } else {
            ERASED
        }
    }

    /// The chip after `opcode` was selected. A page program that had
    /// taken data is concluded by the next opcode and keeps the chip busy
    /// from then on.
    pub open spec fn select(self, opcode: u8) -> FlashModel {
        FlashModel {
            command: opcode,
            write_enabled: opcode == WRITE_ENABLE || (self.write_enabled && (opcode == PAGE_PROGRAM
                || opcode == SECTOR_ERASE)),
            programmed: false,
            busy: if self.programmed {
                self.latency
            } else {
                self.busy
            },
            ..self
        }
    }

    /// The chip after `value` was written to address register `index`.
    /// With the last register an enabled sector erase starts.
    pub open spec fn latch(self, index: int, value: u8) -> FlashModel {
        let address = self.address.update(index, value);
        let cursor = le_value(address) as nat;
        if index == 3 && self.command == SECTOR_ERASE && self.write_enabled && self.ready() {
            FlashModel {
                address,
                cursor,
                memory: erase(self.memory, cursor),
                write_enabled: false,
                busy: self.latency,
                ..self
            }
        } else {
            FlashModel { address, cursor, ..self }
        }
    }

    /// The chip after `value` was written to the data register. An
    /// enabled page program clears the bits that `value` has clear.
    pub open spec fn program(self, value: u8) -> FlashModel {
        if self.command == PAGE_PROGRAM && self.write_enabled && self.ready() && self.in_reach() {
            FlashModel {
                memory: self.memory.update(
                    self.cursor as int,
                    self.memory[self.cursor as int] & value,
                ),
                cursor: self.cursor + 1,
                programmed: true,
                ..self
            }
        } else {
            self
        }
    }

    /// The chip after the data register was read.
    pub open spec fn stream(self) -> FlashModel {
        if self.command == READ_STATUS {
            if self.busy > 0 && !self.jammed {
                FlashModel { busy: (self.busy - 1) as nat, ..self }
            } else {
                self
            }
        } else if self.command == READ_DATA && self.ready() && self.in_reach() {
            FlashModel { cursor: self.cursor + 1, ..self }
        } else {
            self
        }
    }

    /// The chip after one transfer.
    pub open spec fn step(self, op: BusOp) -> FlashModel {
        match op {
            BusOp::Write { address, value } => {
                if address == COMMAND_REGISTER {
                    self.select(value)
                } else if ADDRESS_REGISTER <= address < ADDRESS_REGISTER + 4 {
                    self.latch(address - ADDRESS_REGISTER, value)
                } else if address == DATA_REGISTER {
                    self.program(value)
                } else {
                    self
                }
            },
            BusOp::Read { address, value } => {
                if address == DATA_REGISTER {
                    self.stream()
                } else {
                    self
                }
            },
        }
    }

    /// The chip after the transfers `ops`, in order.
    pub open spec fn run(self, ops: Seq<BusOp>) -> FlashModel
        decreases ops.len(),
    {
        if ops.len() == 0 {
            self
        } else {
            self.run(ops.drop_last()).step(ops.last())
        }
    }

    /// Whether `ops` is what this chip does: every value that was read in
    /// `ops` is the one that the chip returns at that point.
    pub open spec fn answers(self, ops: Seq<BusOp>) -> bool {
        forall|i: int|
            0 <= i < ops.len() ==> match #[trigger] ops[i] {
                BusOp::Read { address, value } => value == self.run(ops.take(i)).response(address),
                BusOp::Write { .. } => true,
            }
    }
}

/// Whether `location` lies in the sector that holds `sector_address`.
pub open spec fn same_sector(sector_address: int, location: int) -> bool {
    location / (SECTOR_SIZE as int) == sector_address / (SECTOR_SIZE as int)
}

/// `memory` after `data` was programmed from `address` on: each byte is
/// the bitwise AND of what was there and what was written.
pub open spec fn merged(memory: Seq<u8>, address: int, data: Seq<u8>) -> Seq<u8> {
    Seq::new(
        memory.len(),
        |k: int|
            if address <= k < address + data.len() {
                memory[k] & data[k - address]
            } else {
                memory[k]
            },
    )
}

impl FlashModel {
    /// Running one more transfer is one more step.
    pub proof fn lemma_run_push(self, ops: Seq<BusOp>, op: BusOp)
        ensures
            self.run(ops.push(op)) == self.run(ops).step(op),
    {
        assert(ops.push(op).drop_last() =~= ops);
    }

    /// Running two sequences one after the other is running both in a row.
    pub proof fn lemma_run_concat(self, first: Seq<BusOp>, second: Seq<BusOp>)
        ensures
            self.run(first + second) == self.run(first).run(second),
        decreases second.len(),
    {
        if second.len() == 0 {
            assert(first + second =~= first);
        } else {
            self.lemma_run_concat(first, second.drop_last());
            assert((first + second).drop_last() =~= first + second.drop_last());
        }
    }

    /// A chip that does both of two sequences in a row does the first, and
    /// then, from where that leaves it, the second.
    pub proof fn lemma_answers_concat(self, first: Seq<BusOp>, second: Seq<BusOp>)
        requires
            self.answers(first + second),
        ensures
            self.answers(first),
            self.run(first).answers(second),
    {
        let both = first + second;
        assert forall|i: int| 0 <= i < first.len() implies match #[trigger] first[i] {
            BusOp::Read { address, value } => value == self.run(first.take(i)).response(address),
            BusOp::Write { .. } => true,
        } by {
            assert(both[i] == first[i]);
            assert(both.take(i) =~= first.take(i));
        }
        assert forall|i: int| 0 <= i < second.len() implies match #[trigger] second[i] {
            BusOp::Read { address, value } => value == self.run(first).run(
                second.take(i),
            ).response(address),
            BusOp::Write { .. } => true,
        } by {
            let j = first.len() + i;
            assert(both[j] == second[i]);
            assert(both.take(j) =~= first + second.take(i));
            self.lemma_run_concat(first, second.take(i));
        }
    }

    /// Status polls leave the memory, the address and the cursor alone.
    pub proof fn lemma_polls(self, statuses: Seq<u8>)
        ensures
            ({
                let after = self.run(polls(statuses));
                &&& after.memory == self.memory
                &&& after.address == self.address
                &&& after.cursor == self.cursor
                &&& after.latency == self.latency
                &&& after.jammed == self.jammed
                &&& statuses.len() == 0 ==> after == self
                &&& statuses.len() > 0 ==> after.command == READ_STATUS && !after.programmed
                    && !after.write_enabled
            }),
        decreases statuses.len(),
    {
        if statuses.len() == 0 {
            assert(polls(statuses) =~= Seq::empty());
        } else {
            let shorter = statuses.drop_last();
            let read = BusOp::Read { address: DATA_REGISTER, value: statuses.last() };
            self.lemma_polls(shorter);
            assert(polls(statuses) =~= polls(shorter).push(command(READ_STATUS)).push(read));
            self.lemma_run_push(polls(shorter), command(READ_STATUS));
            self.lemma_run_push(polls(shorter).push(command(READ_STATUS)), read);
        }
    }

    /// After a wait that found the chip ready, the chip is ready.
    pub proof fn lemma_wait(self, statuses: Seq<u8>, budget: nat)
        requires
            ready_after(statuses, budget),
            self.answers(polls(statuses)),
        ensures
            ({
                let after = self.run(polls(statuses));
                &&& after.ready()
                &&& after.command == READ_STATUS
                &&& !after.programmed
                &&& !after.write_enabled
                &&& after.memory == self.memory
                &&& after.address == self.address
                &&& after.cursor == self.cursor
                &&& after.latency == self.latency
            }),
    {
        let shorter = statuses.drop_last();
        let read = BusOp::Read { address: DATA_REGISTER, value: statuses.last() };
        let selected = polls(shorter).push(command(READ_STATUS));
        self.lemma_polls(statuses);
        self.lemma_polls(shorter);
        assert(polls(statuses) =~= selected.push(read));
        self.lemma_run_push(polls(shorter), command(READ_STATUS));
        self.lemma_run_push(selected, read);
        let last = polls(statuses).len() - 1;
        assert(polls(statuses)[last] == read);
        assert(polls(statuses).take(last) =~= selected);
        assert(statuses.last() == self.run(selected).response(DATA_REGISTER));
        assert(busy(WRITE_IN_PROGRESS)) by (bit_vector);
    }

    /// A stuck chip lets every wait run into `Timeout`.
    pub proof fn lemma_stuck_chip_times_out(
        self,
        statuses: Seq<u8>,
        budget: nat,
        result: Result<(), Error>,
    )
        requires
            self.jammed,
            self.answers(polls(statuses)),
            waits_explain(seq![statuses], budget, 1, result),
        ensures
            result == Err::<(), Error>(Error::Timeout),
            statuses.len() == budget,
    {
        assert(seq![statuses].last() == statuses);
        if result is Ok {
            self.lemma_wait(statuses, budget);
            self.lemma_polls(statuses);
        }
    }

    /// Loading an address sets the cursor, and starts the sector erase
    /// that was selected and enabled.
    pub proof fn lemma_address(self, address: u32)
        requires
            self.well_formed(),
        ensures
            ({
                let after = self.run(address_ops(address));
                let located = FlashModel {
                    address: le_bytes(address),
                    cursor: address as nat,
                    ..self
                };
                if self.command == SECTOR_ERASE && self.write_enabled && self.ready() {
                    after == (FlashModel {
                        memory: erase(self.memory, address as nat),
                        write_enabled: false,
                        busy: self.latency,
                        ..located
                    })
                } else {
                    after == located
                }
            }),
    {
        let ops = address_ops(address);
        let none = Seq::<BusOp>::empty();
        assert(ops =~= none.push(ops[0]).push(ops[1]).push(ops[2]).push(ops[3]));
        self.lemma_run_push(none, ops[0]);
        self.lemma_run_push(none.push(ops[0]), ops[1]);
        self.lemma_run_push(none.push(ops[0]).push(ops[1]), ops[2]);
        self.lemma_run_push(none.push(ops[0]).push(ops[1]).push(ops[2]), ops[3]);
        let bytes = le_bytes(address);
        let full = self.address.update(0, bytes[0]).update(1, bytes[1]).update(2, bytes[2]).update(
            3,
            bytes[3],
        );
        assert(full =~= bytes);
        lemma_le_round_trip(address, bytes);
    }

    /// An enabled page program clears, byte after byte, the bits that the
    /// streamed data has clear.
    pub proof fn lemma_program(self, bytes: Seq<u8>)
        requires
            self.command == PAGE_PROGRAM,
            self.write_enabled,
            self.ready(),
            self.cursor + bytes.len() <= self.memory.len(),
        ensures
            self.run(data_out(bytes)) == (FlashModel {
                memory: merged(self.memory, self.cursor as int, bytes),
                cursor: self.cursor + bytes.len(),
                programmed: self.programmed || bytes.len() > 0,
                ..self
            }),
        decreases bytes.len(),
    {
        if bytes.len() == 0 {
            assert(data_out(bytes) =~= Seq::empty());
            assert(merged(self.memory, self.cursor as int, bytes) =~= self.memory);
        } else {
            let shorter = bytes.drop_last();
            let write = BusOp::Write { address: DATA_REGISTER, value: bytes.last() };
            self.lemma_program(shorter);
            assert(data_out(bytes) =~= data_out(shorter).push(write));
            self.lemma_run_push(data_out(shorter), write);
            let before = self.run(data_out(shorter));
            assert(before.program(bytes.last()).memory =~= merged(
                self.memory,
                self.cursor as int,
                bytes,
            ));
        }
    }

    /// A data read on a ready chip streams out what the memory holds from
    /// the cursor on.
    pub proof fn lemma_fetch(self, data: Seq<u8>)
        requires
            self.command == READ_DATA,
            self.ready(),
            self.cursor + data.len() <= self.memory.len(),
            self.answers(data_in(data)),
        ensures
            data == self.memory.subrange(self.cursor as int, (self.cursor + data.len()) as int),
            self.run(data_in(data)) == (FlashModel {
                cursor: self.cursor + data.len(),
                ..self
            }),
        decreases data.len(),
    {
        if data.len() == 0 {
            assert(data_in(data) =~= Seq::empty());
            assert(data =~= self.memory.subrange(self.cursor as int, (self.cursor + data.len()) as int));
        } else {
            let shorter = data.drop_last();
            let read = BusOp::Read { address: DATA_REGISTER, value: data.last() };
            assert(data_in(data) =~= data_in(shorter).push(read));
            assert(data_in(data) =~= data_in(shorter) + seq![read]);
            self.lemma_answers_concat(data_in(shorter), seq![read]);
            self.lemma_fetch(shorter);
            self.lemma_run_push(data_in(shorter), read);
            let last = data.len() - 1;
            assert(data_in(data)[last] == read);
            assert(data_in(data).take(last) =~= data_in(shorter));
            assert(data.last() == self.run(data_in(shorter)).response(DATA_REGISTER));
            assert(data =~= self.memory.subrange(self.cursor as int, (self.cursor + data.len()) as int));
        }
    }

    /// After `erase_sector` has succeeded, the sector reads as erased and
    /// the chip is ready.
    pub proof fn lemma_erase(self, address: u32, waits: Seq<Seq<u8>>, budget: nat)
        requires
            self.well_formed(),
            waits_explain(waits, budget, 2, Ok(())),
            self.answers(erase_ops(address, waits)),
        ensures
            ({
                let after = self.run(erase_ops(address, waits));
                &&& after.memory == erase(self.memory, address as nat)
                &&& after.ready()
                &&& !after.programmed
                &&& after.well_formed()
                &&& after.latency == self.latency
            }),
    {
        let arm = seq![command(WRITE_ENABLE), command(SECTOR_ERASE)];
        let head = polls(waits[0]) + arm;
        let body = head + address_ops(address);
        assert(waits.last() == waits[1]);
        assert(erase_ops(address, waits) == body + polls(waits[1]));
        self.lemma_answers_concat(body, polls(waits[1]));
        self.lemma_answers_concat(head, address_ops(address));
        self.lemma_answers_concat(polls(waits[0]), arm);
        self.lemma_run_concat(body, polls(waits[1]));
        self.lemma_run_concat(head, address_ops(address));
        self.lemma_run_concat(polls(waits[0]), arm);
        self.lemma_wait(waits[0], budget);
        let waited = self.run(polls(waits[0]));
        let none = Seq::<BusOp>::empty();
        assert(arm =~= none.push(command(WRITE_ENABLE)).push(command(SECTOR_ERASE)));
        waited.lemma_run_push(none, command(WRITE_ENABLE));
        waited.lemma_run_push(none.push(command(WRITE_ENABLE)), command(SECTOR_ERASE));
        let armed = waited.run(arm);
        armed.lemma_address(address);
        let erased = armed.run(address_ops(address));
        erased.lemma_wait(waits[1], budget);
    }

    /// Programming one chunk and waiting for the chip leaves the bitwise
    /// AND of the old content and the chunk.
    proof fn lemma_program_chunk(self, target: u32, bytes: Seq<u8>, statuses: Seq<u8>, budget: nat)
        requires
            self.well_formed(),
            self.ready(),
            !self.programmed,
            target + bytes.len() <= self.memory.len(),
            ready_after(statuses, budget),
            self.answers(program_ops(target, bytes) + polls(statuses)),
        ensures
            ({
                let after = self.run(program_ops(target, bytes) + polls(statuses));
                &&& after.memory == merged(self.memory, target as int, bytes)
                &&& after.ready()
                &&& !after.programmed
                &&& after.well_formed()
                &&& after.latency == self.latency
            }),
    {
        let arm = seq![command(WRITE_ENABLE), command(PAGE_PROGRAM)];
        let head = arm + address_ops(target);
        let body = head + data_out(bytes);
        assert(program_ops(target, bytes) == body);
        self.lemma_answers_concat(body, polls(statuses));
        self.lemma_run_concat(body, polls(statuses));
        self.lemma_run_concat(head, data_out(bytes));
        self.lemma_run_concat(arm, address_ops(target));
        let none = Seq::<BusOp>::empty();
        assert(arm =~= none.push(command(WRITE_ENABLE)).push(command(PAGE_PROGRAM)));
        self.lemma_run_push(none, command(WRITE_ENABLE));
        self.lemma_run_push(none.push(command(WRITE_ENABLE)), command(PAGE_PROGRAM));
        let armed = self.run(arm);
        armed.lemma_address(target);
        let located = armed.run(address_ops(target));
        located.lemma_program(bytes);
        let programmed = located.run(data_out(bytes));
        programmed.lemma_wait(statuses, budget);
    }

    /// After the first waits of `write_bytes` have succeeded, the chunks
    /// that were programmed so far have left the bitwise AND of the old
    /// content and the data; after all of them, the whole of the data
    /// has.
    pub proof fn lemma_write(self, address: u32, data: Seq<u8>, waits: Seq<Seq<u8>>, budget: nat)
        requires
            self.well_formed(),
            address + data.len() <= self.memory.len(),
            address + data.len() <= 0x1_0000_0000,
            0 < waits.len() <= chunk_count(data.len()) + 1,
            forall|i: int| 0 <= i < waits.len() ==> ready_after(#[trigger] waits[i], budget),
            self.answers(write_ops(address, data, waits)),
        ensures
            ({
                let after = self.run(write_ops(address, data, waits));
                let done = if PAGE_SIZE * (waits.len() - 1) <= data.len() {
                    PAGE_SIZE * (waits.len() - 1)
                } else {
                    data.len() as int
                };
                &&& after.memory == merged(self.memory, address as int, data.take(done))
                &&& after.ready()
                &&& !after.programmed
                &&& after.well_formed()
                &&& after.latency == self.latency
            }),
        decreases waits.len(),
    {
        if waits.len() == 1 {
            self.lemma_wait(waits[0], budget);
            assert(merged(self.memory, address as int, data.take(0)) =~= self.memory);
        } else {
            let k = waits.len() - 2;
            let earlier = waits.drop_last();
            let target = (address + PAGE_SIZE * k) as u32;
            let first = write_ops(address, data, earlier);
            let second = program_ops(target, chunk(data, k)) + polls(waits.last());
            assert(write_ops(address, data, waits) =~= first + second);
            self.lemma_answers_concat(first, second);
            self.lemma_run_concat(first, second);
            assert forall|i: int| 0 <= i < earlier.len() implies ready_after(
                #[trigger] earlier[i],
                budget,
            ) by {
                assert(earlier[i] == waits[i]);
            }
            self.lemma_write(address, data, earlier, budget);
            let before = self.run(first);
            before.lemma_program_chunk(target, chunk(data, k), waits.last(), budget);
            let done = if PAGE_SIZE * (k + 1) <= data.len() {
                PAGE_SIZE * (k + 1)
            } else {
                data.len() as int
            };
            assert(merged(before.memory, target as int, chunk(data, k)) =~= merged(
                self.memory,
                address as int,
                data.take(done),
            ));
        }
    }

    /// After the wait of `read_bytes` has succeeded, the bytes that are
    /// streamed in are those that the memory holds.
    pub proof fn lemma_read(self, address: u32, data: Seq<u8>, statuses: Seq<u8>, budget: nat)
        requires
            self.well_formed(),
            address + data.len() <= self.memory.len(),
            ready_after(statuses, budget),
            self.answers(read_ops(address, data, statuses)),
        ensures
            data == self.memory.subrange(address as int, address + data.len()),
            self.run(read_ops(address, data, statuses)).memory == self.memory,
    {
        let select = seq![command(READ_DATA)];
        let head = polls(statuses) + select;
        let body = head + address_ops(address);
        assert(read_ops(address, data, statuses) =~= body + data_in(data));
        self.lemma_answers_concat(body, data_in(data));
        self.lemma_answers_concat(head, address_ops(address));
        self.lemma_answers_concat(polls(statuses), select);
        self.lemma_run_concat(body, data_in(data));
        self.lemma_run_concat(head, address_ops(address));
        self.lemma_run_concat(polls(statuses), select);
        self.lemma_wait(statuses, budget);
        let waited = self.run(polls(statuses));
        let none = Seq::<BusOp>::empty();
        assert(select =~= none.push(command(READ_DATA)));
        waited.lemma_run_push(none, command(READ_DATA));
        let selected = waited.run(select);
        selected.lemma_address(address);
        let located = selected.run(address_ops(address));
        located.lemma_fetch(data);
    }

    /// Whether the chip answers every wait in time: it is well-formed and
    /// not stuck, and an erase or a program keeps it busy for fewer status
    /// reads than `budget`.
    pub open spec fn responsive(self, budget: nat) -> bool {
        self.well_formed() && !self.jammed && self.latency < budget
    }

    /// Whatever is transferred, a chip stays well-formed, and neither its
    /// latency nor its being stuck changes.
    pub proof fn lemma_run_keeps(self, ops: Seq<BusOp>)
        requires
            self.well_formed(),
        ensures
            self.run(ops).well_formed(),
            self.run(ops).latency == self.latency,
            self.run(ops).jammed == self.jammed,
        decreases ops.len(),
    {
        if ops.len() > 0 {
            self.lemma_run_keeps(ops.drop_last());
        }
    }

    /// Each status read that reports a write in progress brings the chip
    /// one read closer to being ready.
    proof fn lemma_polls_busy(self, statuses: Seq<u8>)
        requires
            self.well_formed(),
            !self.jammed,
            statuses.len() > 0,
            forall|i: int| 0 <= i < statuses.len() ==> busy(statuses[i]),
            self.answers(polls(statuses)),
        ensures
            self.run(polls(statuses)).busy + statuses.len() <= self.latency,
        decreases statuses.len(),
    {
        let shorter = statuses.drop_last();
        let read = BusOp::Read { address: DATA_REGISTER, value: statuses.last() };
        let selected = polls(shorter).push(command(READ_STATUS));
        assert(polls(statuses) =~= selected.push(read));
        assert(polls(statuses) =~= polls(shorter) + seq![command(READ_STATUS), read]);
        self.lemma_answers_concat(polls(shorter), seq![command(READ_STATUS), read]);
        self.lemma_polls(shorter);
        self.lemma_run_keeps(polls(shorter));
        if shorter.len() > 0 {
            self.lemma_polls_busy(shorter);
        }
        self.lemma_run_push(polls(shorter), command(READ_STATUS));
        self.lemma_run_push(selected, read);
        let last = polls(statuses).len() - 1;
        assert(polls(statuses)[last] == read);
        assert(polls(statuses).take(last) =~= selected);
        assert(statuses.last() == self.run(selected).response(DATA_REGISTER));
        assert(!busy(0u8)) by (bit_vector);
    }

    /// A responsive chip lets no wait run into `Timeout`: whatever was
    /// transferred before, a wait that ends finds the chip ready.
    pub proof fn lemma_responsive_chip_is_ready(
        self,
        earlier: Seq<BusOp>,
        statuses: Seq<u8>,
        budget: nat,
        result: Result<(), Error>,
    )
        requires
            self.responsive(budget),
            self.answers(earlier + polls(statuses)),
            waits_explain(seq![statuses], budget, 1, result),
        ensures
            result is Ok,
            ready_after(statuses, budget),
    {
        assert(seq![statuses].last() == statuses);
        self.lemma_answers_concat(earlier, polls(statuses));
        self.lemma_run_keeps(earlier);
        if result is Err {
            self.run(earlier).lemma_polls_busy(statuses);
        }
    }

    /// On a responsive chip `erase_sector` succeeds wherever the address
    /// lies inside the device, and the sector then reads as erased.
    pub proof fn lemma_erase_run(
        self,
        settings: Settings,
        address: u32,
        ops: Seq<BusOp>,
        result: Result<(), Error>,
    )
        requires
            self.responsive(settings.retry_budget as nat),
            address < settings.capacity,
            erase_run(settings, address, Seq::empty(), ops, result),
            self.answers(ops),
        ensures
            result is Ok,
            self.run(ops).memory == erase(self.memory, address as nat),
            self.run(ops).ready(),
            !self.run(ops).programmed,
            self.run(ops).responsive(settings.retry_budget as nat),
    {
        let budget = settings.retry_budget as nat;
        let none = Seq::<BusOp>::empty();
        let waits = choose|waits: Seq<Seq<u8>>|
            ops == none + #[trigger] erase_ops(address, waits) && waits_explain(
                waits,
                budget,
                2,
                result,
            );
        assert(ops =~= erase_ops(address, waits));
        let last = waits.last();
        let head = if waits.len() < 2 {
            none
        } else {
            polls(waits[0]) + seq![command(WRITE_ENABLE), command(SECTOR_ERASE)] + address_ops(
                address,
            )
        };
        assert(ops =~= head + polls(last));
        assert(seq![last].last() == last);
        self.lemma_responsive_chip_is_ready(head, last, budget, result);
        self.lemma_erase(address, waits, budget);
        self.lemma_run_keeps(ops);
    }

    /// On a responsive chip `write_bytes` succeeds wherever the range lies
    /// inside the device, and leaves the bitwise AND of the old content and
    /// the data.
    pub proof fn lemma_write_run(
        self,
        settings: Settings,
        address: u32,
        data: Seq<u8>,
        ops: Seq<BusOp>,
        result: Result<(), Error>,
    )
        requires
            self.responsive(settings.retry_budget as nat),
            address + data.len() <= settings.capacity <= self.memory.len(),
            write_run(settings, address, data, Seq::empty(), ops, result),
            self.answers(ops),
        ensures
            result is Ok,
            self.run(ops).memory == merged(self.memory, address as int, data),
            self.run(ops).ready(),
            !self.run(ops).programmed,
            self.run(ops).responsive(settings.retry_budget as nat),
    {
        let budget = settings.retry_budget as nat;
        let none = Seq::<BusOp>::empty();
        let waits = choose|waits: Seq<Seq<u8>>|
            ops == none + #[trigger] write_ops(address, data, waits) && waits_explain(
                waits,
                budget,
                chunk_count(data.len()) + 1,
                result,
            );
        assert(ops =~= write_ops(address, data, waits));
        let last = waits.last();
        let head = if waits.len() < 2 {
            none
        } else {
            write_ops(address, data, waits.drop_last()) + program_ops(
                (address + PAGE_SIZE * (waits.len() - 2)) as u32,
                chunk(data, waits.len() - 2),
            )
        };
        assert(ops =~= head + polls(last));
        assert(seq![last].last() == last);
        self.lemma_responsive_chip_is_ready(head, last, budget, result);
        assert forall|i: int| 0 <= i < waits.len() implies ready_after(
            #[trigger] waits[i],
            budget,
        ) by {
            if i == waits.len() - 1 {
                assert(waits[i] == waits.last());
            }
        }
        self.lemma_write(address, data, waits, budget);
        assert(data.take(data.len() as int) =~= data);
        self.lemma_run_keeps(ops);
    }

    /// On a responsive chip `read_bytes` succeeds wherever the range lies
    /// inside the device, returns what the memory holds there and leaves the
    /// memory as it was.
    pub proof fn lemma_read_run(
        self,
        settings: Settings,
        address: u32,
        held: Seq<u8>,
        ops: Seq<BusOp>,
        data: Seq<u8>,
        result: Result<(), Error>,
    )
        requires
            self.responsive(settings.retry_budget as nat),
            address + held.len() <= settings.capacity <= self.memory.len(),
            read_run(settings, address, held, Seq::empty(), ops, data, result),
            self.answers(ops),
        ensures
            result is Ok,
            data == self.memory.subrange(address as int, address + data.len()),
            self.run(ops).memory == self.memory,
            self.run(ops).responsive(settings.retry_budget as nat),
    {
        let budget = settings.retry_budget as nat;
        let none = Seq::<BusOp>::empty();
        let statuses = choose|statuses: Seq<u8>|
            waits_explain(seq![statuses], budget, 1, result) && match result {
                Ok(()) => ops == none + (#[trigger] polls(statuses) + fetch_ops(address, data)),
                Err(_) => ops == none + polls(statuses) && data == held,
            };
        let tail = if result is Ok {
            fetch_ops(address, data)
        } else {
            none
        };
        assert(ops =~= none + polls(statuses) + tail);
        self.lemma_answers_concat(none + polls(statuses), tail);
        self.lemma_responsive_chip_is_ready(none, statuses, budget, result);
        assert(ops =~= read_ops(address, data, statuses));
        self.lemma_read(address, data, statuses, budget);
        self.lemma_run_keeps(ops);
    }

    /// Write/read symmetry. On a responsive chip, erasing the sector that
    /// holds a range, writing data to the range and reading the range all
    /// succeed, and what is read is what was written.
    pub proof fn lemma_write_read_symmetry(
        self,
        settings: Settings,
        sector_address: u32,
        address: u32,
        data: Seq<u8>,
        held: Seq<u8>,
        erasing: Seq<BusOp>,
        writing: Seq<BusOp>,
        reading: Seq<BusOp>,
        read_back: Seq<u8>,
        erased: Result<(), Error>,
        written: Result<(), Error>,
        read: Result<(), Error>,
    )
        requires
            self.responsive(settings.retry_budget as nat),
            settings.capacity <= self.memory.len(),
            sector_address < settings.capacity,
            address + data.len() <= settings.capacity,
            data.len() > 0 ==> same_sector(sector_address as int, address as int),
            data.len() > 0 ==> same_sector(sector_address as int, address + data.len() - 1),
            held.len() == data.len(),
            erase_run(settings, sector_address, Seq::empty(), erasing, erased),
            write_run(settings, address, data, Seq::empty(), writing, written),
            read_run(settings, address, held, Seq::empty(), reading, read_back, read),
            self.answers(erasing + writing + reading),
        ensures
            erased is Ok,
            written is Ok,
            read is Ok,
            read_back == data,
    {
        self.lemma_answers_concat(erasing + writing, reading);
        self.lemma_answers_concat(erasing, writing);
        self.lemma_run_concat(erasing, writing);
        self.lemma_erase_run(settings, sector_address, erasing, erased);
        let blank = self.run(erasing);
        blank.lemma_write_run(settings, address, data, writing, written);
        let filled = blank.run(writing);
        filled.lemma_read_run(settings, address, held, reading, read_back, read);
        assert forall|i: int| 0 <= i < data.len() implies read_back[i] == data[i] by {
            let k = address + i;
            assert(read_back[i] == filled.memory[k]);
            assert(blank.memory[k] == ERASED);
            let byte = data[i];
            assert(ERASED & byte == byte) by (bit_vector);
        }
        assert(read_back =~= data);
    }
}

/// The simulated chip.
pub struct SimFlash {
    memory: Vec<u8>,
    command: u8,
    address: [u8; 4],
    cursor: u64,
    write_enabled: bool,
    programmed: bool,
    busy: u32,
    latency: u32,
    jammed: bool,
}

impl View for SimFlash {
    type V = FlashModel;

    closed spec fn view(&self) -> FlashModel {
        FlashModel {
            memory: self.memory@,
            command: self.command,
            address: self.address@,
            cursor: self.cursor as nat,
            write_enabled: self.write_enabled,
            programmed: self.programmed,
            busy: self.busy as nat,
            latency: self.latency as nat,
            jammed: self.jammed,
        }
    }
}

impl SimFlash {
    #[verifier::type_invariant]
    spec fn within_latency(self) -> bool {
        self.busy <= self.latency
    }

    /// An erased chip of `size` bytes that stays busy for `latency` status
    /// reads after each erase and each program.
    pub fn new(size: usize, latency: u32) -> (chip: SimFlash)
        ensures
            chip@ == FlashModel::blank(size as nat, latency as nat),
            chip@.well_formed(),
    {
        let chip = SimFlash {
            memory: vec![ERASED; size],
            command: 0,
            address: [0, 0, 0, 0],
            cursor: 0,
            write_enabled: false,
            programmed: false,
            busy: 0,
            latency,
            jammed: false,
        };
        assert(chip@.memory =~= FlashModel::blank(size as nat, latency as nat).memory);
        assert(chip@.address =~= FlashModel::blank(size as nat, latency as nat).address);
        chip
    }

    /// Makes the chip stuck: from now on it reports a write in progress
    /// for ever.
    pub fn jam(&mut self)
        ensures
            final(self)@ == (FlashModel { jammed: true, ..old(self)@ }),
            final(self)@.well_formed(),
    {
        proof {
            use_type_invariant(&*self);
        }
        self.jammed = true;
    }

    /// What the chip stores.
    pub fn memory(&self) -> (memory: &[u8])
        ensures
            memory@ == self@.memory,
            self@.well_formed(),
    {
        proof {
            use_type_invariant(self);
        }
        self.memory.as_slice()
    }

    /// Erases the sector that holds the cursor.
    fn erase_sector_at_cursor(&mut self)
        ensures
            final(self)@ == (FlashModel {
                memory: erase(old(self)@.memory, old(self)@.cursor),
                ..old(self)@
            }),
    {
        proof {
            use_type_invariant(&*self);
        }
        let size = self.memory.len() as u64;
        let start = self.cursor - self.cursor % (SECTOR_SIZE as u64);
        let first = if start < size {
            start
        } else {
            size
        };
        let end = if size - first > SECTOR_SIZE as u64 {
            first + SECTOR_SIZE as u64
        } else {
            size
        };
        let mut k: u64 = first;
        while k < end
            invariant
                first <= k <= end <= size <= usize::MAX,
                self.busy <= self.latency,
                first == (if start < size {
                    start
                } else {
                    size
                }),
                size == self.memory@.len(),
                self.memory@.len() == old(self).memory@.len(),
                start == old(self).cursor - old(self).cursor % (SECTOR_SIZE as u64),
                end == (if start + SECTOR_SIZE <= size {
                    start + SECTOR_SIZE
                } else {
                    size as int
                }),
                self@ == (FlashModel { memory: self.memory@, ..old(self)@ }),
                forall|j: int|
                    0 <= j < size ==> self.memory@[j] == (if start <= j < k {
                        ERASED
                    } else {
                        old(self).memory@[j]
                    }),
            decreases end - k,
        {
            self.memory[k as usize] = ERASED;
            k += 1;
        }
        assert(self.memory@ =~= erase(old(self)@.memory, old(self)@.cursor));
    }
}

impl SimFlash {
    /// What goes over the registers of the simulated chip is what its model
    /// does: each value that is read is the model's answer at that point,
    /// and the chip ends where the model ends.
    pub proof fn lemma_carried(before: SimFlash, ops: Seq<BusOp>, after: SimFlash)
        requires
            carried(before, ops, after),
        ensures
            before@.answers(ops),
            after@ == before@.run(ops),
        decreases ops.len(),
    {
        if ops.len() == 0 {
            lemma_carried_nothing(before, after);
        } else {
            let shorter = ops.drop_last();
            let middle = lemma_carried_pop(before, ops, after);
            SimFlash::lemma_carried(before, shorter, middle);
            assert forall|i: int| 0 <= i < ops.len() implies match #[trigger] ops[i] {
                BusOp::Read { address, value } => value == before@.run(ops.take(i)).response(
                    address,
                ),
                BusOp::Write { .. } => true,
            } by {
                if i < shorter.len() {
                    assert(ops[i] == shorter[i]);
                    assert(ops.take(i) =~= shorter.take(i));
                } else {
                    assert(ops.take(i) =~= shorter);
                }
            }
        }
    }

    /// The transfers by which a driver of the simulated chip got from
    /// `before` to `after` are what the chip's model does.
    pub proof fn lemma_led(before: DriverView<SimFlash>, after: DriverView<SimFlash>) -> (ops: Seq<
        BusOp,
    >)
        requires
            before.bus.leads_to(after.bus),
        ensures
            after.bus.trace == before.bus.trace + ops,
            forall|tail: Seq<BusOp>| after.bus.trace == before.bus.trace + tail ==> ops == tail,
            before.bus.registers@.answers(ops),
            after.bus.registers@ == before.bus.registers@.run(ops),
    {
        let ops = after.bus.trace.skip(before.bus.trace.len() as int);
        assert(after.bus.trace =~= after.bus.trace.take(before.bus.trace.len() as int) + ops);
        assert forall|tail: Seq<BusOp>| after.bus.trace == before.bus.trace + tail implies ops
            == tail by {
            assert((before.bus.trace + tail).skip(before.bus.trace.len() as int) =~= tail);
        }
        SimFlash::lemma_carried(before.bus.registers, ops, after.bus.registers);
        ops
    }

    /// After `erase_sector` on a responsive chip: it has succeeded, and the
    /// sector reads as erased.
    pub proof fn lemma_erased(
        before: DriverView<SimFlash>,
        address: u32,
        after: DriverView<SimFlash>,
        result: Result<(), Error>,
    )
        requires
            before.bus.registers@.responsive(before.settings.retry_budget as nat),
            address < before.settings.capacity,
            before.bus.leads_to(after.bus),
            erase_run(before.settings, address, before.bus.trace, after.bus.trace, result),
        ensures
            result is Ok,
            after.bus.registers@.memory == erase(before.bus.registers@.memory, address as nat),
            after.bus.registers@.responsive(before.settings.retry_budget as nat),
    {
        let ops = SimFlash::lemma_led(before, after);
        let waits = choose|waits: Seq<Seq<u8>>|
            after.bus.trace == before.bus.trace + #[trigger] erase_ops(address, waits)
                && waits_explain(waits, before.settings.retry_budget as nat, 2, result);
        assert(ops == erase_ops(address, waits));
        assert(ops =~= Seq::<BusOp>::empty() + erase_ops(address, waits));
        before.bus.registers@.lemma_erase_run(before.settings, address, ops, result);
    }

    /// After `write_bytes` on a responsive chip: it has succeeded, and the
    /// range holds the bitwise AND of what it held and the data.
    pub proof fn lemma_written(
        before: DriverView<SimFlash>,
        address: u32,
        data: Seq<u8>,
        after: DriverView<SimFlash>,
        result: Result<(), Error>,
    )
        requires
            before.bus.registers@.responsive(before.settings.retry_budget as nat),
            address + data.len() <= before.settings.capacity <= before.bus.registers@.memory.len(),
            before.bus.leads_to(after.bus),
            write_run(before.settings, address, data, before.bus.trace, after.bus.trace, result),
        ensures
            result is Ok,
            after.bus.registers@.memory == merged(
                before.bus.registers@.memory,
                address as int,
                data,
            ),
            after.bus.registers@.responsive(before.settings.retry_budget as nat),
    {
        let ops = SimFlash::lemma_led(before, after);
        let waits = choose|waits: Seq<Seq<u8>>|
            after.bus.trace == before.bus.trace + #[trigger] write_ops(address, data, waits)
                && waits_explain(
                waits,
                before.settings.retry_budget as nat,
                chunk_count(data.len()) + 1,
                result,
            );
        assert(ops == write_ops(address, data, waits));
        assert(ops =~= Seq::<BusOp>::empty() + write_ops(address, data, waits));
        before.bus.registers@.lemma_write_run(before.settings, address, data, ops, result);
    }

    /// After `read_bytes` on a responsive chip: it has succeeded, the
    /// buffer holds what the chip stores in the range, and the chip stores
    /// what it did.
    pub proof fn lemma_fetched(
        before: DriverView<SimFlash>,
        address: u32,
        held: Seq<u8>,
        after: DriverView<SimFlash>,
        data: Seq<u8>,
        result: Result<(), Error>,
    )
        requires
            before.bus.registers@.responsive(before.settings.retry_budget as nat),
            address + held.len() <= before.settings.capacity <= before.bus.registers@.memory.len(),
            before.bus.leads_to(after.bus),
            read_run(
                before.settings,
                address,
                held,
                before.bus.trace,
                after.bus.trace,
                data,
                result,
            ),
        ensures
            result is Ok,
            data == before.bus.registers@.memory.subrange(address as int, address + data.len()),
            after.bus.registers@.memory == before.bus.registers@.memory,
            after.bus.registers@.responsive(before.settings.retry_budget as nat),
    {
        let ops = SimFlash::lemma_led(before, after);
        let budget = before.settings.retry_budget as nat;
        let statuses = choose|statuses: Seq<u8>|
            waits_explain(seq![statuses], budget, 1, result) && match result {
                Ok(()) => after.bus.trace == before.bus.trace + (#[trigger] polls(statuses)
                    + fetch_ops(address, data)),
                Err(_) => after.bus.trace == before.bus.trace + polls(statuses) && data == held,
            };
        let none = Seq::<BusOp>::empty();
        if result is Ok {
            assert(ops == polls(statuses) + fetch_ops(address, data));
            assert(ops =~= none + (polls(statuses) + fetch_ops(address, data)));
        } else {
            assert(ops == polls(statuses));
            assert(ops =~= none + polls(statuses));
        }
        before.bus.registers@.lemma_read_run(before.settings, address, held, ops, data, result);
    }

    /// Write/read symmetry of the driver on the simulated chip: on a
    /// responsive chip, `erase_sector` on the sector that holds a range,
    /// `write_bytes` to the range and `read_bytes` from it, called one
    /// after the other, all succeed, and the buffer then holds the data
    /// that was written.
    pub proof fn lemma_symmetry(
        start: DriverView<SimFlash>,
        blank: DriverView<SimFlash>,
        filled: DriverView<SimFlash>,
        done: DriverView<SimFlash>,
        sector_address: u32,
        address: u32,
        data: Seq<u8>,
        held: Seq<u8>,
        read_back: Seq<u8>,
        erased: Result<(), Error>,
        written: Result<(), Error>,
        read: Result<(), Error>,
    )
        requires
            start.bus.registers@.responsive(start.settings.retry_budget as nat),
            start.settings.capacity <= start.bus.registers@.memory.len(),
            sector_address < start.settings.capacity,
            address + data.len() <= start.settings.capacity,
            data.len() > 0 ==> same_sector(sector_address as int, address as int),
            data.len() > 0 ==> same_sector(sector_address as int, address + data.len() - 1),
            held.len() == data.len(),
            blank.settings == start.settings,
            start.bus.leads_to(blank.bus),
            erase_run(start.settings, sector_address, start.bus.trace, blank.bus.trace, erased),
            filled.settings == start.settings,
            blank.bus.leads_to(filled.bus),
            write_run(start.settings, address, data, blank.bus.trace, filled.bus.trace, written),
            filled.bus.leads_to(done.bus),
            read_run(
                start.settings,
                address,
                held,
                filled.bus.trace,
                done.bus.trace,
                read_back,
                read,
            ),
        ensures
            erased is Ok,
            written is Ok,
            read is Ok,
            read_back == data,
    {
        SimFlash::lemma_erased(start, sector_address, blank, erased);
        SimFlash::lemma_written(blank, address, data, filled, written);
        SimFlash::lemma_fetched(filled, address, held, done, read_back, read);
        assert forall|i: int| 0 <= i < data.len() implies read_back[i] == data[i] by {
            let k = address + i;
            assert(read_back[i] == filled.bus.registers@.memory[k]);
            assert(blank.bus.registers@.memory[k] == ERASED);
            let byte = data[i];
            assert(ERASED & byte == byte) by (bit_vector);
        }
        assert(read_back =~= data);
    }

    /// A store that was saved to an erased range of a responsive chip is
    /// the store that is loaded from there: `save` and `load`, called one
    /// after the other, both succeed, and the image that `load` unpacks is
    /// the image of the store that was saved.
    pub proof fn lemma_saved_is_loaded(
        before: FlashStorage<SimFlash>,
        saved: FlashStorage<SimFlash>,
        loaded: FlashStorage<SimFlash>,
        records: Records,
        image: Seq<u8>,
        written: Result<(), Error>,
        read: Result<(), Error>,
    )
        requires
            records.well_formed(),
            before@.bus.registers@.responsive(before@.settings.retry_budget as nat),
            before@.settings.address + TOTAL_STORE_SIZE <= before@.settings.capacity
                <= before@.bus.registers@.memory.len(),
            forall|k: int|
                before@.settings.address <= k < before@.settings.address + TOTAL_STORE_SIZE
                    ==> before@.bus.registers@.memory[k] == ERASED,
            before.wrote(records.packed(), saved, written),
            saved.fetched(blank_image(), loaded, image, read),
        ensures
            written is Ok,
            read is Ok,
            image == records.packed(),
            Records::unpacked(image) == records,
    {
        let address = before@.settings.address;
        let packed = records.packed();
        SimFlash::lemma_written(before@, address, packed, saved@, written);
        SimFlash::lemma_fetched(saved@, address, blank_image(), loaded@, image, read);
        assert forall|i: int| 0 <= i < image.len() implies image[i] == packed[i] by {
            let k = address + i;
            assert(image[i] == saved@.bus.registers@.memory[k]);
            assert(before@.bus.registers@.memory[k] == ERASED);
            let byte = packed[i];
            assert(ERASED & byte == byte) by (bit_vector);
        }
        assert(image =~= packed);
        records.lemma_unpack_pack();
    }

    /// A stuck chip lets `wait_for_ready` run into `Timeout`, after as many
    /// status reads as the settings allow.
    pub proof fn lemma_stuck(
        before: DriverView<SimFlash>,
        after: DriverView<SimFlash>,
        result: Result<(), Error>,
    )
        requires
            before.bus.registers@.jammed,
            before.bus.leads_to(after.bus),
            wait_run(before.settings, before.bus.trace, after.bus.trace, result),
        ensures
            result == Err::<(), Error>(Error::Timeout),
            after.bus.trace.len() == before.bus.trace.len() + 2 * before.settings.retry_budget,
    {
        let ops = SimFlash::lemma_led(before, after);
        let statuses = choose|statuses: Seq<u8>|
            after.bus.trace == before.bus.trace + #[trigger] polls(statuses) && waits_explain(
                seq![statuses],
                before.settings.retry_budget as nat,
                1,
                result,
            );
        assert(ops == polls(statuses));
        before.bus.registers@.lemma_stuck_chip_times_out(
            statuses,
            before.settings.retry_budget as nat,
            result,
        );
    }
}

impl Registers for SimFlash {
    /// A read returns what the model answers and takes the chip one step
    /// of the model further.
    open spec fn read(&self, address: u32, after: Self, value: u8) -> bool {
        &&& value == self@.response(address)
        &&& after@ == self@.step(BusOp::Read { address, value })
        &&& after@.well_formed()
    }

    /// A write takes the chip one step of the model further.
    open spec fn written(&self, address: u32, value: u8, after: Self) -> bool {
        &&& after@ == self@.step(BusOp::Write { address, value })
        &&& after@.well_formed()
    }

    fn read_byte(&mut self, address: u32) -> (value: u8) {
        proof {
            use_type_invariant(&*self);
        }
        if address != DATA_REGISTER {
            return ERASED;
        }
        let ready = self.busy == 0 && !self.jammed;
        if self.command == READ_STATUS {
            if self.busy > 0 && !self.jammed {
                self.busy = self.busy - 1;
            }
            if ready {
                0
            } else {
                WRITE_IN_PROGRESS
            }
        } else if self.command == READ_DATA && ready && self.cursor < self.memory.len() as u64 {
            let value = self.memory[self.cursor as usize];
            self.cursor = self.cursor + 1;
            value
        } else {
            ERASED
        }
    }

    fn write_byte(&mut self, address: u32, value: u8) {
        proof {
            use_type_invariant(&*self);
        }
        let ready = self.busy == 0 && !self.jammed;
        if address == COMMAND_REGISTER {
            self.write_enabled = value == WRITE_ENABLE || (self.write_enabled && (value
                == PAGE_PROGRAM || value == SECTOR_ERASE));
            if self.programmed {
                self.busy = self.latency;
            }
            self.programmed = false;
            self.command = value;
        } else if ADDRESS_REGISTER <= address && address < ADDRESS_REGISTER + 4 {
            let index = (address - ADDRESS_REGISTER) as usize;
            self.address[index] = value;
            self.cursor = from_le(
                self.address[0],
                self.address[1],
                self.address[2],
                self.address[3],
            ) as u64;
            proof {
                assert(self.address@ =~= seq![
                    self.address@[0],
                    self.address@[1],
                    self.address@[2],
                    self.address@[3],
                ]);
            }
            if index == 3 && self.command == SECTOR_ERASE && self.write_enabled && ready {
                self.erase_sector_at_cursor();
                self.write_enabled = false;
                self.busy = self.latency;
            }
        } else if address == DATA_REGISTER {
            if self.command == PAGE_PROGRAM && self.write_enabled && ready && self.cursor
                < self.memory.len() as u64 {
                let at = self.cursor as usize;
                let merged = self.memory[at] & value;
                self.memory[at] = merged;
                self.cursor = self.cursor + 1;
                self.programmed = true;
            }
        }
    }
}

} // verus!
