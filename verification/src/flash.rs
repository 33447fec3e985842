//! The command-protocol backend: a NOR flash chip behind a command register,
//! an address register and a data register.
//!
//! The chip is erased in sectors and programmed in pages. Programming can
//! only clear bits, so a range that was written before has to be erased
//! before it is written again: the driver does not erase on its own, and a
//! write to a range that is not erased leaves the bitwise AND of the old
//! and the new content.

use vstd::prelude::*;
use crate::bus::{Bus, BusOp, BusView, Registers};
use crate::driver::StorageDriver;
use crate::error::Error;
use crate::wire::{le_bytes, to_le};

verus! {

/// Where the registers of the flash controller start.
pub const REGISTER_BASE: u32 = 0x3ff4_2000;

/// The register that takes an opcode.
pub const COMMAND_REGISTER: u32 = REGISTER_BASE;

/// The first of the four registers that take an address, least significant
/// byte first.
pub const ADDRESS_REGISTER: u32 = REGISTER_BASE + 0x04;

/// The register through which data and the status are streamed.
pub const DATA_REGISTER: u32 = REGISTER_BASE + 0x80;

/// Opcode: stream data out, from the address that is loaded next.
pub const READ_DATA: u8 = 0x03;

/// Opcode: allow the erase or program that follows.
pub const WRITE_ENABLE: u8 = 0x06;

/// Opcode: program the data that is streamed in, from the address that is
/// loaded next.
pub const PAGE_PROGRAM: u8 = 0x02;

/// Opcode: erase the sector that holds the address that is loaded next.
pub const SECTOR_ERASE: u8 = 0x20;

/// Opcode: put the status into the data register.
pub const READ_STATUS: u8 = 0x05;

/// The status bit that is set while an erase or a program is under way.
pub const WRITE_IN_PROGRESS: u8 = 0x01;

/// Bytes that one page-program command takes.
pub const PAGE_SIZE: usize = 256;

/// Where the image of the store lies on the device.
pub const STORE_ADDRESS: u32 = 0x3F_0000;

/// Bytes of the device.
pub const DEVICE_SIZE: u32 = 0x40_0000;

/// Status reads that one wait may spend.
pub const RETRY_BUDGET: u32 = 100_000;

/// What a driver is configured with.
#[derive(Clone, Copy, Debug, PartialEq, Eq, Structural)]
pub struct Settings {
    /// Where `write` and `read` find the image of the store.
    pub address: u32,
    /// Bytes of the device; no transfer reaches beyond.
    pub capacity: u32,
    /// Status reads that one wait may spend before it gives up.
    pub retry_budget: u32,
}

impl Settings {
    /// The settings of a driver made by `FlashStorage::new`.
    pub open spec fn standard() -> Settings {
        Settings { address: STORE_ADDRESS, capacity: DEVICE_SIZE, retry_budget: RETRY_BUDGET }
    }
}

/// Whether `status` reports a write in progress.
pub open spec fn busy(status: u8) -> bool {
    status & WRITE_IN_PROGRESS != 0
}

/// The transfer that selects `opcode`.
pub open spec fn command(opcode: u8) -> BusOp {
    BusOp::Write { address: COMMAND_REGISTER, value: opcode }
}

/// The transfers of one status poll after the other, `statuses` being what
/// the device answered.
pub open spec fn polls(statuses: Seq<u8>) -> Seq<BusOp> {
    Seq::new(
        2 * statuses.len(),
        |k: int|
            if k % 2 == 0 {
                command(READ_STATUS)
            } else {
                BusOp::Read { address: DATA_REGISTER, value: statuses[k / 2] }
            },
    )
}

/// The transfers that load `address` into the address registers.
pub open spec fn address_ops(address: u32) -> Seq<BusOp> {
    Seq::new(
        4,
        |i: int|
            BusOp::Write { address: (ADDRESS_REGISTER + i) as u32, value: le_bytes(address)[i] },
    )
}

/// The transfers that stream `bytes` into the data register.
pub open spec fn data_out(bytes: Seq<u8>) -> Seq<BusOp> {
    Seq::new(bytes.len(), |i: int| BusOp::Write { address: DATA_REGISTER, value: bytes[i] })
}

/// The transfers that stream `bytes` out of the data register.
pub open spec fn data_in(bytes: Seq<u8>) -> Seq<BusOp> {
    Seq::new(bytes.len(), |i: int| BusOp::Read { address: DATA_REGISTER, value: bytes[i] })
}

/// The status reads of a wait that found the device ready: at least one,
/// at most `budget`, all busy but the last.
pub open spec fn ready_after(statuses: Seq<u8>, budget: nat) -> bool {
    &&& 0 < statuses.len() <= budget
    &&& !busy(statuses.last())
    &&& forall|i: int| 0 <= i < statuses.len() - 1 ==> busy(statuses[i])
}

/// The status reads of a wait that gave up: `budget` of them, all busy.
pub open spec fn never_ready(statuses: Seq<u8>, budget: nat) -> bool {
    &&& statuses.len() == budget
    &&& forall|i: int| 0 <= i < statuses.len() ==> busy(statuses[i])
}

/// Whether `waits`, the status reads of the successive waits of one
/// operation, account for `result`: an operation that needs `needed` waits
/// succeeds when all of them found the device ready, and stops with
/// `Timeout` at the first that gave up.
pub open spec fn waits_explain(
    waits: Seq<Seq<u8>>,
    budget: nat,
    needed: nat,
    result: Result<(), Error>,
) -> bool {
    &&& 0 < waits.len() <= needed
    &&& forall|i: int| 0 <= i < waits.len() - 1 ==> ready_after(#[trigger] waits[i], budget)
    &&& match result {
        Ok(()) => waits.len() == needed && ready_after(waits.last(), budget),
        Err(e) => e == Error::Timeout && never_ready(waits.last(), budget),
    }
}

/// The transfers of `erase_sector(address)` whose waits read `waits`.
pub open spec fn erase_ops(address: u32, waits: Seq<Seq<u8>>) -> Seq<BusOp> {
    if waits.len() < 2 {
        polls(waits[0])
    } else {
        polls(waits[0]) + seq![command(WRITE_ENABLE), command(SECTOR_ERASE)] + address_ops(address)
            + polls(waits[1])
    }
}

/// The transfers that fetch `data` from `address` on.
pub open spec fn fetch_ops(address: u32, data: Seq<u8>) -> Seq<BusOp> {
    seq![command(READ_DATA)] + address_ops(address) + data_in(data)
}

/// The transfers of `read_bytes(address, ..)` whose wait read `statuses`
/// and which then streamed `data` in.
pub open spec fn read_ops(address: u32, data: Seq<u8>, statuses: Seq<u8>) -> Seq<BusOp> {
    polls(statuses) + fetch_ops(address, data)
}

/// Number of page-sized chunks that `len` bytes are split into.
pub open spec fn chunk_count(len: nat) -> nat {
    (len + PAGE_SIZE - 1) as nat / (PAGE_SIZE as nat)
}

/// Chunk `k` of `data`: a full page, or what is left for the last.
pub open spec fn chunk(data: Seq<u8>, k: int) -> Seq<u8> {
    data.subrange(
        PAGE_SIZE * k,
        if PAGE_SIZE * (k + 1) <= data.len() {
            PAGE_SIZE * (k + 1)
        } else {
            data.len() as int
        },
    )
}

/// The transfers that program `bytes` from `address` on.
pub open spec fn program_ops(address: u32, bytes: Seq<u8>) -> Seq<BusOp> {
    seq![command(WRITE_ENABLE), command(PAGE_PROGRAM)] + address_ops(address) + data_out(bytes)
}

/// The transfers of `write_bytes(address, data)` whose waits read `waits`:
/// one wait, then chunk after chunk, each programmed at its own address,
/// a page further than the one before, and followed by a wait. So every
/// chunk has a wait before it and a wait behind it; the wait behind one
/// chunk is the wait before the next.
pub open spec fn write_ops(address: u32, data: Seq<u8>, waits: Seq<Seq<u8>>) -> Seq<BusOp>
    decreases waits.len(),
{
    if waits.len() == 0 {
        Seq::empty()
    } else if waits.len() == 1 {
        polls(waits[0])
    } else {
        let k = waits.len() - 2;
        write_ops(address, data, waits.drop_last()) + program_ops(
            (address + PAGE_SIZE * k) as u32,
            chunk(data, k),
        ) + polls(waits.last())
    }
}

/// Whether one wait for the device may take the trace from `before` to
/// `after` and end in `result`.
pub open spec fn wait_run(
    settings: Settings,
    before: Seq<BusOp>,
    after: Seq<BusOp>,
    result: Result<(), Error>,
) -> bool {
    exists|statuses: Seq<u8>|
        {
            &&& after == before + #[trigger] polls(statuses)
            &&& waits_explain(seq![statuses], settings.retry_budget as nat, 1, result)
        }
}

/// Whether erasing the sector at `address` may take the trace from
/// `before` to `after` and end in `result`.
pub open spec fn erase_run(
    settings: Settings,
    address: u32,
    before: Seq<BusOp>,
    after: Seq<BusOp>,
    result: Result<(), Error>,
) -> bool {
    if address >= settings.capacity {
        after == before && result == Err::<(), Error>(Error::OutOfRange)
    } else {
        exists|waits: Seq<Seq<u8>>|
            {
                &&& after == before + #[trigger] erase_ops(address, waits)
                &&& waits_explain(waits, settings.retry_budget as nat, 2, result)
            }
    }
}

/// Whether reading from `address` on into a buffer that held `held` may
/// take the trace from `before` to `after`, leave `data` in the buffer and
/// end in `result`.
pub open spec fn read_run(
    settings: Settings,
    address: u32,
    held: Seq<u8>,
    before: Seq<BusOp>,
    after: Seq<BusOp>,
    data: Seq<u8>,
    result: Result<(), Error>,
) -> bool {
    &&& data.len() == held.len()
    &&& if address + held.len() > settings.capacity {
        after == before && data == held && result == Err::<(), Error>(Error::OutOfRange)
    } else {
        exists|statuses: Seq<u8>|
            {
                &&& waits_explain(seq![statuses], settings.retry_budget as nat, 1, result)
                &&& match result {
                    Ok(()) => after == before + (#[trigger] polls(statuses) + fetch_ops(
                        address,
                        data,
                    )),
                    Err(_) => after == before + polls(statuses) && data == held,
                }
            }
    }
}

/// Whether writing `data` at `address` may take the trace from `before`
/// to `after` and end in `result`.
pub open spec fn write_run(
    settings: Settings,
    address: u32,
    data: Seq<u8>,
    before: Seq<BusOp>,
    after: Seq<BusOp>,
    result: Result<(), Error>,
) -> bool {
    if address + data.len() > settings.capacity {
        after == before && result == Err::<(), Error>(Error::OutOfRange)
    } else {
        exists|waits: Seq<Seq<u8>>|
            {
                &&& after == before + #[trigger] write_ops(address, data, waits)
                &&& waits_explain(
                    waits,
                    settings.retry_budget as nat,
                    chunk_count(data.len()) + 1,
                    result,
                )
            }
    }
}

/// What is known of a driver: its settings, and the bus with the registers
/// behind it and all that the driver has transferred.
pub struct DriverView<R> {
    pub settings: Settings,
    pub bus: BusView<R>,
}

/// The driver of the flash chip.
pub struct FlashStorage<R: Registers> {
    bus: Bus<R>,
    settings: Settings,
}

impl<R: Registers> View for FlashStorage<R> {
    type V = DriverView<R>;

    closed spec fn view(&self) -> DriverView<R> {
        DriverView { settings: self.settings, bus: self.bus@ }
    }
}

impl<R: Registers> FlashStorage<R> {
    /// A driver with the standard settings.
    pub fn new(registers: R) -> (driver: Self)
        ensures
            driver@.settings == Settings::standard(),
            driver@.bus.trace == Seq::<BusOp>::empty(),
            driver@.bus.registers == registers,
    {
        FlashStorage {
            bus: Bus::new(registers),
            settings: Settings {
                address: STORE_ADDRESS,
                capacity: DEVICE_SIZE,
                retry_budget: RETRY_BUDGET,
            },
        }
    }

    /// A driver with settings of the caller's choice.
    pub fn with_settings(registers: R, settings: Settings) -> (driver: Self)
        ensures
            driver@.settings == settings,
            driver@.bus.trace == Seq::<BusOp>::empty(),
            driver@.bus.registers == registers,
    {
        FlashStorage { bus: Bus::new(registers), settings }
    }

    /// The registers that the driver talks to.
    pub fn registers(&self) -> (registers: &R)
        ensures
            *registers == self@.bus.registers,
    {
        self.bus.registers()
    }

    /// The settings of the driver.
    pub fn settings(&self) -> (settings: Settings)
        ensures
            settings == self@.settings,
    {
        self.settings
    }

    /// Gives the registers back.
    pub fn into_registers(self) -> (registers: R)
        ensures
            registers == self@.bus.registers,
    {
        self.bus.into_registers()
    }

    /// Polls the status until the device is ready or the budget is spent,
    /// and says what the device answered.
    fn poll_until_ready(&mut self, Ghost(from): Ghost<BusView<R>>) -> (out: (
        Result<(), Error>,
        Ghost<Seq<u8>>,
    ))
        requires
            from.leads_to(old(self)@.bus),
        ensures
            from.leads_to(final(self)@.bus),
            final(self)@.settings == old(self)@.settings,
            final(self)@.bus.trace == old(self)@.bus.trace + polls(out.1@),
            waits_explain(seq![out.1@], old(self)@.settings.retry_budget as nat, 1, out.0),
    {
        let ghost mut statuses: Seq<u8> = Seq::empty();
        let mut spent: u32 = 0;
        assert(self@.bus.trace =~= old(self)@.bus.trace + polls(statuses));
        while spent < self.settings.retry_budget
            invariant
                from.leads_to(self@.bus),
                self.settings == old(self).settings,
                spent <= self.settings.retry_budget,
                statuses.len() == spent,
                self@.bus.trace == old(self)@.bus.trace + polls(statuses),
                forall|i: int| 0 <= i < statuses.len() ==> busy(statuses[i]),
            decreases self.settings.retry_budget - spent,
        {
            self.bus.put(COMMAND_REGISTER, READ_STATUS, Ghost(from));
            let status = self.bus.get(DATA_REGISTER, Ghost(from));
            proof {
                let longer = statuses.push(status);
                assert(self@.bus.trace =~= old(self)@.bus.trace + polls(longer));
                statuses = longer;
            }
            if status & WRITE_IN_PROGRESS == 0 {
                assert(seq![statuses][0] == statuses);
                return (Ok(()), Ghost(statuses));
            }
            spent += 1;
        }
        assert(seq![statuses][0] == statuses);
        (Err(Error::Timeout), Ghost(statuses))
    }

    /// Selects `opcode`.
    fn send_command(&mut self, opcode: u8, Ghost(from): Ghost<BusView<R>>)
        requires
            from.leads_to(old(self)@.bus),
        ensures
            from.leads_to(final(self)@.bus),
            final(self)@.settings == old(self)@.settings,
            final(self)@.bus.trace == old(self)@.bus.trace.push(command(opcode)),
    {
        self.bus.put(COMMAND_REGISTER, opcode, Ghost(from));
    }

    /// Loads `address` into the address registers.
    fn send_address(&mut self, address: u32, Ghost(from): Ghost<BusView<R>>)
        requires
            from.leads_to(old(self)@.bus),
        ensures
            from.leads_to(final(self)@.bus),
            final(self)@.settings == old(self)@.settings,
            final(self)@.bus.trace == old(self)@.bus.trace + address_ops(address),
    {
        let bytes = to_le(address);
        self.bus.put(ADDRESS_REGISTER, bytes[0], Ghost(from));
        self.bus.put(ADDRESS_REGISTER + 1, bytes[1], Ghost(from));
        self.bus.put(ADDRESS_REGISTER + 2, bytes[2], Ghost(from));
        self.bus.put(ADDRESS_REGISTER + 3, bytes[3], Ghost(from));
        assert(self@.bus.trace =~= old(self)@.bus.trace + address_ops(address));
    }

    /// Waits until the device reports that no erase or program is under
    /// way, for at most as many status reads as the settings allow.
    pub fn wait_for_ready(&mut self) -> (result: Result<(), Error>)
        ensures
            final(self)@.settings == old(self)@.settings,
            old(self)@.bus.leads_to(final(self)@.bus),
            wait_run(
                old(self)@.settings,
                old(self)@.bus.trace,
                final(self)@.bus.trace,
                result,
            ),
    {
        let ghost from = self@.bus;
        proof {
            from.lemma_stays();
        }
        let (result, Ghost(statuses)) = self.poll_until_ready(Ghost(from));
        result
    }

    /// Asks the chip to erase the sector at `sector_address`: waits for the
    /// chip, enables writing, sends the erase with the address and waits
    /// again.
    ///
    /// The contract fixes these transfers; that the sector then reads as
    /// erased is shown for the simulated chip (`SimFlash::lemma_erased`).
    pub fn erase_sector(&mut self, sector_address: u32) -> (result: Result<(), Error>)
        ensures
            final(self)@.settings == old(self)@.settings,
            old(self)@.bus.leads_to(final(self)@.bus),
            erase_run(
                old(self)@.settings,
                sector_address,
                old(self)@.bus.trace,
                final(self)@.bus.trace,
                result,
            ),
    {
        let ghost from = self@.bus;
        proof {
            from.lemma_stays();
        }
        if sector_address >= self.settings.capacity {
            return Err(Error::OutOfRange);
        }
        let (first, Ghost(before)) = self.poll_until_ready(Ghost(from));
        if let Err(e) = first {
            proof {
                let waits = seq![before];
                assert(erase_ops(sector_address, waits) == polls(before));
            }
            return Err(e);
        }
        self.send_command(WRITE_ENABLE, Ghost(from));
        self.send_command(SECTOR_ERASE, Ghost(from));
        self.send_address(sector_address, Ghost(from));
        let (second, Ghost(after)) = self.poll_until_ready(Ghost(from));
        proof {
            let waits = seq![before, after];
            assert(self@.bus.trace =~= old(self)@.bus.trace + erase_ops(sector_address, waits));
        }
        second
    }

    /// Fills `buffer` with the bytes that the chip streams out from
    /// `address` on.
    pub fn read_bytes(&mut self, address: u32, buffer: &mut [u8]) -> (result: Result<(), Error>)
        ensures
            final(self)@.settings == old(self)@.settings,
            old(self)@.bus.leads_to(final(self)@.bus),
            read_run(
                old(self)@.settings,
                address,
                old(buffer)@,
                old(self)@.bus.trace,
                final(self)@.bus.trace,
                final(buffer)@,
                result,
            ),
    {
        let ghost from = self@.bus;
        proof {
            from.lemma_stays();
        }
        if address > self.settings.capacity || buffer.len() > (self.settings.capacity
            - address) as usize {
            return Err(Error::OutOfRange);
        }
        let (ready, Ghost(statuses)) = self.poll_until_ready(Ghost(from));
        if let Err(e) = ready {
            return Err(e);
        }
        self.send_command(READ_DATA, Ghost(from));
        self.send_address(address, Ghost(from));
        let ghost head = old(self)@.bus.trace + polls(statuses) + seq![command(READ_DATA)]
            + address_ops(address);
        assert(self@.bus.trace =~= head + data_in(buffer@.subrange(0, 0)));
        assert(buffer@ == old(buffer)@);
        let mut i: usize = 0;
        while i < buffer.len()
            invariant
                from.leads_to(self@.bus),
                i <= buffer@.len(),
                buffer@.len() == old(buffer)@.len(),
                self.settings == old(self).settings,
                self@.bus.trace == head + data_in(buffer@.subrange(0, i as int)),
            decreases buffer@.len() - i,
        {
            let ghost filled = buffer@;
            let value = self.bus.get(DATA_REGISTER, Ghost(from));
            buffer[i] = value;
            i += 1;
            assert(buffer@.subrange(0, i as int) =~= filled.subrange(0, i - 1).push(value));
            assert(self@.bus.trace =~= head + data_in(buffer@.subrange(0, i as int)));
        }
        proof {
            assert(buffer@.subrange(0, i as int) =~= buffer@);
            assert(self@.bus.trace =~= old(self)@.bus.trace + read_ops(address, buffer@, statuses));
        }
        Ok(())
    }

    /// Programs `data` from `address` on, a page-sized chunk at a time,
    /// each chunk at its own address.
    ///
    /// The range has to be erased beforehand: programming a byte leaves
    /// the bitwise AND of what was there and what is written.
    pub fn write_bytes(&mut self, address: u32, data: &[u8]) -> (result: Result<(), Error>)
        ensures
            final(self)@.settings == old(self)@.settings,
            old(self)@.bus.leads_to(final(self)@.bus),
            write_run(
                old(self)@.settings,
                address,
                data@,
                old(self)@.bus.trace,
                final(self)@.bus.trace,
                result,
            ),
    {
        let ghost from = self@.bus;
        proof {
            from.lemma_stays();
        }
        if address > self.settings.capacity || data.len() > (self.settings.capacity
            - address) as usize {
            return Err(Error::OutOfRange);
        }
        let budget = self.settings.retry_budget;
        let (ready, Ghost(statuses)) = self.poll_until_ready(Ghost(from));
        let ghost mut waits: Seq<Seq<u8>> = seq![statuses];
        if let Err(e) = ready {
            proof {
                assert(write_ops(address, data@, waits) == polls(statuses));
            }
            return Err(e);
        }
        let mut done: usize = 0;
        let ghost mut k: int = 0;
        assert(write_ops(address, data@, waits) == polls(statuses));
        while done < data.len()
            invariant
                from == old(self)@.bus,
                from.leads_to(self@.bus),
                self.settings == old(self).settings,
                budget == self.settings.retry_budget,
                address + data@.len() <= self.settings.capacity,
                done <= data@.len(),
                0 <= k <= chunk_count(data@.len()),
                done == (if PAGE_SIZE * k <= data@.len() {
                    PAGE_SIZE * k
                } else {
                    data@.len() as int
                }),
                k > 0 ==> PAGE_SIZE * (k - 1) < data@.len(),
                waits.len() == k + 1,
                forall|i: int| 0 <= i < waits.len() ==> ready_after(#[trigger] waits[i], budget as nat),
                self@.bus.trace == old(self)@.bus.trace + write_ops(address, data@, waits),
            decreases data@.len() - done,
        {
            let end = if data.len() - done > PAGE_SIZE {
                done + PAGE_SIZE
            } else {
                data.len()
            };
            let target = address + done as u32;
            let ghost head = self@.bus.trace;
            self.send_command(WRITE_ENABLE, Ghost(from));
            self.send_command(PAGE_PROGRAM, Ghost(from));
            self.send_address(target, Ghost(from));
            assert(self@.bus.trace =~= head + program_ops(target, data@.subrange(done as int, done as int)));
            let mut i: usize = done;
            while i < end
                invariant
                    from.leads_to(self@.bus),
                    done <= i <= end <= data@.len(),
                    self.settings == old(self).settings,
                    self@.bus.trace == head + program_ops(target, data@.subrange(done as int, i as int)),
                decreases end - i,
            {
                self.bus.put(DATA_REGISTER, data[i], Ghost(from));
                i += 1;
                assert(data@.subrange(done as int, i as int) =~= data@.subrange(
                    done as int,
                    i - 1,
                ).push(data@[i - 1]));
                assert(self@.bus.trace =~= head + program_ops(
                    target,
                    data@.subrange(done as int, i as int),
                ));
            }
            let (ready, Ghost(statuses)) = self.poll_until_ready(Ghost(from));
            proof {
                let longer = waits.push(statuses);
                assert(longer.drop_last() =~= waits);
                assert(data@.subrange(done as int, end as int) == chunk(data@, k));
                assert(write_ops(address, data@, longer) == write_ops(address, data@, waits)
                    + program_ops(target, chunk(data@, k)) + polls(statuses));
                assert(self@.bus.trace =~= old(self)@.bus.trace + write_ops(address, data@, longer));
                waits = longer;
                k = k + 1;
            }
            if let Err(e) = ready {
                return Err(e);
            }
            done = end;
        }
        Ok(())
    }
}

impl<R: Registers> StorageDriver for FlashStorage<R> {
    open spec fn wrote(&self, data: Seq<u8>, after: Self, result: Result<(), Error>) -> bool {
        &&& after@.settings == self@.settings
        &&& self@.bus.leads_to(after@.bus)
        &&& write_run(
            self@.settings,
            self@.settings.address,
            data,
            self@.bus.trace,
            after@.bus.trace,
            result,
        )
    }

    open spec fn fetched(
        &self,
        before: Seq<u8>,
        after: Self,
        data: Seq<u8>,
        result: Result<(), Error>,
    ) -> bool {
        &&& after@.settings == self@.settings
        &&& self@.bus.leads_to(after@.bus)
        &&& read_run(
            self@.settings,
            self@.settings.address,
            before,
            self@.bus.trace,
            after@.bus.trace,
            data,
            result,
        )
    }

    /// Writes `data` where the settings place the image. The range has to
    /// be erased beforehand.
    fn write(&mut self, data: &[u8]) -> (result: Result<(), Error>) {
        let address = self.settings.address;
        self.write_bytes(address, data)
    }

    fn read(&mut self, buffer: &mut [u8]) -> (result: Result<(), Error>) {
        let address = self.settings.address;
        self.read_bytes(address, buffer)
    }
}

} // verus!
