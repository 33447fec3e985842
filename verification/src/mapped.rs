//! The memory-mapped backend: the image lies in a range of addresses and is
//! moved byte by byte, each byte in a transfer of its own.

use vstd::prelude::*;
use crate::bus::{Bus, BusOp, BusView, Registers};
use crate::driver::StorageDriver;
use crate::error::Error;

verus! {

/// The transfers that store `data` from address `start` on, in order.
pub open spec fn stores(start: int, data: Seq<u8>) -> Seq<BusOp> {
    Seq::new(data.len(), |i: int| BusOp::Write { address: (start + i) as u32, value: data[i] })
}

/// The transfers that load `data` from address `start` on, in order.
pub open spec fn loads(start: int, data: Seq<u8>) -> Seq<BusOp> {
    Seq::new(data.len(), |i: int| BusOp::Read { address: (start + i) as u32, value: data[i] })
}

/// Whether `len` bytes from `start` on lie inside the address space.
pub open spec fn addressable(start: int, len: nat) -> bool {
    start + len <= 0x1_0000_0000
}

/// What is known of a memory-mapped driver.
pub struct MappedView<R> {
    /// Where the mapped region starts.
    pub base: u32,
    /// How far behind `base` the image lies.
    pub offset: u32,
    /// The bus, with the registers behind it and all that the driver has
    /// transferred.
    pub bus: BusView<R>,
}

impl<R> MappedView<R> {
    /// The address of the first byte of the image.
    pub open spec fn start(self) -> int {
        self.base + self.offset
    }
}

/// The driver of a memory-mapped region.
pub struct MappedStorage<R: Registers> {
    bus: Bus<R>,
    base: u32,
    offset: u32,
}

impl<R: Registers> View for MappedStorage<R> {
    type V = MappedView<R>;

    closed spec fn view(&self) -> MappedView<R> {
        MappedView { base: self.base, offset: self.offset, bus: self.bus@ }
    }
}

impl<R: Registers> MappedStorage<R> {
    /// A driver whose image lies `offset` bytes behind `base_address`.
    pub fn new(registers: R, base_address: u32, offset: u32) -> (driver: Self)
        ensures
            driver@ == (MappedView {
                base: base_address,
                offset,
                bus: BusView { registers, trace: Seq::empty() },
            }),
    {
        MappedStorage { bus: Bus::new(registers), base: base_address, offset }
    }

    /// The registers that the driver talks to.
    pub fn registers(&self) -> (registers: &R)
        ensures
            *registers == self@.bus.registers,
    {
        self.bus.registers()
    }

    /// Gives the registers back.
    pub fn into_registers(self) -> (registers: R)
        ensures
            registers == self@.bus.registers,
    {
        self.bus.into_registers()
    }

    /// Whether `len` bytes of image lie inside the address space.
    fn in_range(&self, len: usize) -> (fits: bool)
        ensures
            fits == addressable(self@.start(), len as nat),
    {
        let start: u64 = self.base as u64 + self.offset as u64;
        start <= 0x1_0000_0000 && len as u64 <= 0x1_0000_0000 - start
    }

    /// Copies `data` to the image, byte by byte and in order.
    pub fn write_to_memory(&mut self, data: &[u8]) -> (result: Result<(), Error>)
        ensures
            final(self)@.base == old(self)@.base,
            final(self)@.offset == old(self)@.offset,
            old(self)@.bus.leads_to(final(self)@.bus),
            match result {
                Ok(()) => {
                    &&& addressable(old(self)@.start(), data@.len())
                    &&& final(self)@.bus.trace == old(self)@.bus.trace + stores(
                        old(self)@.start(),
                        data@,
                    )
                },
                Err(e) => {
                    &&& e == Error::OutOfRange
                    &&& !addressable(old(self)@.start(), data@.len())
                    &&& final(self)@.bus.trace == old(self)@.bus.trace
                },
            },
    {
        let ghost from = self@.bus;
        proof {
            from.lemma_stays();
        }
        if !self.in_range(data.len()) {
            return Err(Error::OutOfRange);
        }
        let start: u64 = self.base as u64 + self.offset as u64;
        assert(self@.bus.trace =~= old(self)@.bus.trace + stores(start as int, data@.subrange(0, 0)));
        let mut i: usize = 0;
        while i < data.len()
            invariant
                from.leads_to(self@.bus),
                i <= data@.len(),
                self.base == old(self).base,
                self.offset == old(self).offset,
                start == self.base + self.offset,
                start + data@.len() <= 0x1_0000_0000,
                self@.bus.trace == old(self)@.bus.trace + stores(start as int, data@.subrange(0, i as int)),
            decreases data@.len() - i,
        {
            self.bus.put((start + i as u64) as u32, data[i], Ghost(from));
            i += 1;
            assert(self@.bus.trace =~= old(self)@.bus.trace + stores(
                start as int,
                data@.subrange(0, i as int),
            ));
        }
        proof {
            assert(data@.subrange(0, i as int) =~= data@);
        }
        Ok(())
    }

    /// Fills `buffer` from the image, byte by byte and in order.
    pub fn read_from_memory(&mut self, buffer: &mut [u8]) -> (result: Result<(), Error>)
        ensures
            final(self)@.base == old(self)@.base,
            final(self)@.offset == old(self)@.offset,
            old(self)@.bus.leads_to(final(self)@.bus),
            final(buffer)@.len() == old(buffer)@.len(),
            match result {
                Ok(()) => {
                    &&& addressable(old(self)@.start(), old(buffer)@.len())
                    &&& final(self)@.bus.trace == old(self)@.bus.trace + loads(
                        old(self)@.start(),
                        final(buffer)@,
                    )
                },
                Err(e) => {
                    &&& e == Error::OutOfRange
                    &&& !addressable(old(self)@.start(), old(buffer)@.len())
                    &&& final(self)@.bus.trace == old(self)@.bus.trace
                    &&& final(buffer)@ == old(buffer)@
                },
            },
    {
        let ghost from = self@.bus;
        proof {
            from.lemma_stays();
        }
        if !self.in_range(buffer.len()) {
            return Err(Error::OutOfRange);
        }
        let start: u64 = self.base as u64 + self.offset as u64;
        assert(self@.bus.trace =~= old(self)@.bus.trace + loads(start as int, buffer@.subrange(0, 0)));
        let mut i: usize = 0;
        while i < buffer.len()
            invariant
                from.leads_to(self@.bus),
                i <= buffer@.len(),
                buffer@.len() == old(buffer)@.len(),
                self.base == old(self).base,
                self.offset == old(self).offset,
                start == self.base + self.offset,
                start + buffer@.len() <= 0x1_0000_0000,
                self@.bus.trace == old(self)@.bus.trace + loads(
                    start as int,
                    buffer@.subrange(0, i as int),
                ),
            decreases buffer@.len() - i,
        {
            let ghost filled = buffer@;
            let value = self.bus.get((start + i as u64) as u32, Ghost(from));
            buffer[i] = value;
            i += 1;
            assert(buffer@.subrange(0, i as int) =~= filled.subrange(0, i - 1).push(value));
            assert(self@.bus.trace =~= old(self)@.bus.trace + loads(
                start as int,
                buffer@.subrange(0, i as int),
            ));
        }
        proof {
            assert(buffer@.subrange(0, i as int) =~= buffer@);
        }
        Ok(())
    }
}

impl<R: Registers> StorageDriver for MappedStorage<R> {
    open spec fn wrote(&self, data: Seq<u8>, after: Self, result: Result<(), Error>) -> bool {
        &&& after@.base == self@.base
        &&& after@.offset == self@.offset
        &&& self@.bus.leads_to(after@.bus)
        &&& match result {
            Ok(()) => {
                &&& addressable(self@.start(), data.len())
                &&& after@.bus.trace == self@.bus.trace + stores(self@.start(), data)
            },
            Err(e) => {
                &&& e == Error::OutOfRange
                &&& !addressable(self@.start(), data.len())
                &&& after@.bus.trace == self@.bus.trace
            },
        }
    }

    open spec fn fetched(
        &self,
        before: Seq<u8>,
        after: Self,
        data: Seq<u8>,
        result: Result<(), Error>,
    ) -> bool {
        &&& after@.base == self@.base
        &&& after@.offset == self@.offset
        &&& self@.bus.leads_to(after@.bus)
        &&& match result {
            Ok(()) => {
                &&& addressable(self@.start(), before.len())
                &&& after@.bus.trace == self@.bus.trace + loads(self@.start(), data)
            },
            Err(e) => {
                &&& e == Error::OutOfRange
                &&& !addressable(self@.start(), before.len())
                &&& after@.bus.trace == self@.bus.trace
                &&& data == before
            },
        }
    }

    fn write(&mut self, data: &[u8]) -> (result: Result<(), Error>) {
        self.write_to_memory(data)
    }

    fn read(&mut self, buffer: &mut [u8]) -> (result: Result<(), Error>) {
        self.read_from_memory(buffer)
    }
}

} // verus!
