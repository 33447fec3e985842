//! The hardware-register interface: single bytes read from and written to
//! addresses, each transfer performed in program order.

use vstd::prelude::*;

verus! {

/// Byte-wide access to hardware registers.
///
/// An implementation performs every transfer it is asked for, one by one
/// and in order. What a transfer does to the registers, and what a read
/// returns, is for the implementation to say in `read` and `written`;
/// where it says nothing, nothing is assumed.
pub trait Registers: Sized {
    /// Whether reading the byte at `address` may return `value` and take
    /// the registers from `self` to `after`.
    open spec fn read(&self, address: u32, after: Self, value: u8) -> bool {
        true
    }

    /// Whether writing `value` to `address` may take the registers from
    /// `self` to `after`.
    open spec fn written(&self, address: u32, value: u8, after: Self) -> bool {
        true
    }

    /// Reads the byte at `address`.
    fn read_byte(&mut self, address: u32) -> (value: u8)
        ensures
            old(self).read(address, *final(self), value),
    ;

    /// Writes `value` to `address`.
    fn write_byte(&mut self, address: u32, value: u8)
        ensures
            old(self).written(address, value, *final(self)),
    ;
}

/// One transfer over the register interface.
pub enum BusOp {
    /// A byte was read from `address` and `value` came back.
    Read { address: u32, value: u8 },
    /// `value` was written to `address`.
    Write { address: u32, value: u8 },
}

/// Whether the transfer `op` may take the registers from `before` to
/// `after`.
pub open spec fn transfers<R: Registers>(before: R, op: BusOp, after: R) -> bool {
    match op {
        BusOp::Read { address, value } => before.read(address, after, value),
        BusOp::Write { address, value } => before.written(address, value, after),
    }
}

/// Whether `states` are the registers before, between and after the
/// transfers `ops`: as they were at first, after the first transfer, and
/// so on to the last.
pub open spec fn passes<R: Registers>(states: Seq<R>, ops: Seq<BusOp>) -> bool {
    &&& states.len() == ops.len() + 1
    &&& forall|i: int|
        0 <= i < ops.len() ==> transfers(states[i], #[trigger] ops[i], states[i + 1])
}

/// Whether the transfers `ops`, one after the other, may take the registers
/// from `before` to `after`.
pub open spec fn carried<R: Registers>(before: R, ops: Seq<BusOp>, after: R) -> bool {
    exists|states: Seq<R>|
        #[trigger] passes(states, ops) && states.first() == before && states.last() == after
}

/// One more transfer carries the registers one step further.
pub proof fn lemma_carried_push<R: Registers>(
    before: R,
    ops: Seq<BusOp>,
    middle: R,
    op: BusOp,
    after: R,
)
    requires
        carried(before, ops, middle),
        transfers(middle, op, after),
    ensures
        carried(before, ops.push(op), after),
{
    let states = choose|states: Seq<R>|
        #[trigger] passes(states, ops) && states.first() == before && states.last() == middle;
    let longer = states.push(after);
    assert(passes(longer, ops.push(op)));
}

/// A last transfer took the registers from where the transfers before it
/// had left them.
pub proof fn lemma_carried_pop<R: Registers>(before: R, ops: Seq<BusOp>, after: R) -> (middle: R)
    requires
        carried(before, ops, after),
        ops.len() > 0,
    ensures
        carried(before, ops.drop_last(), middle),
        transfers(middle, ops.last(), after),
{
    let states = choose|states: Seq<R>|
        #[trigger] passes(states, ops) && states.first() == before && states.last() == after;
    let shorter = states.drop_last();
    assert(passes(shorter, ops.drop_last())) by {
        assert forall|i: int| 0 <= i < ops.drop_last().len() implies transfers(
            shorter[i],
            #[trigger] ops.drop_last()[i],
            shorter[i + 1],
        ) by {
            assert(ops.drop_last()[i] == ops[i]);
        }
    }
    assert(ops.last() == ops[ops.len() - 1]);
    shorter.last()
}

/// No transfer leaves the registers as they are.
pub proof fn lemma_carried_nothing<R: Registers>(before: R, after: R)
    ensures
        carried(before, Seq::<BusOp>::empty(), after) <==> after == before,
{
    if after == before {
        assert(passes(seq![before], Seq::<BusOp>::empty()));
        assert(seq![before].first() == before && seq![before].last() == after);
    }
}

/// What a bus is at one moment: the registers as they stand, and the record
/// of what went over the bus.
pub struct BusView<R> {
    pub registers: R,
    /// All transfers performed so far, oldest first.
    pub trace: Seq<BusOp>,
}

impl<R: Registers> BusView<R> {
    /// Whether the bus got from `self` to `after` by transfers alone: the
    /// trace has only grown, and the transfers by which it has grown took
    /// the registers from where they were to where they are.
    pub open spec fn leads_to(self, after: BusView<R>) -> bool {
        &&& self.trace.len() <= after.trace.len()
        &&& after.trace.take(self.trace.len() as int) == self.trace
        &&& carried(self.registers, after.trace.skip(self.trace.len() as int), after.registers)
    }

    /// A bus on which nothing happens stays where it is.
    pub proof fn lemma_stays(self)
        ensures
            self.leads_to(self),
    {
        assert(self.trace.take(self.trace.len() as int) =~= self.trace);
        assert(self.trace.skip(self.trace.len() as int) =~= Seq::<BusOp>::empty());
        lemma_carried_nothing(self.registers, self.registers);
    }

    /// One more transfer leads one step further.
    pub proof fn lemma_leads_on(self, middle: BusView<R>, op: BusOp, after: BusView<R>)
        requires
            self.leads_to(middle),
            after.trace == middle.trace.push(op),
            transfers(middle.registers, op, after.registers),
        ensures
            self.leads_to(after),
    {
        let start = self.trace.len() as int;
        assert(after.trace.take(start) =~= middle.trace.take(start));
        assert(after.trace.skip(start) =~= middle.trace.skip(start).push(op));
        lemma_carried_push(
            self.registers,
            middle.trace.skip(start),
            middle.registers,
            op,
            after.registers,
        );
    }
}

/// A register interface together with the record of what went over it.
pub struct Bus<R: Registers> {
    registers: R,
    trace: Ghost<Seq<BusOp>>,
}

impl<R: Registers> View for Bus<R> {
    type V = BusView<R>;

    closed spec fn view(&self) -> BusView<R> {
        BusView { registers: self.registers, trace: self.trace@ }
    }
}

impl<R: Registers> Bus<R> {
    /// A bus over `registers` on which nothing has been transferred yet.
    pub fn new(registers: R) -> (bus: Bus<R>)
        ensures
            bus@ == (BusView { registers, trace: Seq::empty() }),
    {
        Bus { registers, trace: Ghost(Seq::empty()) }
    }

    /// Reads the byte at `address` from the registers.
    pub fn read_byte(&mut self, address: u32) -> (value: u8)
        ensures
            final(self)@.trace == old(self)@.trace.push(BusOp::Read { address, value }),
            old(self)@.registers.read(address, final(self)@.registers, value),
    {
        let value = self.registers.read_byte(address);
        proof {
            self.trace@ = self.trace@.push(BusOp::Read { address, value });
        }
        value
    }

    /// Writes `value` to `address` in the registers.
    pub fn write_byte(&mut self, address: u32, value: u8)
        ensures
            final(self)@.trace == old(self)@.trace.push(BusOp::Write { address, value }),
            old(self)@.registers.written(address, value, final(self)@.registers),
    {
        self.registers.write_byte(address, value);
        proof {
            self.trace@ = self.trace@.push(BusOp::Write { address, value });
        }
    }

    /// Reads the byte at `address`, on the way that leads on from `from`.
    pub(crate) fn get(&mut self, address: u32, Ghost(from): Ghost<BusView<R>>) -> (value: u8)
        requires
            from.leads_to(old(self)@),
        ensures
            final(self)@.trace == old(self)@.trace.push(BusOp::Read { address, value }),
            from.leads_to(final(self)@),
    {
        let value = self.read_byte(address);
        proof {
            from.lemma_leads_on(old(self)@, BusOp::Read { address, value }, self@);
        }
        value
    }

    /// Writes `value` to `address`, on the way that leads on from `from`.
    pub(crate) fn put(&mut self, address: u32, value: u8, Ghost(from): Ghost<BusView<R>>)
        requires
            from.leads_to(old(self)@),
        ensures
            final(self)@.trace == old(self)@.trace.push(BusOp::Write { address, value }),
            from.leads_to(final(self)@),
    {
        self.write_byte(address, value);
        proof {
            from.lemma_leads_on(old(self)@, BusOp::Write { address, value }, self@);
        }
    }

    /// The registers behind the bus.
    pub fn registers(&self) -> (registers: &R)
        ensures
            *registers == self@.registers,
    {
        &self.registers
    }

    /// Gives the registers back.
    pub fn into_registers(self) -> (registers: R)
        ensures
            registers == self@.registers,
    {
        self.registers
    }
}

} // verus!
