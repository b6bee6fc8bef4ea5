//! Writing a new ROM to a clone of a DS1990 token.
//!
//! The clones come in kinds that are written in different ways, so the
//! kind is found out first.

use vstd::prelude::*;
use crate::command::OpCode;
use crate::crc::{compute_partial_crc8, crc8};
use crate::device::Device;
use crate::driver::Driver;
use crate::ds1990::Ds1990;
use crate::iowire::{DelayUs, IoWire};
use crate::result::Error;
use crate::trace::{
    bits_of, read_bytes_script, write_bytes_script, write_slot, WireOp,
};

verus! {

/// The kinds of token.
#[derive(Clone, Copy, Debug)]
pub enum Ds1990Type {
    /// The DS1990 itself, which cannot be written.
    Ds1990,
    /// RW1990, first version.
    Rw1990p1,
    /// RW1990, second version.
    Rw1990p2,
    /// TM01.
    Tm01,
    /// TM2004.
    Tm2004,
    /// A Cyfral token.
    Cyfral,
    /// A Metacom token.
    Metacom,
}

/// The commands of a TM2004.
#[derive(Clone, Copy, Debug)]
pub enum CommandTm2004 {
    /// Read the status register.
    ReadStatus,
    /// Write one byte of the ROM.
    WriteRom,
    /// Make the ROM read-only for good.
    BlockRom,
}

impl CommandTm2004 {
    /// The byte that stands for the command.
    pub open spec fn code(&self) -> u8 {
        match self {
            CommandTm2004::ReadStatus => 0xAA,
            CommandTm2004::WriteRom => 0x3C,
            CommandTm2004::BlockRom => 0x35,
        }
    }

}

impl OpCode for CommandTm2004 {
    fn op_code(&self) -> (r: u8)
        ensures
            r == self.code(),
    {
        match self {
            CommandTm2004::ReadStatus => 0xAA,
            CommandTm2004::WriteRom => 0x3C,
            CommandTm2004::BlockRom => 0x35,
        }
    }
}

/// The commands of an RW1990 and of a TM01.
#[derive(Clone, Copy, Debug)]
pub enum CommandRw1990 {
    /// Set the write lock of a first version.
    WriteLockSet1,
    /// Read the write lock of a first version.
    WriteLockGet1,
    /// Set the write lock of a second version.
    WriteLockSet2,
    /// Read the write lock of a second version.
    WriteLockGet2,
    /// Set the write lock of a TM01.
    WriteLockSet3,
    /// Write the ROM.
    WriteRom,
}

impl CommandRw1990 {
    /// The byte that stands for the command.
    pub open spec fn code(&self) -> u8 {
        match self {
            CommandRw1990::WriteLockSet1 => 0xD1,
            CommandRw1990::WriteLockGet1 => 0xB1,
            CommandRw1990::WriteLockSet2 => 0x1D,
            CommandRw1990::WriteLockGet2 => 0x1E,
            CommandRw1990::WriteLockSet3 => 0xC1,
            CommandRw1990::WriteRom => 0xD5,
        }
    }

}

impl OpCode for CommandRw1990 {
    fn op_code(&self) -> (r: u8)
        ensures
            r == self.code(),
    {
        match self {
            CommandRw1990::WriteLockSet1 => 0xD1,
            CommandRw1990::WriteLockGet1 => 0xB1,
            CommandRw1990::WriteLockSet2 => 0x1D,
            CommandRw1990::WriteLockGet2 => 0x1E,
            CommandRw1990::WriteLockSet3 => 0xC1,
            CommandRw1990::WriteRom => 0xD5,
        }
    }
}

/// A write slot that programs a cell of a clone: low for 6 for a 1 and for
/// 60 for a 0, then released for the 10 milliseconds that the cell takes.
pub open spec fn rw_slot(high: bool) -> Seq<WireOp> {
    seq![
        WireOp::SetLow,
        WireOp::Delay(if high { 6 } else { 60 }),
        WireOp::SetHigh,
        WireOp::Delay(10000),
    ]
}

/// A programming slot for each of `bits`; with `invert` each bit goes out
/// as its complement.
pub open spec fn rw_slots(bits: Seq<bool>, invert: bool) -> Seq<WireOp>
    decreases bits.len(),
{
    if bits.len() == 0 {
        Seq::empty()
    } else {
        rw_slots(bits.drop_last(), invert) + rw_slot(bits.last() != invert)
    }
}

/// A run of bytes in programming slots, each byte with its least
/// significant bit first.
pub open spec fn write_bytes_rw_script(bytes: Seq<u8>, invert: bool) -> Seq<WireOp>
    decreases bytes.len(),
{
    if bytes.len() == 0 {
        Seq::empty()
    } else {
        write_bytes_rw_script(bytes.drop_last(), invert) + rw_slots(bits_of(bytes.last()), invert)
    }
}

/// The pulse that makes a TM2004 take over what was written: released for
/// 600, low for 6, released for 50 milliseconds.
pub open spec fn program_pulse_script() -> Seq<WireOp> {
    seq![
        WireOp::SetHigh,
        WireOp::Delay(600),
        WireOp::SetLow,
        WireOp::Delay(6),
        WireOp::SetHigh,
        WireOp::Delay(50000),
    ]
}

/// Programming slots for a run of bits are those for its first part
/// followed by those for the rest.
pub proof fn lemma_rw_slots_split(bits: Seq<bool>, invert: bool, at: int)
    requires
        0 <= at <= bits.len(),
    ensures
        rw_slots(bits, invert) == rw_slots(bits.take(at), invert) + rw_slots(bits.skip(at), invert),
    decreases bits.len() - at,
{
    if at == bits.len() {
        assert(bits.take(at) =~= bits);
        assert(rw_slots(bits.skip(at), invert) =~= Seq::<WireOp>::empty());
        assert(rw_slots(bits, invert) + Seq::<WireOp>::empty() =~= rw_slots(bits, invert));
    } else {
        lemma_rw_slots_split(bits.drop_last(), invert, at);
        assert(bits.drop_last().take(at) =~= bits.take(at));
        assert(bits.skip(at).drop_last() =~= bits.drop_last().skip(at));
        assert(bits.skip(at).last() == bits.last());
        let tail = rw_slot(bits.last() != invert);
        assert(rw_slots(bits.take(at), invert) + rw_slots(bits.drop_last().skip(at), invert) + tail
            =~= rw_slots(bits.take(at), invert) + (rw_slots(bits.drop_last().skip(at), invert)
            + tail));
    }
}

/// A run of bytes in programming slots is its first part followed by the
/// rest.
pub proof fn lemma_write_bytes_rw_split(bytes: Seq<u8>, invert: bool, at: int)
    requires
        0 <= at <= bytes.len(),
    ensures
        write_bytes_rw_script(bytes, invert) == write_bytes_rw_script(bytes.take(at), invert)
            + write_bytes_rw_script(bytes.skip(at), invert),
    decreases bytes.len() - at,
{
    if at == bytes.len() {
        assert(bytes.take(at) =~= bytes);
        assert(write_bytes_rw_script(bytes.skip(at), invert) =~= Seq::<WireOp>::empty());
        assert(write_bytes_rw_script(bytes, invert) + Seq::<WireOp>::empty()
            =~= write_bytes_rw_script(bytes, invert));
    } else {
        lemma_write_bytes_rw_split(bytes.drop_last(), invert, at);
        assert(bytes.drop_last().take(at) =~= bytes.take(at));
        assert(bytes.skip(at).drop_last() =~= bytes.drop_last().skip(at));
        assert(bytes.skip(at).last() == bytes.last());
        let tail = rw_slots(bits_of(bytes.last()), invert);
        assert(write_bytes_rw_script(bytes.take(at), invert) + write_bytes_rw_script(
            bytes.drop_last().skip(at),
            invert,
        ) + tail =~= write_bytes_rw_script(bytes.take(at), invert) + (write_bytes_rw_script(
            bytes.drop_last().skip(at),
            invert,
        ) + tail));
    }
}

impl<W: IoWire> Driver<W> {
    /// Sends `bytes` in programming slots, with every bit turned over if
    /// `invert` is set.
    pub fn write_bytes_rw<D: DelayUs>(&mut self, delay: &mut D, bytes: &[u8], invert: bool) -> (r:
        Result<(), W::Error>)
        ensures
            final(self).kept_time(*old(self), old(delay).waited(), final(delay).waited()),
            r is Ok ==> final(self).ran(*old(self), write_bytes_rw_script(bytes@, invert)),
            r is Err ==> final(self).failed(
                *old(self),
                write_bytes_rw_script(bytes@, invert),
                r->Err_0,
            ),
    {
        let ghost d0 = *self;
        let mut i: usize = 0;
        proof {
            self.lemma_ran_nothing();
        }
        while i < bytes.len()
            invariant
                self.kept_time(*old(self), old(delay).waited(), delay.waited()),
                i <= bytes.len(),
                d0 == *old(self),
                self.ran(d0, write_bytes_rw_script(bytes@.take(i as int), invert)),
            decreases bytes.len() - i,
        {
            let ghost mid = *self;
            let ghost t = write_bytes_rw_script(bytes@.take(i as int), invert);
            let ghost step = rw_slots(bits_of(bytes@[i as int]), invert);
            proof {
                let next = bytes@.take(i + 1);
                assert(next.drop_last() =~= bytes@.take(i as int));
                assert(next.last() == bytes@[i as int]);
            }
            match self.write_byte_rw(delay, bytes[i], invert) {
                Ok(()) => {},
                Err(e) => {
                    proof {
                        let rest = write_bytes_rw_script(bytes@.skip(i + 1), invert);
                        self.lemma_ran_failed(d0, mid, t, step, rest, e);
                        lemma_write_bytes_rw_split(bytes@, invert, i + 1);
                    }
                    return Err(e);
                },
            }
            proof {
                self.lemma_ran_ran(d0, mid, t, step);
            }
            i += 1;
        }
        proof {
            assert(bytes@.take(i as int) =~= bytes@);
        }
        Ok(())
    }

    /// Sends one byte in programming slots.
    pub(crate) fn write_byte_rw<D: DelayUs>(&mut self, delay: &mut D, byte: u8, invert: bool) -> (r:
        Result<(), W::Error>)
        ensures
            final(self).kept_time(*old(self), old(delay).waited(), final(delay).waited()),
            r is Ok ==> final(self).ran(*old(self), rw_slots(bits_of(byte), invert)),
            r is Err ==> final(self).failed(*old(self), rw_slots(bits_of(byte), invert), r->Err_0),
    {
        let ghost d0 = *self;
        let ghost bits = bits_of(byte);
        let mut cur: u8 = byte;
        let mut i: u8 = 0;
        proof {
            self.lemma_ran_nothing();
            assert(cur == byte >> 0u8) by (bit_vector)
                requires
                    cur == byte,
            ;
        }
        while i < 8
            invariant
                self.kept_time(*old(self), old(delay).waited(), delay.waited()),
                i <= 8,
                cur == byte >> i,
                bits == bits_of(byte),
                d0 == *old(self),
                self.ran(d0, rw_slots(bits.take(i as int), invert)),
            decreases 8 - i,
        {
            let ghost mid = *self;
            let ghost t = rw_slots(bits.take(i as int), invert);
            let bit = (cur & 0x01) == 0x01;
            proof {
                assert(((cur & 0x01) == 0x01) == ((byte >> i) & 1 == 1));
                assert(byte >> i == byte >> (i as nat));
                assert(bit == bits[i as int]);
                assert(cur >> 1u8 == byte >> ((i + 1) as u8)) by (bit_vector)
                    requires
                        cur == byte >> i,
                        i < 8,
                ;
                let next = bits.take(i + 1);
                assert(next.drop_last() =~= bits.take(i as int));
                assert(next.last() == bit);
            }
            let high = if invert {
                !bit
            } else {
                bit
            };
            match self.write_bit_rw(delay, high) {
                Ok(()) => {},
                Err(e) => {
                    proof {
                        let rest = rw_slots(bits.skip(i + 1), invert);
                        self.lemma_ran_failed(d0, mid, t, rw_slot(high), rest, e);
                        lemma_rw_slots_split(bits, invert, i + 1);
                    }
                    return Err(e);
                },
            }
            proof {
                self.lemma_ran_ran(d0, mid, t, rw_slot(high));
            }
            cur >>= 1;
            i += 1;
        }
        proof {
            assert(bits.take(8) =~= bits);
        }
        Ok(())
    }

    /// Sends one bit in a programming slot.
    pub(crate) fn write_bit_rw<D: DelayUs>(&mut self, delay: &mut D, high: bool) -> (r: Result<
        (),
        W::Error,
    >)
        ensures
            final(self).kept_time(*old(self), old(delay).waited(), final(delay).waited()),
            r is Ok ==> final(self).ran(*old(self), rw_slot(high)),
            r is Err ==> final(self).failed(*old(self), rw_slot(high), r->Err_0),
    {
        let ghost d0 = *self;
        let ghost low = seq![WireOp::SetLow];
        let ghost hold = seq![WireOp::Delay(if high { 6 } else { 60 })];
        let ghost up = seq![WireOp::SetHigh];
        let ghost end = seq![WireOp::Delay(10000)];
        proof {
            self.lemma_ran_nothing();
            assert(Seq::<WireOp>::empty() + low + (hold + up + end) =~= rw_slot(high));
            assert(low + hold + up + end =~= rw_slot(high));
        }
        match self.set_low() {
            Ok(()) => {},
            Err(e) => {
                proof {
                    self.lemma_ran_failed(d0, d0, Seq::empty(), low, hold + up + end, e);
                }
                return Err(e);
            },
        }
        let ghost d1 = *self;
        self.pause(delay, if high { 6 } else { 60 });
        let ghost d2 = *self;
        proof {
            d2.lemma_ran_ran(d0, d1, low, hold);
        }
        match self.set_high() {
            Ok(()) => {},
            Err(e) => {
                proof {
                    self.lemma_ran_failed(d0, d2, low + hold, up, end, e);
                }
                return Err(e);
            },
        }
        self.pause(delay, 10000);
        proof {
            assert(self.log() =~= d0.log() + rw_slot(high));
        }
        Ok(())
    }

    /// Gives the pulse that ends the writing of a TM2004.
    pub(crate) fn program_pulse<D: DelayUs>(&mut self, delay: &mut D) -> (r: Result<(), W::Error>)
        ensures
            final(self).kept_time(*old(self), old(delay).waited(), final(delay).waited()),
            r is Ok ==> final(self).ran(*old(self), program_pulse_script()),
            r is Err ==> final(self).failed(*old(self), program_pulse_script(), r->Err_0),
    {
        let ghost d0 = *self;
        let ghost up = seq![WireOp::SetHigh];
        let ghost wait = seq![WireOp::Delay(600)];
        let ghost low = seq![WireOp::SetLow];
        let ghost hold = seq![WireOp::Delay(6)];
        let ghost end = seq![WireOp::Delay(50000)];
        proof {
            self.lemma_ran_nothing();
            assert(Seq::<WireOp>::empty() + up + (wait + low + hold + up + end)
                =~= program_pulse_script());
            assert(up + wait + low + (hold + up + end) =~= program_pulse_script());
            assert(up + wait + low + hold + up + end =~= program_pulse_script());
        }
        match self.set_high() {
            Ok(()) => {},
            Err(e) => {
                proof {
                    let rest = wait + low + hold + up + end;
                    self.lemma_ran_failed(d0, d0, Seq::empty(), up, rest, e);
                }
                return Err(e);
            },
        }
        let ghost d1 = *self;
        self.pause(delay, 600);
        let ghost d2 = *self;
        proof {
            d2.lemma_ran_ran(d0, d1, up, wait);
        }
        match self.set_low() {
            Ok(()) => {},
            Err(e) => {
                proof {
                    self.lemma_ran_failed(d0, d2, up + wait, low, hold + up + end, e);
                }
                return Err(e);
            },
        }
        let ghost d3 = *self;
        self.pause(delay, 6);
        let ghost d4 = *self;
        proof {
            d3.lemma_ran_ran(d0, d2, up + wait, low);
            d4.lemma_ran_ran(d0, d3, up + wait + low, hold);
        }
        match self.set_high() {
            Ok(()) => {},
            Err(e) => {
                proof {
                    self.lemma_ran_failed(d0, d4, up + wait + low + hold, up, end, e);
                }
                return Err(e);
            },
        }
        self.pause(delay, 50000);
        proof {
            assert(self.log() =~= d0.log() + program_pulse_script());
        }
        Ok(())
    }
}

/// The commands that set and read the write lock of a kind of token, and
/// the bit that is sent to put the lock into the state `lock`. `None` for
/// a kind without a write lock.
pub open spec fn lock_codes(kind: Ds1990Type, lock: bool) -> Option<(u8, u8, bool)> {
    match kind {
        Ds1990Type::Rw1990p1 => Some((0xD1u8, 0xB1u8, !lock)),
        Ds1990Type::Rw1990p2 => Some((0x1Du8, 0x1Eu8, lock)),
        Ds1990Type::Tm01 => Some((0xC1u8, 0xB1u8, lock)),
        _ => None,
    }
}

/// The request for the status of a TM2004.
pub open spec fn status_request() -> Seq<u8> {
    seq![0xAAu8, 0x00u8, 0x00u8]
}

/// The request that writes `value` to byte `index` of the ROM of a TM2004.
pub open spec fn rom_byte_request(index: u8, value: u8) -> Seq<u8> {
    seq![0x3Cu8, index, 0x00u8, value]
}

/// Two results fail with the same error.
pub open spec fn same_error<A, B, E>(a: Result<A, E>, b: Result<B, E>) -> bool {
    a is Err && b is Err && a->Err_0 == b->Err_0
}

impl Ds1990 {
    /// What the bus carries, after the reset, when a write lock is set:
    /// the command, then in a write slot of its own the bit that stands
    /// for the new state, then 10 milliseconds for the token to take it.
    pub open spec fn lock_request(set: u8, bit: bool, parasite: bool) -> Seq<WireOp> {
        write_bytes_script(seq![set], parasite) + write_slot(bit) + seq![WireOp::Delay(10000)]
    }

    /// How reading the write lock ended: a transaction that sends the
    /// command `get` and reads one byte. The result tells whether that byte
    /// is `0xFE`.
    pub open spec fn lock_read<W: IoWire>(
        before: Driver<W>,
        after: Driver<W>,
        get: u8,
        r: Result<bool, Error<W::Error>>,
    ) -> bool {
        exists|state: u8|
            {
                &&& #[trigger] after.transacted(
                    before,
                    r,
                    write_bytes_script(seq![get], before.parasite()) + read_bytes_script(
                        seq![state],
                    ),
                )
                &&& r is Ok ==> r->Ok_0 == (state == 0xFE)
            }
    }

    /// How setting the write lock of a token of kind `kind` ended, by the
    /// driver before and after it.
    ///
    /// A kind without a write lock gives `NotSupport`, with nothing done on
    /// the bus. Else there are two transactions: one that sets the lock,
    /// see [`Self::lock_request`], and one that sends the command to read it
    /// and reads one byte. The result tells whether that byte is `0xFE`.
    /// The first transaction that fails ends the whole with its error.
    pub open spec fn lock_set<W: IoWire>(
        before: Driver<W>,
        after: Driver<W>,
        kind: Ds1990Type,
        lock: bool,
        r: Result<bool, Error<W::Error>>,
    ) -> bool {
        match lock_codes(kind, lock) {
            None => r == Err::<bool, Error<W::Error>>(Error::NotSupport) && after.ran(
                before,
                Seq::empty(),
            ),
            Some((set, get, bit)) => {
                let request = Self::lock_request(set, bit, before.parasite());
                ||| r is Err && after.transacted(before, r, request)
                ||| exists|mid: Driver<W>|
                    #[trigger] mid.transacted(before, Ok::<(), Error<W::Error>>(()), request)
                        && Self::lock_read(mid, after, get, r)
            },
        }
    }

    /// A lock that was asked for and then read was set.
    proof fn lemma_lock_set<W: IoWire>(
        before: Driver<W>,
        mid: Driver<W>,
        after: Driver<W>,
        kind: Ds1990Type,
        lock: bool,
        codes: (u8, u8, bool),
        r: Result<bool, Error<W::Error>>,
    )
        requires
            lock_codes(kind, lock) == Some(codes),
            mid.transacted(
                before,
                Ok::<(), Error<W::Error>>(()),
                Self::lock_request(codes.0, codes.2, before.parasite()),
            ),
            Self::lock_read(mid, after, codes.1, r),
        ensures
            Self::lock_set(before, after, kind, lock, r),
    {
    }

    /// Puts the write lock of a token into the state `lock` and tells
    /// whether the token then answers with `0xFE`.
    pub fn set_write_lock<W: IoWire, D: DelayUs>(
        driver: &mut Driver<W>,
        delay: &mut D,
        type_: Ds1990Type,
        lock: bool,
    ) -> (r: Result<bool, Error<W::Error>>)
        ensures
            final(driver).kept_time(*old(driver), old(delay).waited(), final(delay).waited()),
            lock_codes(type_, lock) is None ==> *final(delay) == *old(delay),
            Self::lock_set(*old(driver), *final(driver), type_, lock, r),
    {
        let ghost d0 = *driver;
        let (set_cmd, get_cmd, bit) = match type_ {
            Ds1990Type::Rw1990p1 => (
                CommandRw1990::WriteLockSet1.op_code(),
                CommandRw1990::WriteLockGet1.op_code(),
                !lock,
            ),
            Ds1990Type::Rw1990p2 => (
                CommandRw1990::WriteLockSet2.op_code(),
                CommandRw1990::WriteLockGet2.op_code(),
                lock,
            ),
            Ds1990Type::Tm01 => (
                CommandRw1990::WriteLockSet3.op_code(),
                CommandRw1990::WriteLockGet1.op_code(),
                lock,
            ),
            _ => {
                proof {
                    driver.lemma_ran_nothing();
                }
                return Err(Error::NotSupport);
            },
        };
        assert(lock_codes(type_, lock) == Some((set_cmd, get_cmd, bit)));
        let ghost went = Ok::<(), Error<W::Error>>(());
        let ghost request = Self::lock_request(set_cmd, bit, d0.parasite());
        let set = [set_cmd];
        assert(set@ =~= seq![set_cmd]);
        let ghost t1 = write_bytes_script(seq![set_cmd], d0.parasite());
        let sent = driver.reset_write_only(delay, set.as_slice());
        match sent {
            Ok(()) => {},
            Err(e) => {
                proof {
                    let rest = write_slot(bit) + seq![WireOp::Delay(10000)];
                    driver.lemma_transacted_more::<(), bool>(d0, sent, t1, rest);
                    assert(t1 + rest =~= request);
                }
                return Err(e);
            },
        }
        let ghost d1 = *driver;
        match driver.write_bit(delay, bit) {
            Ok(()) => {},
            Err(e) => {
                proof {
                    driver.lemma_transacted_failed::<(), bool>(
                        d0,
                        d1,
                        went,
                        t1,
                        write_slot(bit),
                        seq![WireOp::Delay(10000)],
                        e,
                    );
                }
                return Err(Error::PortError(e));
            },
        }
        let ghost d2 = *driver;
        proof {
            d2.lemma_transacted_ran(d0, d1, went, t1, write_slot(bit));
        }
        driver.pause(delay, 10000);
        let ghost mid = *driver;
        proof {
            let wait = seq![WireOp::Delay(10000)];
            mid.lemma_transacted_ran(d0, d2, went, t1 + write_slot(bit), wait);
        }
        proof {
            assert(mid.transacted(d0, went, request));
            let frame = choose|frame: Seq<WireOp>|
                #[trigger] crate::trace::reset_frame(frame, true) && mid.ran(d0, frame + request);
            assert(mid.parasite() == d0.parasite());
        }
        let mut state = [0u8];
        let get = [get_cmd];
        assert(get@ =~= seq![get_cmd]);
        let r = driver.reset_write_read(delay, get.as_slice(), &mut state);
        proof {
            assert(state@ =~= seq![state@[0]]);
        }
        match r {
            Ok(()) => {
                let answer = state[0] == 0xFE;
                proof {
                    assert(driver.transacted(
                        mid,
                        Ok::<bool, Error<W::Error>>(answer),
                        write_bytes_script(seq![get_cmd], mid.parasite()) + read_bytes_script(
                            seq![state@[0]],
                        ),
                    ));
                    let r = Ok::<bool, Error<W::Error>>(answer);
                    assert(Self::lock_read(mid, *driver, get_cmd, r));
                    Self::lemma_lock_set(
                        d0,
                        mid,
                        *driver,
                        type_,
                        lock,
                        (set_cmd, get_cmd, bit),
                        Ok::<bool, Error<W::Error>>(answer),
                    );
                }
                Ok(answer)
            },
            Err(e) => {
                proof {
                    assert(driver.transacted(
                        mid,
                        Err::<bool, Error<W::Error>>(e),
                        write_bytes_script(seq![get_cmd], mid.parasite()) + read_bytes_script(
                            seq![state@[0]],
                        ),
                    ));
                    assert(Self::lock_read(mid, *driver, get_cmd, Err::<bool, Error<W::Error>>(e)));
                    Self::lemma_lock_set(
                        d0,
                        mid,
                        *driver,
                        type_,
                        lock,
                        (set_cmd, get_cmd, bit),
                        Err::<bool, Error<W::Error>>(e),
                    );
                }
                Err(e)
            },
        }
    }

    /// What a detection makes of the way in which unlocking again ended:
    /// the kind that was found, or the error.
    pub open spec fn named<E>(
        unlocked: Result<bool, Error<E>>,
        kind: Ds1990Type,
        r: Result<Ds1990Type, Error<E>>,
    ) -> bool {
        match unlocked {
            Ok(_) => r == Ok::<Ds1990Type, Error<E>>(kind),
            Err(e) => r == Err::<Ds1990Type, Error<E>>(e),
        }
    }

    /// How finding out the kind of a token ended.
    ///
    /// The write lock of a first version is set. If the token answers to
    /// that, the lock is taken off again and the token is a first version.
    /// If not, see [`Self::detected_second`]. The first step that fails
    /// ends the whole with its error.
    pub open spec fn detected<W: IoWire>(
        before: Driver<W>,
        after: Driver<W>,
        r: Result<Ds1990Type, Error<W::Error>>,
    ) -> bool {
        ||| exists|locked: Result<bool, Error<W::Error>>|
            locked is Err && #[trigger] Self::lock_set(
                before,
                after,
                Ds1990Type::Rw1990p1,
                true,
                locked,
            ) && same_error(locked, r)
        ||| exists|mid: Driver<W>, unlocked: Result<bool, Error<W::Error>>|
            {
                &&& #[trigger] Self::lock_set(
                    before,
                    mid,
                    Ds1990Type::Rw1990p1,
                    true,
                    Ok::<bool, Error<W::Error>>(true),
                )
                &&& #[trigger] Self::lock_set(mid, after, Ds1990Type::Rw1990p1, false, unlocked)
                &&& Self::named(unlocked, Ds1990Type::Rw1990p1, r)
            }
        ||| exists|mid: Driver<W>|
            #[trigger] Self::lock_set(
                before,
                mid,
                Ds1990Type::Rw1990p1,
                true,
                Ok::<bool, Error<W::Error>>(false),
            ) && Self::detected_second(mid, after, r)
    }

    /// How a detection ended for a token that is no first version.
    ///
    /// The write lock of a second version is set. If the token answers to
    /// that, the lock is taken off again and the token is a second
    /// version. If not, see [`Self::detected_by_status`].
    pub open spec fn detected_second<W: IoWire>(
        before: Driver<W>,
        after: Driver<W>,
        r: Result<Ds1990Type, Error<W::Error>>,
    ) -> bool {
        ||| exists|locked: Result<bool, Error<W::Error>>|
            locked is Err && #[trigger] Self::lock_set(
                before,
                after,
                Ds1990Type::Rw1990p2,
                true,
                locked,
            ) && same_error(locked, r)
        ||| exists|mid: Driver<W>, unlocked: Result<bool, Error<W::Error>>|
            {
                &&& #[trigger] Self::lock_set(
                    before,
                    mid,
                    Ds1990Type::Rw1990p2,
                    true,
                    Ok::<bool, Error<W::Error>>(true),
                )
                &&& #[trigger] Self::lock_set(mid, after, Ds1990Type::Rw1990p2, false, unlocked)
                &&& Self::named(unlocked, Ds1990Type::Rw1990p2, r)
            }
        ||| exists|mid: Driver<W>|
            #[trigger] Self::lock_set(
                before,
                mid,
                Ds1990Type::Rw1990p2,
                true,
                Ok::<bool, Error<W::Error>>(false),
            ) && Self::detected_by_status(mid, after, r)
    }

    /// How a detection ended for a token that is no RW1990.
    ///
    /// One transaction sends the request for the status and reads two
    /// bytes, then the bus is reset once more. The token is a TM2004 if
    /// the first byte read is the CRC-8 of the request, else a TM01.
    pub open spec fn detected_by_status<W: IoWire>(
        before: Driver<W>,
        after: Driver<W>,
        r: Result<Ds1990Type, Error<W::Error>>,
    ) -> bool {
        ||| exists|status: Seq<u8>|
            status.len() == 2 && r is Err && #[trigger] after.transacted(
                before,
                r,
                write_bytes_script(status_request(), before.parasite()) + read_bytes_script(status),
            )
        ||| exists|mid: Driver<W>, status: Seq<u8>|
            {
                &&& status.len() == 2
                &&& #[trigger] mid.transacted(
                    before,
                    Ok::<(), Error<W::Error>>(()),
                    write_bytes_script(status_request(), before.parasite()) + read_bytes_script(
                        status,
                    ),
                )
                &&& after.transacted(mid, r, Seq::empty())
                &&& r is Ok ==> r->Ok_0 == if crc8(0, status_request()) == status[0] {
                    Ds1990Type::Tm2004
                } else {
                    Ds1990Type::Tm01
                }
            }
    }

    /// Finds out what kind of clone is on the bus.
    pub fn detect_type<W: IoWire, D: DelayUs>(driver: &mut Driver<W>, delay: &mut D) -> (r:
        Result<Ds1990Type, Error<W::Error>>)
        ensures
            final(driver).kept_time(*old(driver), old(delay).waited(), final(delay).waited()),
            Self::detected(*old(driver), *final(driver), r),
    {
        let ghost d0 = *driver;
        let first = match Self::set_write_lock(driver, delay, Ds1990Type::Rw1990p1, true) {
            Ok(answer) => answer,
            Err(e) => {
                return Err(e);
            },
        };
        let ghost d1 = *driver;
        if first {
            return match Self::set_write_lock(driver, delay, Ds1990Type::Rw1990p1, false) {
                Ok(_) => Ok(Ds1990Type::Rw1990p1),
                Err(e) => Err(e),
            };
        }
        let second = match Self::set_write_lock(driver, delay, Ds1990Type::Rw1990p2, true) {
            Ok(answer) => answer,
            Err(e) => {
                proof {
                    let r = Err::<Ds1990Type, Error<W::Error>>(e);
                    assert(Self::detected_second(d1, *driver, r));
                }
                return Err(e);
            },
        };
        let ghost d2 = *driver;
        if second {
            let unlocked = Self::set_write_lock(driver, delay, Ds1990Type::Rw1990p2, false);
            let r = match unlocked {
                Ok(_) => Ok(Ds1990Type::Rw1990p2),
                Err(e) => Err(e),
            };
            proof {
                assert(Self::detected_second(d1, *driver, r));
            }
            return r;
        }
        let data_wr = [CommandTm2004::ReadStatus.op_code(), 0x00, 0x00];
        let mut data_rd = [0u8; 2];
        assert(data_wr@ =~= status_request());
        match driver.reset_write_read(delay, data_wr.as_slice(), &mut data_rd) {
            Ok(()) => {},
            Err(e) => {
                proof {
                    let r = Err::<Ds1990Type, Error<W::Error>>(e);
                    assert(driver.transacted(
                        d2,
                        r,
                        write_bytes_script(status_request(), d2.parasite()) + read_bytes_script(
                            data_rd@,
                        ),
                    ));
                    assert(Self::detected_by_status(d2, *driver, r));
                    assert(Self::detected_second(d1, *driver, r));
                }
                return Err(e);
            },
        }
        let ghost d3 = *driver;
        let back = driver.reset(delay);
        let sum = compute_partial_crc8(0, data_wr.as_slice());
        let r = match back {
            Ok(()) => Ok(
                if sum == data_rd[0] {
                    Ds1990Type::Tm2004
                } else {
                    Ds1990Type::Tm01
                },
            ),
            Err(e) => Err(e),
        };
        proof {
            assert(driver.transacted(d3, r, Seq::empty()));
            assert(d3.transacted(
                d2,
                Ok::<(), Error<W::Error>>(()),
                write_bytes_script(status_request(), d2.parasite()) + read_bytes_script(data_rd@),
            ));
            assert(Self::detected_by_status(d2, *driver, r));
            assert(Self::detected_second(d1, *driver, r));
        }
        r
    }

    /// What the bus carries, after the reset, when a ROM is written to an
    /// RW1990 or a TM01: the command and then the eight bytes in
    /// programming slots. A second version takes the bits as they are, the
    /// other kinds take their complements.
    pub open spec fn rom_request(rom: Seq<u8>, kind: Ds1990Type, parasite: bool) -> Seq<WireOp> {
        write_bytes_script(seq![0xD5u8], parasite) + write_bytes_rw_script(
            rom,
            !(kind is Rw1990p2),
        )
    }

    /// How writing `rom` to an RW1990 or a TM01 ended.
    ///
    /// The write lock is taken off, whatever the token answers to that;
    /// see [`Self::rom_sent`] for the rest. A kind without a write lock
    /// gives `NotSupport`. The first step that fails ends the whole with
    /// its error.
    pub open spec fn rom_written<W: IoWire>(
        before: Driver<W>,
        after: Driver<W>,
        rom: Seq<u8>,
        kind: Ds1990Type,
        r: Result<(), Error<W::Error>>,
    ) -> bool {
        ||| exists|unlocked: Result<bool, Error<W::Error>>|
            unlocked is Err && #[trigger] Self::lock_set(before, after, kind, false, unlocked)
                && same_error(unlocked, r)
        ||| exists|mid: Driver<W>, unlocked: Result<bool, Error<W::Error>>|
            unlocked is Ok && #[trigger] Self::lock_set(before, mid, kind, false, unlocked)
                && Self::rom_sent(mid, after, rom, kind, r)
    }

    /// How writing `rom` ended once the write lock was off: one
    /// transaction carries the ROM, see [`Self::rom_request`], then the
    /// write lock is set again, whatever the token answers to that.
    pub open spec fn rom_sent<W: IoWire>(
        before: Driver<W>,
        after: Driver<W>,
        rom: Seq<u8>,
        kind: Ds1990Type,
        r: Result<(), Error<W::Error>>,
    ) -> bool {
        let request = Self::rom_request(rom, kind, before.parasite());
        ||| r is Err && after.transacted(before, r, request)
        ||| exists|mid: Driver<W>, locked: Result<bool, Error<W::Error>>|
            {
                &&& #[trigger] mid.transacted(before, Ok::<(), Error<W::Error>>(()), request)
                &&& #[trigger] Self::lock_set(mid, after, kind, true, locked)
                &&& match locked {
                    Ok(_) => r is Ok,
                    Err(e) => r == Err::<(), Error<W::Error>>(e),
                }
            }
    }

    /// How writing `rom` to a TM2004 ended, from byte `from` on.
    ///
    /// Each byte has a transaction of its own that sends the request, see
    /// [`rom_byte_request`], and reads one byte, which must be the CRC-8 of
    /// the request: else the error is `CrcMismatch` with the CRC computed
    /// and the byte read. After the eighth byte comes the programming pulse.
    /// The first step that fails ends the whole with its error.
    pub open spec fn rom_written_tm2004<W: IoWire>(
        before: Driver<W>,
        after: Driver<W>,
        rom: Seq<u8>,
        from: nat,
        r: Result<(), Error<W::Error>>,
    ) -> bool
        decreases 8 - from,
    {
        if from >= 8 {
            after.wrote(before, r, program_pulse_script())
        } else {
            let request = rom_byte_request(from as u8, rom[from as int]);
            let sum = crc8(0, request);
            ||| exists|echo: u8|
                r is Err && #[trigger] after.transacted(
                    before,
                    r,
                    write_bytes_script(request, before.parasite()) + read_bytes_script(seq![echo]),
                )
            ||| exists|echo: u8|
                {
                    &&& echo != sum
                    &&& r == Err::<(), Error<W::Error>>(Error::CrcMismatch(sum, echo))
                    &&& #[trigger] after.transacted(
                        before,
                        Ok::<(), Error<W::Error>>(()),
                        write_bytes_script(request, before.parasite()) + read_bytes_script(
                            seq![echo],
                        ),
                    )
                }
            ||| exists|mid: Driver<W>|
                #[trigger] mid.transacted(
                    before,
                    Ok::<(), Error<W::Error>>(()),
                    write_bytes_script(request, before.parasite()) + read_bytes_script(seq![sum]),
                ) && Self::rom_written_tm2004(mid, after, rom, from + 1, r)
        }
    }

    /// A byte that was written and echoed well is followed by the rest.
    proof fn lemma_tm2004_next<W: IoWire>(
        before: Driver<W>,
        mid: Driver<W>,
        after: Driver<W>,
        rom: Seq<u8>,
        from: nat,
        r: Result<(), Error<W::Error>>,
    )
        requires
            from < 8,
            mid.transacted(
                before,
                Ok::<(), Error<W::Error>>(()),
                write_bytes_script(
                    rom_byte_request(from as u8, rom[from as int]),
                    before.parasite(),
                ) + read_bytes_script(
                    seq![crc8(0, rom_byte_request(from as u8, rom[from as int]))],
                ),
            ),
            Self::rom_written_tm2004(mid, after, rom, from + 1, r),
        ensures
            Self::rom_written_tm2004(before, after, rom, from, r),
    {
    }

    /// A byte whose transaction failed, or whose echo was wrong, ends the
    /// writing.
    proof fn lemma_tm2004_stopped<W: IoWire>(
        before: Driver<W>,
        after: Driver<W>,
        rom: Seq<u8>,
        from: nat,
        echo: u8,
        r: Result<(), Error<W::Error>>,
    )
        requires
            from < 8,
            ({
                let request = rom_byte_request(from as u8, rom[from as int]);
                let script = write_bytes_script(request, before.parasite()) + read_bytes_script(
                    seq![echo],
                );
                ||| r is Err && after.transacted(before, r, script)
                ||| {
                    &&& echo != crc8(0, request)
                    &&& r == Err::<(), Error<W::Error>>(
                        Error::CrcMismatch(crc8(0, request), echo),
                    )
                    &&& after.transacted(before, Ok::<(), Error<W::Error>>(()), script)
                }
            }),
        ensures
            Self::rom_written_tm2004(before, after, rom, from, r),
    {
    }

    /// Writes the address of `self` to the token on the bus, which is of
    /// kind `type_`. An RW1990 and a TM01 are written in one way, a TM2004
    /// in another; for any other kind the error is `NotSupport` and nothing
    /// is done on the bus.
    pub fn write_address<W: IoWire, D: DelayUs>(
        &self,
        driver: &mut Driver<W>,
        delay: &mut D,
        type_: Ds1990Type,
    ) -> (r: Result<(), Error<W::Error>>)
        ensures
            final(driver).kept_time(*old(driver), old(delay).waited(), final(delay).waited()),
            !(type_ is Rw1990p1 || type_ is Rw1990p2 || type_ is Tm01 || type_ is Tm2004)
                ==> *final(delay) == *old(delay),
            match type_ {
                Ds1990Type::Rw1990p1 | Ds1990Type::Rw1990p2 | Ds1990Type::Tm01 => Self::rom_written(
                    *old(driver),
                    *final(driver),
                    self.address@,
                    type_,
                    r,
                ),
                Ds1990Type::Tm2004 => Self::rom_written_tm2004(
                    *old(driver),
                    *final(driver),
                    self.address@,
                    0,
                    r,
                ),
                _ => r == Err::<(), Error<W::Error>>(Error::NotSupport) && final(driver).ran(
                    *old(driver),
                    Seq::empty(),
                ),
            },
    {
        match type_ {
            Ds1990Type::Rw1990p1 | Ds1990Type::Rw1990p2 | Ds1990Type::Tm01 => {
                self.write_address_rw1990(driver, delay, type_)
            },
            Ds1990Type::Tm2004 => self.write_address_tm2004(driver, delay),
            _ => {
                proof {
                    driver.lemma_ran_nothing();
                }
                Err(Error::NotSupport)
            },
        }
    }

    /// Writes the address of `self` to an RW1990 or a TM01.
    pub fn write_address_rw1990<W: IoWire, D: DelayUs>(
        &self,
        driver: &mut Driver<W>,
        delay: &mut D,
        type_: Ds1990Type,
    ) -> (r: Result<(), Error<W::Error>>)
        ensures
            final(driver).kept_time(*old(driver), old(delay).waited(), final(delay).waited()),
            lock_codes(type_, false) is None ==> *final(delay) == *old(delay),
            Self::rom_written(*old(driver), *final(driver), self.address@, type_, r),
    {
        let ghost d0 = *driver;
        let ghost went = Ok::<(), Error<W::Error>>(());
        let unlocked = Self::set_write_lock(driver, delay, type_, false);
        match unlocked {
            Ok(_) => {},
            Err(e) => {
                return Err(e);
            },
        }
        let ghost d1 = *driver;
        let cmd = [CommandRw1990::WriteRom.op_code()];
        assert(cmd@ =~= seq![0xD5u8]);
        let ghost t2 = write_bytes_script(seq![0xD5u8], d1.parasite());
        let invert = match type_ {
            Ds1990Type::Rw1990p2 => false,
            _ => true,
        };
        let ghost body = write_bytes_rw_script(self.address@, invert);
        let sent = driver.reset_write_only(delay, cmd.as_slice());
        match sent {
            Ok(()) => {},
            Err(e) => {
                proof {
                    driver.lemma_transacted_more::<(), ()>(d1, sent, t2, body);
                    assert(Self::rom_sent(d1, *driver, self.address@, type_, Err(e)));
                }
                return Err(e);
            },
        }
        let ghost d2 = *driver;
        match driver.write_bytes_rw(delay, self.address().as_ref(), invert) {
            Ok(()) => {},
            Err(e) => {
                proof {
                    driver.lemma_transacted_failed::<(), ()>(
                        d1,
                        d2,
                        went,
                        t2,
                        body,
                        Seq::empty(),
                        e,
                    );
                    assert(t2 + body + Seq::<WireOp>::empty() =~= t2 + body);
                    let r = Err::<(), Error<W::Error>>(Error::PortError(e));
                    assert(Self::rom_sent(d1, *driver, self.address@, type_, r));
                }
                return Err(Error::PortError(e));
            },
        }
        let ghost d3 = *driver;
        proof {
            d3.lemma_transacted_ran(
                d1,
                d2,
                went,
                t2,
                write_bytes_rw_script(self.address@, invert),
            );
        }
        let locked = Self::set_write_lock(driver, delay, type_, true);
        let r = match locked {
            Ok(_) => Ok(()),
            Err(e) => Err(e),
        };
        proof {
            assert(invert == !(type_ is Rw1990p2));
            assert(d3.transacted(d1, went, Self::rom_request(self.address@, type_, d1.parasite())));
            assert(Self::lock_set(d3, *driver, type_, true, locked));
            assert(Self::rom_sent(d1, *driver, self.address@, type_, r));
        }
        r
    }

    /// Writes the address of `self` to a TM2004.
    pub fn write_address_tm2004<W: IoWire, D: DelayUs>(
        &self,
        driver: &mut Driver<W>,
        delay: &mut D,
    ) -> (r: Result<(), Error<W::Error>>)
        ensures
            final(driver).kept_time(*old(driver), old(delay).waited(), final(delay).waited()),
            Self::rom_written_tm2004(*old(driver), *final(driver), self.address@, 0, r),
    {
        let ghost d0 = *driver;
        let ghost rom = self.address@;
        let mut crc_read = [0u8; 1];
        let mut i: u8 = 0;
        let ghost mut done: nat = 0;
        while i < 8
            invariant
                driver.kept_time(*old(driver), old(delay).waited(), delay.waited()),
                i <= 8,
                done == i,
                d0 == *old(driver),
                rom == self.address@,
                forall|after: Driver<W>, r: Result<(), Error<W::Error>>| #[trigger]
                    Self::rom_written_tm2004(*driver, after, rom, done, r)
                        ==> Self::rom_written_tm2004(d0, after, rom, 0, r),
            decreases 8 - i,
        {
            let ghost mid = *driver;
            let ghost went = Ok::<(), Error<W::Error>>(());
            let value = self.address().raw[i as usize];
            let cmd_write = [CommandTm2004::WriteRom.op_code(), i, 0, value];
            assert(cmd_write@ =~= rom_byte_request(i, rom[i as int]));
            match driver.reset_write_read(delay, cmd_write.as_slice(), &mut crc_read) {
                Ok(()) => {},
                Err(e) => {
                    proof {
                        let r = Err::<(), Error<W::Error>>(e);
                        assert((i as nat) as u8 == i);
                        assert(crc_read@ =~= seq![crc_read@[0]]);
                        assert(driver.transacted(
                            mid,
                            r,
                            write_bytes_script(rom_byte_request(i, rom[i as int]), mid.parasite())
                                + read_bytes_script(seq![crc_read@[0]]),
                        ));
                        Self::lemma_tm2004_stopped(mid, *driver, rom, done, crc_read@[0], r);
                    }
                    return Err(e);
                },
            }
            let crc_write = compute_partial_crc8(0, cmd_write.as_slice());
            proof {
                assert(crc_read@ =~= seq![crc_read@[0]]);
            }
            if crc_write != crc_read[0] {
                proof {
                    let r = Err::<(), Error<W::Error>>(Error::CrcMismatch(crc_write, crc_read@[0]));
                    let request = rom_byte_request(i, rom[i as int]);
                    assert(crc_write == crc8(0, request));
                    assert(driver.transacted(
                        mid,
                        went,
                        write_bytes_script(request, mid.parasite()) + read_bytes_script(
                            seq![crc_read@[0]],
                        ),
                    ));
                    assert((i as nat) as u8 == i);
                    Self::lemma_tm2004_stopped(mid, *driver, rom, done, crc_read@[0], r);
                }
                return Err(Error::CrcMismatch(crc_write, crc_read[0]));
            }
            proof {
                let now = *driver;
                assert forall|after: Driver<W>, r: Result<(), Error<W::Error>>| #[trigger]
                    Self::rom_written_tm2004(now, after, rom, done + 1, r)
                    implies Self::rom_written_tm2004(d0, after, rom, 0, r) by {
                    assert((i as nat) as u8 == i);
                    assert(now.transacted(
                        mid,
                        went,
                        write_bytes_script(rom_byte_request(i, rom[i as int]), mid.parasite())
                            + read_bytes_script(seq![crc8(0, rom_byte_request(i, rom[i as int]))]),
                    ));
                    Self::lemma_tm2004_next(mid, now, after, rom, done, r);
                }
                done = done + 1;
            }
            i += 1;
        }
        let ghost mid = *driver;
        let r = match driver.program_pulse(delay) {
            Ok(()) => Ok(()),
            Err(e) => Err(Error::PortError(e)),
        };
        proof {
            assert(done == 8);
            assert(Self::rom_written_tm2004(mid, *driver, rom, done, r));
        }
        r
    }
}

} // verus!
