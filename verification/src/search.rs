//! Enumerating the devices on a bus.
//!
//! Every device has its own 64-bit ROM. To find them the master walks the
//! binary tree of the ROMs that are present, one path from the root to a
//! leaf in each pass. At each bit it reads two slots: in the first every
//! device that still takes part sends its bit, in the second the
//! complement. Since a 0 wins on the line, the pair tells whether the
//! devices agree, and the master answers with the bit it goes on with:
//! devices with the other bit drop out until the next reset.

use vstd::prelude::*;
use crate::address::Address;
use crate::command::{Command, OpCode};
use crate::crc::bit_of;
use crate::driver::Driver;
use crate::iowire::{DelayUs, IoWire};
use crate::result::Error;
use crate::trace::{
    lemma_alike_joined, lemma_alike_same, lemma_reset_alike, presence_samples, read_slot,
    reset_frame, reset_script, stuck_script, unanswered, watchdog_polls, write_byte_script,
    write_slot, WireOp,
};

verus! {

/// Where a search stands.
#[derive(Debug, Clone, Copy, PartialEq, Eq, Structural)]
pub enum SearchState {
    /// No pass was made yet.
    Initialized,
    /// A pass found a device, and there may be more.
    DeviceFound,
    /// Every device was found.
    End,
}

impl Default for SearchState {
    fn default() -> (r: Self)
        ensures
            r == SearchState::Initialized,
    {
        SearchState::Initialized
    }
}

/// The cursor of a search: the ROM of the last pass, and the bits at which
/// that pass went to the 0 side while devices with a 1 were there too.
#[derive(Clone)]
pub struct DeviceSearch {
    address: [u8; 8],
    discrepancies: [u8; 8],
    state: SearchState,
}

impl Default for DeviceSearch {
    /// A cursor at the start of a search.
    fn default() -> (r: Self)
        ensures
            r@.rom == Seq::new(64, |i: int| false),
            r@.forks == Seq::new(64, |i: int| false),
            r@.state == SearchState::Initialized,
    {
        DeviceSearch::new()
    }
}

/// A cursor as the specifications see it, bit by bit.
pub struct Cursor {
    /// The 64 bits of the ROM, in the order in which they travel.
    pub rom: Seq<bool>,
    /// For each bit, whether the 1 side is still to be visited.
    pub forks: Seq<bool>,
    /// Where the search stands.
    pub state: SearchState,
}

/// The 64 bits of a ROM of eight bytes, in the order in which they travel.
pub open spec fn rom_bits(bytes: Seq<u8>) -> Seq<bool> {
    Seq::new(64, |i: int| bit_of(bytes[i / 8], (i % 8) as nat))
}

/// The highest of the first `n` positions that is set.
pub open spec fn highest_below(forks: Seq<bool>, n: nat) -> Option<u8>
    decreases n,
{
    if n == 0 {
        None
    } else if forks[n - 1] {
        Some((n - 1) as u8)
    } else {
        highest_below(forks, (n - 1) as nat)
    }
}

/// The highest fork of a cursor.
pub open spec fn last_fork(forks: Seq<bool>) -> Option<u8> {
    highest_below(forks, 64)
}

/// The cursor has all its 64 bits.
pub open spec fn cursor_wf(c: Cursor) -> bool {
    c.rom.len() == 64 && c.forks.len() == 64
}

/// One bit of a pass: what becomes of the cursor `c` at bit `i` when the
/// two read slots gave `b0` and `b1`, in a pass that set out with the
/// highest fork `last`. `None` when the pass breaks off here.
///
/// Below `last` the pass goes the way it went before. At `last` it takes
/// the 1 side and the fork is done with. Above `last` it goes where the
/// devices are: if both sides are taken it takes the 0 side and notes the
/// fork. Wherever a pair of 1s shows that no device takes part any more,
/// the pass breaks off, except at `last`, where the pair is not looked at.
pub open spec fn turn(c: Cursor, last: Option<u8>, i: int, b0: bool, b1: bool) -> Option<
    Cursor,
> {
    if last is Some && i < last->0 {
        if b0 && b1 {
            None
        } else {
            Some(c)
        }
    } else if last is Some && i == last->0 {
        Some(Cursor { rom: c.rom.update(i, true), forks: c.forks.update(i, false), ..c })
    } else if b0 && b1 {
        None
    } else if !b0 && !b1 {
        Some(Cursor { rom: c.rom.update(i, false), forks: c.forks.update(i, true), ..c })
    } else {
        Some(Cursor { rom: c.rom.update(i, b0), ..c })
    }
}

/// The cursor after the bits `0 .. pairs.len()` of a pass that read
/// `pairs`, or `None` if the pass broke off at one of them.
pub open spec fn walk(c: Cursor, last: Option<u8>, pairs: Seq<(bool, bool)>) -> Option<Cursor>
    decreases pairs.len(),
{
    if pairs.len() == 0 {
        Some(c)
    } else {
        match walk(c, last, pairs.drop_last()) {
            None => None,
            Some(m) => turn(m, last, pairs.len() - 1, pairs.last().0, pairs.last().1),
        }
    }
}

/// What the master does on the line during the bits `0 .. pairs.len()` of
/// a pass: at each bit two read slots and, unless the pass breaks off
/// there, a write slot with the bit that the cursor then holds.
pub open spec fn walk_script(c: Cursor, last: Option<u8>, pairs: Seq<(bool, bool)>) -> Seq<
    WireOp,
>
    decreases pairs.len(),
{
    if pairs.len() == 0 {
        Seq::empty()
    } else {
        let before = walk_script(c, last, pairs.drop_last());
        let reads = read_slot(pairs.last().0) + read_slot(pairs.last().1);
        match walk(c, last, pairs) {
            None => before + reads,
            Some(m) => before + reads + write_slot(m.rom[pairs.len() - 1]),
        }
    }
}

/// A pass recorded a fork that was not there before.
pub open spec fn new_fork(start: Cursor, end: Cursor) -> bool {
    exists|i: int| 0 <= i < 64 && #[trigger] end.forks[i] && !start.forks[i]
}

/// How a pass over the bits ended that set out from `start` and read
/// `pairs`.
///
/// If it got through all 64 bits it found the ROM that the cursor now
/// holds; the search is at its end if the pass set out without a fork and
/// recorded none, else there may be more devices. If it broke off, the
/// cursor is left as it was at that bit, and nothing was found.
pub open spec fn passed(
    start: Cursor,
    pairs: Seq<(bool, bool)>,
    end: Cursor,
    found: Option<Address>,
) -> bool {
    let last = last_fork(start.forks);
    match walk(start, last, pairs) {
        Some(c) => {
            &&& pairs.len() == 64
            &&& end == Cursor {
                state: if last is None && !new_fork(start, c) {
                    SearchState::End
                } else {
                    SearchState::DeviceFound
                },
                ..c
            }
            &&& found is Some
            &&& rom_bits(found->0@) == c.rom
        },
        None => {
            &&& 0 < pairs.len() <= 64
            &&& walk(start, last, pairs.drop_last()) == Some(end)
            &&& found is None
        },
    }
}

impl View for DeviceSearch {
    type V = Cursor;

    closed spec fn view(&self) -> Cursor {
        Cursor {
            rom: rom_bits(self.address@),
            forks: rom_bits(self.discrepancies@),
            state: self.state,
        }
    }
}

/// The highest fork is a fork, and above it there is none.
pub proof fn lemma_highest_below(forks: Seq<bool>, n: nat)
    requires
        n <= 64,
    ensures
        match highest_below(forks, n) {
            Some(k) => k < n && forks[k as int] && forall|j: int| k < j < n ==> !forks[j],
            None => forall|j: int| 0 <= j < n ==> !forks[j],
        },
    decreases n,
{
    if n > 0 && !forks[n - 1] {
        lemma_highest_below(forks, (n - 1) as nat);
    }
}

proof fn lemma_bit_update(x: u8, o: u8, j: u8)
    requires
        o < 8,
        j < 8,
    ensures
        bit_of(x | (1u8 << o), j as nat) == (j == o || bit_of(x, j as nat)),
        bit_of(x & !(1u8 << o), j as nat) == (j != o && bit_of(x, j as nat)),
{
    assert((((x | (1u8 << o)) >> j) & 1 == 1) == (j == o || (x >> j) & 1 == 1)) by (bit_vector)
        requires
            o < 8,
            j < 8,
    ;
    assert((((x & !(1u8 << o)) >> j) & 1 == 1) == (j != o && (x >> j) & 1 == 1)) by (bit_vector)
        requires
            o < 8,
            j < 8,
    ;
    assert((x | (1u8 << o)) >> j == (x | (1u8 << o)) >> (j as nat));
    assert((x & !(1u8 << o)) >> j == (x & !(1u8 << o)) >> (j as nat));
    assert(x >> j == x >> (j as nat));
}

proof fn lemma_rom_bits_update(bytes: Seq<u8>, bit: u8, value: bool)
    requires
        bytes.len() == 8,
        bit < 64,
    ensures
        rom_bits(
            bytes.update(
                bit as int / 8,
                if value {
                    bytes[bit as int / 8] | (1u8 << (bit % 8))
                } else {
                    bytes[bit as int / 8] & !(1u8 << (bit % 8))
                },
            ),
        ) == rom_bits(bytes).update(bit as int, value),
{
    let k = bit as int / 8;
    let o = (bit % 8) as u8;
    let x = bytes[k];
    let y = if value {
        x | (1u8 << o)
    } else {
        x & !(1u8 << o)
    };
    let a = rom_bits(bytes.update(k, y));
    let b = rom_bits(bytes).update(bit as int, value);
    assert forall|i: int| 0 <= i < 64 implies a[i] == b[i] by {
        if i / 8 == k {
            lemma_bit_update(x, o, (i % 8) as u8);
        }
    }
    assert(a =~= b);
}

impl DeviceSearch {
    /// A cursor at the start of a search.
    pub fn new() -> (r: DeviceSearch)
        ensures
            r@.rom == Seq::new(64, |i: int| false),
            r@.forks == Seq::new(64, |i: int| false),
            r@.state == SearchState::Initialized,
    {
        let r = DeviceSearch {
            address: [0, 0, 0, 0, 0, 0, 0, 0],
            discrepancies: [0, 0, 0, 0, 0, 0, 0, 0],
            state: SearchState::Initialized,
        };
        proof {
            assert(bit_of(0u8, 0) == false && bit_of(0u8, 1) == false && bit_of(0u8, 2) == false
                && bit_of(0u8, 3) == false && bit_of(0u8, 4) == false && bit_of(0u8, 5) == false
                && bit_of(0u8, 6) == false && bit_of(0u8, 7) == false) by (bit_vector);
            assert(r@.rom =~= Seq::new(64, |i: int| false));
            assert(r@.forks =~= Seq::new(64, |i: int| false));
        }
        r
    }

    /// A cursor at the start of a search whose ROM holds `family` in its
    /// first byte. The first pass sets every bit of the ROM anew, so the
    /// search finds the devices of every family: who wants one family
    /// only looks at the family code of what is found.
    pub fn new_for_family(family: u8) -> (r: DeviceSearch)
        ensures
            r@.rom == rom_bits(seq![family, 0u8, 0u8, 0u8, 0u8, 0u8, 0u8, 0u8]),
            r@.forks == Seq::new(64, |i: int| false),
            r@.state == SearchState::Initialized,
    {
        let search = DeviceSearch {
            address: [family, 0, 0, 0, 0, 0, 0, 0],
            discrepancies: [0, 0, 0, 0, 0, 0, 0, 0],
            state: SearchState::Initialized,
        };
        proof {
            assert(bit_of(0u8, 0) == false && bit_of(0u8, 1) == false && bit_of(0u8, 2) == false
                && bit_of(0u8, 3) == false && bit_of(0u8, 4) == false && bit_of(0u8, 5) == false
                && bit_of(0u8, 6) == false && bit_of(0u8, 7) == false) by (bit_vector);
            assert(search.address@ =~= seq![family, 0u8, 0u8, 0u8, 0u8, 0u8, 0u8, 0u8]);
            assert(search@.forks =~= Seq::new(64, |i: int| false));
        }
        search
    }

    /// Is bit `bit` of `array` set? Bits beyond the array are not.
    fn is_bit_set(array: &[u8], bit: u8) -> (r: bool)
        ensures
            r == (bit as int / 8 < array@.len() && bit_of(
                array@[bit as int / 8],
                (bit % 8) as nat,
            )),
    {
        if (bit / 8) as usize >= array.len() {
            return false;
        }
        let index = bit / 8;
        let offset = bit % 8;
        let x = array[index as usize];
        proof {
            assert((x & (0x01u8 << offset) != 0x00) == ((x >> offset) & 1 == 1)) by (bit_vector)
                requires
                    offset < 8,
            ;
            assert(x >> offset == x >> (offset as nat));
        }
        x & (0x01 << offset) != 0x00
    }

    /// Sets bit `bit` of `array`, if the array has it.
    fn set_bit(array: &mut [u8], bit: u8)
        ensures
            final(array)@ == if bit as int / 8 < old(array)@.len() {
                old(array)@.update(
                    bit as int / 8,
                    old(array)@[bit as int / 8] | (1u8 << (bit % 8)),
                )
            } else {
                old(array)@
            },
    {
        if (bit / 8) as usize >= array.len() {
            return ;
        }
        let index = bit / 8;
        let offset = bit % 8;
        let x = array[index as usize];
        array[index as usize] = x | (0x01 << offset);
        proof {
            assert(array@ =~= old(array)@.update(
                bit as int / 8,
                old(array)@[bit as int / 8] | (1u8 << (bit % 8)),
            ));
        }
    }

    /// Clears bit `bit` of `array`, if the array has it.
    fn reset_bit(array: &mut [u8], bit: u8)
        ensures
            final(array)@ == if bit as int / 8 < old(array)@.len() {
                old(array)@.update(
                    bit as int / 8,
                    old(array)@[bit as int / 8] & !(1u8 << (bit % 8)),
                )
            } else {
                old(array)@
            },
    {
        if (bit / 8) as usize >= array.len() {
            return ;
        }
        let index = bit / 8;
        let offset = bit % 8;
        let x = array[index as usize];
        array[index as usize] = x & !(0x01 << offset);
        proof {
            assert(array@ =~= old(array)@.update(
                bit as int / 8,
                old(array)@[bit as int / 8] & !(1u8 << (bit % 8)),
            ));
        }
    }

    fn is_bit_set_in_address(&self, bit: u8) -> (r: bool)
        ensures
            r == (bit < 64 && self@.rom[bit as int]),
    {
        DeviceSearch::is_bit_set(self.address.as_slice(), bit)
    }

    fn set_bit_in_address(&mut self, bit: u8)
        ensures
            final(self)@ == if bit < 64 {
                (Cursor { rom: old(self)@.rom.update(bit as int, true), ..old(self)@ })
            } else {
                old(self)@
            },
    {
        proof {
            if bit < 64 {
                lemma_rom_bits_update(self.address@, bit, true);
            }
        }
        DeviceSearch::set_bit(&mut self.address, bit);
    }

    fn reset_bit_in_address(&mut self, bit: u8)
        ensures
            final(self)@ == if bit < 64 {
                (Cursor { rom: old(self)@.rom.update(bit as int, false), ..old(self)@ })
            } else {
                old(self)@
            },
    {
        proof {
            if bit < 64 {
                lemma_rom_bits_update(self.address@, bit, false);
            }
        }
        DeviceSearch::reset_bit(&mut self.address, bit);
    }

    fn write_bit_in_address(&mut self, bit: u8, value: bool)
        ensures
            final(self)@ == if bit < 64 {
                (Cursor { rom: old(self)@.rom.update(bit as int, value), ..old(self)@ })
            } else {
                old(self)@
            },
    {
        if value {
            self.set_bit_in_address(bit);
        } else {
            self.reset_bit_in_address(bit);
        }
    }

    fn is_bit_set_in_discrepancies(&self, bit: u8) -> (r: bool)
        ensures
            r == (bit < 64 && self@.forks[bit as int]),
    {
        DeviceSearch::is_bit_set(self.discrepancies.as_slice(), bit)
    }

    fn set_bit_in_discrepancy(&mut self, bit: u8)
        ensures
            final(self)@ == if bit < 64 {
                (Cursor { forks: old(self)@.forks.update(bit as int, true), ..old(self)@ })
            } else {
                old(self)@
            },
    {
        proof {
            if bit < 64 {
                lemma_rom_bits_update(self.discrepancies@, bit, true);
            }
        }
        DeviceSearch::set_bit(&mut self.discrepancies, bit);
    }

    fn reset_bit_in_discrepancy(&mut self, bit: u8)
        ensures
            final(self)@ == if bit < 64 {
                (Cursor { forks: old(self)@.forks.update(bit as int, false), ..old(self)@ })
            } else {
                old(self)@
            },
    {
        proof {
            if bit < 64 {
                lemma_rom_bits_update(self.discrepancies@, bit, false);
            }
        }
        DeviceSearch::reset_bit(&mut self.discrepancies, bit);
    }

    fn write_bit_in_discrepancy(&mut self, bit: u8, value: bool)
        ensures
            final(self)@ == if bit < 64 {
                (Cursor { forks: old(self)@.forks.update(bit as int, value), ..old(self)@ })
            } else {
                old(self)@
            },
    {
        if value {
            self.set_bit_in_discrepancy(bit);
        } else {
            self.reset_bit_in_discrepancy(bit);
        }
    }

    /// One bit of a pass: takes the two bits read at position `i` and
    /// gives the bit to answer with, or `None` if the pass breaks off.
    pub fn advance(&mut self, i: u8, last: Option<u8>, bit0: bool, bit1: bool) -> (r: Option<bool>)
        requires
            i < 64,
        ensures
            match turn(old(self)@, last, i as int, bit0, bit1) {
                Some(c) => final(self)@ == c && r == Some(c.rom[i as int]),
                None => final(self)@ == old(self)@ && r is None,
            },
    {
        let replay = match last {
            Some(l) => i < l,
            None => false,
        };
        let forced = match last {
            Some(l) => i == l,
            None => false,
        };
        if replay {
            if bit0 && bit1 {
                None
            } else {
                Some(self.is_bit_set_in_address(i))
            }
        } else if forced {
            self.reset_bit_in_discrepancy(i);
            self.set_bit_in_address(i);
            Some(true)
        } else if bit0 && bit1 {
            None
        } else if !bit0 && !bit1 {
            self.set_bit_in_discrepancy(i);
            self.reset_bit_in_address(i);
            Some(false)
        } else {
            self.write_bit_in_address(i, bit0);
            Some(bit0)
        }
    }

    /// The highest bit at which the 1 side is still to be visited.
    pub fn last_discrepancy(&self) -> (r: Option<u8>)
        ensures
            r == last_fork(self@.forks),
    {
        let mut result: Option<u8> = None;
        let mut i: u8 = 0;
        while i < 64
            invariant
                i <= 64,
                result == highest_below(self@.forks, i as nat),
            decreases 64 - i,
        {
            if self.is_bit_set_in_discrepancies(i) {
                result = Some(i);
            }
            i += 1;
        }
        result
    }
}

impl<W: IoWire> Driver<W> {
    /// How one call of a search ended, by the cursor before and after it
    /// and by what the driver did on the line.
    ///
    /// - A search at its end does nothing and finds nothing.
    /// - Else the bus is reset. If the line does not rise the error is
    ///   `WireFault`. If no device answers, nothing is found.
    /// - Else the command `code` is sent, without parasite power. A cursor
    ///   without a fork that has found a device before is now at its end:
    ///   nothing is found.
    /// - Else the pass over the 64 bits is made, see [`passed`].
    ///
    /// A failing line gives `PortError`: the driver had begun a reset, the
    /// command and some pass, and did nothing after the call that failed.
    pub open spec fn searched(
        &self,
        before: Self,
        start: Cursor,
        end: Cursor,
        code: u8,
        r: Result<Option<Address>, Error<W::Error>>,
    ) -> bool {
        if start.state == SearchState::End {
            r == Ok::<Option<Address>, Error<W::Error>>(None) && end == start && self.ran(
                before,
                Seq::empty(),
            )
        } else {
            match r {
                Err(Error::WireFault) => end == start && self.ran(before, stuck_script()),
                Err(Error::PortError(e)) => exists|polls: nat, pairs: Seq<(bool, bool)>|
                    polls < watchdog_polls() && pairs.len() <= 64 && self.failed(
                        before,
                        #[trigger] reset_script(polls, unanswered()) + write_byte_script(
                            code,
                            false,
                        ) + #[trigger] walk_script(start, last_fork(start.forks), pairs),
                        e,
                    ),
                Err(_) => false,
                Ok(found) => {
                    ||| {
                        &&& found is None
                        &&& end == start
                        &&& exists|frame: Seq<WireOp>|
                            #[trigger] reset_frame(frame, false) && self.ran(before, frame)
                    }
                    ||| exists|frame: Seq<WireOp>|
                        #[trigger] reset_frame(frame, true) && self.searched_from(
                            before,
                            start,
                            end,
                            frame + write_byte_script(code, false),
                            found,
                        )
                },
            }
        }
    }

    /// How a search ended after the reset and the command, which make up
    /// `head`.
    pub open spec fn searched_from(
        &self,
        before: Self,
        start: Cursor,
        end: Cursor,
        head: Seq<WireOp>,
        found: Option<Address>,
    ) -> bool {
        if last_fork(start.forks) is None && start.state == SearchState::DeviceFound {
            &&& found is None
            &&& end == Cursor { state: SearchState::End, ..start }
            &&& self.ran(before, head)
        } else {
            exists|pairs: Seq<(bool, bool)>|
                passed(start, pairs, end, found) && self.ran(
                    before,
                    head + #[trigger] walk_script(start, last_fork(start.forks), pairs),
                )
        }
    }

    /// A call to the line that fails in the command or in the pass makes the
    /// search fail.
    proof fn lemma_search_failed(
        self,
        before: Self,
        start: Cursor,
        end: Cursor,
        code: u8,
        frame: Seq<WireOp>,
        pairs: Seq<(bool, bool)>,
        e: W::Error,
    )
        requires
            start.state != SearchState::End,
            reset_frame(frame, true),
            pairs.len() <= 64,
            self.failed(
                before,
                frame + write_byte_script(code, false) + walk_script(
                    start,
                    last_fork(start.forks),
                    pairs,
                ),
                e,
            ),
        ensures
            self.searched(
                before,
                start,
                end,
                code,
                Err::<Option<Address>, Error<W::Error>>(Error::PortError(e)),
            ),
    {
        let (polls, samples) = choose|polls: nat, samples: Seq<bool>|
            polls < watchdog_polls() && samples.len() == presence_samples() && samples.contains(
                true,
            ) == true && frame == #[trigger] reset_script(polls, samples);
        let rest = write_byte_script(code, false) + walk_script(
            start,
            last_fork(start.forks),
            pairs,
        );
        let quiet = reset_script(polls, unanswered());
        lemma_reset_alike(polls, samples, unanswered());
        lemma_alike_same(rest);
        lemma_alike_joined(frame, quiet, rest, rest);
        assert(frame + write_byte_script(code, false) + walk_script(
            start,
            last_fork(start.forks),
            pairs,
        ) =~= frame + rest);
        self.lemma_failed_alike(before, frame + rest, quiet + rest, e);
        assert(quiet + rest =~= quiet + write_byte_script(code, false) + walk_script(
            start,
            last_fork(start.forks),
            pairs,
        ));
    }

    /// A pass in which a read slot fails has begun a pass that goes on:
    /// had the line not failed, a 0 might have been read, and with a 0 in
    /// its pair no pass breaks off.
    proof fn lemma_pass_failed(
        self,
        before: Self,
        mid: Self,
        start: Cursor,
        at: Cursor,
        code: u8,
        frame: Seq<WireOp>,
        pairs: Seq<(bool, bool)>,
        first: Option<bool>,
        e: W::Error,
    )
        requires
            start.state != SearchState::End,
            reset_frame(frame, true),
            pairs.len() < 64,
            walk(start, last_fork(start.forks), pairs) == Some(at),
            mid.ran(
                before,
                frame + write_byte_script(code, false) + walk_script(
                    start,
                    last_fork(start.forks),
                    pairs,
                ) + match first {
                    Some(bit) => read_slot(bit),
                    None => Seq::empty(),
                },
            ),
            self.failed(mid, read_slot(true), e),
        ensures
            self.searched(
                before,
                start,
                at,
                code,
                Err::<Option<Address>, Error<W::Error>>(Error::PortError(e)),
            ),
    {
        let last = last_fork(start.forks);
        let i = pairs.len() as int;
        let head = frame + write_byte_script(code, false);
        let so_far = head + walk_script(start, last, pairs);
        let guess = pairs.push(
            (
                match first {
                    Some(bit) => bit,
                    None => false,
                },
                false,
            ),
        );
        assert(guess.drop_last() =~= pairs);
        let bit = turn(at, last, i, guess.last().0, false)->0.rom[i];
        let t = so_far + match first {
            Some(bit) => read_slot(bit),
            None => Seq::empty(),
        };
        let rest = match first {
            Some(_) => write_slot(bit),
            None => read_slot(false) + write_slot(bit),
        };
        self.lemma_ran_failed(before, mid, t, read_slot(true), rest, e);
        lemma_alike_same(t);
        lemma_alike_same(rest);
        lemma_alike_joined(t, t, read_slot(true), read_slot(false));
        lemma_alike_joined(t + read_slot(true), t + read_slot(false), rest, rest);
        assert(t + read_slot(false) + rest =~= head + walk_script(start, last, guess));
        self.lemma_failed_alike(
            before,
            t + read_slot(true) + rest,
            head + walk_script(start, last, guess),
            e,
        );
        self.lemma_search_failed(before, start, at, code, frame, guess, e);
    }

    /// One call of a search with the command `cmd`.
    pub(crate) fn search<D: DelayUs>(
        &mut self,
        rom: &mut DeviceSearch,
        delay: &mut D,
        cmd: Command,
    ) -> (r: Result<Option<Address>, Error<W::Error>>)
        ensures
            final(self).kept_time(*old(self), old(delay).waited(), final(delay).waited()),
            old(rom)@.state == SearchState::End ==> *final(delay) == *old(delay),
            final(self).searched(*old(self), old(rom)@, final(rom)@, cmd.code(), r),
    {
        let ghost d0 = *self;
        let ghost start = rom@;
        if rom.state == SearchState::End {
            proof {
                self.lemma_ran_nothing();
            }
            return Ok(None);
        }
        let last = rom.last_discrepancy();
        let code = cmd.op_code();
        let ghost none = Seq::<(bool, bool)>::empty();
        proof {
            assert(walk_script(start, last, none) =~= Seq::<WireOp>::empty());
        }
        match self.reset_presence(delay) {
            Ok(true) => {},
            Ok(false) => {
                return Ok(None);
            },
            Err(Error::PortError(e)) => {
                proof {
                    let inner = Err::<(), Error<W::Error>>(Error::PortError(e));
                    self.lemma_transacted_more::<(), ()>(
                        d0,
                        inner,
                        Seq::empty(),
                        write_byte_script(code, false) + walk_script(start, last, none),
                    );
                    let polls = choose|polls: nat|
                        polls < watchdog_polls() && self.failed(
                            d0,
                            #[trigger] reset_script(polls, unanswered()) + (Seq::<WireOp>::empty()
                                + (write_byte_script(code, false) + walk_script(
                                start,
                                last,
                                none,
                            ))),
                            e,
                        );
                    assert(reset_script(polls, unanswered()) + (Seq::<WireOp>::empty() + (
                    write_byte_script(code, false) + walk_script(start, last, none)))
                        =~= reset_script(polls, unanswered()) + write_byte_script(code, false)
                        + walk_script(start, last, none));
                }
                return Err(Error::PortError(e));
            },
            Err(e) => {
                return Err(e);
            },
        }
        let ghost frame = choose|frame: Seq<WireOp>|
            #[trigger] reset_frame(frame, true) && self.ran(d0, frame + Seq::<WireOp>::empty());
        let ghost d1 = *self;
        proof {
            assert(frame + Seq::<WireOp>::empty() =~= frame);
        }
        match self.write_byte(delay, code, false) {
            Ok(()) => {},
            Err(e) => {
                proof {
                    self.lemma_ran_failed(
                        d0,
                        d1,
                        frame,
                        write_byte_script(code, false),
                        walk_script(start, last, none),
                        e,
                    );
                    self.lemma_search_failed(d0, start, rom@, code, frame, none, e);
                }
                return Err(Error::PortError(e));
            },
        }
        let ghost head = frame + write_byte_script(code, false);
        proof {
            self.lemma_ran_ran(d0, d1, frame, write_byte_script(code, false));
        }
        if last.is_none() && rom.state == SearchState::DeviceFound {
            rom.state = SearchState::End;
            proof {
                assert(self.searched_from(d0, start, rom@, head, None));
            }
            return Ok(None);
        }
        let ghost mut pairs: Seq<(bool, bool)> = Seq::empty();
        proof {
            assert(head + walk_script(start, last, pairs) =~= head);
        }
        let mut i: u8 = 0;
        while i < 64
            invariant
                self.kept_time(*old(self), old(delay).waited(), delay.waited()),
                i <= 64,
                d0 == *old(self),
                start == old(rom)@,
                start.state != SearchState::End,
                !(last is None && start.state == SearchState::DeviceFound),
                last == last_fork(start.forks),
                reset_frame(frame, true),
                head == frame + write_byte_script(code, false),
                code == cmd.code(),
                pairs.len() == i,
                walk(start, last, pairs) == Some(rom@),
                self.ran(d0, head + walk_script(start, last, pairs)),
            decreases 64 - i,
        {
            let ghost d2 = *self;
            let ghost t2 = head + walk_script(start, last, pairs);
            let bit0 = match self.read_bit(delay) {
                Ok(bit) => bit,
                Err(e) => {
                    proof {
                        self.lemma_pass_failed(d0, d2, start, rom@, code, frame, pairs, None, e);
                    }
                    return Err(Error::PortError(e));
                },
            };
            let ghost d3 = *self;
            let ghost t3 = t2 + read_slot(bit0);
            proof {
                self.lemma_ran_ran(d0, d2, t2, read_slot(bit0));
            }
            let bit1 = match self.read_bit(delay) {
                Ok(bit) => bit,
                Err(e) => {
                    proof {
                        assert(t3 =~= frame + write_byte_script(code, false) + walk_script(
                            start,
                            last,
                            pairs,
                        ) + read_slot(bit0));
                        self.lemma_pass_failed(
                            d0,
                            d3,
                            start,
                            rom@,
                            code,
                            frame,
                            pairs,
                            Some(bit0),
                            e,
                        );
                    }
                    return Err(Error::PortError(e));
                },
            };
            let ghost d4 = *self;
            let ghost t4 = t3 + read_slot(bit1);
            let ghost next = pairs.push((bit0, bit1));
            let ghost at = rom@;
            proof {
                self.lemma_ran_ran(d0, d3, t3, read_slot(bit1));
                assert(next.drop_last() =~= pairs);
                assert(next.last() == (bit0, bit1));
                assert(t4 =~= head + (walk_script(start, last, pairs) + (read_slot(bit0)
                    + read_slot(bit1))));
            }
            match rom.advance(i, last, bit0, bit1) {
                None => {
                    proof {
                        assert(walk(start, last, next) is None);
                        assert(walk_script(start, last, next) =~= walk_script(start, last, pairs)
                            + (read_slot(bit0) + read_slot(bit1)));
                        assert(passed(start, next, rom@, None));
                        assert(self.searched_from(d0, start, rom@, head, None));
                    }
                    return Ok(None);
                },
                Some(bit) => {
                    match self.write_bit(delay, bit) {
                        Ok(()) => {},
                        Err(e) => {
                            proof {
                                self.lemma_ran_failed(
                                    d0,
                                    d4,
                                    t4,
                                    write_slot(bit),
                                    Seq::empty(),
                                    e,
                                );
                                assert(walk(start, last, next) == Some(rom@));
                                assert(t4 + write_slot(bit) + Seq::<WireOp>::empty() =~= head
                                    + walk_script(start, last, next));
                                self.lemma_search_failed(d0, start, rom@, code, frame, next, e);
                            }
                            return Err(Error::PortError(e));
                        },
                    }
                    proof {
                        self.lemma_ran_ran(d0, d4, t4, write_slot(bit));
                        assert(walk(start, last, next) == Some(rom@));
                        assert(walk_script(start, last, next) =~= walk_script(start, last, pairs)
                            + (read_slot(bit0) + read_slot(bit1)) + write_slot(bit));
                        assert(t4 + write_slot(bit) =~= head + walk_script(start, last, next));
                        pairs = next;
                    }
                },
            }
            i += 1;
        }
        let ghost c = rom@;
        let fresh = rom.last_discrepancy();
        proof {
            lemma_highest_below(start.forks, 64);
            lemma_highest_below(c.forks, 64);
            if last is None {
                if new_fork(start, c) {
                    let k = choose|k: int| 0 <= k < 64 && #[trigger] c.forks[k] && !start.forks[k];
                    assert(fresh is Some);
                }
                if fresh is Some {
                    assert(c.forks[fresh->0 as int] && !start.forks[fresh->0 as int]);
                }
            }
        }
        if last.is_none() && fresh.is_none() {
            rom.state = SearchState::End;
        } else {
            rom.state = SearchState::DeviceFound;
        }
        let found = Address { raw: rom.address };
        proof {
            assert(passed(start, pairs, rom@, Some(found)));
            assert(self.searched_from(d0, start, rom@, head, Some(found)));
        }
        Ok(Some(found))
    }

    /// One call of a search for all devices. `None` when there is nothing
    /// more to find.
    pub fn search_next<D: DelayUs>(&mut self, search: &mut DeviceSearch, delay: &mut D) -> (r:
        Result<Option<Address>, Error<W::Error>>)
        ensures
            final(self).kept_time(*old(self), old(delay).waited(), final(delay).waited()),
            old(search)@.state == SearchState::End ==> *final(delay) == *old(delay),
            final(self).searched(*old(self), old(search)@, final(search)@, 0xF0, r),
    {
        self.search(search, delay, Command::SearchRom)
    }

    /// One call of a search for the devices in alarm state.
    pub fn search_next_alarmed<D: DelayUs>(
        &mut self,
        search: &mut DeviceSearch,
        delay: &mut D,
    ) -> (r: Result<Option<Address>, Error<W::Error>>)
        ensures
            final(self).kept_time(*old(self), old(delay).waited(), final(delay).waited()),
            old(search)@.state == SearchState::End ==> *final(delay) == *old(delay),
            final(self).searched(*old(self), old(search)@, final(search)@, 0xEC, r),
    {
        self.search(search, delay, Command::SearchRomAlarmed)
    }
}

/// A search together with the driver and the delay that it runs on.
pub struct DeviceSearchIter<'a, W: IoWire, D: DelayUs> {
    /// The cursor, until the search has nothing more to give.
    pub search: Option<DeviceSearch>,
    /// The driver of the bus that is searched.
    pub wire: &'a mut Driver<W>,
    /// The delay that paces the driver.
    pub delay: &'a mut D,
}

impl DeviceSearch {
    /// Binds the search to a driver and a delay.
    pub fn into_iter<'a, W: IoWire, D: DelayUs>(
        self,
        wire: &'a mut Driver<W>,
        delay: &'a mut D,
    ) -> (r: DeviceSearchIter<'a, W, D>)
        ensures
            r.search == Some(self),
            *r.wire == *old(wire),
            *r.delay == *old(delay),
            *final(r.wire) == *final(wire),
            *final(r.delay) == *final(delay),
    {
        DeviceSearchIter { search: Some(self), wire, delay }
    }
}

impl<'a, W: IoWire, D: DelayUs> DeviceSearchIter<'a, W, D> {
    /// The cursor of the search, as long as there is one.
    pub open spec fn cursor(&self) -> Option<Cursor> {
        match self.search {
            Some(search) => Some(search@),
            None => None,
        }
    }

    /// The next device, or the error that the search ran into. `None` when
    /// the search has nothing more to give, and from then on.
    ///
    /// As long as there is a cursor, one call of the search is made with
    /// it. If that call finds nothing, the cursor is given up.
    pub fn next(&mut self) -> (r: Option<Result<Address, Error<W::Error>>>)
        ensures
            (*final(self).wire).kept_time(
                *old(self).wire,
                (*old(self).delay).waited(),
                (*final(self).delay).waited(),
            ),
            match old(self).cursor() {
                None => {
                    &&& r is None
                    &&& final(self).cursor() is None
                    &&& *final(self).wire == *old(self).wire
                    &&& *final(self).delay == *old(self).delay
                },
                Some(start) => exists|end: Cursor, inner: Result<Option<Address>, Error<W::Error>>|
                    {
                        &&& #[trigger] (*final(self).wire).searched(
                            *old(self).wire,
                            start,
                            end,
                            0xF0,
                            inner,
                        )
                        &&& match inner {
                            Ok(Some(address)) => r == Some(
                                Ok::<Address, Error<W::Error>>(address),
                            ) && final(self).cursor() == Some(end),
                            Ok(None) => r is None && final(self).cursor() is None,
                            Err(e) => r == Some(Err::<Address, Error<W::Error>>(e))
                                && final(self).cursor() == Some(end),
                        }
                    },
            },
    {
        let mut search = match self.search.take() {
            Some(search) => search,
            None => {
                return None;
            },
        };
        let ghost before = *self.wire;
        let ghost start = search@;
        let result = self.wire.search_next(&mut search, self.delay);
        proof {
            assert((*self.wire).searched(before, start, search@, 0xF0, result));
        }
        let ghost end = search@;
        let r = match result {
            Ok(Some(address)) => {
                self.search = Some(search);
                Some(Ok(address))
            },
            Ok(None) => None,
            Err(e) => {
                self.search = Some(search);
                Some(Err(e))
            },
        };
        proof {
            assert((*self.wire).searched(before, start, end, 0xF0, result));
            assert(old(self).cursor() == Some(start));
            assert(*old(self).wire == before);
            assert(result is Ok && result->Ok_0 is None ==> self.cursor() is None);
            assert(!(result is Ok && result->Ok_0 is None) ==> self.cursor() == Some(end));
        }
        r
    }
}

} // verus!
