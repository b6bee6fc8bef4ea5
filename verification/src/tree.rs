//! The order in which a search visits the ROMs on a bus, and why it
//! visits each of them once.
//!
//! A pass reads a ROM as a path in a binary tree: bit 0 is the branch at
//! the root, and the 0 side comes before the 1 side.

use vstd::prelude::*;
use crate::address::Address;
use crate::crc::bit_of;
use crate::driver::Driver;
use crate::iowire::IoWire;
use crate::result::Error;
use crate::search::{
    cursor_wf, last_fork, lemma_highest_below, new_fork, passed, rom_bits, turn, walk, Cursor,
    SearchState,
};

verus! {

/// The place of a path among all paths of `n` bits: the number that the
/// bits spell, the first one counting most.
pub open spec fn place(bits: Seq<bool>, n: nat) -> nat
    decreases n,
{
    if n == 0 {
        0
    } else {
        2 * place(bits, (n - 1) as nat) + if bits[n - 1] {
            1nat
        } else {
            0nat
        }
    }
}

/// The last place among the paths of `n` bits.
pub open spec fn last_place(n: nat) -> nat
    decreases n,
{
    if n == 0 {
        0
    } else {
        2 * last_place((n - 1) as nat) + 1
    }
}

/// A cursor in which every fork stands at a bit where the ROM has a 0:
/// the 1 side is the one still to come.
pub open spec fn settled(c: Cursor) -> bool {
    &&& cursor_wf(c)
    &&& forall|i: int| 0 <= i < 64 && c.forks[i] ==> !c.rom[i]
}

/// How many calls a search can still answer with a device, at most.
pub open spec fn devices_left(c: Cursor) -> nat {
    match c.state {
        SearchState::End => 0,
        SearchState::DeviceFound => (1 + last_place(64) - place(c.rom, 64)) as nat,
        SearchState::Initialized => 2 + last_place(64),
    }
}

/// No path comes after the last place.
pub proof fn lemma_place_bound(bits: Seq<bool>, n: nat)
    ensures
        place(bits, n) <= last_place(n),
    decreases n,
{
    if n > 0 {
        lemma_place_bound(bits, (n - 1) as nat);
    }
}

/// Paths that agree on their first `n` bits have the same place among
/// the paths of `n` bits.
pub proof fn lemma_place_prefix(a: Seq<bool>, b: Seq<bool>, n: nat)
    requires
        forall|j: int| 0 <= j < n ==> a[j] == b[j],
    ensures
        place(a, n) == place(b, n),
    decreases n,
{
    if n > 0 {
        lemma_place_prefix(a, b, (n - 1) as nat);
    }
}

/// Of two paths that part at bit `at`, the one that takes the 0 side
/// comes first.
pub proof fn lemma_place_parts(a: Seq<bool>, b: Seq<bool>, at: nat, n: nat)
    requires
        at < n,
        forall|j: int| 0 <= j < at ==> a[j] == b[j],
        !a[at as int],
        b[at as int],
    ensures
        place(a, n) < place(b, n),
    decreases n,
{
    if n == at + 1 {
        lemma_place_prefix(a, b, at);
    } else {
        lemma_place_parts(a, b, at, (n - 1) as nat);
    }
}

/// What a pass leaves of a cursor after its first bits: the bits to come
/// are untouched, the bits below the highest fork are as they were, at
/// the highest fork the ROM has a 1 and the fork is gone, and above it a
/// fork stands only where the ROM has a 0.
pub proof fn lemma_walk_keeps(start: Cursor, pairs: Seq<(bool, bool)>)
    requires
        cursor_wf(start),
        pairs.len() <= 64,
        walk(start, last_fork(start.forks), pairs) is Some,
    ensures
        ({
            let last = last_fork(start.forks);
            let c = walk(start, last, pairs)->0;
            &&& cursor_wf(c)
            &&& c.state == start.state
            &&& forall|j: int|
                pairs.len() <= j < 64 ==> c.rom[j] == start.rom[j] && c.forks[j] == start.forks[j]
            &&& forall|j: int|
                0 <= j < pairs.len() && last is Some && j < last->0 ==> c.rom[j] == start.rom[j]
                    && c.forks[j] == start.forks[j]
            &&& last is Some && last->0 < pairs.len() ==> c.rom[last->0 as int]
                && !c.forks[last->0 as int]
            &&& forall|j: int|
                0 <= j < pairs.len() && (last is None || j > last->0) && c.forks[j] ==> !c.rom[j]
        }),
    decreases pairs.len(),
{
    let last = last_fork(start.forks);
    lemma_highest_below(start.forks, 64);
    if pairs.len() > 0 {
        lemma_walk_keeps(start, pairs.drop_last());
    }
}

/// A pass that finds a device leaves a settled cursor settled, and brings
/// the search closer to its end.
pub proof fn lemma_pass_descends(
    start: Cursor,
    pairs: Seq<(bool, bool)>,
    end: Cursor,
    found: Option<Address>,
)
    requires
        settled(start),
        passed(start, pairs, end, found),
        found is Some,
        !(last_fork(start.forks) is None && start.state == SearchState::DeviceFound),
        start.state != SearchState::End,
    ensures
        settled(end),
        devices_left(end) < devices_left(start),
{
    let last = last_fork(start.forks);
    lemma_highest_below(start.forks, 64);
    lemma_walk_keeps(start, pairs);
    let c = walk(start, last, pairs)->0;
    lemma_place_bound(c.rom, 64);
    lemma_place_bound(start.rom, 64);
    if last is Some {
        lemma_place_parts(start.rom, c.rom, last->0 as nat, 64);
    }
}

/// A call of a search that finds a device leaves a settled cursor
/// settled, and brings the search closer to its end.
pub proof fn lemma_search_descends<W: IoWire>(
    before: Driver<W>,
    after: Driver<W>,
    start: Cursor,
    end: Cursor,
    code: u8,
    r: Result<Option<Address>, Error<W::Error>>,
)
    requires
        settled(start),
        after.searched(before, start, end, code, r),
        r is Ok,
        r->Ok_0 is Some,
    ensures
        settled(end),
        devices_left(end) < devices_left(start),
{
    let found = r->Ok_0;
    let frame = choose|frame: Seq<crate::trace::WireOp>|
        #[trigger] crate::trace::reset_frame(frame, true) && after.searched_from(
            before,
            start,
            end,
            frame + crate::trace::write_byte_script(code, false),
            found,
        );
    let head = frame + crate::trace::write_byte_script(code, false);
    let pairs = choose|pairs: Seq<(bool, bool)>|
        passed(start, pairs, end, found) && after.ran(
            before,
            head + #[trigger] crate::search::walk_script(start, last_fork(start.forks), pairs),
        );
    lemma_pass_descends(start, pairs, end, found);
}

/// A call of a search that finds a device has made a pass: the search was
/// not at its end, nor was the cursor one without a fork that had found a
/// device before.
pub proof fn lemma_search_made_a_pass<W: IoWire>(
    before: Driver<W>,
    after: Driver<W>,
    start: Cursor,
    end: Cursor,
    code: u8,
    r: Result<Option<Address>, Error<W::Error>>,
)
    requires
        after.searched(before, start, end, code, r),
        r is Ok,
        r->Ok_0 is Some,
    ensures
        start.state != SearchState::End,
        !(last_fork(start.forks) is None && start.state == SearchState::DeviceFound),
        exists|pairs: Seq<(bool, bool)>| passed(start, pairs, end, r->Ok_0),
{
    let found = r->Ok_0;
    let frame = choose|frame: Seq<crate::trace::WireOp>|
        #[trigger] crate::trace::reset_frame(frame, true) && after.searched_from(
            before,
            start,
            end,
            frame + crate::trace::write_byte_script(code, false),
            found,
        );
    let head = frame + crate::trace::write_byte_script(code, false);
    let pairs = choose|pairs: Seq<(bool, bool)>|
        passed(start, pairs, end, found) && after.ran(
            before,
            head + #[trigger] crate::search::walk_script(start, last_fork(start.forks), pairs),
        );
    assert(passed(start, pairs, end, found));
}

/// Two paths go the same way for their first `n` bits.
#[verifier::opaque]
pub open spec fn agree(a: Seq<bool>, b: Seq<bool>, n: int) -> bool {
    forall|j: int| 0 <= j < n ==> a[j] == b[j]
}

/// Every ROM on the bus has its 64 bits.
pub open spec fn bus_wf(roms: Set<Seq<bool>>) -> bool {
    forall|d: Seq<bool>| #[trigger] roms.contains(d) ==> d.len() == 64
}

/// What the two read slots of a pass give at bit `i` on a bus that holds
/// the devices `roms`, when the master has gone the way of `rom` so far.
/// The devices that went the same way take part. In the first slot each
/// of them sends its bit `i`, in the second the complement; a slot reads
/// 1 only if no device that takes part sends a 0.
pub open spec fn answers(roms: Set<Seq<bool>>, rom: Seq<bool>, i: int) -> (bool, bool) {
    (
        forall|d: Seq<bool>| #[trigger] roms.contains(d) && agree(d, rom, i) ==> d[i],
        forall|d: Seq<bool>| #[trigger] roms.contains(d) && agree(d, rom, i) ==> !d[i],
    )
}

/// The pairs that a pass read are those that a bus with the devices
/// `roms` gives, as far as the pass went on.
pub open spec fn heard(roms: Set<Seq<bool>>, start: Cursor, pairs: Seq<(bool, bool)>) -> bool {
    forall|i: int|
        0 <= i < pairs.len() ==> match #[trigger] walk(
            start,
            last_fork(start.forks),
            pairs.take(i),
        ) {
            Some(m) => pairs[i] == answers(roms, m.rom, i),
            None => true,
        }
}

/// A device goes the way of `rom` up to bit `i` and takes the 1 side
/// there.
pub open spec fn other_side(roms: Set<Seq<bool>>, rom: Seq<bool>, i: int) -> bool {
    exists|d: Seq<bool>| #[trigger] roms.contains(d) && agree(d, rom, i) && d[i]
}

/// The forks of the bits from `lo` on and below `i` are those of the way
/// `rom`: a fork stands where the way takes the 0 side and a device the
/// 1 side.
pub open spec fn forks_fit(
    roms: Set<Seq<bool>>,
    rom: Seq<bool>,
    forks: Seq<bool>,
    lo: int,
    i: int,
) -> bool {
    forall|j: int| lo <= j < i ==> #[trigger] forks[j] == (!rom[j] && other_side(roms, rom, j))
}

/// The cursor fits the bus: a cursor that has found nothing yet has no
/// fork, and any other holds the ROM of a device on the bus and has the
/// forks of that ROM.
pub open spec fn tracks(roms: Set<Seq<bool>>, c: Cursor) -> bool {
    &&& cursor_wf(c)
    &&& c.state == SearchState::Initialized ==> forall|i: int| 0 <= i < 64 ==> !c.forks[i]
    &&& c.state != SearchState::Initialized ==> roms.contains(c.rom) && forks_fit(
        roms,
        c.rom,
        c.forks,
        0,
        64,
    )
}

/// The first bit from which a pass goes where the devices are.
pub open spec fn free_from(last: Option<u8>) -> int {
    match last {
        Some(l) => l + 1,
        None => 0,
    }
}

/// The path `d` leaves the path `rom` to the 1 side at a bit from `lo` on
/// and below `i`.
pub open spec fn left_behind(rom: Seq<bool>, d: Seq<bool>, lo: int, i: int) -> bool {
    exists|k: int| lo <= k < i && #[trigger] agree(d, rom, k) && !rom[k] && d[k]
}

/// Every device that went the way of `rom` up to bit `lo` either goes it
/// up to bit `i` or has left it to the 1 side.
pub open spec fn least_way(roms: Set<Seq<bool>>, rom: Seq<bool>, lo: int, i: int) -> bool {
    forall|d: Seq<bool>| #[trigger]
        roms.contains(d) && agree(d, rom, lo) ==> agree(d, rom, i) || left_behind(rom, d, lo, i)
}

/// After `i` bits of a pass the bits to come are untouched, the bits
/// below the highest fork are as they were, and at the highest fork the
/// ROM has a 1 and the fork is gone.
pub open spec fn shaped(start: Cursor, i: int, m: Cursor) -> bool {
    let lo = free_from(last_fork(start.forks));
    &&& cursor_wf(m)
    &&& m.state == start.state
    &&& forall|j: int| i <= j < 64 ==> m.rom[j] == start.rom[j] && m.forks[j] == start.forks[j]
    &&& forall|j: int|
        0 <= j < i && j < lo - 1 ==> m.rom[j] == start.rom[j] && m.forks[j] == start.forks[j]
    &&& 0 < lo <= i ==> m.rom[lo - 1] && !m.forks[lo - 1]
}

/// A device goes the way of `rom` up to bit `i`.
pub open spec fn alive(roms: Set<Seq<bool>>, rom: Seq<bool>, i: int) -> bool {
    exists|d: Seq<bool>| #[trigger] roms.contains(d) && agree(d, rom, i)
}

/// Where a pass stands after `i` bits on a bus that it has heard: a
/// device still takes part, and from the first free bit on the forks are
/// those of the way taken, which is the least way of all.
pub open spec fn midway(roms: Set<Seq<bool>>, start: Cursor, i: int, m: Cursor) -> bool {
    let lo = free_from(last_fork(start.forks));
    &&& shaped(start, i, m)
    &&& alive(roms, m.rom, i)
    &&& forks_fit(roms, m.rom, m.forks, lo, i)
    &&& least_way(roms, m.rom, lo, i)
}

/// Paths that agree for `n` bits agree for fewer, and agree for one more
/// if they have the same next bit.
pub proof fn lemma_agree(a: Seq<bool>, b: Seq<bool>, n: int)
    ensures
        n <= 0 ==> agree(a, b, n),
        forall|k: int| k <= n && agree(a, b, n) ==> #[trigger] agree(a, b, k),
        agree(a, b, n + 1) == (agree(a, b, n) && (n >= 0 ==> a[n] == b[n])),
        agree(a, b, n) ==> forall|j: int| 0 <= j < n ==> a[j] == b[j],
{
    reveal(agree);
    if agree(a, b, n) && (n >= 0 ==> a[n] == b[n]) {
        assert forall|j: int| 0 <= j < n + 1 implies a[j] == b[j] by {
            if j < n {
            }
        }
    }
}

/// A path that changes at bit `i` only is agreed with as before up to
/// bit `i`.
pub proof fn lemma_agree_changed(d: Seq<bool>, before: Seq<bool>, after: Seq<bool>, i: int, k: int)
    requires
        k <= i,
        forall|j: int| 0 <= j < i ==> before[j] == after[j],
    ensures
        agree(d, before, k) == agree(d, after, k),
{
    reveal(agree);
}

/// The other sides of a path that changes at bit `i` only are as before up
/// to bit `i`.
pub proof fn lemma_other_side_changed(
    roms: Set<Seq<bool>>,
    before: Seq<bool>,
    after: Seq<bool>,
    i: int,
    j: int,
)
    requires
        j <= i,
        forall|k: int| 0 <= k < i ==> before[k] == after[k],
    ensures
        other_side(roms, before, j) == other_side(roms, after, j),
{
    if other_side(roms, before, j) {
        let d = choose|d: Seq<bool>| #[trigger] roms.contains(d) && agree(d, before, j) && d[j];
        lemma_agree_changed(d, before, after, i, j);
    }
    if other_side(roms, after, j) {
        let d = choose|d: Seq<bool>| #[trigger] roms.contains(d) && agree(d, after, j) && d[j];
        lemma_agree_changed(d, before, after, i, j);
    }
}

proof fn lemma_forks_fit_step(
    roms: Set<Seq<bool>>,
    m: Cursor,
    n: Cursor,
    lo: int,
    i: int,
)
    requires
        0 <= lo,
        forks_fit(roms, m.rom, m.forks, lo, i),
        forall|j: int| 0 <= j < i ==> m.rom[j] == n.rom[j] && m.forks[j] == n.forks[j],
        lo <= i ==> n.forks[i] == (!n.rom[i] && other_side(roms, n.rom, i)),
    ensures
        forks_fit(roms, n.rom, n.forks, lo, i + 1),
{
    assert forall|j: int| lo <= j < i + 1 implies #[trigger] n.forks[j] == (!n.rom[j]
        && other_side(roms, n.rom, j)) by {
        if j < i {
            lemma_other_side_changed(roms, m.rom, n.rom, i, j);
            assert(m.rom[j] == n.rom[j] && m.forks[j] == n.forks[j]);
            assert(m.forks[j] == (!m.rom[j] && other_side(roms, m.rom, j)));
        }
    }
}

proof fn lemma_least_way_step(
    roms: Set<Seq<bool>>,
    before: Seq<bool>,
    after: Seq<bool>,
    lo: int,
    i: int,
)
    requires
        0 <= lo,
        0 <= i,
        least_way(roms, before, lo, i),
        forall|j: int| 0 <= j < i ==> before[j] == after[j],
        lo <= i ==> forall|d: Seq<bool>| #[trigger]
            roms.contains(d) && agree(d, before, i) && d[i] != after[i] ==> d[i] && !after[i],
    ensures
        least_way(roms, after, lo, i + 1),
{
    assert forall|d: Seq<bool>| #[trigger]
        roms.contains(d) && agree(d, after, lo) implies agree(d, after, i + 1) || left_behind(
        after,
        d,
        lo,
        i + 1,
    ) by {
        lemma_agree(d, after, i);
        lemma_agree(d, after, lo);
        if lo > i {
            assert(agree(d, after, i + 1));
        } else {
            lemma_agree_changed(d, before, after, i, lo);
            lemma_agree_changed(d, before, after, i, i);
            if agree(d, before, i) {
                if d[i] != after[i] {
                    assert(agree(d, after, i) && !after[i] && d[i]);
                }
            } else {
                let k = choose|k: int|
                    lo <= k < i && #[trigger] agree(d, before, k) && !before[k] && d[k];
                lemma_agree_changed(d, before, after, i, k);
                assert(before[k] == after[k]);
                assert(agree(d, after, k) && !after[k] && d[k]);
            }
        }
    }
}

proof fn lemma_turn_replay(
    roms: Set<Seq<bool>>,
    start: Cursor,
    i: int,
    m: Cursor,
    pair: (bool, bool),
)
    requires
        bus_wf(roms),
        tracks(roms, start),
        start.state != SearchState::End,
        0 <= i < 64,
        midway(roms, start, i, m),
        pair == answers(roms, m.rom, i),
        last_fork(start.forks) is Some,
        i < last_fork(start.forks)->0,
    ensures
        turn(m, last_fork(start.forks), i, pair.0, pair.1) == Some(m),
        midway(roms, start, i + 1, m),
{
    let last = last_fork(start.forks);
    let lo = free_from(last);
    lemma_highest_below(start.forks, 64);
    let taking = choose|d: Seq<bool>| #[trigger] roms.contains(d) && agree(d, m.rom, i);
    if pair.0 && pair.1 {
        assert(taking[i] && !taking[i]);
    }
    assert(start.state == SearchState::DeviceFound);
    assert(roms.contains(start.rom));
    assert(agree(start.rom, m.rom, i + 1)) by {
        reveal(agree);
    }
    assert(forks_fit(roms, m.rom, m.forks, lo, i + 1));
    assert(least_way(roms, m.rom, lo, i + 1)) by {
        assert forall|d: Seq<bool>| #[trigger]
            roms.contains(d) && agree(d, m.rom, lo) implies agree(d, m.rom, i + 1) by {
            lemma_agree(d, m.rom, lo);
        }
    }
}

proof fn lemma_turn_forced(roms: Set<Seq<bool>>, start: Cursor, i: int, m: Cursor, n: Cursor)
    requires
        bus_wf(roms),
        tracks(roms, start),
        start.state != SearchState::End,
        0 <= i < 64,
        midway(roms, start, i, m),
        last_fork(start.forks) == Some(i as u8),
        n == (Cursor { rom: m.rom.update(i, true), forks: m.forks.update(i, false), ..m }),
    ensures
        midway(roms, start, i + 1, n),
{
    let last = last_fork(start.forks);
    let lo = free_from(last);
    lemma_highest_below(start.forks, 64);
    assert(start.forks[i]);
    assert(start.state == SearchState::DeviceFound);
    assert(other_side(roms, start.rom, i));
    let d = choose|d: Seq<bool>| #[trigger] roms.contains(d) && agree(d, start.rom, i) && d[i];
    assert(agree(d, n.rom, i + 1)) by {
        reveal(agree);
    }
    assert(shaped(start, i + 1, n));
    assert(forks_fit(roms, n.rom, n.forks, lo, i + 1));
    assert(least_way(roms, n.rom, lo, i + 1));
}

proof fn lemma_turn_free(
    roms: Set<Seq<bool>>,
    start: Cursor,
    i: int,
    m: Cursor,
    pair: (bool, bool),
)
    requires
        bus_wf(roms),
        0 <= i < 64,
        free_from(last_fork(start.forks)) <= i,
        midway(roms, start, i, m),
        !start.forks[i],
        pair == answers(roms, m.rom, i),
    ensures
        turn(m, last_fork(start.forks), i, pair.0, pair.1) is Some,
        midway(roms, start, i + 1, turn(m, last_fork(start.forks), i, pair.0, pair.1)->0),
{
    let last = last_fork(start.forks);
    let lo = free_from(last);
    let taking = choose|d: Seq<bool>| #[trigger] roms.contains(d) && agree(d, m.rom, i);
    if pair.0 && pair.1 {
        assert(taking[i] && !taking[i]);
    }
    let n = turn(m, last, i, pair.0, pair.1)->0;
    assert(forall|j: int| 0 <= j < i ==> m.rom[j] == n.rom[j] && m.forks[j] == n.forks[j]);
    assert(shaped(start, i + 1, n));
    if !pair.0 && !pair.1 {
        let d0 = choose|d: Seq<bool>| #[trigger] roms.contains(d) && agree(d, m.rom, i) && !d[i];
        let d1 = choose|d: Seq<bool>| #[trigger] roms.contains(d) && agree(d, m.rom, i) && d[i];
        lemma_agree_changed(d0, m.rom, n.rom, i, i);
        lemma_agree_changed(d1, m.rom, n.rom, i, i);
        lemma_agree(d0, n.rom, i);
        assert(roms.contains(d0) && agree(d0, n.rom, i + 1));
        assert(roms.contains(d1) && agree(d1, n.rom, i) && d1[i]);
    } else {
        lemma_agree_changed(taking, m.rom, n.rom, i, i);
        lemma_agree(taking, n.rom, i);
        assert(taking[i] == n.rom[i]);
        assert(roms.contains(taking) && agree(taking, n.rom, i + 1));
        if other_side(roms, n.rom, i) {
            let d = choose|d: Seq<bool>| #[trigger] roms.contains(d) && agree(d, n.rom, i) && d[i];
            lemma_agree_changed(d, m.rom, n.rom, i, i);
            assert(n.rom[i]);
        }
    }
    assert(alive(roms, n.rom, i + 1));
    assert(n.forks[i] == (!n.rom[i] && other_side(roms, n.rom, i)));
    lemma_forks_fit_step(roms, m, n, lo, i);
    assert forall|d: Seq<bool>| #[trigger]
        roms.contains(d) && agree(d, m.rom, i) && d[i] != n.rom[i] implies d[i] && !n.rom[i] by {
    }
    lemma_least_way_step(roms, m.rom, n.rom, lo, i);
}

/// One bit of a pass on a bus that it hears: the pass does not break off,
/// and stands after the bit as [`midway`] says.
pub proof fn lemma_turn_on_bus(
    roms: Set<Seq<bool>>,
    start: Cursor,
    i: int,
    m: Cursor,
    pair: (bool, bool),
)
    requires
        bus_wf(roms),
        tracks(roms, start),
        start.state != SearchState::End,
        0 <= i < 64,
        midway(roms, start, i, m),
        pair == answers(roms, m.rom, i),
    ensures
        turn(m, last_fork(start.forks), i, pair.0, pair.1) is Some,
        midway(roms, start, i + 1, turn(m, last_fork(start.forks), i, pair.0, pair.1)->0),
{
    let last = last_fork(start.forks);
    lemma_highest_below(start.forks, 64);
    if last is Some && i < last->0 {
        lemma_turn_replay(roms, start, i, m, pair);
    } else if last is Some && i == last->0 {
        let n = Cursor { rom: m.rom.update(i, true), forks: m.forks.update(i, false), ..m };
        lemma_turn_forced(roms, start, i, m, n);
    } else {
        lemma_turn_free(roms, start, i, m, pair);
    }
}

/// A pass on a bus that it hears does not break off, and stands after
/// each bit as [`midway`] says.
pub proof fn lemma_walk_on_bus(roms: Set<Seq<bool>>, start: Cursor, pairs: Seq<(bool, bool)>)
    requires
        bus_wf(roms),
        exists|d: Seq<bool>| roms.contains(d),
        tracks(roms, start),
        start.state != SearchState::End,
        pairs.len() <= 64,
        heard(roms, start, pairs),
    ensures
        walk(start, last_fork(start.forks), pairs) is Some,
        midway(roms, start, pairs.len() as int, walk(start, last_fork(start.forks), pairs)->0),
    decreases pairs.len(),
{
    let last = last_fork(start.forks);
    let lo = free_from(last);
    if pairs.len() == 0 {
        let d = choose|d: Seq<bool>| roms.contains(d);
        lemma_agree(d, start.rom, 0);
        assert(roms.contains(d) && agree(d, start.rom, 0));
        assert(least_way(roms, start.rom, lo, 0)) by {
            assert forall|d: Seq<bool>| #[trigger]
                roms.contains(d) && agree(d, start.rom, lo) implies agree(d, start.rom, 0) by {
                lemma_agree(d, start.rom, 0);
            }
        }
    } else {
        let n = pairs.len() - 1;
        let head = pairs.drop_last();
        assert(heard(roms, start, head)) by {
            assert forall|i: int| 0 <= i < head.len() implies match #[trigger] walk(
                start,
                last,
                head.take(i),
            ) {
                Some(m) => head[i] == answers(roms, m.rom, i),
                None => true,
            } by {
                assert(head.take(i) =~= pairs.take(i));
            }
        }
        lemma_walk_on_bus(roms, start, head);
        let m = walk(start, last, head)->0;
        assert(pairs.take(n) =~= head);
        assert(pairs[n] == answers(roms, m.rom, n));
        lemma_turn_on_bus(roms, start, n, m, pairs[n]);
    }
}

/// Two different paths of 64 bits part at some bit.
pub proof fn lemma_parting(a: Seq<bool>, b: Seq<bool>, n: int) -> (at: int)
    requires
        0 <= n,
        a.len() >= n,
        b.len() >= n,
        !agree(a, b, n),
    ensures
        0 <= at < n,
        agree(a, b, at),
        a[at] != b[at],
    decreases n,
{
    lemma_agree(a, b, n - 1);
    lemma_agree(a, b, 0);
    if agree(a, b, n - 1) {
        n - 1
    } else {
        lemma_parting(a, b, n - 1)
    }
}

/// Paths of 64 bits that do not agree have different places, and the one
/// that takes the 0 side where they part comes first.
pub proof fn lemma_place_orders(a: Seq<bool>, b: Seq<bool>)
    requires
        a.len() == 64,
        b.len() == 64,
    ensures
        agree(a, b, 64) <==> a == b,
        a == b <==> place(a, 64) == place(b, 64),
        forall|at: int|
            0 <= at < 64 && #[trigger] agree(a, b, at) && !a[at] && b[at] ==> place(a, 64) < place(
                b,
                64,
            ),
{
    lemma_agree(a, b, 64);
    if agree(a, b, 64) {
        assert(a =~= b);
    } else {
        let at = lemma_parting(a, b, 64);
        lemma_agree(a, b, at);
        if a[at] {
            lemma_agree(b, a, at);
            assert(agree(b, a, at)) by {
                reveal(agree);
            }
            lemma_agree(b, a, at);
            lemma_place_parts(b, a, at as nat, 64);
        } else {
            lemma_place_parts(a, b, at as nat, 64);
        }
    }
    if a == b {
        assert(agree(a, b, 64)) by {
            reveal(agree);
        }
    }
    assert forall|at: int|
        0 <= at < 64 && #[trigger] agree(a, b, at) && !a[at] && b[at] implies place(a, 64)
        < place(b, 64) by {
        lemma_agree(a, b, at);
        lemma_place_parts(a, b, at as nat, 64);
    }
}

/// A device on the bus takes the 0 side of no fork of a cursor without
/// forks: the ROM of the cursor is the last of all.
pub proof fn lemma_no_fork_is_last(roms: Set<Seq<bool>>, c: Cursor, d: Seq<bool>)
    requires
        bus_wf(roms),
        cursor_wf(c),
        roms.contains(c.rom),
        forks_fit(roms, c.rom, c.forks, 0, 64),
        forall|i: int| 0 <= i < 64 ==> !c.forks[i],
        roms.contains(d),
    ensures
        place(d, 64) <= place(c.rom, 64),
{
    lemma_place_orders(c.rom, d);
    lemma_place_orders(d, c.rom);
    if c.rom != d {
        let at = lemma_parting(c.rom, d, 64);
        if !c.rom[at] {
            assert(agree(d, c.rom, at)) by {
                reveal(agree);
            }
            assert(other_side(roms, c.rom, at));
            assert(c.forks[at]);
        } else {
            assert(agree(d, c.rom, at)) by {
                reveal(agree);
            }
        }
    }
}

proof fn lemma_way_is_a_device(roms: Set<Seq<bool>>, start: Cursor, c: Cursor)
    requires
        bus_wf(roms),
        tracks(roms, start),
        start.state != SearchState::End,
        !(last_fork(start.forks) is None && start.state == SearchState::DeviceFound),
        midway(roms, start, 64, c),
    ensures
        roms.contains(c.rom),
        forks_fit(roms, c.rom, c.forks, 0, 64),
{
    let last = last_fork(start.forks);
    let lo = free_from(last);
    lemma_highest_below(start.forks, 64);
    let taking = choose|d: Seq<bool>| #[trigger] roms.contains(d) && agree(d, c.rom, 64);
    lemma_place_orders(taking, c.rom);
    assert forall|j: int| 0 <= j < 64 implies #[trigger] c.forks[j] == (!c.rom[j] && other_side(
        roms,
        c.rom,
        j,
    )) by {
        if j < lo - 1 {
            lemma_other_side_changed(roms, start.rom, c.rom, lo - 1, j);
            assert(start.forks[j] == (!start.rom[j] && other_side(roms, start.rom, j)));
            assert(c.rom[j] == start.rom[j] && c.forks[j] == start.forks[j]);
        }
    }
}

proof fn lemma_way_is_least(roms: Set<Seq<bool>>, rom: Seq<bool>, lo: int, d: Seq<bool>)
    requires
        bus_wf(roms),
        rom.len() == 64,
        0 <= lo <= 64,
        least_way(roms, rom, lo, 64),
        roms.contains(d),
        agree(d, rom, lo),
    ensures
        place(rom, 64) <= place(d, 64),
{
    lemma_place_orders(rom, d);
    lemma_place_orders(d, rom);
    if !agree(d, rom, 64) {
        let k = choose|k: int| lo <= k < 64 && #[trigger] agree(d, rom, k) && !rom[k] && d[k];
        assert(agree(rom, d, k)) by {
            reveal(agree);
        }
    }
}

proof fn lemma_way_climbs(roms: Set<Seq<bool>>, start: Cursor, c: Cursor)
    requires
        tracks(roms, start),
        start.state == SearchState::DeviceFound,
        last_fork(start.forks) is Some,
        midway(roms, start, 64, c),
    ensures
        place(start.rom, 64) < place(c.rom, 64),
{
    let l = last_fork(start.forks)->0 as int;
    lemma_highest_below(start.forks, 64);
    assert(start.forks[l] && !start.rom[l]);
    assert(agree(start.rom, c.rom, l)) by {
        reveal(agree);
    }
    lemma_place_orders(start.rom, c.rom);
}

proof fn lemma_way_is_next(roms: Set<Seq<bool>>, start: Cursor, c: Cursor, d: Seq<bool>)
    requires
        bus_wf(roms),
        tracks(roms, start),
        start.state == SearchState::DeviceFound,
        last_fork(start.forks) is Some,
        midway(roms, start, 64, c),
        roms.contains(d),
        place(start.rom, 64) < place(d, 64),
    ensures
        place(c.rom, 64) <= place(d, 64),
{
    let last = last_fork(start.forks);
    let lo = free_from(last);
    let l = last->0 as int;
    lemma_highest_below(start.forks, 64);
    lemma_place_orders(start.rom, d);
    lemma_place_orders(d, start.rom);
    let at = lemma_parting(start.rom, d, 64);
    assert(agree(d, start.rom, at)) by {
        reveal(agree);
    }
    if !start.rom[at] {
        assert(other_side(roms, start.rom, at));
        assert(start.forks[at]);
        assert(at <= l);
        if at < l {
            assert(agree(c.rom, d, at)) by {
                reveal(agree);
            }
            assert(!c.rom[at] && d[at]);
            lemma_place_orders(c.rom, d);
        } else {
            assert(agree(d, c.rom, lo)) by {
                reveal(agree);
            }
            lemma_way_is_least(roms, c.rom, lo, d);
        }
    }
}

/// What a pass finds on a bus that it hears.
///
/// The pass does not break off: it finds a device of the bus, and leaves
/// a cursor that fits the bus. After a fresh cursor it finds the first
/// device of all. After a cursor that has found a device it finds the
/// next one: a later device, with no device of the bus between the two.
pub proof fn lemma_pass_on_bus(
    roms: Set<Seq<bool>>,
    start: Cursor,
    pairs: Seq<(bool, bool)>,
    end: Cursor,
    found: Option<Address>,
)
    requires
        bus_wf(roms),
        exists|d: Seq<bool>| roms.contains(d),
        tracks(roms, start),
        start.state != SearchState::End,
        !(last_fork(start.forks) is None && start.state == SearchState::DeviceFound),
        passed(start, pairs, end, found),
        heard(roms, start, pairs),
    ensures
        found is Some,
        rom_bits(found->0@) == end.rom,
        roms.contains(end.rom),
        end.state != SearchState::Initialized,
        cursor_wf(end),
        forks_fit(roms, end.rom, end.forks, 0, 64),
        end.state == SearchState::End ==> forall|i: int| 0 <= i < 64 ==> !end.forks[i],
        start.state == SearchState::Initialized ==> forall|d: Seq<bool>| #[trigger]
            roms.contains(d) ==> place(end.rom, 64) <= place(d, 64),
        start.state == SearchState::DeviceFound ==> place(start.rom, 64) < place(end.rom, 64),
        start.state == SearchState::DeviceFound ==> forall|d: Seq<bool>| #[trigger]
            roms.contains(d) && place(start.rom, 64) < place(d, 64) ==> place(end.rom, 64)
                <= place(d, 64),
{
    let last = last_fork(start.forks);
    let lo = free_from(last);
    lemma_walk_on_bus(roms, start, pairs);
    let c = walk(start, last, pairs)->0;
    assert(pairs.len() == 64);
    assert(end.rom == c.rom && end.forks == c.forks);
    lemma_way_is_a_device(roms, start, c);
    if end.state == SearchState::End {
        assert forall|i: int| 0 <= i < 64 implies !end.forks[i] by {
            if end.forks[i] {
                lemma_highest_below(start.forks, 64);
                assert(c.forks[i] && !start.forks[i]);
                assert(new_fork(start, c));
            }
        }
    }
    if start.state == SearchState::Initialized {
        lemma_highest_below(start.forks, 64);
        assert forall|d: Seq<bool>| #[trigger] roms.contains(d) implies place(c.rom, 64) <= place(
            d,
            64,
        ) by {
            lemma_agree(d, c.rom, 0);
            lemma_way_is_least(roms, c.rom, 0, d);
        }
    } else {
        lemma_place_bound(start.rom, 64);
        assert forall|d: Seq<bool>| #[trigger]
            roms.contains(d) && place(start.rom, 64) < place(d, 64) implies place(c.rom, 64)
            <= place(d, 64) by {
            lemma_way_is_next(roms, start, c, d);
        }
        lemma_way_climbs(roms, start, c);
    }
}

/// One call of a search that found a device: the pairs that its pass
/// read, the cursor that it left, and the address that it gave.
pub struct Find {
    /// The pairs that the pass read, bit by bit.
    pub pairs: Seq<(bool, bool)>,
    /// The cursor as the call left it.
    pub cursor: Cursor,
    /// The address that the call gave.
    pub address: Address,
}

/// The cursor with which call `k` of a run was made.
pub open spec fn cursor_before(first: Cursor, run: Seq<Find>, k: int) -> Cursor {
    if k == 0 {
        first
    } else {
        run[k - 1].cursor
    }
}

/// A call of a search with the cursor `before` made its pass, heard what
/// a bus with the devices `roms` gives, and found a device.
#[verifier::opaque]
pub open spec fn called_on_bus(roms: Set<Seq<bool>>, before: Cursor, find: Find) -> bool {
    &&& before.state != SearchState::End
    &&& !(last_fork(before.forks) is None && before.state == SearchState::DeviceFound)
    &&& passed(before, find.pairs, find.cursor, Some(find.address))
    &&& heard(roms, before, find.pairs)
}

/// Call `k` of a run was a call on the bus, see [`called_on_bus`].
pub open spec fn call_on_bus(roms: Set<Seq<bool>>, first: Cursor, run: Seq<Find>, k: int) -> bool {
    called_on_bus(roms, cursor_before(first, run, k), run[k])
}

/// `run` is a run of calls of a search on a bus with the devices `roms`:
/// the first call was made with the cursor `first`, each later one with
/// the cursor that the call before it left, each made its pass, heard what
/// the bus gives, and found a device.
pub open spec fn ran_on_bus(roms: Set<Seq<bool>>, first: Cursor, run: Seq<Find>) -> bool {
    forall|k: int| 0 <= k < run.len() ==> #[trigger] call_on_bus(roms, first, run, k)
}

/// The ROM that call `k` of a run found, as its 64 bits.
pub open spec fn found_at(run: Seq<Find>, k: int) -> Seq<bool> {
    rom_bits(run[k].address@)
}

/// The device `d` is among those that a run found.
pub open spec fn found_in(run: Seq<Find>, d: Seq<bool>) -> bool {
    exists|k: int| 0 <= k < run.len() && #[trigger] found_at(run, k) == d
}

/// A cursor at the start of a search: it has found nothing yet and has no
/// fork. What its ROM holds does not matter.
pub open spec fn at_start(c: Cursor) -> bool {
    &&& cursor_wf(c)
    &&& c.state == SearchState::Initialized
    &&& forall|i: int| 0 <= i < 64 ==> !c.forks[i]
}

/// What a call on a bus finds, see [`lemma_pass_on_bus`].
proof fn lemma_called_on_bus(roms: Set<Seq<bool>>, before: Cursor, find: Find)
    requires
        bus_wf(roms),
        exists|d: Seq<bool>| roms.contains(d),
        tracks(roms, before),
        called_on_bus(roms, before, find),
    ensures
        rom_bits(find.address@) == find.cursor.rom,
        roms.contains(find.cursor.rom),
        find.cursor.state != SearchState::Initialized,
        tracks(roms, find.cursor),
        find.cursor.state == SearchState::End ==> last_fork(find.cursor.forks) is None,
        before.state == SearchState::Initialized ==> forall|d: Seq<bool>| #[trigger]
            roms.contains(d) ==> place(find.cursor.rom, 64) <= place(d, 64),
        before.state != SearchState::Initialized ==> place(before.rom, 64) < place(
            find.cursor.rom,
            64,
        ),
        before.state != SearchState::Initialized ==> forall|d: Seq<bool>| #[trigger]
            roms.contains(d) && place(before.rom, 64) < place(d, 64) ==> place(
                find.cursor.rom,
                64,
            ) <= place(d, 64),
{
    reveal(called_on_bus);
    lemma_pass_on_bus(roms, before, find.pairs, find.cursor, Some(find.address));
    lemma_highest_below(find.cursor.forks, 64);
}

/// Where a run stands after its calls: the cursor fits the bus, the last
/// call found a device of the bus that comes after all that were found
/// before, and every device that comes no later was found.
pub open spec fn run_stands(roms: Set<Seq<bool>>, first: Cursor, run: Seq<Find>) -> bool {
    &&& tracks(roms, cursor_before(first, run, run.len() as int))
    &&& run.len() > 0 ==> {
        &&& found_at(run, run.len() - 1) == run.last().cursor.rom
        &&& roms.contains(run.last().cursor.rom)
        &&& run.last().cursor.state != SearchState::Initialized
        &&& run.last().cursor.state == SearchState::End ==> last_fork(run.last().cursor.forks)
            is None
        &&& forall|k: int|
            0 <= k < run.len() - 1 ==> place(#[trigger] found_at(run, k), 64) < place(
                run.last().cursor.rom,
                64,
            )
        &&& forall|d: Seq<bool>| #[trigger]
            roms.contains(d) && place(d, 64) <= place(run.last().cursor.rom, 64) ==> found_in(
                run,
                d,
            )
    }
}

proof fn lemma_run_prefix(roms: Set<Seq<bool>>, first: Cursor, run: Seq<Find>, n: int)
    requires
        0 <= n <= run.len(),
        ran_on_bus(roms, first, run),
    ensures
        ran_on_bus(roms, first, run.take(n)),
        forall|k: int| 0 <= k < n ==> #[trigger] found_at(run.take(n), k) == found_at(run, k),
        cursor_before(first, run.take(n), n) == cursor_before(first, run, n),
{
    let head = run.take(n);
    assert forall|k: int| 0 <= k < head.len() implies #[trigger] call_on_bus(
        roms,
        first,
        head,
        k,
    ) by {
        assert(call_on_bus(roms, first, run, k));
        assert(head[k] == run[k]);
        if k > 0 {
            assert(head[k - 1] == run[k - 1]);
        }
    }
    assert forall|k: int| 0 <= k < n implies #[trigger] found_at(head, k) == found_at(run, k) by {
        assert(head[k] == run[k]);
    }
    if n > 0 {
        assert(head[n - 1] == run[n - 1]);
    }
}

proof fn lemma_run_step(roms: Set<Seq<bool>>, first: Cursor, run: Seq<Find>)
    requires
        bus_wf(roms),
        exists|d: Seq<bool>| roms.contains(d),
        at_start(first),
        run.len() > 0,
        run_stands(roms, first, run.drop_last()),
        cursor_before(first, run.drop_last(), run.len() - 1) == cursor_before(
            first,
            run,
            run.len() - 1,
        ),
        forall|k: int|
            0 <= k < run.len() - 1 ==> #[trigger] found_at(run.drop_last(), k) == found_at(run, k),
        called_on_bus(roms, cursor_before(first, run, run.len() - 1), run.last()),
    ensures
        run_stands(roms, first, run),
{
    let n = run.len() - 1;
    let head = run.drop_last();
    let before = cursor_before(first, run, n);
    let last = run[n];
    lemma_called_on_bus(roms, before, last);
    assert(found_at(run, n) == last.cursor.rom);
    assert forall|k: int| 0 <= k < n implies place(#[trigger] found_at(run, k), 64) < place(
        last.cursor.rom,
        64,
    ) by {
        assert(found_at(head, k) == found_at(run, k));
        if k < n - 1 {
            assert(place(found_at(head, k), 64) < place(head.last().cursor.rom, 64));
        } else {
            assert(found_at(head, n - 1) == head.last().cursor.rom);
        }
        assert(before == head.last().cursor);
    }
    assert forall|d: Seq<bool>| #[trigger]
        roms.contains(d) && place(d, 64) <= place(last.cursor.rom, 64) implies found_in(run, d) by {
        lemma_place_orders(d, last.cursor.rom);
        if n > 0 && place(d, 64) <= place(head.last().cursor.rom, 64) {
            assert(found_in(head, d));
            let k = choose|k: int| 0 <= k < head.len() && #[trigger] found_at(head, k) == d;
            assert(found_at(run, k) == d);
        } else {
            if n > 0 {
                assert(before == head.last().cursor);
            }
            assert(place(last.cursor.rom, 64) <= place(d, 64));
            assert(found_at(run, n) == d);
        }
    }
}

proof fn lemma_run_on_bus(roms: Set<Seq<bool>>, first: Cursor, run: Seq<Find>)
    requires
        bus_wf(roms),
        exists|d: Seq<bool>| roms.contains(d),
        at_start(first),
        ran_on_bus(roms, first, run),
    ensures
        run_stands(roms, first, run),
    decreases run.len(),
{
    if run.len() > 0 {
        let n = run.len() - 1;
        lemma_run_prefix(roms, first, run, n);
        assert(run.take(n) =~= run.drop_last());
        lemma_run_on_bus(roms, first, run.drop_last());
        assert(call_on_bus(roms, first, run, n));
        lemma_run_step(roms, first, run);
    }
}

/// A search on a bus finds each device once.
///
/// Let the bus hold the devices `roms`, at least one, and let `run` be the
/// calls of a search that began at its start and found a device each.
/// Then each of these calls found a device of the bus, and no two of them
/// the same: the devices come in the order of their places. Whatever
/// device comes no later than the last one found was found. And once the
/// cursor has no fork left, which is when the next call finds nothing,
/// every device of the bus was found.
pub proof fn lemma_search_finds_each_once(roms: Set<Seq<bool>>, first: Cursor, run: Seq<Find>)
    requires
        bus_wf(roms),
        exists|d: Seq<bool>| roms.contains(d),
        at_start(first),
        ran_on_bus(roms, first, run),
    ensures
        forall|k: int| 0 <= k < run.len() ==> roms.contains(#[trigger] found_at(run, k)),
        forall|j: int, k: int|
            0 <= j < k < run.len() ==> place(#[trigger] found_at(run, j), 64) < place(
                #[trigger] found_at(run, k),
                64,
            ),
        forall|j: int, k: int|
            0 <= j < k < run.len() ==> #[trigger] found_at(run, j) != #[trigger] found_at(run, k),
        run.len() > 0 ==> forall|d: Seq<bool>| #[trigger]
            roms.contains(d) && place(d, 64) <= place(found_at(run, run.len() - 1), 64)
                ==> found_in(run, d),
        run.len() > 0 && last_fork(run.last().cursor.forks) is None ==> forall|d: Seq<bool>|
            #[trigger] roms.contains(d) ==> found_in(run, d),
        run.len() > 0 && run.last().cursor.state == SearchState::End ==> last_fork(
            run.last().cursor.forks,
        ) is None,
{
    lemma_run_on_bus(roms, first, run);
    assert forall|k: int| 0 <= k < run.len() implies roms.contains(#[trigger] found_at(run, k)) by {
        lemma_run_prefix(roms, first, run, k + 1);
        lemma_run_on_bus(roms, first, run.take(k + 1));
        assert(found_at(run.take(k + 1), k) == found_at(run, k));
        assert(run.take(k + 1).last() == run.take(k + 1)[k]);
    }
    assert forall|j: int, k: int| 0 <= j < k < run.len() implies place(
        #[trigger] found_at(run, j),
        64,
    ) < place(#[trigger] found_at(run, k), 64) by {
        lemma_run_prefix(roms, first, run, k + 1);
        lemma_run_on_bus(roms, first, run.take(k + 1));
        assert(found_at(run.take(k + 1), k) == found_at(run, k));
        assert(found_at(run.take(k + 1), j) == found_at(run, j));
        assert(run.take(k + 1).last() == run.take(k + 1)[k]);
    }
    if run.len() > 0 {
        let c = run.last().cursor;
        lemma_highest_below(c.forks, 64);
        if last_fork(c.forks) is None {
            assert(tracks(roms, c));
            assert forall|d: Seq<bool>| #[trigger] roms.contains(d) implies found_in(run, d) by {
                lemma_no_fork_is_last(roms, c, d);
            }
        }
    }
}

/// A byte is known by its eight bits.
proof fn lemma_byte_by_bits(x: u8, y: u8)
    requires
        forall|j: nat| j < 8 ==> bit_of(x, j) == bit_of(y, j),
    ensures
        x == y,
{
    assert(bit_of(x, 0) == bit_of(y, 0) && bit_of(x, 1) == bit_of(y, 1) && bit_of(x, 2) == bit_of(
        y,
        2,
    ) && bit_of(x, 3) == bit_of(y, 3) && bit_of(x, 4) == bit_of(y, 4) && bit_of(x, 5) == bit_of(
        y,
        5,
    ) && bit_of(x, 6) == bit_of(y, 6) && bit_of(x, 7) == bit_of(y, 7));
    assert(x >> 0nat == x >> 0u8 && x >> 1nat == x >> 1u8 && x >> 2nat == x >> 2u8 && x >> 3nat
        == x >> 3u8 && x >> 4nat == x >> 4u8 && x >> 5nat == x >> 5u8 && x >> 6nat == x >> 6u8
        && x >> 7nat == x >> 7u8);
    assert(y >> 0nat == y >> 0u8 && y >> 1nat == y >> 1u8 && y >> 2nat == y >> 2u8 && y >> 3nat
        == y >> 3u8 && y >> 4nat == y >> 4u8 && y >> 5nat == y >> 5u8 && y >> 6nat == y >> 6u8
        && y >> 7nat == y >> 7u8);
    assert(x == y) by (bit_vector)
        requires
            ((x >> 0u8) & 1 == 1) == ((y >> 0u8) & 1 == 1),
            ((x >> 1u8) & 1 == 1) == ((y >> 1u8) & 1 == 1),
            ((x >> 2u8) & 1 == 1) == ((y >> 2u8) & 1 == 1),
            ((x >> 3u8) & 1 == 1) == ((y >> 3u8) & 1 == 1),
            ((x >> 4u8) & 1 == 1) == ((y >> 4u8) & 1 == 1),
            ((x >> 5u8) & 1 == 1) == ((y >> 5u8) & 1 == 1),
            ((x >> 6u8) & 1 == 1) == ((y >> 6u8) & 1 == 1),
            ((x >> 7u8) & 1 == 1) == ((y >> 7u8) & 1 == 1),
    ;
}

/// A ROM of eight bytes is known by its 64 bits.
pub proof fn lemma_rom_by_bits(x: Seq<u8>, y: Seq<u8>)
    requires
        x.len() == 8,
        y.len() == 8,
        rom_bits(x) == rom_bits(y),
    ensures
        x == y,
{
    assert forall|i: int| 0 <= i < 8 implies x[i] == y[i] by {
        assert forall|j: nat| j < 8 implies bit_of(x[i], j) == bit_of(y[i], j) by {
            let at = 8 * i + j;
            assert(at / 8 == i && at % 8 == j);
            assert(rom_bits(x)[at] == bit_of(x[i], j));
            assert(rom_bits(y)[at] == bit_of(y[i], j));
        }
        lemma_byte_by_bits(x[i], y[i]);
    }
    assert(x =~= y);
}

/// A search that is run to its end and then looked through for the
/// addresses of one family gives the devices of that family on the bus,
/// all of them and no others. This holds for every cursor at the start of
/// a search, whatever its ROM was set to.
pub proof fn lemma_search_by_family(
    roms: Set<Seq<bool>>,
    first: Cursor,
    run: Seq<Find>,
    family: u8,
)
    requires
        bus_wf(roms),
        exists|d: Seq<bool>| roms.contains(d),
        at_start(first),
        ran_on_bus(roms, first, run),
        run.len() > 0,
        last_fork(run.last().cursor.forks) is None,
    ensures
        forall|k: int|
            0 <= k < run.len() && run[k].address@[0] == family ==> roms.contains(
                #[trigger] found_at(run, k),
            ),
        forall|a: Address| #[trigger]
            roms.contains(rom_bits(a@)) && a@[0] == family ==> exists|k: int|
                0 <= k < run.len() && #[trigger] found_at(run, k) == rom_bits(a@) && run[k].address
                    == a,
{
    lemma_search_finds_each_once(roms, first, run);
    assert forall|a: Address|
        #[trigger] roms.contains(rom_bits(a@)) && a@[0] == family implies exists|k: int|
        0 <= k < run.len() && #[trigger] found_at(run, k) == rom_bits(a@) && run[k].address
            == a by {
        assert(found_in(run, rom_bits(a@)));
        let k = choose|k: int| 0 <= k < run.len() && #[trigger] found_at(run, k) == rom_bits(a@);
        lemma_rom_by_bits(run[k].address@, a@);
        assert(run[k].address.raw =~= a.raw);
        assert(run[k].address == a);
    }
}

} // verus!
