//! The transcript of a bus: which operations a master performs on its
//! line, one after the other, and how long it waits between them.
//!
//! All times are in microseconds, at standard speed.

use vstd::prelude::*;
use crate::crc::bit_of;

verus! {

/// One thing that a master does on its line.
pub enum WireOp {
    /// It drove the line low.
    SetLow,
    /// It released the line.
    SetHigh,
    /// It asked whether the line is high and got this answer.
    IsHigh(bool),
    /// It asked whether the line is low and got this answer.
    IsLow(bool),
    /// It waited for so many microseconds.
    Delay(u32),
    /// It called the line and the line reported an error.
    Failed,
}

/// No call in `t` failed.
pub open spec fn clean(t: Seq<WireOp>) -> bool {
    forall|i: int| 0 <= i < t.len() ==> t[i] != WireOp::Failed
}

/// The eight bits of a byte in the order in which they travel: the least
/// significant one first.
pub open spec fn bits_of(byte: u8) -> Seq<bool> {
    Seq::new(8, |i: int| bit_of(byte, i as nat))
}

/// A write slot. For a 1 the line is low for 10 and then released for
/// 55; for a 0 it is low for 65 and then released for 5.
pub open spec fn write_slot(high: bool) -> Seq<WireOp> {
    seq![
        WireOp::SetLow,
        WireOp::Delay(if high { 10 } else { 65 }),
        WireOp::SetHigh,
        WireOp::Delay(if high { 55 } else { 5 }),
    ]
}

/// A read slot that samples `bit`: low for 3, released for 2, then the
/// sample, then 61 to the end of the slot.
pub open spec fn read_slot(bit: bool) -> Seq<WireOp> {
    seq![
        WireOp::SetLow,
        WireOp::Delay(3),
        WireOp::SetHigh,
        WireOp::Delay(2),
        WireOp::IsHigh(bit),
        WireOp::Delay(61),
    ]
}

/// One write slot for each of `bits`, in order.
pub open spec fn write_slots(bits: Seq<bool>) -> Seq<WireOp>
    decreases bits.len(),
{
    if bits.len() == 0 {
        Seq::empty()
    } else {
        write_slots(bits.drop_last()) + write_slot(bits.last())
    }
}

/// One read slot for each of `bits`, in order.
pub open spec fn read_slots(bits: Seq<bool>) -> Seq<WireOp>
    decreases bits.len(),
{
    if bits.len() == 0 {
        Seq::empty()
    } else {
        read_slots(bits.drop_last()) + read_slot(bits.last())
    }
}

/// What follows a transmitted byte. With `parasite` the line is left to
/// the pull-up, which powers the devices; without it the line is driven
/// low once.
pub open spec fn byte_end(parasite: bool) -> Seq<WireOp> {
    if parasite {
        Seq::empty()
    } else {
        seq![WireOp::SetLow]
    }
}

/// A byte on its way out: eight write slots, then the end of the byte.
pub open spec fn write_byte_script(byte: u8, parasite: bool) -> Seq<WireOp> {
    write_slots(bits_of(byte)) + byte_end(parasite)
}

/// Each of `bytes` sent as a byte of its own without parasite power.
pub open spec fn write_each(bytes: Seq<u8>) -> Seq<WireOp>
    decreases bytes.len(),
{
    if bytes.len() == 0 {
        Seq::empty()
    } else {
        write_each(bytes.drop_last()) + write_byte_script(bytes.last(), false)
    }
}

/// A run of bytes on its way out: each byte without parasite power, then
/// one more end of byte that goes by the driver's own setting.
pub open spec fn write_bytes_script(bytes: Seq<u8>, parasite: bool) -> Seq<WireOp> {
    write_each(bytes) + byte_end(parasite)
}

/// A byte on its way in: eight read slots that sample its bits.
pub open spec fn read_byte_script(byte: u8) -> Seq<WireOp> {
    read_slots(bits_of(byte))
}

/// A run of bytes on its way in.
pub open spec fn read_bytes_script(bytes: Seq<u8>) -> Seq<WireOp>
    decreases bytes.len(),
{
    if bytes.len() == 0 {
        Seq::empty()
    } else {
        read_bytes_script(bytes.drop_last()) + read_byte_script(bytes.last())
    }
}

/// `n` looks at a line that is not high yet, 2 apart.
pub open spec fn poll_script(n: nat) -> Seq<WireOp>
    decreases n,
{
    if n == 0 {
        Seq::empty()
    } else {
        poll_script((n - 1) as nat) + seq![WireOp::IsHigh(false), WireOp::Delay(2)]
    }
}

/// The samples of the presence window, 10 apart.
pub open spec fn presence_script(samples: Seq<bool>) -> Seq<WireOp>
    decreases samples.len(),
{
    if samples.len() == 0 {
        Seq::empty()
    } else {
        presence_script(samples.drop_last()) + seq![
            WireOp::Delay(10),
            WireOp::IsLow(samples.last()),
        ]
    }
}

/// How often the watchdog of a reset looks at the line before it gives up.
pub open spec fn watchdog_polls() -> nat {
    125
}

/// How many samples a reset takes of the presence pulse.
pub open spec fn presence_samples() -> nat {
    7
}

/// A whole reset: release the line and wait until it is high (`polls`
/// looks in vain, then one that finds it high), hold it low for 480,
/// release it, sample the presence pulse, and wait 410 for the end of the
/// frame.
pub open spec fn reset_script(polls: nat, samples: Seq<bool>) -> Seq<WireOp> {
    seq![WireOp::SetHigh] + poll_script(polls) + seq![
        WireOp::IsHigh(true),
        WireOp::SetLow,
        WireOp::Delay(480),
        WireOp::SetHigh,
    ] + presence_script(samples) + seq![WireOp::Delay(410)]
}

/// The samples of a presence window in which no device answers.
pub open spec fn unanswered() -> Seq<bool> {
    Seq::new(presence_samples(), |i: int| false)
}

/// A reset on a line that stays low: the watchdog runs out.
pub open spec fn stuck_script() -> Seq<WireOp> {
    seq![WireOp::SetHigh] + poll_script(watchdog_polls())
}

/// `t` is a whole reset, in which a device answered or none did.
pub open spec fn reset_frame(t: Seq<WireOp>, present: bool) -> bool {
    exists|polls: nat, samples: Seq<bool>|
        polls < watchdog_polls() && samples.len() == presence_samples() && samples.contains(true)
            == present && t == #[trigger] reset_script(polls, samples)
}

/// `MatchRom` and the eight bytes of `rom`. The command byte goes by
/// `parasite`; of the address only the last byte does.
pub open spec fn select_script(rom: Seq<u8>, parasite: bool) -> Seq<WireOp> {
    write_byte_script(0x55, parasite) + write_each(rom.take(7)) + write_byte_script(
        rom[7],
        parasite,
    )
}

/// `SkipRom`.
pub open spec fn skip_script(parasite: bool) -> Seq<WireOp> {
    write_byte_script(0xCC, parasite)
}

/// The waits of a transcript, in order.
pub open spec fn waits_of(t: Seq<WireOp>) -> Seq<u32>
    decreases t.len(),
{
    if t.len() == 0 {
        Seq::empty()
    } else {
        match t.last() {
            WireOp::Delay(us) => waits_of(t.drop_last()).push(us),
            _ => waits_of(t.drop_last()),
        }
    }
}

/// The waits of two transcripts joined are those of the first followed by
/// those of the second.
pub proof fn lemma_waits_of_concat(a: Seq<WireOp>, b: Seq<WireOp>)
    ensures
        waits_of(a + b) == waits_of(a) + waits_of(b),
    decreases b.len(),
{
    if b.len() == 0 {
        assert(a + b =~= a);
        assert(waits_of(a) + waits_of(b) =~= waits_of(a));
    } else {
        lemma_waits_of_concat(a, b.drop_last());
        assert((a + b).drop_last() =~= a + b.drop_last());
        assert((a + b).last() == b.last());
        assert(waits_of(a + b) =~= waits_of(a) + waits_of(b));
    }
}

/// The operation is a call to the line.
pub open spec fn is_call(op: WireOp) -> bool {
    !(op is Delay) && !(op is Failed)
}

/// Two operations are the same but for the value that was sampled.
pub open spec fn same_kind(a: WireOp, b: WireOp) -> bool {
    match (a, b) {
        (WireOp::IsHigh(_), WireOp::IsHigh(_)) => true,
        (WireOp::IsLow(_), WireOp::IsLow(_)) => true,
        _ => a == b,
    }
}

/// Two transcripts are the same but for the values that were sampled.
pub open spec fn alike(a: Seq<WireOp>, b: Seq<WireOp>) -> bool {
    &&& a.len() == b.len()
    &&& forall|i: int| 0 <= i < a.len() ==> same_kind(#[trigger] a[i], b[i])
}

/// `done` is the beginning of `script`, but for the values that were
/// sampled, and what comes next in `script` is a call to the line.
pub open spec fn begins(done: Seq<WireOp>, script: Seq<WireOp>) -> bool {
    &&& done.len() < script.len()
    &&& is_call(script[done.len() as int])
    &&& forall|i: int| 0 <= i < done.len() ==> same_kind(#[trigger] done[i], script[i])
}

/// What begins a script begins every script that goes on after it.
pub proof fn lemma_begins_more(done: Seq<WireOp>, script: Seq<WireOp>, rest: Seq<WireOp>)
    requires
        begins(done, script),
    ensures
        begins(done, script + rest),
{
}

/// What begins a script begins it after any transcript that comes first.
pub proof fn lemma_begins_after(first: Seq<WireOp>, done: Seq<WireOp>, script: Seq<WireOp>)
    requires
        begins(done, script),
    ensures
        begins(first + done, first + script),
{
    let all = first + done;
    assert forall|i: int| 0 <= i < all.len() implies same_kind(
        #[trigger] all[i],
        (first + script)[i],
    ) by {
        if i >= first.len() {
            assert(all[i] == done[i - first.len()]);
        }
    }
}

/// What begins a script begins every script that is like it.
pub proof fn lemma_begins_alike(done: Seq<WireOp>, script: Seq<WireOp>, other: Seq<WireOp>)
    requires
        begins(done, script),
        alike(script, other),
    ensures
        begins(done, other),
{
    assert(same_kind(script[done.len() as int], other[done.len() as int]));
    assert forall|i: int| 0 <= i < done.len() implies same_kind(#[trigger] done[i], other[i]) by {
        assert(same_kind(script[i], other[i]));
    }
}

/// Transcripts that are alike piece by piece are alike.
pub proof fn lemma_alike_joined(a: Seq<WireOp>, b: Seq<WireOp>, c: Seq<WireOp>, d: Seq<WireOp>)
    requires
        alike(a, b),
        alike(c, d),
    ensures
        alike(a + c, b + d),
{
    assert forall|i: int| 0 <= i < (a + c).len() implies same_kind(
        #[trigger] (a + c)[i],
        (b + d)[i],
    ) by {
        if i < a.len() {
            assert(same_kind(a[i], b[i]));
        } else {
            assert(same_kind(c[i - a.len()], d[i - a.len()]));
        }
    }
}

/// A transcript is like itself.
pub proof fn lemma_alike_same(a: Seq<WireOp>)
    ensures
        alike(a, a),
{
}

/// Resets with the same number of looks at the line are alike whatever
/// their presence windows sample.
pub proof fn lemma_reset_alike(polls: nat, a: Seq<bool>, b: Seq<bool>)
    requires
        a.len() == b.len(),
    ensures
        alike(reset_script(polls, a), reset_script(polls, b)),
{
    lemma_presence_alike(a, b);
    let head = seq![WireOp::SetHigh] + poll_script(polls) + seq![
        WireOp::IsHigh(true),
        WireOp::SetLow,
        WireOp::Delay(480),
        WireOp::SetHigh,
    ];
    lemma_alike_same(head);
    lemma_alike_joined(head, head, presence_script(a), presence_script(b));
    lemma_alike_same(seq![WireOp::Delay(410)]);
    lemma_alike_joined(
        head + presence_script(a),
        head + presence_script(b),
        seq![WireOp::Delay(410)],
        seq![WireOp::Delay(410)],
    );
}

/// Read slots are alike whatever they sample.
pub proof fn lemma_read_slots_alike(a: Seq<bool>, b: Seq<bool>)
    requires
        a.len() == b.len(),
    ensures
        alike(read_slots(a), read_slots(b)),
    decreases a.len(),
{
    if a.len() > 0 {
        lemma_read_slots_alike(a.drop_last(), b.drop_last());
        lemma_alike_joined(
            read_slots(a.drop_last()),
            read_slots(b.drop_last()),
            read_slot(a.last()),
            read_slot(b.last()),
        );
    }
}

/// Presence windows are alike whatever they sample.
pub proof fn lemma_presence_alike(a: Seq<bool>, b: Seq<bool>)
    requires
        a.len() == b.len(),
    ensures
        alike(presence_script(a), presence_script(b)),
    decreases a.len(),
{
    if a.len() > 0 {
        lemma_presence_alike(a.drop_last(), b.drop_last());
        lemma_alike_joined(
            presence_script(a.drop_last()),
            presence_script(b.drop_last()),
            seq![WireOp::Delay(10), WireOp::IsLow(a.last())],
            seq![WireOp::Delay(10), WireOp::IsLow(b.last())],
        );
    }
}

/// Write slots for a run of bits are those for its first part followed by
/// those for the rest.
pub proof fn lemma_write_slots_split(bits: Seq<bool>, at: int)
    requires
        0 <= at <= bits.len(),
    ensures
        write_slots(bits) == write_slots(bits.take(at)) + write_slots(bits.skip(at)),
    decreases bits.len() - at,
{
    if at == bits.len() {
        assert(bits.take(at) =~= bits);
        assert(write_slots(bits.skip(at)) =~= Seq::<WireOp>::empty());
        assert(write_slots(bits) + Seq::<WireOp>::empty() =~= write_slots(bits));
    } else {
        lemma_write_slots_split(bits.drop_last(), at);
        assert(bits.drop_last().take(at) =~= bits.take(at));
        assert(bits.skip(at).drop_last() =~= bits.drop_last().skip(at));
        assert(bits.skip(at).last() == bits.last());
        assert(write_slots(bits.take(at)) + write_slots(bits.drop_last().skip(at)) + write_slot(
            bits.last(),
        ) =~= write_slots(bits.take(at)) + (write_slots(bits.drop_last().skip(at)) + write_slot(
            bits.last(),
        )));
    }
}

/// Read slots for a run of bits are those for its first part followed by
/// those for the rest.
pub proof fn lemma_read_slots_split(bits: Seq<bool>, at: int)
    requires
        0 <= at <= bits.len(),
    ensures
        read_slots(bits) == read_slots(bits.take(at)) + read_slots(bits.skip(at)),
    decreases bits.len() - at,
{
    if at == bits.len() {
        assert(bits.take(at) =~= bits);
        assert(read_slots(bits.skip(at)) =~= Seq::<WireOp>::empty());
        assert(read_slots(bits) + Seq::<WireOp>::empty() =~= read_slots(bits));
    } else {
        lemma_read_slots_split(bits.drop_last(), at);
        assert(bits.drop_last().take(at) =~= bits.take(at));
        assert(bits.skip(at).drop_last() =~= bits.drop_last().skip(at));
        assert(bits.skip(at).last() == bits.last());
        assert(read_slots(bits.take(at)) + read_slots(bits.drop_last().skip(at)) + read_slot(
            bits.last(),
        ) =~= read_slots(bits.take(at)) + (read_slots(bits.drop_last().skip(at)) + read_slot(
            bits.last(),
        )));
    }
}

/// A run of bytes on its way out is its first part followed by the rest.
pub proof fn lemma_write_each_split(bytes: Seq<u8>, at: int)
    requires
        0 <= at <= bytes.len(),
    ensures
        write_each(bytes) == write_each(bytes.take(at)) + write_each(bytes.skip(at)),
    decreases bytes.len() - at,
{
    if at == bytes.len() {
        assert(bytes.take(at) =~= bytes);
        assert(write_each(bytes.skip(at)) =~= Seq::<WireOp>::empty());
        assert(write_each(bytes) + Seq::<WireOp>::empty() =~= write_each(bytes));
    } else {
        lemma_write_each_split(bytes.drop_last(), at);
        assert(bytes.drop_last().take(at) =~= bytes.take(at));
        assert(bytes.skip(at).drop_last() =~= bytes.drop_last().skip(at));
        assert(bytes.skip(at).last() == bytes.last());
        assert(write_each(bytes.take(at)) + write_each(bytes.drop_last().skip(at))
            + write_byte_script(bytes.last(), false) =~= write_each(bytes.take(at)) + (write_each(
            bytes.drop_last().skip(at),
        ) + write_byte_script(bytes.last(), false)));
    }
}

/// A run of bytes on its way in is its first part followed by the rest.
pub proof fn lemma_read_bytes_split(bytes: Seq<u8>, at: int)
    requires
        0 <= at <= bytes.len(),
    ensures
        read_bytes_script(bytes) == read_bytes_script(bytes.take(at)) + read_bytes_script(
            bytes.skip(at),
        ),
    decreases bytes.len() - at,
{
    if at == bytes.len() {
        assert(bytes.take(at) =~= bytes);
        assert(read_bytes_script(bytes.skip(at)) =~= Seq::<WireOp>::empty());
        assert(read_bytes_script(bytes) + Seq::<WireOp>::empty() =~= read_bytes_script(bytes));
    } else {
        lemma_read_bytes_split(bytes.drop_last(), at);
        assert(bytes.drop_last().take(at) =~= bytes.take(at));
        assert(bytes.skip(at).drop_last() =~= bytes.drop_last().skip(at));
        assert(bytes.skip(at).last() == bytes.last());
        assert(read_bytes_script(bytes.take(at)) + read_bytes_script(bytes.drop_last().skip(at))
            + read_byte_script(bytes.last()) =~= read_bytes_script(bytes.take(at)) + (
        read_bytes_script(bytes.drop_last().skip(at)) + read_byte_script(bytes.last())));
    }
}

/// The samples of a presence window are its first ones followed by the
/// rest.
pub proof fn lemma_presence_split(samples: Seq<bool>, at: int)
    requires
        0 <= at <= samples.len(),
    ensures
        presence_script(samples) == presence_script(samples.take(at)) + presence_script(
            samples.skip(at),
        ),
    decreases samples.len() - at,
{
    if at == samples.len() {
        assert(samples.take(at) =~= samples);
        assert(presence_script(samples.skip(at)) =~= Seq::<WireOp>::empty());
        assert(presence_script(samples) + Seq::<WireOp>::empty() =~= presence_script(samples));
    } else {
        lemma_presence_split(samples.drop_last(), at);
        assert(samples.drop_last().take(at) =~= samples.take(at));
        assert(samples.skip(at).drop_last() =~= samples.drop_last().skip(at));
        assert(samples.skip(at).last() == samples.last());
        let tail = seq![WireOp::Delay(10), WireOp::IsLow(samples.last())];
        assert(presence_script(samples.take(at)) + presence_script(samples.drop_last().skip(at))
            + tail =~= presence_script(samples.take(at)) + (presence_script(
            samples.drop_last().skip(at),
        ) + tail));
    }
}

} // verus!
