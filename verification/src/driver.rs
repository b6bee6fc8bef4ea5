//! The bus master: bit and byte slots, reset and presence, addressing.

use vstd::prelude::*;
use crate::address::Address;
use crate::command::{gives_code, Command, OpCode};
use crate::crc::bit_of;
use crate::iowire::{DelayUs, IoWire, Waited};
use crate::line::Line;
use crate::result::Error;
use crate::trace::{
    alike, begins, bits_of, byte_end, clean, is_call, lemma_alike_joined, lemma_alike_same,
    lemma_begins_after, lemma_begins_alike, lemma_begins_more, lemma_presence_alike,
    lemma_presence_split, lemma_read_bytes_split, lemma_read_slots_alike,
    lemma_read_slots_split, lemma_reset_alike, lemma_write_each_split, lemma_write_slots_split,
    poll_script, presence_samples, presence_script, read_byte_script, read_bytes_script,
    read_slot, read_slots, reset_frame, reset_script, select_script, skip_script, stuck_script,
    unanswered, watchdog_polls, write_byte_script, write_bytes_script, write_each, write_slot,
    waits_of, lemma_waits_of_concat, write_slots, WireOp,
};

verus! {

/// A 1-Wire master on the line `W`.
///
/// The line keeps a transcript of what is done on it. The transcript is
/// what the contracts of the driver speak of.
pub struct Driver<W: IoWire> {
    io_wire: Line<W>,
    parasite_mode: bool,
}

impl<W: IoWire> Driver<W> {
    /// Everything the driver has done on its line, oldest first.
    pub closed spec fn log(&self) -> Seq<WireOp> {
        self.io_wire.log()
    }

    /// The error that the line reported when a call to it failed last.
    pub closed spec fn fault(&self) -> Option<W::Error> {
        self.io_wire.fault()
    }

    /// Whether the devices draw their power from the line.
    pub closed spec fn parasite(&self) -> bool {
        self.parasite_mode
    }

    /// The waits on record, in order.
    pub open spec fn ticks(&self) -> Seq<u32> {
        waits_of(self.log())
    }

    /// Since the driver was as `before` and the delay had made the waits
    /// `was`, the delay was asked for exactly the waits that the transcript
    /// has gained, in their order, and has now made the waits `is`.
    ///
    /// It is said in a form that goes from call to call by itself: whatever
    /// the delay and the record had both gone through before, they have
    /// both gone through after. [`Self::lemma_kept_time`] draws the waits
    /// from it.
    pub open spec fn kept_time(&self, before: Self, was: Waited, is: Waited) -> bool {
        forall|from: Seq<u32>, since: Seq<u32>| #[trigger]
            in_step(was.us, before.ticks(), from, since) ==> in_step(
                is.us,
                self.ticks(),
                from,
                since,
            )
    }

    /// Since it was as `before`, the driver has done exactly `t`, and no
    /// call to the line failed.
    pub open spec fn ran(&self, before: Self, t: Seq<WireOp>) -> bool {
        &&& self.parasite() == before.parasite()
        &&& self.fault() == before.fault()
        &&& self.log() == before.log() + t
        &&& clean(t)
    }

    /// Since it was as `before`, the driver has begun `script` and has come
    /// to a call to the line that failed with the error `e`. What it did up
    /// to that call went well and is the beginning of `script`, but for the
    /// values that were sampled; after that call it did nothing more.
    pub open spec fn failed(&self, before: Self, script: Seq<WireOp>, e: W::Error) -> bool {
        &&& self.parasite() == before.parasite()
        &&& self.fault() == Some(e)
        &&& exists|done: Seq<WireOp>|
            clean(done) && begins(done, script) && self.log() == before.log()
                + #[trigger] done.push(WireOp::Failed)
    }

    /// How a bare transfer ended: on success the driver ran `script`; the
    /// only error is one of the line, after which nothing more was done.
    pub open spec fn wrote<T>(
        &self,
        before: Self,
        r: Result<T, Error<W::Error>>,
        script: Seq<WireOp>,
    ) -> bool {
        match r {
            Ok(_) => self.ran(before, script),
            Err(Error::PortError(e)) => self.failed(before, script, e),
            Err(_) => false,
        }
    }

    /// How a transaction ended that begins with a reset.
    ///
    /// On success the driver ran a reset that a device answered and then
    /// `rest`. `NoPresence` comes after a whole reset that no device
    /// answered, `WireFault` after the watchdog of the reset ran out, both
    /// with nothing done after that; `PortError` comes when a call to the
    /// line failed, somewhere in the reset or in `rest`, with nothing done
    /// after that call. No other error comes.
    pub open spec fn transacted<T>(
        &self,
        before: Self,
        r: Result<T, Error<W::Error>>,
        rest: Seq<WireOp>,
    ) -> bool {
        match r {
            Ok(_) => exists|frame: Seq<WireOp>|
                #[trigger] reset_frame(frame, true) && self.ran(before, frame + rest),
            Err(Error::NoPresence) => exists|frame: Seq<WireOp>|
                #[trigger] reset_frame(frame, false) && self.ran(before, frame),
            Err(Error::WireFault) => self.ran(before, stuck_script()),
            Err(Error::PortError(e)) => exists|polls: nat|
                polls < watchdog_polls() && self.failed(
                    before,
                    #[trigger] reset_script(polls, unanswered()) + rest,
                    e,
                ),
            Err(_) => false,
        }
    }

    /// A driver for `io_wire` that has done nothing yet.
    pub fn new(io_wire: W, parasite_mode: bool) -> (r: Self)
        ensures
            r.log() == Seq::<WireOp>::empty(),
            r.parasite() == parasite_mode,
            r.fault() is None,
    {
        Driver { io_wire: Line::new(io_wire), parasite_mode }
    }

    /// What ran and what ran after it ran one after the other.
    pub(crate) proof fn lemma_ran_ran(
        self,
        first: Self,
        mid: Self,
        t1: Seq<WireOp>,
        t2: Seq<WireOp>,
    )
        requires
            mid.ran(first, t1),
            self.ran(mid, t2),
        ensures
            self.ran(first, t1 + t2),
    {
        assert(first.log() + t1 + t2 =~= first.log() + (t1 + t2));
    }

    /// A step that fails after something ran fails in the whole, whatever
    /// the whole would have gone on with.
    pub(crate) proof fn lemma_ran_failed(
        self,
        first: Self,
        mid: Self,
        t1: Seq<WireOp>,
        step: Seq<WireOp>,
        rest: Seq<WireOp>,
        e: W::Error,
    )
        requires
            mid.ran(first, t1),
            self.failed(mid, step, e),
        ensures
            self.failed(first, t1 + step + rest, e),
    {
        let done = choose|done: Seq<WireOp>|
            clean(done) && begins(done, step) && self.log() == mid.log() + #[trigger] done.push(
                WireOp::Failed,
            );
        let all = t1 + done;
        lemma_begins_after(t1, done, step);
        lemma_begins_more(all, t1 + step, rest);
        assert(first.log() + t1 + done.push(WireOp::Failed) =~= first.log() + all.push(
            WireOp::Failed,
        ));
    }

    /// What fails in a script fails in every script that goes on after it.
    pub(crate) proof fn lemma_failed_more(
        self,
        first: Self,
        script: Seq<WireOp>,
        rest: Seq<WireOp>,
        e: W::Error,
    )
        requires
            self.failed(first, script, e),
        ensures
            self.failed(first, script + rest, e),
    {
        let done = choose|done: Seq<WireOp>|
            clean(done) && begins(done, script) && self.log() == first.log() + #[trigger] done.push(
                WireOp::Failed,
            );
        lemma_begins_more(done, script, rest);
    }

    /// What fails in a script fails in every script that is like it.
    pub(crate) proof fn lemma_failed_alike(
        self,
        first: Self,
        script: Seq<WireOp>,
        other: Seq<WireOp>,
        e: W::Error,
    )
        requires
            self.failed(first, script, e),
            alike(script, other),
        ensures
            self.failed(first, other, e),
    {
        let done = choose|done: Seq<WireOp>|
            clean(done) && begins(done, script) && self.log() == first.log() + #[trigger] done.push(
                WireOp::Failed,
            );
        lemma_begins_alike(done, script, other);
    }

    /// What runs after a transaction that went well so far is part of it.
    pub(crate) proof fn lemma_transacted_ran<T>(
        self,
        first: Self,
        mid: Self,
        r: Result<T, Error<W::Error>>,
        t1: Seq<WireOp>,
        t2: Seq<WireOp>,
    )
        requires
            r is Ok,
            mid.transacted(first, r, t1),
            self.ran(mid, t2),
        ensures
            self.transacted(first, r, t1 + t2),
    {
        let frame = choose|frame: Seq<WireOp>|
            #[trigger] reset_frame(frame, true) && mid.ran(first, frame + t1);
        self.lemma_ran_ran(first, mid, frame + t1, t2);
        assert(frame + t1 + t2 =~= frame + (t1 + t2));
    }

    /// A step that fails after a transaction went well so far makes the
    /// transaction fail, whatever it would have gone on with.
    pub(crate) proof fn lemma_transacted_failed<T, U>(
        self,
        first: Self,
        mid: Self,
        r: Result<T, Error<W::Error>>,
        t1: Seq<WireOp>,
        step: Seq<WireOp>,
        rest: Seq<WireOp>,
        e: W::Error,
    )
        requires
            r is Ok,
            mid.transacted(first, r, t1),
            self.failed(mid, step, e),
        ensures
            self.transacted(
                first,
                Err::<U, Error<W::Error>>(Error::PortError(e)),
                t1 + step + rest,
            ),
    {
        let frame = choose|frame: Seq<WireOp>|
            #[trigger] reset_frame(frame, true) && mid.ran(first, frame + t1);
        let (polls, samples) = choose|polls: nat, samples: Seq<bool>|
            polls < watchdog_polls() && samples.len() == presence_samples() && samples.contains(
                true,
            ) == true && frame == #[trigger] reset_script(polls, samples);
        self.lemma_ran_failed(first, mid, frame + t1, step, rest, e);
        let quiet = reset_script(polls, unanswered());
        lemma_reset_alike(polls, samples, unanswered());
        lemma_alike_same(t1 + step + rest);
        lemma_alike_joined(frame, quiet, t1 + step + rest, t1 + step + rest);
        assert(frame + t1 + step + rest =~= frame + (t1 + step + rest));
        self.lemma_failed_alike(first, frame + (t1 + step + rest), quiet + (t1 + step + rest), e);
    }

    /// A transaction that failed would have failed in the same way had more
    /// been to follow.
    pub(crate) proof fn lemma_transacted_more<T, U>(
        self,
        first: Self,
        r: Result<T, Error<W::Error>>,
        t1: Seq<WireOp>,
        rest: Seq<WireOp>,
    )
        requires
            r is Err,
            self.transacted(first, r, t1),
        ensures
            self.transacted(first, Err::<U, Error<W::Error>>(r->Err_0), t1 + rest),
    {
        match r {
            Err(Error::PortError(e)) => {
                let polls = choose|polls: nat|
                    polls < watchdog_polls() && self.failed(
                        first,
                        #[trigger] reset_script(polls, unanswered()) + t1,
                        e,
                    );
                let quiet = reset_script(polls, unanswered());
                self.lemma_failed_more(first, quiet + t1, rest, e);
                assert(quiet + t1 + rest =~= quiet + (t1 + rest));
            },
            _ => {},
        }
    }

    /// A call that fails at once fails at the start of every script that
    /// starts with a call.
    pub(crate) proof fn lemma_failed_now(self, before: Self, script: Seq<WireOp>, e: W::Error)
        requires
            self.parasite() == before.parasite(),
            self.fault() == Some(e),
            self.log() == before.log().push(WireOp::Failed),
            script.len() > 0,
            is_call(script[0]),
        ensures
            self.failed(before, script, e),
    {
        let done = Seq::<WireOp>::empty();
        assert(self.log() =~= before.log() + done.push(WireOp::Failed));
        assert(begins(done, script));
    }

    /// A sample of the presence window that fails makes the reset fail.
    proof fn lemma_reset_failed(
        self,
        first: Self,
        mid: Self,
        polls: nat,
        samples: Seq<bool>,
        e: W::Error,
    )
        requires
            polls < 125,
            samples.len() < 7,
            mid.ran(
                first,
                seq![WireOp::SetHigh] + (poll_script(polls) + seq![WireOp::IsHigh(true)])
                    + seq![WireOp::SetLow] + seq![WireOp::Delay(480)] + seq![WireOp::SetHigh]
                    + presence_script(samples) + seq![WireOp::Delay(10)],
            ),
            self.failed(mid, seq![WireOp::IsLow(true)], e),
        ensures
            self.transacted(
                first,
                Err::<(), Error<W::Error>>(Error::PortError(e)),
                Seq::empty(),
            ),
    {
        let i = samples.len() as int;
        let quiet = unanswered();
        let none = Seq::<WireOp>::empty();
        let end = seq![WireOp::Delay(410)];
        let t5 = seq![WireOp::SetHigh] + (poll_script(polls) + seq![WireOp::IsHigh(true)])
            + seq![WireOp::SetLow] + seq![WireOp::Delay(480)] + seq![WireOp::SetHigh];
        let t6 = t5 + presence_script(samples);
        let rest = presence_script(quiet.skip(i + 1)) + end;
        self.lemma_ran_failed(
            first,
            mid,
            t6 + seq![WireOp::Delay(10)],
            seq![WireOp::IsLow(true)],
            rest,
            e,
        );
        // What was done is like the beginning of a reset that nobody
        // answers.
        let head = quiet.take(i + 1);
        lemma_presence_split(quiet, i + 1);
        assert(head.drop_last() =~= quiet.take(i));
        lemma_presence_alike(samples, quiet.take(i));
        lemma_alike_same(t5);
        lemma_alike_joined(t5, t5, presence_script(samples), presence_script(quiet.take(i)));
        let sample = seq![WireOp::Delay(10), WireOp::IsLow(true)];
        let sample_quiet = seq![WireOp::Delay(10), WireOp::IsLow(head.last())];
        lemma_alike_joined(
            t5 + presence_script(samples),
            t5 + presence_script(quiet.take(i)),
            sample,
            sample_quiet,
        );
        lemma_alike_same(rest);
        lemma_alike_joined(
            t5 + presence_script(samples) + sample,
            t5 + presence_script(quiet.take(i)) + sample_quiet,
            rest,
            rest,
        );
        let did = t6 + seq![WireOp::Delay(10)] + seq![WireOp::IsLow(true)] + rest;
        assert(did =~= t5 + presence_script(samples) + sample + rest);
        assert(t5 + presence_script(quiet.take(i)) + sample_quiet + rest =~= reset_script(
            polls,
            quiet,
        ) + none);
        self.lemma_failed_alike(first, did, reset_script(polls, quiet) + none, e);
    }

    /// An operation that is no wait leaves the waits on record as they were.
    proof fn lemma_no_tick(self, before: Self)
        requires
            exists|op: WireOp| !(op is Delay) && self.log() == #[trigger] before.log().push(op),
        ensures
            self.ticks() == before.ticks(),
    {
        let op = choose|op: WireOp|
            !(op is Delay) && self.log() == #[trigger] before.log().push(op);
        assert(before.log().push(op).drop_last() =~= before.log());
    }

    /// A wait that is made and noted keeps the delay and the record in step.
    proof fn lemma_tick(self, before: Self, us: u32, was: Waited, is: Waited)
        requires
            self.log() == before.log().push(WireOp::Delay(us)),
            is.us == was.us.push(us),
        ensures
            self.kept_time(before, was, is),
    {
        assert(before.log().push(WireOp::Delay(us)).drop_last() =~= before.log());
        assert(self.ticks() == before.ticks().push(us));
        assert forall|from: Seq<u32>, since: Seq<u32>| #[trigger]
            in_step(was.us, before.ticks(), from, since) implies in_step(
            is.us,
            self.ticks(),
            from,
            since,
        ) by {
            reveal(in_step);
            let gone = choose|gone: Seq<u32>|
                was.us == from + gone && before.ticks() == since + gone;
            let more = gone.push(us);
            assert(is.us =~= from + more);
            assert(self.ticks() =~= since + more);
        }
    }

    /// The waits that the delay has made are those it had made followed by
    /// the waits of what the transcript has gained.
    pub proof fn lemma_kept_time(self, before: Self, was: Waited, is: Waited, t: Seq<WireOp>)
        requires
            self.kept_time(before, was, is),
            self.log() == before.log() + t,
        ensures
            is.us == was.us + waits_of(t),
    {
        reveal(in_step);
        assert(was.us =~= was.us + Seq::<u32>::empty());
        assert(before.ticks() =~= before.ticks() + Seq::<u32>::empty());
        assert(in_step(was.us, before.ticks(), was.us, before.ticks()));
        let gone = choose|gone: Seq<u32>|
            is.us == was.us + gone && self.ticks() == before.ticks() + gone;
        lemma_waits_of_concat(before.log(), t);
        let n = before.ticks().len() as int;
        assert(self.ticks() == before.ticks() + waits_of(t));
        assert((before.ticks() + gone).len() == n + gone.len());
        assert((before.ticks() + waits_of(t)).len() == n + waits_of(t).len());
        assert(gone.len() == waits_of(t).len());
        assert forall|i: int| 0 <= i < gone.len() implies gone[i] == waits_of(t)[i] by {
            assert((before.ticks() + gone)[n + i] == gone[i]);
            assert((before.ticks() + waits_of(t))[n + i] == waits_of(t)[i]);
        }
        assert(gone =~= waits_of(t));
    }

    /// Doing nothing is running the empty script.
    pub(crate) proof fn lemma_ran_nothing(self)
        ensures
            self.ran(self, Seq::empty()),
    {
        assert(self.log() + Seq::<WireOp>::empty() =~= self.log());
    }

    pub(crate) fn set_high(&mut self) -> (r: Result<(), W::Error>)
        ensures
            final(self).ticks() == old(self).ticks(),
            r is Ok ==> final(self).ran(*old(self), seq![WireOp::SetHigh]),
            r is Err ==> final(self).failed(*old(self), seq![WireOp::SetHigh], r->Err_0),
    {
        let r = self.io_wire.set_high();
        proof {
            self.lemma_no_tick(*old(self));
            if r is Ok {
                assert(self.log() =~= old(self).log() + seq![WireOp::SetHigh]);
            } else {
                self.lemma_failed_now(*old(self), seq![WireOp::SetHigh], r->Err_0);
            }
        }
        r
    }

    pub(crate) fn set_low(&mut self) -> (r: Result<(), W::Error>)
        ensures
            final(self).ticks() == old(self).ticks(),
            r is Ok ==> final(self).ran(*old(self), seq![WireOp::SetLow]),
            r is Err ==> final(self).failed(*old(self), seq![WireOp::SetLow], r->Err_0),
    {
        let r = self.io_wire.set_low();
        proof {
            self.lemma_no_tick(*old(self));
            if r is Ok {
                assert(self.log() =~= old(self).log() + seq![WireOp::SetLow]);
            } else {
                self.lemma_failed_now(*old(self), seq![WireOp::SetLow], r->Err_0);
            }
        }
        r
    }

    pub(crate) fn is_high(&mut self) -> (r: Result<bool, W::Error>)
        ensures
            final(self).ticks() == old(self).ticks(),
            r is Ok ==> final(self).ran(*old(self), seq![WireOp::IsHigh(r->Ok_0)]),
            r is Err ==> final(self).failed(*old(self), seq![WireOp::IsHigh(true)], r->Err_0),
    {
        let r = self.io_wire.is_high();
        proof {
            self.lemma_no_tick(*old(self));
            if r is Ok {
                assert(self.log() =~= old(self).log() + seq![WireOp::IsHigh(r->Ok_0)]);
            } else {
                self.lemma_failed_now(*old(self), seq![WireOp::IsHigh(true)], r->Err_0);
            }
        }
        r
    }

    pub(crate) fn is_low(&mut self) -> (r: Result<bool, W::Error>)
        ensures
            final(self).ticks() == old(self).ticks(),
            r is Ok ==> final(self).ran(*old(self), seq![WireOp::IsLow(r->Ok_0)]),
            r is Err ==> final(self).failed(*old(self), seq![WireOp::IsLow(true)], r->Err_0),
    {
        let r = self.io_wire.is_low();
        proof {
            self.lemma_no_tick(*old(self));
            if r is Ok {
                assert(self.log() =~= old(self).log() + seq![WireOp::IsLow(r->Ok_0)]);
            } else {
                self.lemma_failed_now(*old(self), seq![WireOp::IsLow(true)], r->Err_0);
            }
        }
        r
    }

    pub(crate) fn pause<D: DelayUs>(&mut self, delay: &mut D, us: u32)
        ensures
            final(self).kept_time(*old(self), old(delay).waited(), final(delay).waited()),
            final(self).ran(*old(self), seq![WireOp::Delay(us)]),
    {
        self.io_wire.pause(delay, us);
        proof {
            self.lemma_tick(*old(self), us, old(delay).waited(), delay.waited());
            assert(self.log() =~= old(self).log() + seq![WireOp::Delay(us)]);
        }
    }

    /// Sends one bit in a write slot.
    pub(crate) fn write_bit<D: DelayUs>(&mut self, delay: &mut D, high: bool) -> (r: Result<
        (),
        W::Error,
    >)
        ensures
            final(self).kept_time(*old(self), old(delay).waited(), final(delay).waited()),
            r is Ok ==> final(self).ran(*old(self), write_slot(high)),
            r is Err ==> final(self).failed(*old(self), write_slot(high), r->Err_0),
    {
        let ghost d0 = *self;
        let ghost low = seq![WireOp::SetLow];
        let ghost hold = seq![WireOp::Delay(if high { 10 } else { 65 })];
        let ghost up = seq![WireOp::SetHigh];
        let ghost end = seq![WireOp::Delay(if high { 55 } else { 5 })];
        proof {
            self.lemma_ran_nothing();
            assert(Seq::<WireOp>::empty() + low + (hold + up + end) =~= write_slot(high));
            assert(low + hold + up + end =~= write_slot(high));
        }
        match self.set_low() {
            Ok(()) => {},
            Err(e) => {
                proof {
                    self.lemma_ran_failed(d0, d0, Seq::empty(), low, hold + up + end, e);
                }
                return Err(e);
            },
        }
        let ghost d1 = *self;
        self.pause(delay, if high { 10 } else { 65 });
        let ghost d2 = *self;
        proof {
            d2.lemma_ran_ran(d0, d1, low, hold);
        }
        match self.set_high() {
            Ok(()) => {},
            Err(e) => {
                proof {
                    self.lemma_ran_failed(d0, d2, low + hold, up, end, e);
                }
                return Err(e);
            },
        }
        self.pause(delay, if high { 55 } else { 5 });
        proof {
            assert(self.log() =~= d0.log() + write_slot(high));
        }
        Ok(())
    }

    /// Receives one bit in a read slot.
    pub(crate) fn read_bit<D: DelayUs>(&mut self, delay: &mut D) -> (r: Result<bool, W::Error>)
        ensures
            final(self).kept_time(*old(self), old(delay).waited(), final(delay).waited()),
            r is Ok ==> final(self).ran(*old(self), read_slot(r->Ok_0)),
            r is Err ==> final(self).failed(*old(self), read_slot(true), r->Err_0),
    {
        let ghost d0 = *self;
        let ghost low = seq![WireOp::SetLow];
        let ghost hold = seq![WireOp::Delay(3)];
        let ghost up = seq![WireOp::SetHigh];
        let ghost wait = seq![WireOp::Delay(2)];
        let ghost look = seq![WireOp::IsHigh(true)];
        let ghost end = seq![WireOp::Delay(61)];
        proof {
            self.lemma_ran_nothing();
            assert(Seq::<WireOp>::empty() + low + (hold + up + wait + look + end) =~= read_slot(
                true,
            ));
            assert(low + hold + up + (wait + look + end) =~= read_slot(true));
            assert(low + hold + up + wait + look + end =~= read_slot(true));
        }
        match self.set_low() {
            Ok(()) => {},
            Err(e) => {
                proof {
                    self.lemma_ran_failed(
                        d0,
                        d0,
                        Seq::empty(),
                        low,
                        hold + up + wait + look + end,
                        e,
                    );
                }
                return Err(e);
            },
        }
        let ghost d1 = *self;
        self.pause(delay, 3);
        let ghost d2 = *self;
        proof {
            d2.lemma_ran_ran(d0, d1, low, hold);
        }
        match self.set_high() {
            Ok(()) => {},
            Err(e) => {
                proof {
                    self.lemma_ran_failed(d0, d2, low + hold, up, wait + look + end, e);
                }
                return Err(e);
            },
        }
        let ghost d3 = *self;
        self.pause(delay, 2);
        let ghost d4 = *self;
        proof {
            d3.lemma_ran_ran(d0, d2, low + hold, up);
            d4.lemma_ran_ran(d0, d3, low + hold + up, wait);
        }
        let val = match self.is_high() {
            Ok(level) => level,
            Err(e) => {
                proof {
                    self.lemma_ran_failed(d0, d4, low + hold + up + wait, look, end, e);
                }
                return Err(e);
            },
        };
        self.pause(delay, 61);
        proof {
            assert(self.log() =~= d0.log() + read_slot(val));
        }
        Ok(val)
    }

    /// Leaves the parasite-power state after a byte: without `parasite_mode`
    /// the line is driven low.
    pub(crate) fn disable_parasite_mode(&mut self, parasite_mode: bool) -> (r: Result<
        (),
        W::Error,
    >)
        ensures
            final(self).ticks() == old(self).ticks(),
            r is Ok ==> final(self).ran(*old(self), byte_end(parasite_mode)),
            r is Err ==> final(self).failed(*old(self), byte_end(parasite_mode), r->Err_0),
    {
        if !parasite_mode {
            self.set_low()
        } else {
            proof {
                self.lemma_ran_nothing();
            }
            Ok(())
        }
    }

    /// Sends one byte, the least significant bit first, and ends it as
    /// `parasite_mode` says.
    pub(crate) fn write_byte<D: DelayUs>(
        &mut self,
        delay: &mut D,
        byte: u8,
        parasite_mode: bool,
    ) -> (r: Result<(), W::Error>)
        ensures
            final(self).kept_time(*old(self), old(delay).waited(), final(delay).waited()),
            r is Ok ==> final(self).ran(*old(self), write_byte_script(byte, parasite_mode)),
            r is Err ==> final(self).failed(
                *old(self),
                write_byte_script(byte, parasite_mode),
                r->Err_0,
            ),
    {
        let ghost d0 = *self;
        let ghost bits = bits_of(byte);
        let mut cur: u8 = byte;
        let mut i: u8 = 0;
        proof {
            self.lemma_ran_nothing();
            assert(cur == byte >> 0u8) by (bit_vector)
                requires
                    cur == byte,
            ;
        }
        while i < 8
            invariant
                self.kept_time(*old(self), old(delay).waited(), delay.waited()),
                i <= 8,
                cur == byte >> i,
                bits == bits_of(byte),
                d0 == *old(self),
                self.ran(d0, write_slots(bits.take(i as int))),
            decreases 8 - i,
        {
            let ghost mid = *self;
            let ghost so_far = write_slots(bits.take(i as int));
            let high = (cur & 0x01) == 0x01;
            proof {
                assert(((cur & 0x01) == 0x01) == ((byte >> i) & 1 == 1));
                assert(byte >> i == byte >> (i as nat));
                assert(high == bits[i as int]);
                assert(cur >> 1u8 == byte >> ((i + 1) as u8)) by (bit_vector)
                    requires
                        cur == byte >> i,
                        i < 8,
                ;
                let next = bits.take(i + 1);
                assert(next.drop_last() =~= bits.take(i as int));
                assert(next.last() == high);
            }
            match self.write_bit(delay, high) {
                Ok(()) => {},
                Err(e) => {
                    proof {
                        let rest = write_slots(bits.skip(i + 1)) + byte_end(parasite_mode);
                        self.lemma_ran_failed(d0, mid, so_far, write_slot(high), rest, e);
                        lemma_write_slots_split(bits, i + 1);
                        assert(so_far + write_slot(high) + rest =~= write_byte_script(
                            byte,
                            parasite_mode,
                        ));
                    }
                    return Err(e);
                },
            }
            proof {
                self.lemma_ran_ran(d0, mid, so_far, write_slot(high));
            }
            cur >>= 1;
            i += 1;
        }
        let ghost mid = *self;
        proof {
            assert(bits.take(8) =~= bits);
        }
        match self.disable_parasite_mode(parasite_mode) {
            Ok(()) => {},
            Err(e) => {
                proof {
                    self.lemma_ran_failed(
                        d0,
                        mid,
                        write_slots(bits),
                        byte_end(parasite_mode),
                        Seq::empty(),
                        e,
                    );
                    assert(write_slots(bits) + byte_end(parasite_mode) + Seq::<WireOp>::empty()
                        =~= write_byte_script(byte, parasite_mode));
                }
                return Err(e);
            },
        }
        proof {
            self.lemma_ran_ran(d0, mid, write_slots(bits), byte_end(parasite_mode));
        }
        Ok(())
    }

    /// Receives one byte, the least significant bit first.
    pub(crate) fn read_byte<D: DelayUs>(&mut self, delay: &mut D) -> (r: Result<u8, W::Error>)
        ensures
            final(self).kept_time(*old(self), old(delay).waited(), final(delay).waited()),
            r is Ok ==> final(self).ran(*old(self), read_byte_script(r->Ok_0)),
            r is Err ==> final(self).failed(*old(self), read_byte_script(0xFF), r->Err_0),
    {
        let ghost d0 = *self;
        let ghost mut samples: Seq<bool> = Seq::empty();
        let mut byte: u8 = 0;
        let mut i: u8 = 0;
        proof {
            self.lemma_ran_nothing();
        }
        while i < 8
            invariant
                self.kept_time(*old(self), old(delay).waited(), delay.waited()),
                i <= 8,
                samples.len() == i,
                forall|j: int| 0 <= j < i ==> samples[j] == bit_of(byte, (8 - i + j) as nat),
                d0 == *old(self),
                self.ran(d0, read_slots(samples)),
            decreases 8 - i,
        {
            let ghost mid = *self;
            let ghost before = byte;
            byte >>= 1;
            let bit = match self.read_bit(delay) {
                Ok(bit) => bit,
                Err(e) => {
                    proof {
                        let ones = bits_of(0xFF);
                        let rest = read_slots(ones.skip(i + 1));
                        let so_far = read_slots(samples);
                        self.lemma_ran_failed(d0, mid, so_far, read_slot(true), rest, e);
                        lemma_read_slots_split(ones, i + 1);
                        let head = ones.take(i + 1);
                        assert(head.drop_last() =~= ones.take(i as int));
                        lemma_read_slots_alike(samples, ones.take(i as int));
                        lemma_alike_same(read_slot(true));
                        assert(head.last() == true) by {
                            assert((0xFFu8 >> i) & 1 == 1) by (bit_vector)
                                requires
                                    i < 8,
                            ;
                            assert(0xFFu8 >> i == 0xFFu8 >> (i as nat));
                        }
                        lemma_alike_joined(
                            read_slots(samples),
                            read_slots(ones.take(i as int)),
                            read_slot(true),
                            read_slot(head.last()),
                        );
                        lemma_alike_same(rest);
                        lemma_alike_joined(
                            read_slots(samples) + read_slot(true),
                            read_slots(head),
                            rest,
                            rest,
                        );
                        self.lemma_failed_alike(
                            d0,
                            read_slots(samples) + read_slot(true) + rest,
                            read_byte_script(0xFF),
                            e,
                        );
                    }
                    return Err(e);
                },
            };
            if bit {
                byte |= 0x80;
            }
            proof {
                self.lemma_ran_ran(d0, mid, read_slots(samples), read_slot(bit));
                let next = samples.push(bit);
                assert(next.drop_last() =~= samples);
                assert(next.last() == bit);
                assert forall|j: int| 0 <= j < i + 1 implies next[j] == bit_of(
                    byte,
                    (8 - (i + 1) + j) as nat,
                ) by {
                    let p = (7 - i + j) as u8;
                    assert(byte >> p == byte >> ((8 - (i + 1) + j) as nat));
                    if j < i {
                        assert(before >> ((p + 1) as u8) == before >> ((8 - i + j) as nat));
                        assert(((byte >> p) & 1 == 1) == ((before >> ((p + 1) as u8)) & 1 == 1))
                            by (bit_vector)
                            requires
                                p < 7,
                                byte == (before >> 1u8) || byte == (before >> 1u8) | 0x80,
                        ;
                    } else {
                        assert(((byte >> p) & 1 == 1) == bit) by (bit_vector)
                            requires
                                p == 7,
                                bit ==> byte == (before >> 1u8) | 0x80,
                                !bit ==> byte == (before >> 1u8),
                        ;
                    }
                }
                samples = next;
            }
            i += 1;
        }
        proof {
            assert(samples =~= bits_of(byte));
        }
        Ok(byte)
    }

    /// Sends a one-byte command and ends it as `parasite_mode` says. The
    /// byte that goes out is the one that `cmd` gives.
    pub fn write_command<D: DelayUs, C: OpCode>(
        &mut self,
        delay: &mut D,
        cmd: C,
        parasite_mode: bool,
    ) -> (r: Result<(), W::Error>)
        ensures
            final(self).kept_time(*old(self), old(delay).waited(), final(delay).waited()),
            exists|code: u8|
                {
                    &&& #[trigger] gives_code(&cmd, code)
                    &&& r is Ok ==> final(self).ran(
                        *old(self),
                        write_byte_script(code, parasite_mode),
                    )
                    &&& r is Err ==> final(self).failed(
                        *old(self),
                        write_byte_script(code, parasite_mode),
                        r->Err_0,
                    )
                },
    {
        let ask = C::op_code;
        let code = ask(&cmd);
        let r = self.write_byte(delay, code, parasite_mode);
        proof {
            assert(gives_code(&cmd, code));
        }
        r
    }

    /// Sends `bytes`, none of them with parasite power, and then ends the
    /// run as the driver's own setting says.
    pub fn write_bytes<D: DelayUs>(&mut self, delay: &mut D, bytes: &[u8]) -> (r: Result<
        (),
        W::Error,
    >)
        ensures
            final(self).kept_time(*old(self), old(delay).waited(), final(delay).waited()),
            r is Ok ==> final(self).ran(
                *old(self),
                write_bytes_script(bytes@, old(self).parasite()),
            ),
            r is Err ==> final(self).failed(
                *old(self),
                write_bytes_script(bytes@, old(self).parasite()),
                r->Err_0,
            ),
    {
        let ghost d0 = *self;
        let mut i: usize = 0;
        proof {
            self.lemma_ran_nothing();
        }
        while i < bytes.len()
            invariant
                self.kept_time(*old(self), old(delay).waited(), delay.waited()),
                i <= bytes.len(),
                d0 == *old(self),
                self.ran(d0, write_each(bytes@.take(i as int))),
            decreases bytes.len() - i,
        {
            let ghost mid = *self;
            let ghost so_far = write_each(bytes@.take(i as int));
            let ghost step = write_byte_script(bytes@[i as int], false);
            proof {
                let next = bytes@.take(i + 1);
                assert(next.drop_last() =~= bytes@.take(i as int));
                assert(next.last() == bytes@[i as int]);
            }
            match self.write_byte(delay, bytes[i], false) {
                Ok(()) => {},
                Err(e) => {
                    proof {
                        let rest = write_each(bytes@.skip(i + 1)) + byte_end(d0.parasite());
                        self.lemma_ran_failed(d0, mid, so_far, step, rest, e);
                        lemma_write_each_split(bytes@, i + 1);
                        assert(so_far + step + rest =~= write_bytes_script(bytes@, d0.parasite()));
                    }
                    return Err(e);
                },
            }
            proof {
                self.lemma_ran_ran(d0, mid, so_far, step);
            }
            i += 1;
        }
        let ghost mid = *self;
        proof {
            assert(bytes@.take(i as int) =~= bytes@);
        }
        let parasite_mode = self.parasite_mode;
        match self.disable_parasite_mode(parasite_mode) {
            Ok(()) => {},
            Err(e) => {
                proof {
                    self.lemma_ran_failed(
                        d0,
                        mid,
                        write_each(bytes@),
                        byte_end(parasite_mode),
                        Seq::empty(),
                        e,
                    );
                    assert(write_each(bytes@) + byte_end(parasite_mode) + Seq::<WireOp>::empty()
                        =~= write_bytes_script(bytes@, parasite_mode));
                }
                return Err(e);
            },
        }
        proof {
            self.lemma_ran_ran(d0, mid, write_each(bytes@), byte_end(parasite_mode));
        }
        Ok(())
    }

    /// Fills `dst` with bytes from the bus.
    pub fn read_bytes<D: DelayUs>(&mut self, delay: &mut D, dst: &mut [u8]) -> (r: Result<
        (),
        W::Error,
    >)
        ensures
            final(self).kept_time(*old(self), old(delay).waited(), final(delay).waited()),
            final(dst)@.len() == old(dst)@.len(),
            r is Ok ==> final(self).ran(*old(self), read_bytes_script(final(dst)@)),
            r is Err ==> final(self).failed(
                *old(self),
                read_bytes_script(final(dst)@),
                r->Err_0,
            ),
    {
        let ghost d0 = *self;
        let n = dst.len();
        let mut i: usize = 0;
        proof {
            self.lemma_ran_nothing();
        }
        while i < n
            invariant
                self.kept_time(*old(self), old(delay).waited(), delay.waited()),
                i <= n,
                n == dst@.len(),
                n == old(dst)@.len(),
                d0 == *old(self),
                self.ran(d0, read_bytes_script(dst@.take(i as int))),
            decreases n - i,
        {
            let ghost mid = *self;
            let ghost got = dst@.take(i as int);
            let byte = match self.read_byte(delay) {
                Ok(byte) => byte,
                Err(e) => {
                    proof {
                        let all = dst@;
                        let head = all.take(i + 1);
                        let rest = read_bytes_script(all.skip(i + 1));
                        self.lemma_ran_failed(
                            d0,
                            mid,
                            read_bytes_script(got),
                            read_byte_script(0xFF),
                            rest,
                            e,
                        );
                        lemma_read_bytes_split(all, i + 1);
                        assert(head.drop_last() =~= got);
                        lemma_alike_same(read_bytes_script(got));
                        lemma_read_slots_alike(bits_of(0xFF), bits_of(head.last()));
                        lemma_alike_joined(
                            read_bytes_script(got),
                            read_bytes_script(got),
                            read_byte_script(0xFF),
                            read_byte_script(head.last()),
                        );
                        lemma_alike_same(rest);
                        lemma_alike_joined(
                            read_bytes_script(got) + read_byte_script(0xFF),
                            read_bytes_script(head),
                            rest,
                            rest,
                        );
                        self.lemma_failed_alike(
                            d0,
                            read_bytes_script(got) + read_byte_script(0xFF) + rest,
                            read_bytes_script(all),
                            e,
                        );
                    }
                    return Err(e);
                },
            };
            dst[i] = byte;
            proof {
                self.lemma_ran_ran(d0, mid, read_bytes_script(got), read_byte_script(byte));
                let next = dst@.take(i + 1);
                assert(next.drop_last() =~= got);
                assert(next.last() == byte);
            }
            i += 1;
        }
        proof {
            assert(dst@.take(i as int) =~= dst@);
        }
        Ok(())
    }

    /// Waits until the released line is high: looks at it up to 125
    /// times, 2 microseconds apart.
    fn ensure_wire_high<D: DelayUs>(&mut self, delay: &mut D) -> (r: Result<(), Error<W::Error>>)
        ensures
            final(self).kept_time(*old(self), old(delay).waited(), final(delay).waited()),
            match r {
                Ok(()) => exists|polls: nat|
                    polls < 125 && final(self).ran(
                        *old(self),
                        #[trigger] poll_script(polls) + seq![WireOp::IsHigh(true)],
                    ),
                Err(Error::WireFault) => final(self).ran(*old(self), poll_script(125)),
                Err(Error::PortError(e)) => exists|polls: nat|
                    polls < 125 && final(self).failed(
                        *old(self),
                        #[trigger] poll_script(polls) + seq![WireOp::IsHigh(true)],
                        e,
                    ),
                Err(_) => false,
            },
    {
        let ghost d0 = *self;
        let mut i: u8 = 0;
        proof {
            self.lemma_ran_nothing();
        }
        while i < 125
            invariant
                self.kept_time(*old(self), old(delay).waited(), delay.waited()),
                i <= 125,
                d0 == *old(self),
                self.ran(d0, poll_script(i as nat)),
            decreases 125 - i,
        {
            let ghost d1 = *self;
            let ghost t1 = poll_script(i as nat);
            match self.is_high() {
                Ok(level) => {
                    proof {
                        self.lemma_ran_ran(d0, d1, t1, seq![WireOp::IsHigh(level)]);
                    }
                    if level {
                        return Ok(());
                    }
                },
                Err(e) => {
                    proof {
                        self.lemma_ran_failed(
                            d0,
                            d1,
                            t1,
                            seq![WireOp::IsHigh(true)],
                            Seq::empty(),
                            e,
                        );
                        assert(t1 + seq![WireOp::IsHigh(true)] + Seq::<WireOp>::empty() =~= t1
                            + seq![WireOp::IsHigh(true)]);
                    }
                    return Err(Error::PortError(e));
                },
            }
            let ghost d2 = *self;
            self.pause(delay, 2);
            proof {
                self.lemma_ran_ran(
                    d0,
                    d2,
                    t1 + seq![WireOp::IsHigh(false)],
                    seq![WireOp::Delay(2)],
                );
                assert(t1 + seq![WireOp::IsHigh(false)] + seq![WireOp::Delay(2)] =~= poll_script(
                    (i + 1) as nat,
                ));
            }
            i += 1;
        }
        Err(Error::WireFault)
    }

    /// Resets the bus and listens for the presence pulse.
    ///
    /// Releases the line and waits until it is high, for at most 250
    /// microseconds; holds it low for 480; releases it and samples it seven
    /// times, 10 apart; waits 410 more. `Ok` if any sample found the line
    /// low, `NoPresence` if none did, `WireFault` if the line did not rise.
    pub fn reset<D: DelayUs>(&mut self, delay: &mut D) -> (r: Result<(), Error<W::Error>>)
        ensures
            final(self).kept_time(*old(self), old(delay).waited(), final(delay).waited()),
            final(self).transacted(*old(self), r, Seq::empty()),
    {
        let ghost d0 = *self;
        let ghost none = Seq::<WireOp>::empty();
        let ghost quiet = unanswered();
        let ghost up = seq![WireOp::SetHigh];
        let ghost low = seq![WireOp::SetLow];
        let ghost hold = seq![WireOp::Delay(480)];
        let ghost end = seq![WireOp::Delay(410)];
        proof {
            self.lemma_ran_nothing();
        }
        match self.set_high() {
            Ok(()) => {},
            Err(e) => {
                proof {
                    let rest = poll_script(0) + seq![WireOp::IsHigh(true)] + low + hold + up
                        + presence_script(quiet) + end;
                    self.lemma_ran_failed(d0, d0, none, up, rest, e);
                    assert(none + up + rest =~= reset_script(0, quiet) + none);
                }
                return Err(Error::PortError(e));
            },
        }
        let ghost d1 = *self;
        match self.ensure_wire_high(delay) {
            Ok(()) => {},
            Err(Error::PortError(e)) => {
                proof {
                    let polls = choose|polls: nat|
                        polls < 125 && self.failed(
                            d1,
                            #[trigger] poll_script(polls) + seq![WireOp::IsHigh(true)],
                            e,
                        );
                    let rest = low + hold + up + presence_script(quiet) + end;
                    self.lemma_ran_failed(
                        d0,
                        d1,
                        up,
                        poll_script(polls) + seq![WireOp::IsHigh(true)],
                        rest,
                        e,
                    );
                    assert(up + (poll_script(polls) + seq![WireOp::IsHigh(true)]) + rest
                        =~= reset_script(polls, quiet) + none);
                }
                return Err(Error::PortError(e));
            },
            Err(e) => {
                proof {
                    self.lemma_ran_ran(d0, d1, up, poll_script(125));
                }
                return Err(Error::WireFault);
            },
        }
        let ghost polls = choose|polls: nat|
            polls < 125 && self.ran(d1, #[trigger] poll_script(polls) + seq![WireOp::IsHigh(true)]);
        let ghost d2 = *self;
        let ghost t2 = up + (poll_script(polls) + seq![WireOp::IsHigh(true)]);
        proof {
            d2.lemma_ran_ran(d0, d1, up, poll_script(polls) + seq![WireOp::IsHigh(true)]);
        }
        match self.set_low() {
            Ok(()) => {},
            Err(e) => {
                proof {
                    let rest = hold + up + presence_script(quiet) + end;
                    self.lemma_ran_failed(d0, d2, t2, low, rest, e);
                    assert(t2 + low + rest =~= reset_script(polls, quiet) + none);
                }
                return Err(Error::PortError(e));
            },
        }
        let ghost d3 = *self;
        let ghost t3 = t2 + low;
        proof {
            d3.lemma_ran_ran(d0, d2, t2, low);
        }
        self.pause(delay, 480);
        let ghost d4 = *self;
        let ghost t4 = t3 + hold;
        proof {
            d4.lemma_ran_ran(d0, d3, t3, hold);
        }
        match self.set_high() {
            Ok(()) => {},
            Err(e) => {
                proof {
                    let rest = presence_script(quiet) + end;
                    self.lemma_ran_failed(d0, d4, t4, up, rest, e);
                    assert(t4 + up + rest =~= reset_script(polls, quiet) + none);
                }
                return Err(Error::PortError(e));
            },
        }
        let ghost t5 = t4 + up;
        proof {
            self.lemma_ran_ran(d0, d4, t4, up);
            assert(t5 + presence_script(Seq::empty()) =~= t5);
        }
        let ghost mut samples: Seq<bool> = Seq::empty();
        let mut presence = false;
        let mut i: u8 = 0;
        while i < 7
            invariant
                self.kept_time(*old(self), old(delay).waited(), delay.waited()),
                i <= 7,
                d0 == *old(self),
                none == Seq::<WireOp>::empty(),
                quiet == unanswered(),
                end == seq![WireOp::Delay(410)],
                polls < 125,
                t5 == seq![WireOp::SetHigh] + (poll_script(polls) + seq![WireOp::IsHigh(true)])
                    + seq![WireOp::SetLow] + seq![WireOp::Delay(480)] + seq![WireOp::SetHigh],
                samples.len() == i,
                presence == samples.contains(true),
                self.ran(d0, t5 + presence_script(samples)),
            decreases 7 - i,
        {
            let ghost d6 = *self;
            let ghost t6 = t5 + presence_script(samples);
            self.pause(delay, 10);
            let ghost d7 = *self;
            proof {
                self.lemma_ran_ran(d0, d6, t6, seq![WireOp::Delay(10)]);
            }
            let low = match self.is_low() {
                Ok(low) => low,
                Err(e) => {
                    proof {
                        self.lemma_reset_failed(d0, d7, polls, samples, e);
                    }
                    return Err(Error::PortError(e));
                },
            };
            presence = presence || low;
            proof {
                self.lemma_ran_ran(
                    d0,
                    d7,
                    t6 + seq![WireOp::Delay(10)],
                    seq![WireOp::IsLow(low)],
                );
                let next = samples.push(low);
                assert(next.drop_last() =~= samples);
                assert(next.last() == low);
                assert(t6 + seq![WireOp::Delay(10)] + seq![WireOp::IsLow(low)] =~= t5
                    + presence_script(next));
                if samples.contains(true) {
                    let k = choose|k: int| 0 <= k < samples.len() && samples[k] == true;
                    assert(next[k] == true);
                }
                if low {
                    assert(next[i as int] == true);
                }
                samples = next;
            }
            i += 1;
        }
        let ghost d8 = *self;
        self.pause(delay, 410);
        proof {
            self.lemma_ran_ran(d0, d8, t5 + presence_script(samples), end);
            let frame = reset_script(polls, samples);
            assert(t5 + presence_script(samples) + end =~= frame);
            assert(reset_frame(frame, presence));
            assert(frame + Seq::<WireOp>::empty() =~= frame);
        }
        if presence {
            Ok(())
        } else {
            Err(Error::NoPresence)
        }
    }

    /// Resets the bus and tells whether a device answered.
    ///
    /// What `reset` gives is turned into a truth value: `NoPresence`
    /// becomes `Ok(false)`, success becomes `Ok(true)`, and every other
    /// error is handed on as it is.
    pub fn reset_presence<D: DelayUs>(&mut self, delay: &mut D) -> (r: Result<
        bool,
        Error<W::Error>,
    >)
        ensures
            final(self).kept_time(*old(self), old(delay).waited(), final(delay).waited()),
            exists|inner: Result<(), Error<W::Error>>|
                r == presence_of(inner) && #[trigger] final(self).transacted(
                    *old(self),
                    inner,
                    Seq::empty(),
                ),
    {
        let inner = self.reset(delay);
        presence_from(inner)
    }

    /// Addresses every device at once: sends `SkipRom`, with parasite
    /// power after it if the driver is set so.
    pub fn skip<D: DelayUs>(&mut self, delay: &mut D) -> (r: Result<(), Error<W::Error>>)
        ensures
            final(self).kept_time(*old(self), old(delay).waited(), final(delay).waited()),
            final(self).wrote(*old(self), r, skip_script(old(self).parasite())),
    {
        let parasite_mode = self.parasite_mode;
        match self.write_command(delay, Command::SkipRom, parasite_mode) {
            Ok(()) => Ok(()),
            Err(e) => Err(Error::PortError(e)),
        }
    }

    /// Addresses one device: sends `MatchRom` and the eight bytes of
    /// `addr`. If the driver is set to parasite power, the command byte and
    /// the last byte of the address are followed by it.
    pub fn select<D: DelayUs>(&mut self, delay: &mut D, addr: &Address) -> (r: Result<
        (),
        Error<W::Error>,
    >)
        ensures
            final(self).kept_time(*old(self), old(delay).waited(), final(delay).waited()),
            final(self).wrote(*old(self), r, select_script(addr@, old(self).parasite())),
    {
        let ghost d0 = *self;
        let parasite_mode = self.parasite_mode;
        let ghost head = write_byte_script(0x55, parasite_mode);
        let ghost seven = addr@.take(7);
        let ghost tail = write_byte_script(addr@[7], parasite_mode);
        proof {
            self.lemma_ran_nothing();
        }
        match self.write_command(delay, Command::MatchRom, parasite_mode) {
            Ok(()) => {},
            Err(e) => {
                proof {
                    self.lemma_ran_failed(d0, d0, Seq::empty(), head, write_each(seven) + tail, e);
                    assert(Seq::<WireOp>::empty() + head + (write_each(seven) + tail)
                        =~= select_script(addr@, parasite_mode));
                }
                return Err(Error::PortError(e));
            },
        }
        proof {
            assert(head + write_each(seven.take(0)) =~= head);
        }
        let mut i: u8 = 0;
        while i < 7
            invariant
                self.kept_time(*old(self), old(delay).waited(), delay.waited()),
                i <= 7,
                d0 == *old(self),
                parasite_mode == d0.parasite(),
                head == write_byte_script(0x55, parasite_mode),
                seven == addr@.take(7),
                tail == write_byte_script(addr@[7], parasite_mode),
                self.ran(d0, head + write_each(seven.take(i as int))),
            decreases 7 - i,
        {
            let ghost mid = *self;
            let ghost t = head + write_each(seven.take(i as int));
            let ghost step = write_byte_script(seven[i as int], false);
            proof {
                let next = seven.take(i + 1);
                assert(next.drop_last() =~= seven.take(i as int));
                assert(next.last() == seven[i as int]);
            }
            match self.write_byte(delay, addr.raw[i as usize], false) {
                Ok(()) => {},
                Err(e) => {
                    proof {
                        let rest = write_each(seven.skip(i + 1)) + tail;
                        self.lemma_ran_failed(d0, mid, t, step, rest, e);
                        lemma_write_each_split(seven, i + 1);
                        assert(t + step + rest =~= select_script(addr@, parasite_mode));
                    }
                    return Err(Error::PortError(e));
                },
            }
            proof {
                self.lemma_ran_ran(d0, mid, t, step);
                assert(t + step =~= head + write_each(seven.take(i + 1)));
            }
            i += 1;
        }
        let ghost mid = *self;
        let ghost t = head + write_each(seven);
        proof {
            assert(seven.take(7) =~= seven);
        }
        match self.write_byte(delay, addr.raw[7], parasite_mode) {
            Ok(()) => {},
            Err(e) => {
                proof {
                    self.lemma_ran_failed(d0, mid, t, tail, Seq::empty(), e);
                    assert(t + tail + Seq::<WireOp>::empty() =~= select_script(
                        addr@,
                        parasite_mode,
                    ));
                }
                return Err(Error::PortError(e));
            },
        }
        proof {
            self.lemma_ran_ran(d0, mid, t, tail);
        }
        Ok(())
    }

    fn then_write<D: DelayUs>(
        &mut self,
        delay: &mut D,
        bytes: &[u8],
        Ghost(first): Ghost<Self>,
        Ghost(done): Ghost<Seq<WireOp>>,
    ) -> (r: Result<(), Error<W::Error>>)
        requires
            old(self).transacted(first, Ok::<(), Error<W::Error>>(()), done),
        ensures
            final(self).kept_time(*old(self), old(delay).waited(), final(delay).waited()),
            final(self).transacted(
                first,
                r,
                done + write_bytes_script(bytes@, old(self).parasite()),
            ),
    {
        let ghost mid = *self;
        let ghost went = Ok::<(), Error<W::Error>>(());
        match self.write_bytes(delay, bytes) {
            Ok(()) => {
                proof {
                    let step = write_bytes_script(bytes@, mid.parasite());
                    self.lemma_transacted_ran(first, mid, went, done, step);
                }
                Ok(())
            },
            Err(e) => {
                proof {
                    let step = write_bytes_script(bytes@, mid.parasite());
                    self.lemma_transacted_failed::<(), ()>(
                        first,
                        mid,
                        went,
                        done,
                        step,
                        Seq::empty(),
                        e,
                    );
                    assert(done + step + Seq::<WireOp>::empty() =~= done + step);
                }
                Err(Error::PortError(e))
            },
        }
    }

    fn then_read<D: DelayUs>(
        &mut self,
        delay: &mut D,
        dst: &mut [u8],
        Ghost(first): Ghost<Self>,
        Ghost(done): Ghost<Seq<WireOp>>,
    ) -> (r: Result<(), Error<W::Error>>)
        requires
            old(self).transacted(first, Ok::<(), Error<W::Error>>(()), done),
        ensures
            final(self).kept_time(*old(self), old(delay).waited(), final(delay).waited()),
            final(dst)@.len() == old(dst)@.len(),
            final(self).transacted(
                first,
                r,
                done + read_bytes_script(final(dst)@),
            ),
    {
        let ghost mid = *self;
        let ghost went = Ok::<(), Error<W::Error>>(());
        match self.read_bytes(delay, dst) {
            Ok(()) => {
                proof {
                    let step = read_bytes_script(dst@);
                    self.lemma_transacted_ran(first, mid, went, done, step);
                }
                Ok(())
            },
            Err(e) => {
                proof {
                    let step = read_bytes_script(dst@);
                    self.lemma_transacted_failed::<(), ()>(
                        first,
                        mid,
                        went,
                        done,
                        step,
                        Seq::empty(),
                        e,
                    );
                    assert(done + step + Seq::<WireOp>::empty() =~= done + step);
                }
                Err(Error::PortError(e))
            },
        }
    }

    fn then_select<D: DelayUs>(
        &mut self,
        delay: &mut D,
        addr: &Address,
        Ghost(first): Ghost<Self>,
        Ghost(done): Ghost<Seq<WireOp>>,
    ) -> (r: Result<(), Error<W::Error>>)
        requires
            old(self).transacted(first, Ok::<(), Error<W::Error>>(()), done),
        ensures
            final(self).kept_time(*old(self), old(delay).waited(), final(delay).waited()),
            final(self).transacted(
                first,
                r,
                done + select_script(addr@, old(self).parasite()),
            ),
    {
        let ghost mid = *self;
        let ghost went = Ok::<(), Error<W::Error>>(());
        match self.select(delay, addr) {
            Ok(()) => {
                proof {
                    let step = select_script(addr@, mid.parasite());
                    self.lemma_transacted_ran(first, mid, went, done, step);
                }
                Ok(())
            },
            Err(Error::PortError(e)) => {
                proof {
                    let step = select_script(addr@, mid.parasite());
                    self.lemma_transacted_failed::<(), ()>(
                        first,
                        mid,
                        went,
                        done,
                        step,
                        Seq::empty(),
                        e,
                    );
                    assert(done + step + Seq::<WireOp>::empty() =~= done + step);
                }
                Err(Error::PortError(e))
            },
            Err(e) => Err(e),
        }
    }

    fn then_skip<D: DelayUs>(
        &mut self,
        delay: &mut D,
        Ghost(first): Ghost<Self>,
        Ghost(done): Ghost<Seq<WireOp>>,
    ) -> (r: Result<(), Error<W::Error>>)
        requires
            old(self).transacted(first, Ok::<(), Error<W::Error>>(()), done),
        ensures
            final(self).kept_time(*old(self), old(delay).waited(), final(delay).waited()),
            final(self).transacted(
                first,
                r,
                done + skip_script(old(self).parasite()),
            ),
    {
        let ghost mid = *self;
        let ghost went = Ok::<(), Error<W::Error>>(());
        match self.skip(delay) {
            Ok(()) => {
                proof {
                    let step = skip_script(mid.parasite());
                    self.lemma_transacted_ran(first, mid, went, done, step);
                }
                Ok(())
            },
            Err(Error::PortError(e)) => {
                proof {
                    let step = skip_script(mid.parasite());
                    self.lemma_transacted_failed::<(), ()>(
                        first,
                        mid,
                        went,
                        done,
                        step,
                        Seq::empty(),
                        e,
                    );
                    assert(done + step + Seq::<WireOp>::empty() =~= done + step);
                }
                Err(Error::PortError(e))
            },
            Err(e) => Err(e),
        }
    }

    /// Resets the bus, sends `write`, then fills `read`.
    pub fn reset_write_read<D: DelayUs>(
        &mut self,
        delay: &mut D,
        write: &[u8],
        read: &mut [u8],
    ) -> (r: Result<(), Error<W::Error>>)
        ensures
            final(self).kept_time(*old(self), old(delay).waited(), final(delay).waited()),
            final(read)@.len() == old(read)@.len(),
            final(self).transacted(
                *old(self),
                r,
                write_bytes_script(write@, old(self).parasite())
                    + read_bytes_script(final(read)@),
            ),
    {
        let ghost d0 = *self;
        let ghost none = Seq::<WireOp>::empty();
        let ghost s0 = write_bytes_script(write@, d0.parasite());
        let first = self.reset(delay);
        match first {
            Ok(()) => {},
            Err(e) => {
                proof {
                    let rest = s0 + read_bytes_script(read@);
                    self.lemma_transacted_more::<(), ()>(d0, first, none, rest);
                    assert(none + rest =~= rest);
                }
                return Err(e);
            },
        }
        let ghost t0 = none;
        let step0 = self.then_write(delay, write, Ghost(d0), Ghost(t0));
        match step0 {
            Ok(()) => {},
            Err(e) => {
                proof {
                    let rest = read_bytes_script(read@);
                    self.lemma_transacted_more::<(), ()>(d0, step0, t0 + s0, rest);
                    assert(t0 + s0 + rest =~= s0 + read_bytes_script(read@));
                }
                return Err(e);
            },
        }
        let ghost t1 = none + s0;
        let r = self.then_read(delay, read, Ghost(d0), Ghost(t1));
        proof {
            assert(t1 + read_bytes_script(read@) =~= s0 + read_bytes_script(read@));
        }
        r
    }

    /// Resets the bus, then fills `read`.
    pub fn reset_read_only<D: DelayUs>(
        &mut self,
        delay: &mut D,
        read: &mut [u8],
    ) -> (r: Result<(), Error<W::Error>>)
        ensures
            final(self).kept_time(*old(self), old(delay).waited(), final(delay).waited()),
            final(read)@.len() == old(read)@.len(),
            final(self).transacted(
                *old(self),
                r,
                read_bytes_script(final(read)@),
            ),
    {
        let ghost d0 = *self;
        let ghost none = Seq::<WireOp>::empty();
        let first = self.reset(delay);
        match first {
            Ok(()) => {},
            Err(e) => {
                proof {
                    let rest = read_bytes_script(read@);
                    self.lemma_transacted_more::<(), ()>(d0, first, none, rest);
                    assert(none + rest =~= rest);
                }
                return Err(e);
            },
        }
        let ghost t0 = none;
        let r = self.then_read(delay, read, Ghost(d0), Ghost(t0));
        proof {
            assert(t0 + read_bytes_script(read@) =~= read_bytes_script(read@));
        }
        r
    }

    /// Resets the bus, then sends `write`.
    pub fn reset_write_only<D: DelayUs>(
        &mut self,
        delay: &mut D,
        write: &[u8],
    ) -> (r: Result<(), Error<W::Error>>)
        ensures
            final(self).kept_time(*old(self), old(delay).waited(), final(delay).waited()),
            final(self).transacted(
                *old(self),
                r,
                write_bytes_script(write@, old(self).parasite()),
            ),
    {
        let ghost d0 = *self;
        let ghost none = Seq::<WireOp>::empty();
        let ghost s0 = write_bytes_script(write@, d0.parasite());
        let first = self.reset(delay);
        match first {
            Ok(()) => {},
            Err(e) => {
                proof {
                    let rest = s0;
                    self.lemma_transacted_more::<(), ()>(d0, first, none, rest);
                    assert(none + rest =~= rest);
                }
                return Err(e);
            },
        }
        let ghost t0 = none;
        let r = self.then_write(delay, write, Ghost(d0), Ghost(t0));
        proof {
            assert(t0 + s0 =~= s0);
        }
        r
    }

    /// Resets the bus, addresses `addr`, sends `write`, then fills `read`.
    pub fn reset_select_write_read<D: DelayUs>(
        &mut self,
        delay: &mut D,
        addr: &Address,
        write: &[u8],
        read: &mut [u8],
    ) -> (r: Result<(), Error<W::Error>>)
        ensures
            final(self).kept_time(*old(self), old(delay).waited(), final(delay).waited()),
            final(read)@.len() == old(read)@.len(),
            final(self).transacted(
                *old(self),
                r,
                select_script(addr@, old(self).parasite())
                    + write_bytes_script(write@, old(self).parasite())
                    + read_bytes_script(final(read)@),
            ),
    {
        let ghost d0 = *self;
        let ghost none = Seq::<WireOp>::empty();
        let ghost s0 = select_script(addr@, d0.parasite());
        let ghost s1 = write_bytes_script(write@, d0.parasite());
        let first = self.reset(delay);
        match first {
            Ok(()) => {},
            Err(e) => {
                proof {
                    let rest = s0 + s1 + read_bytes_script(read@);
                    self.lemma_transacted_more::<(), ()>(d0, first, none, rest);
                    assert(none + rest =~= rest);
                }
                return Err(e);
            },
        }
        let ghost t0 = none;
        let step0 = self.then_select(delay, addr, Ghost(d0), Ghost(t0));
        match step0 {
            Ok(()) => {},
            Err(e) => {
                proof {
                    let rest = s1 + read_bytes_script(read@);
                    self.lemma_transacted_more::<(), ()>(d0, step0, t0 + s0, rest);
                    assert(t0 + s0 + rest =~= s0 + s1 + read_bytes_script(read@));
                }
                return Err(e);
            },
        }
        let ghost t1 = none + s0;
        let step1 = self.then_write(delay, write, Ghost(d0), Ghost(t1));
        match step1 {
            Ok(()) => {},
            Err(e) => {
                proof {
                    let rest = read_bytes_script(read@);
                    self.lemma_transacted_more::<(), ()>(d0, step1, t1 + s1, rest);
                    assert(t1 + s1 + rest =~= s0 + s1 + read_bytes_script(read@));
                }
                return Err(e);
            },
        }
        let ghost t2 = none + s0 + s1;
        let r = self.then_read(delay, read, Ghost(d0), Ghost(t2));
        proof {
            assert(t2 + read_bytes_script(read@) =~= s0 + s1 + read_bytes_script(read@));
        }
        r
    }

    /// Resets the bus, addresses `addr` twice in a row, then fills `read`.
    pub fn reset_select_read_only<D: DelayUs>(
        &mut self,
        delay: &mut D,
        addr: &Address,
        read: &mut [u8],
    ) -> (r: Result<(), Error<W::Error>>)
        ensures
            final(self).kept_time(*old(self), old(delay).waited(), final(delay).waited()),
            final(read)@.len() == old(read)@.len(),
            final(self).transacted(
                *old(self),
                r,
                select_script(addr@, old(self).parasite())
                    + select_script(addr@, old(self).parasite())
                    + read_bytes_script(final(read)@),
            ),
    {
        let ghost d0 = *self;
        let ghost none = Seq::<WireOp>::empty();
        let ghost s0 = select_script(addr@, d0.parasite());
        let ghost s1 = select_script(addr@, d0.parasite());
        let first = self.reset(delay);
        match first {
            Ok(()) => {},
            Err(e) => {
                proof {
                    let rest = s0 + s1 + read_bytes_script(read@);
                    self.lemma_transacted_more::<(), ()>(d0, first, none, rest);
                    assert(none + rest =~= rest);
                }
                return Err(e);
            },
        }
        let ghost t0 = none;
        let step0 = self.then_select(delay, addr, Ghost(d0), Ghost(t0));
        match step0 {
            Ok(()) => {},
            Err(e) => {
                proof {
                    let rest = s1 + read_bytes_script(read@);
                    self.lemma_transacted_more::<(), ()>(d0, step0, t0 + s0, rest);
                    assert(t0 + s0 + rest =~= s0 + s1 + read_bytes_script(read@));
                }
                return Err(e);
            },
        }
        let ghost t1 = none + s0;
        let step1 = self.then_select(delay, addr, Ghost(d0), Ghost(t1));
        match step1 {
            Ok(()) => {},
            Err(e) => {
                proof {
                    let rest = read_bytes_script(read@);
                    self.lemma_transacted_more::<(), ()>(d0, step1, t1 + s1, rest);
                    assert(t1 + s1 + rest =~= s0 + s1 + read_bytes_script(read@));
                }
                return Err(e);
            },
        }
        let ghost t2 = none + s0 + s1;
        let r = self.then_read(delay, read, Ghost(d0), Ghost(t2));
        proof {
            assert(t2 + read_bytes_script(read@) =~= s0 + s1 + read_bytes_script(read@));
        }
        r
    }

    /// Resets the bus, addresses `addr` twice in a row, then sends `write`.
    pub fn reset_select_write_only<D: DelayUs>(
        &mut self,
        delay: &mut D,
        addr: &Address,
        write: &[u8],
    ) -> (r: Result<(), Error<W::Error>>)
        ensures
            final(self).kept_time(*old(self), old(delay).waited(), final(delay).waited()),
            final(self).transacted(
                *old(self),
                r,
                select_script(addr@, old(self).parasite())
                    + select_script(addr@, old(self).parasite())
                    + write_bytes_script(write@, old(self).parasite()),
            ),
    {
        let ghost d0 = *self;
        let ghost none = Seq::<WireOp>::empty();
        let ghost s0 = select_script(addr@, d0.parasite());
        let ghost s1 = select_script(addr@, d0.parasite());
        let ghost s2 = write_bytes_script(write@, d0.parasite());
        let first = self.reset(delay);
        match first {
            Ok(()) => {},
            Err(e) => {
                proof {
                    let rest = s0 + s1 + s2;
                    self.lemma_transacted_more::<(), ()>(d0, first, none, rest);
                    assert(none + rest =~= rest);
                }
                return Err(e);
            },
        }
        let ghost t0 = none;
        let step0 = self.then_select(delay, addr, Ghost(d0), Ghost(t0));
        match step0 {
            Ok(()) => {},
            Err(e) => {
                proof {
                    let rest = s1 + s2;
                    self.lemma_transacted_more::<(), ()>(d0, step0, t0 + s0, rest);
                    assert(t0 + s0 + rest =~= s0 + s1 + s2);
                }
                return Err(e);
            },
        }
        let ghost t1 = none + s0;
        let step1 = self.then_select(delay, addr, Ghost(d0), Ghost(t1));
        match step1 {
            Ok(()) => {},
            Err(e) => {
                proof {
                    let rest = s2;
                    self.lemma_transacted_more::<(), ()>(d0, step1, t1 + s1, rest);
                    assert(t1 + s1 + rest =~= s0 + s1 + s2);
                }
                return Err(e);
            },
        }
        let ghost t2 = none + s0 + s1;
        let r = self.then_write(delay, write, Ghost(d0), Ghost(t2));
        proof {
            assert(t2 + s2 =~= s0 + s1 + s2);
        }
        r
    }

    /// Resets the bus, addresses every device, sends `write`, then fills
    /// `read`.
    pub fn reset_skip_write_read<D: DelayUs>(
        &mut self,
        delay: &mut D,
        write: &[u8],
        read: &mut [u8],
    ) -> (r: Result<(), Error<W::Error>>)
        ensures
            final(self).kept_time(*old(self), old(delay).waited(), final(delay).waited()),
            final(read)@.len() == old(read)@.len(),
            final(self).transacted(
                *old(self),
                r,
                skip_script(old(self).parasite())
                    + write_bytes_script(write@, old(self).parasite())
                    + read_bytes_script(final(read)@),
            ),
    {
        let ghost d0 = *self;
        let ghost none = Seq::<WireOp>::empty();
        let ghost s0 = skip_script(d0.parasite());
        let ghost s1 = write_bytes_script(write@, d0.parasite());
        let first = self.reset(delay);
        match first {
            Ok(()) => {},
            Err(e) => {
                proof {
                    let rest = s0 + s1 + read_bytes_script(read@);
                    self.lemma_transacted_more::<(), ()>(d0, first, none, rest);
                    assert(none + rest =~= rest);
                }
                return Err(e);
            },
        }
        let ghost t0 = none;
        let step0 = self.then_skip(delay, Ghost(d0), Ghost(t0));
        match step0 {
            Ok(()) => {},
            Err(e) => {
                proof {
                    let rest = s1 + read_bytes_script(read@);
                    self.lemma_transacted_more::<(), ()>(d0, step0, t0 + s0, rest);
                    assert(t0 + s0 + rest =~= s0 + s1 + read_bytes_script(read@));
                }
                return Err(e);
            },
        }
        let ghost t1 = none + s0;
        let step1 = self.then_write(delay, write, Ghost(d0), Ghost(t1));
        match step1 {
            Ok(()) => {},
            Err(e) => {
                proof {
                    let rest = read_bytes_script(read@);
                    self.lemma_transacted_more::<(), ()>(d0, step1, t1 + s1, rest);
                    assert(t1 + s1 + rest =~= s0 + s1 + read_bytes_script(read@));
                }
                return Err(e);
            },
        }
        let ghost t2 = none + s0 + s1;
        let r = self.then_read(delay, read, Ghost(d0), Ghost(t2));
        proof {
            assert(t2 + read_bytes_script(read@) =~= s0 + s1 + read_bytes_script(read@));
        }
        r
    }

    /// Resets the bus, addresses every device, then fills `read`.
    pub fn reset_skip_read_only<D: DelayUs>(
        &mut self,
        delay: &mut D,
        read: &mut [u8],
    ) -> (r: Result<(), Error<W::Error>>)
        ensures
            final(self).kept_time(*old(self), old(delay).waited(), final(delay).waited()),
            final(read)@.len() == old(read)@.len(),
            final(self).transacted(
                *old(self),
                r,
                skip_script(old(self).parasite())
                    + read_bytes_script(final(read)@),
            ),
    {
        let ghost d0 = *self;
        let ghost none = Seq::<WireOp>::empty();
        let ghost s0 = skip_script(d0.parasite());
        let first = self.reset(delay);
        match first {
            Ok(()) => {},
            Err(e) => {
                proof {
                    let rest = s0 + read_bytes_script(read@);
                    self.lemma_transacted_more::<(), ()>(d0, first, none, rest);
                    assert(none + rest =~= rest);
                }
                return Err(e);
            },
        }
        let ghost t0 = none;
        let step0 = self.then_skip(delay, Ghost(d0), Ghost(t0));
        match step0 {
            Ok(()) => {},
            Err(e) => {
                proof {
                    let rest = read_bytes_script(read@);
                    self.lemma_transacted_more::<(), ()>(d0, step0, t0 + s0, rest);
                    assert(t0 + s0 + rest =~= s0 + read_bytes_script(read@));
                }
                return Err(e);
            },
        }
        let ghost t1 = none + s0;
        let r = self.then_read(delay, read, Ghost(d0), Ghost(t1));
        proof {
            assert(t1 + read_bytes_script(read@) =~= s0 + read_bytes_script(read@));
        }
        r
    }

    /// Resets the bus, addresses every device, then sends `write`.
    pub fn reset_skip_write_only<D: DelayUs>(
        &mut self,
        delay: &mut D,
        write: &[u8],
    ) -> (r: Result<(), Error<W::Error>>)
        ensures
            final(self).kept_time(*old(self), old(delay).waited(), final(delay).waited()),
            final(self).transacted(
                *old(self),
                r,
                skip_script(old(self).parasite())
                    + write_bytes_script(write@, old(self).parasite()),
            ),
    {
        let ghost d0 = *self;
        let ghost none = Seq::<WireOp>::empty();
        let ghost s0 = skip_script(d0.parasite());
        let ghost s1 = write_bytes_script(write@, d0.parasite());
        let first = self.reset(delay);
        match first {
            Ok(()) => {},
            Err(e) => {
                proof {
                    let rest = s0 + s1;
                    self.lemma_transacted_more::<(), ()>(d0, first, none, rest);
                    assert(none + rest =~= rest);
                }
                return Err(e);
            },
        }
        let ghost t0 = none;
        let step0 = self.then_skip(delay, Ghost(d0), Ghost(t0));
        match step0 {
            Ok(()) => {},
            Err(e) => {
                proof {
                    let rest = s1;
                    self.lemma_transacted_more::<(), ()>(d0, step0, t0 + s0, rest);
                    assert(t0 + s0 + rest =~= s0 + s1);
                }
                return Err(e);
            },
        }
        let ghost t1 = none + s0;
        let r = self.then_write(delay, write, Ghost(d0), Ghost(t1));
        proof {
            assert(t1 + s1 =~= s0 + s1);
        }
        r
    }
}

/// The delay and the record have gone through the same waits since the
/// delay had made the waits `from` and the record held the waits `since`.
#[verifier::opaque]
pub open spec fn in_step(
    waits: Seq<u32>,
    ticks: Seq<u32>,
    from: Seq<u32>,
    since: Seq<u32>,
) -> bool {
    exists|gone: Seq<u32>| waits == from + gone && ticks == since + gone
}

/// What `reset_presence` makes of what `reset` gave.
pub open spec fn presence_of<E>(inner: Result<(), Error<E>>) -> Result<bool, Error<E>> {
    match inner {
        Ok(()) => Ok(true),
        Err(Error::NoPresence) => Ok(false),
        Err(e) => Err(e),
    }
}

/// Turns the outcome of a reset into the answer whether a device is there.
pub fn presence_from<E>(inner: Result<(), Error<E>>) -> (r: Result<bool, Error<E>>)
    ensures
        r == presence_of(inner),
{
    match inner {
        Ok(()) => Ok(true),
        Err(Error::NoPresence) => Ok(false),
        Err(e) => Err(e),
    }
}

/// The presence answer is `Ok(false)` exactly when the reset ended in
/// `NoPresence`, `Ok(true)` exactly when it went well, and any other error
/// of the reset is the error of the answer.
pub proof fn lemma_presence_follows_reset<E>(inner: Result<(), Error<E>>)
    ensures
        presence_of(inner) == Ok::<bool, Error<E>>(false) <==> inner == Err::<(), Error<E>>(
            Error::NoPresence,
        ),
        presence_of(inner) == Ok::<bool, Error<E>>(true) <==> inner is Ok,
        forall|e: Error<E>|
            e != Error::<E>::NoPresence ==> (presence_of(inner) == Err::<bool, Error<E>>(e)
                <==> inner == Err::<(), Error<E>>(e)),
{
}

} // verus!
