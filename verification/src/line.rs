//! A bus line together with the record of what was done on it.
//!
//! Everything that the driver does on its line goes through the first four
//! operations of this module, and every wait through the fifth. Each of
//! them makes one call and notes it, and its contract says both: what was
//! called, with what result, and what was noted. Nothing else can write
//! to the record, and nothing else holds the line. The delay is handed in
//! from outside: that it is asked for no wait but those on record is said
//! in the contracts of the driver.

use vstd::prelude::*;
use crate::iowire::{DelayUs, IoWire};
use crate::trace::WireOp;

verus! {

/// A bus line and its transcript. The transcript is ghost state: it costs
/// nothing at run time.
pub struct Line<W: IoWire> {
    wire: W,
    log: Ghost<Seq<WireOp>>,
    fault: Ghost<Option<W::Error>>,
}

impl<W: IoWire> Line<W> {
    /// Everything that was done on the line, oldest first.
    pub closed spec fn log(&self) -> Seq<WireOp> {
        self.log@
    }

    /// The line itself.
    pub closed spec fn wire(&self) -> W {
        self.wire
    }

    /// The error that the line reported when a call to it failed last.
    pub closed spec fn fault(&self) -> Option<W::Error> {
        self.fault@
    }

    /// The line has gone on from `before` by the one operation `op`, which
    /// went well.
    pub open spec fn did(&self, before: Self, op: WireOp) -> bool {
        self.log() == before.log().push(op) && self.fault() == before.fault()
    }

    /// The line has gone on from `before` by a call that failed with `e`.
    pub open spec fn broke(&self, before: Self, e: W::Error) -> bool {
        self.log() == before.log().push(WireOp::Failed) && self.fault() == Some(e)
    }

    /// A line on which nothing was done yet.
    pub fn new(wire: W) -> (r: Self)
        ensures
            r.wire() == wire,
            r.log() == Seq::<WireOp>::empty(),
            r.fault() is None,
    {
        Line { wire, log: Ghost(Seq::empty()), fault: Ghost(None) }
    }

    /// Releases the line: calls `W::set_high` on it.
    pub fn set_high(&mut self) -> (r: Result<(), W::Error>)
        ensures
            exists|wire: &mut W|
                *wire == old(self).wire() && *final(wire) == final(self).wire()
                    && #[trigger] call_ensures(W::set_high, (wire,), r),
            match r {
                Ok(()) => final(self).did(*old(self), WireOp::SetHigh),
                Err(e) => final(self).broke(*old(self), e),
            },
    {
        let call = W::set_high;
        let r = call(&mut self.wire);
        proof {
            if r is Ok {
                self.log@ = self.log@.push(WireOp::SetHigh);
            } else {
                self.fault@ = Some(r->Err_0);
                self.log@ = self.log@.push(WireOp::Failed);
            }
        }
        r
    }

    /// Drives the line low: calls `W::set_low` on it.
    pub fn set_low(&mut self) -> (r: Result<(), W::Error>)
        ensures
            exists|wire: &mut W|
                *wire == old(self).wire() && *final(wire) == final(self).wire()
                    && #[trigger] call_ensures(W::set_low, (wire,), r),
            match r {
                Ok(()) => final(self).did(*old(self), WireOp::SetLow),
                Err(e) => final(self).broke(*old(self), e),
            },
    {
        let call = W::set_low;
        let r = call(&mut self.wire);
        proof {
            if r is Ok {
                self.log@ = self.log@.push(WireOp::SetLow);
            } else {
                self.fault@ = Some(r->Err_0);
                self.log@ = self.log@.push(WireOp::Failed);
            }
        }
        r
    }

    /// Asks whether the line is high: calls `W::is_high` on it.
    pub fn is_high(&mut self) -> (r: Result<bool, W::Error>)
        ensures
            final(self).wire() == old(self).wire(),
            call_ensures(W::is_high, (&old(self).wire(),), r),
            match r {
                Ok(level) => final(self).did(*old(self), WireOp::IsHigh(level)),
                Err(e) => final(self).broke(*old(self), e),
            },
    {
        let call = W::is_high;
        let r = call(&self.wire);
        proof {
            if r is Ok {
                self.log@ = self.log@.push(WireOp::IsHigh(r->Ok_0));
            } else {
                self.fault@ = Some(r->Err_0);
                self.log@ = self.log@.push(WireOp::Failed);
            }
        }
        r
    }

    /// Asks whether the line is low: calls `W::is_low` on it.
    pub fn is_low(&mut self) -> (r: Result<bool, W::Error>)
        ensures
            final(self).wire() == old(self).wire(),
            call_ensures(W::is_low, (&old(self).wire(),), r),
            match r {
                Ok(level) => final(self).did(*old(self), WireOp::IsLow(level)),
                Err(e) => final(self).broke(*old(self), e),
            },
    {
        let call = W::is_low;
        let r = call(&self.wire);
        proof {
            if r is Ok {
                self.log@ = self.log@.push(WireOp::IsLow(r->Ok_0));
            } else {
                self.fault@ = Some(r->Err_0);
                self.log@ = self.log@.push(WireOp::Failed);
            }
        }
        r
    }

    /// Waits for `us` microseconds: calls `D::delay_us` on the delay. The
    /// line is left alone.
    pub fn pause<D: DelayUs>(&mut self, delay: &mut D, us: u32)
        ensures
            final(self).wire() == old(self).wire(),
            exists|clock: &mut D|
                *clock == *old(delay) && *final(clock) == *final(delay) && #[trigger] call_ensures(
                    D::delay_us,
                    (clock, us),
                    (),
                ),
            final(delay).waited().us == old(delay).waited().us.push(us),
            final(self).did(*old(self), WireOp::Delay(us)),
    {
        let call = D::delay_us;
        call(delay, us);
        proof {
            self.log@ = self.log@.push(WireOp::Delay(us));
        }
    }
}

} // verus!
