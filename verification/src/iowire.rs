//! What the driver needs from its host: one bus line and a delay.

use vstd::prelude::*;

verus! {

/// One open-drain bus line, made of one pin or of an input and an output
/// pin. The host provides it; the driver makes no assumption about what
/// a call returns.
pub trait IoWire {
    /// What the line reports when it fails.
    type Error;

    /// Is the line high?
    fn is_high(&self) -> Result<bool, Self::Error>;

    /// Is the line low?
    fn is_low(&self) -> Result<bool, Self::Error>;

    /// Drives the line low.
    fn set_low(&mut self) -> Result<(), Self::Error>;

    /// Releases the line, so that the pull-up takes it high.
    fn set_high(&mut self) -> Result<(), Self::Error>;
}

/// The waits that a delay was asked for, in microseconds, oldest first.
pub struct Waited {
    /// The waits.
    pub us: Seq<u32>,
}

/// A source of blocking delays. `delay_us` returns after at least `us`
/// microseconds. The host provides it, and with it the promise that each
/// call adds its wait to what the delay was asked for. What the contracts
/// of the library say of the waits holds of a delay that keeps that
/// promise; nothing here holds an implementation to it.
pub trait DelayUs {
    /// The waits that the delay was asked for so far. It is there for the
    /// contracts only and is never called.
    spec fn waited(&self) -> Waited;

    /// Waits for at least `us` microseconds.
    fn delay_us(&mut self, us: u32)
        ensures
            final(self).waited().us == old(self).waited().us.push(us),
    ;
}

/// A line whose polarity external hardware inverts: high and low change
/// places, for reading and for driving.
pub struct Inverted<P>(pub P);

/// `r` is something that `W::is_high` can return on `wire`.
pub open spec fn reads_high<W: IoWire>(wire: &W, r: Result<bool, W::Error>) -> bool {
    call_ensures(W::is_high, (wire,), r)
}

/// `r` is something that `W::is_low` can return on `wire`.
pub open spec fn reads_low<W: IoWire>(wire: &W, r: Result<bool, W::Error>) -> bool {
    call_ensures(W::is_low, (wire,), r)
}

impl<W: IoWire> IoWire for Inverted<W> {
    type Error = W::Error;

    /// Asks the inner line whether it is low.
    fn is_high(&self) -> (r: Result<bool, Self::Error>)
        ensures
            reads_low(&self.0, r),
    {
        let ask = W::is_low;
        ask(&self.0)
    }

    /// Asks the inner line whether it is high.
    fn is_low(&self) -> (r: Result<bool, Self::Error>)
        ensures
            reads_high(&self.0, r),
    {
        let ask = W::is_high;
        ask(&self.0)
    }

    /// Releases the inner line: the result and the inner line's new state
    /// are what `W::set_high` gave on the inner line.
    fn set_low(&mut self) -> (r: Result<(), Self::Error>)
        ensures
            exists|inner: &mut W|
                *inner == old(self).0 && *final(inner) == final(self).0 && #[trigger] call_ensures(
                    W::set_high,
                    (inner,),
                    r,
                ),
    {
        let drive = W::set_high;
        drive(&mut self.0)
    }

    /// Drives the inner line low: the result and the inner line's new state
    /// are what `W::set_low` gave on the inner line.
    fn set_high(&mut self) -> (r: Result<(), Self::Error>)
        ensures
            exists|inner: &mut W|
                *inner == old(self).0 && *final(inner) == final(self).0 && #[trigger] call_ensures(
                    W::set_low,
                    (inner,),
                    r,
                ),
    {
        let drive = W::set_low;
        drive(&mut self.0)
    }
}

} // verus!
