//! Devices that measure something.

use vstd::prelude::*;
use crate::device::Device;
use crate::driver::Driver;
use crate::iowire::{DelayUs, IoWire};
use crate::result::Error;

verus! {

/// A device that measures on request.
pub trait Sensor: Device {
    /// Starts a measurement and tells how many milliseconds to wait for it.
    fn start_measurement<W: IoWire, D: DelayUs>(
        &self,
        wire: &mut Driver<W>,
        delay: &mut D,
    ) -> Result<u16, Error<W::Error>>;

    /// Fetches the value that was measured, as the device encodes it.
    fn read_measurement_raw<W: IoWire, D: DelayUs>(
        &self,
        wire: &mut Driver<W>,
        delay: &mut D,
    ) -> Result<u16, Error<W::Error>>;
}

} // verus!
