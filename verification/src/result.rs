//! What can go wrong on the bus.

use vstd::prelude::*;

verus! {

/// The failures of a bus operation. `E` is the error of the bus line.
#[derive(Debug)]
pub enum Error<E> {
    /// The operation is not available for this kind of device.
    NotSupport,
    /// The line did not rise to high before the watchdog ran out.
    WireFault,
    /// After a reset no device pulled the line low.
    NoPresence,
    /// A checksum differs: the one computed, then the one received.
    CrcMismatch(u8, u8),
    /// An address belongs to another family: the one expected, then the
    /// one found.
    FamilyCodeMismatch(u8, u8),
    /// The bus line itself failed.
    PortError(E),
}

impl<E> From<E> for Error<E> {
    fn from(e: E) -> (r: Self) {
        Error::PortError(e)
    }
}

impl<E> vstd::std_specs::convert::FromSpecImpl<E> for Error<E> {
    open spec fn obeys_from_spec() -> bool {
        true
    }

    open spec fn from_spec(e: E) -> Self {
        Error::PortError(e)
    }
}

} // verus!
