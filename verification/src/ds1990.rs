//! DS1990 identity tokens and their re-writable clones.

use vstd::prelude::*;
use crate::address::Address;
use crate::driver::Driver;
use crate::iowire::{DelayUs, IoWire};
use crate::result::Error;
use crate::device::Device;

verus! {

/// An identity token.
#[derive(Debug, Clone, Copy)]
pub struct Ds1990 {
    /// The ROM of the token.
    pub address: Address,
}

impl From<Ds1990> for Address {
    fn from(device: Ds1990) -> (r: Address) {
        device.address
    }
}

impl vstd::std_specs::convert::FromSpecImpl<Ds1990> for Address {
    open spec fn obeys_from_spec() -> bool {
        true
    }

    open spec fn from_spec(device: Ds1990) -> Address {
        device.address
    }
}

impl Default for Ds1990 {
    /// The token whose serial number is zero.
    fn default() -> (r: Self)
        ensures
            r.address@ == seq![0x01u8, 0u8, 0u8, 0u8, 0u8, 0u8, 0u8, 0x01u8],
    {
        let address = Address::from(
            [Self::FAMILY_CODE, 0, 0, 0, 0, 0, 0, Self::FAMILY_CODE],
        );
        assert(address@ =~= seq![0x01u8, 0u8, 0u8, 0u8, 0u8, 0u8, 0u8, 0x01u8]);
        Self { address }
    }
}

impl Device for Ds1990 {
    const FAMILY_CODE: u8 = 0x01;

    open spec fn rom(&self) -> Address {
        self.address
    }

    fn address(&self) -> (r: &Address) {
        &self.address
    }

    fn from_address_unchecked(address: Address) -> (r: Self) {
        Self { address }
    }
}

} // verus!
