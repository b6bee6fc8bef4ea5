//! What the typed device wrappers have in common.

use vstd::prelude::*;
use crate::address::Address;
use crate::driver::Driver;
use crate::iowire::{DelayUs, IoWire};
use crate::result::Error;

verus! {

/// A kind of device, known by its family code.
pub trait Device: Sized {
    /// The family code of this kind of device.
    const FAMILY_CODE: u8;

    /// The address that a device stands for.
    spec fn rom(&self) -> Address;

    /// The address of the device.
    fn address(&self) -> (r: &Address)
        ensures
            *r == self.rom(),
    ;

    /// A device at `address`, whatever family the address belongs to.
    fn from_address_unchecked(address: Address) -> (r: Self)
        ensures
            r.rom() == address,
    ;

    /// A device at `address`, if the address is of this family.
    fn from_address<E>(address: Address) -> (r: Result<Self, Error<E>>)
        ensures
            match r {
                Ok(device) => address@[0] == Self::FAMILY_CODE && device.rom() == address,
                Err(e) => address@[0] != Self::FAMILY_CODE && e == Error::<E>::FamilyCodeMismatch(
                    Self::FAMILY_CODE,
                    address@[0],
                ),
            },
    {
        if address.family_code() != Self::FAMILY_CODE {
            Err(Error::FamilyCodeMismatch(Self::FAMILY_CODE, address.family_code()))
        } else {
            Ok(Self::from_address_unchecked(address))
        }
    }

    /// Searches the bus for the first device of this family: `r` is what
    /// the search for an address of the family gave, with the address that
    /// was found, if any, taken as a device.
    fn search_first<W: IoWire, D: DelayUs>(driver: &mut Driver<W>, delay: &mut D) -> (r: Result<
        Option<Self>,
        Error<W::Error>,
    >)
        ensures
            final(driver).kept_time(*old(driver), old(delay).waited(), final(delay).waited()),
            exists|found: Result<Option<Address>, Error<W::Error>>|
                #[trigger] Address::hunted(
                    *old(driver),
                    *final(driver),
                    Self::FAMILY_CODE,
                    found,
                ) && match found {
                    Ok(Some(address)) => r is Ok && r->Ok_0 is Some && r->Ok_0->0.rom()
                        == address,
                    Ok(None) => r is Ok && r->Ok_0 is None,
                    Err(e) => r is Err && r->Err_0 == e,
                },
    {
        match Address::search_first(driver, delay, Self::FAMILY_CODE) {
            Ok(Some(address)) => Ok(Some(Self::from_address_unchecked(address))),
            Ok(None) => Ok(None),
            Err(e) => Err(e),
        }
    }

    /// Reads the ROM of the only device on the bus, which must be of this
    /// family.
    fn get_single<W: IoWire, D: DelayUs>(driver: &mut Driver<W>, delay: &mut D) -> (r: Result<
        Self,
        Error<W::Error>,
    >)
        ensures
            final(driver).kept_time(*old(driver), old(delay).waited(), final(delay).waited()),
            match r {
                Ok(device) => device.rom()@[0] == Self::FAMILY_CODE && final(driver).transacted(
                    *old(driver),
                    Ok::<(), Error<W::Error>>(()),
                    Address::single_script(device.rom()@, old(driver).parasite()),
                ),
                Err(Error::FamilyCodeMismatch(expected, actual)) => {
                    &&& expected == Self::FAMILY_CODE
                    &&& actual != Self::FAMILY_CODE
                    &&& exists|rom: Address|
                        rom@[0] == actual && #[trigger] final(driver).transacted(
                            *old(driver),
                            Ok::<(), Error<W::Error>>(()),
                            Address::single_script(rom@, old(driver).parasite()),
                        )
                },
                Err(_) => exists|rom: Seq<u8>|
                    rom.len() == 8 && #[trigger] final(driver).transacted(
                        *old(driver),
                        r,
                        Address::single_script(rom, old(driver).parasite()),
                    ),
            },
    {
        let got = Address::get_single(driver, delay);
        let ghost rom = choose|rom: Seq<u8>|
            rom.len() == 8 && (got is Ok ==> got->Ok_0@ == rom) && #[trigger] driver.transacted(
                *old(driver),
                got,
                Address::single_script(rom, old(driver).parasite()),
            );
        let address = match got {
            Ok(address) => address,
            Err(e) => {
                proof {
                    assert(driver.transacted(
                        *old(driver),
                        Err::<Self, Error<W::Error>>(e),
                        Address::single_script(rom, old(driver).parasite()),
                    ));
                }
                return Err(e);
            },
        };
        proof {
            assert(driver.transacted(
                *old(driver),
                Ok::<(), Error<W::Error>>(()),
                Address::single_script(address@, old(driver).parasite()),
            ));
        }
        Self::from_address(address)
    }
}

} // verus!
