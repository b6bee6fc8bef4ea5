//! The DS18B20 thermometer.

use vstd::prelude::*;
use byteorder::{ByteOrder, LittleEndian};
use crate::address::Address;
use crate::driver::Driver;
use crate::iowire::{DelayUs, IoWire};
use crate::result::Error;
use crate::command::OpCode;
use crate::crc::{compute_partial_crc8, crc8};
use crate::device::Device;
use crate::sensor::Sensor;
use crate::trace::{read_bytes_script, select_script, write_bytes_script, WireOp};

verus! {

/// The commands of the thermometer.
#[derive(Clone, Copy, Debug)]
pub enum Command {
    /// Start a temperature conversion.
    Convert,
    /// Write three bytes to the scratchpad.
    WriteScratchpad,
    /// Read the nine bytes of the scratchpad.
    ReadScratchpad,
    /// Store the scratchpad in the EEPROM.
    CopyScratchpad,
    /// Restore the scratchpad from the EEPROM.
    RecallE2,
    /// Ask whether the device runs on parasite power.
    ReadPowerSupply,
}

impl Command {
    /// The byte that stands for the command.
    pub open spec fn code(&self) -> u8 {
        match self {
            Command::Convert => 0x44,
            Command::WriteScratchpad => 0x4E,
            Command::ReadScratchpad => 0xBE,
            Command::CopyScratchpad => 0x48,
            Command::RecallE2 => 0xB8,
            Command::ReadPowerSupply => 0xB4,
        }
    }

}

impl OpCode for Command {
    fn op_code(&self) -> (r: u8)
        ensures
            r == self.code(),
    {
        match self {
            Command::Convert => 0x44,
            Command::WriteScratchpad => 0x4E,
            Command::ReadScratchpad => 0xBE,
            Command::CopyScratchpad => 0x48,
            Command::RecallE2 => 0xB8,
            Command::ReadPowerSupply => 0xB4,
        }
    }
}

/// The resolution of a conversion: a step of 1/2, 1/4, 1/8 or 1/16 of a
/// degree, which is 9, 10, 11 or 12 bits.
#[derive(Debug, Clone, Copy)]
pub enum MeasureResolution {
    /// 9 bits.
    TC8,
    /// 10 bits.
    TC4,
    /// 11 bits.
    TC2,
    /// 12 bits.
    TC,
}

impl MeasureResolution {
    /// The time that a conversion takes, in milliseconds.
    pub open spec fn millis(&self) -> u16 {
        match self {
            MeasureResolution::TC8 => 94,
            MeasureResolution::TC4 => 188,
            MeasureResolution::TC2 => 375,
            MeasureResolution::TC => 750,
        }
    }

    /// The configuration byte of the scratchpad that selects the resolution.
    pub open spec fn config_byte(&self) -> u8 {
        match self {
            MeasureResolution::TC8 => 0b0001_1111,
            MeasureResolution::TC4 => 0b0011_1111,
            MeasureResolution::TC2 => 0b0101_1111,
            MeasureResolution::TC => 0b0111_1111,
        }
    }

    /// The time that a conversion takes, in milliseconds.
    pub fn time_ms(&self) -> (r: u16)
        ensures
            r == self.millis(),
    {
        match self {
            MeasureResolution::TC8 => 94,
            MeasureResolution::TC4 => 188,
            MeasureResolution::TC2 => 375,
            MeasureResolution::TC => 750,
        }
    }

    /// The configuration byte of the scratchpad that selects the resolution.
    pub fn config(&self) -> (r: u8)
        ensures
            r == self.config_byte(),
    {
        match self {
            MeasureResolution::TC8 => 0b0001_1111,
            MeasureResolution::TC4 => 0b0011_1111,
            MeasureResolution::TC2 => 0b0101_1111,
            MeasureResolution::TC => 0b0111_1111,
        }
    }
}

/// A thermometer.
#[derive(Debug, Clone, Copy)]
pub struct Ds18b20 {
    /// The ROM of the thermometer.
    pub address: Address,
    /// The resolution that it is set to.
    pub resolution: MeasureResolution,
}

impl From<Ds18b20> for Address {
    fn from(device: Ds18b20) -> (r: Address) {
        device.address
    }
}

impl vstd::std_specs::convert::FromSpecImpl<Ds18b20> for Address {
    open spec fn obeys_from_spec() -> bool {
        true
    }

    open spec fn from_spec(device: Ds18b20) -> Address {
        device.address
    }
}

/// The number that two bytes stand for, the low byte first.
pub open spec fn u16_le(low: u8, high: u8) -> u16 {
    (low as int + 256 * (high as int)) as u16
}

/// What a scratchpad of nine bytes holds: the raw temperature of its first
/// two bytes, if its last byte is the CRC-8 of the eight before it; else
/// the CRC computed and the CRC received.
pub open spec fn scratchpad_value(pad: Seq<u8>) -> Result<u16, (u8, u8)> {
    if crc8(0, pad.take(8)) == pad[8] {
        Ok(u16_le(pad[0], pad[1]))
    } else {
        Err((crc8(0, pad.take(8)), pad[8]))
    }
}

/// `byteorder::LittleEndian::read_u16` reads the first two bytes of `buf`
/// as a number with the low byte first. It panics on a shorter buffer.
#[verifier::external_body]
fn read_u16_le(buf: &[u8]) -> (r: u16)
    requires
        buf@.len() >= 2,
    ensures
        r == u16_le(buf@[0], buf@[1]),
{
    LittleEndian::read_u16(buf)
}

/// The value of a raw temperature as a signed number of sixteenths of a
/// degree.
pub open spec fn signed_of(raw: u16) -> int {
    if raw < 0x8000 {
        raw as int
    } else {
        raw as int - 0x1_0000
    }
}

/// The whole degrees of a raw temperature, rounded towards zero.
pub open spec fn whole_degrees(raw: u16) -> int {
    if signed_of(raw) >= 0 {
        signed_of(raw) / 16
    } else {
        -((-signed_of(raw)) / 16)
    }
}

/// What is left of a raw temperature beside the whole degrees, in ten
/// thousandths of a degree.
pub open spec fn degree_fraction(raw: u16) -> int {
    (signed_of(raw) - 16 * whole_degrees(raw)) * 625
}

/// Splits a raw temperature into whole degrees and ten thousandths of a
/// degree. The temperature is the first plus the second over 10000.
pub fn split_temp(temperature: u16) -> (r: (i16, i16))
    ensures
        r.0 == whole_degrees(temperature),
        r.1 == degree_fraction(temperature),
{
    if temperature < 0x8000 {
        assert(temperature >> 4 == temperature / 16 && temperature & 0xF == temperature % 16)
            by (bit_vector);
        ((temperature >> 4) as i16, ((temperature & 0xF) * 625) as i16)
    } else {
        let abs: u32 = 0x1_0000 - temperature as u32;
        assert(abs >> 4 == abs / 16 && abs & 0xF == abs % 16) by (bit_vector);
        (-((abs >> 4) as i16), -(((abs & 0xF) * 625) as i16))
    }
}

/// The two parts of a split temperature add up to the temperature, never
/// pull in different directions, and the second is less than one degree.
pub proof fn lemma_split_temp(raw: u16)
    ensures
        whole_degrees(raw) * 10000 + degree_fraction(raw) == signed_of(raw) * 625,
        signed_of(raw) >= 0 ==> whole_degrees(raw) >= 0 && degree_fraction(raw) >= 0,
        signed_of(raw) <= 0 ==> whole_degrees(raw) <= 0 && degree_fraction(raw) <= 0,
        -10000 < degree_fraction(raw) < 10000,
{
}

impl Ds18b20 {
    /// What the bus carries when a thermometer at `rom` is told to convert.
    pub open spec fn convert_script(rom: Seq<u8>, parasite: bool) -> Seq<WireOp> {
        select_script(rom, parasite) + select_script(rom, parasite) + write_bytes_script(
            seq![0x44u8],
            parasite,
        )
    }

    /// What the bus carries when the scratchpad `pad` is read from a
    /// thermometer at `rom`.
    pub open spec fn scratchpad_script(rom: Seq<u8>, parasite: bool, pad: Seq<u8>) -> Seq<
        WireOp,
    > {
        select_script(rom, parasite) + write_bytes_script(seq![0xBEu8], parasite)
            + read_bytes_script(pad)
    }

    /// How reading the temperature of the thermometer at `rom` ended.
    ///
    /// One transaction reads the nine bytes of the scratchpad, see
    /// [`Self::scratchpad_script`]. If that goes well the result is what the
    /// scratchpad holds, see [`scratchpad_value`]; else it is the error of
    /// the transaction.
    pub open spec fn temperature_read<W: IoWire>(
        before: Driver<W>,
        after: Driver<W>,
        rom: Seq<u8>,
        r: Result<u16, Error<W::Error>>,
    ) -> bool {
        exists|pad: Seq<u8>|
            pad.len() == 9 && #[trigger] Self::scratchpad_read(before, after, rom, pad, r)
    }

    /// How reading the temperature ended when the nine bytes `pad` are what
    /// was read, or would have been.
    pub open spec fn scratchpad_read<W: IoWire>(
        before: Driver<W>,
        after: Driver<W>,
        rom: Seq<u8>,
        pad: Seq<u8>,
        r: Result<u16, Error<W::Error>>,
    ) -> bool {
        let script = Self::scratchpad_script(rom, before.parasite(), pad);
        match r {
            Ok(raw) => scratchpad_value(pad) == Ok::<u16, (u8, u8)>(raw) && after.transacted(
                before,
                Ok::<(), Error<W::Error>>(()),
                script,
            ),
            Err(Error::CrcMismatch(computed, received)) => scratchpad_value(pad) == Err::<
                u16,
                (u8, u8),
            >((computed, received)) && after.transacted(
                before,
                Ok::<(), Error<W::Error>>(()),
                script,
            ),
            Err(_) => after.transacted(before, r, script),
        }
    }

    /// Starts a conversion: after a reset the device is addressed, twice
    /// in a row, and `Convert` is sent. Gives the resolution that the wait
    /// for the result goes by.
    pub fn measure_temperature<W: IoWire, D: DelayUs>(
        &self,
        driver: &mut Driver<W>,
        delay: &mut D,
    ) -> (r: Result<MeasureResolution, Error<W::Error>>)
        ensures
            final(driver).kept_time(*old(driver), old(delay).waited(), final(delay).waited()),
            final(driver).transacted(
                *old(driver),
                r,
                Self::convert_script(self.address@, old(driver).parasite()),
            ),
            r is Ok ==> r->Ok_0 == self.resolution,
    {
        let cmd = [Command::Convert.op_code()];
        assert(cmd@ =~= seq![0x44u8]);
        match driver.reset_select_write_only(delay, &self.address, cmd.as_slice()) {
            Ok(()) => Ok(self.resolution),
            Err(e) => Err(e),
        }
    }

    /// What a scratchpad holds: checks its CRC and gives the raw
    /// temperature.
    pub fn decode_scratchpad<E>(scratchpad: &[u8; 9]) -> (r: Result<u16, Error<E>>)
        ensures
            match scratchpad_value(scratchpad@) {
                Ok(raw) => r == Ok::<u16, Error<E>>(raw),
                Err((computed, received)) => r == Err::<u16, Error<E>>(
                    Error::CrcMismatch(computed, received),
                ),
            },
    {
        let payload = vstd::slice::slice_subrange(scratchpad.as_slice(), 0, 8);
        assert(payload@ =~= scratchpad@.take(8));
        let computed = compute_partial_crc8(0, payload);
        if computed != scratchpad[8] {
            Err(Error::CrcMismatch(computed, scratchpad[8]))
        } else {
            Ok(Self::read_temperature_from_scratchpad(scratchpad.as_slice()))
        }
    }

    /// Reads the scratchpad and gives the raw temperature in it: after a
    /// reset the device is addressed, `ReadScratchpad` is sent and nine
    /// bytes are read. The last of them must be the CRC-8 of the others.
    pub fn read_temperature<W: IoWire, D: DelayUs>(
        &self,
        driver: &mut Driver<W>,
        delay: &mut D,
    ) -> (r: Result<u16, Error<W::Error>>)
        ensures
            final(driver).kept_time(*old(driver), old(delay).waited(), final(delay).waited()),
            Self::temperature_read(*old(driver), *final(driver), self.address@, r),
    {
        let mut scratchpad = [0u8; 9];
        let cmd = [Command::ReadScratchpad.op_code()];
        assert(cmd@ =~= seq![0xBEu8]);
        let read = driver.reset_select_write_read(
            delay,
            &self.address,
            cmd.as_slice(),
            &mut scratchpad,
        );
        match read {
            Ok(()) => {},
            Err(e) => {
                proof {
                    assert(Self::scratchpad_read(
                        *old(driver),
                        *driver,
                        self.address@,
                        scratchpad@,
                        Err::<u16, Error<W::Error>>(e),
                    ));
                }
                return Err(e);
            },
        }
        let r = Self::decode_scratchpad(&scratchpad);
        proof {
            assert(Self::scratchpad_read(*old(driver), *driver, self.address@, scratchpad@, r));
        }
        r
    }

    /// The raw temperature in the first two bytes of a scratchpad.
    fn read_temperature_from_scratchpad(scratchpad: &[u8]) -> (r: u16)
        requires
            scratchpad@.len() >= 2,
        ensures
            r == u16_le(scratchpad@[0], scratchpad@[1]),
    {
        read_u16_le(scratchpad)
    }
}

impl Device for Ds18b20 {
    const FAMILY_CODE: u8 = 0x28;

    open spec fn rom(&self) -> Address {
        self.address
    }

    fn address(&self) -> (r: &Address) {
        &self.address
    }

    /// A thermometer at `address`, at the resolution of 12 bits.
    fn from_address_unchecked(address: Address) -> (r: Self)
        ensures
            r.resolution == MeasureResolution::TC,
    {
        Self { address, resolution: MeasureResolution::TC }
    }
}

impl Sensor for Ds18b20 {
    /// Starts a conversion and gives the time that it takes.
    fn start_measurement<W: IoWire, D: DelayUs>(
        &self,
        driver: &mut Driver<W>,
        delay: &mut D,
    ) -> (r: Result<u16, Error<W::Error>>)
        ensures
            final(driver).kept_time(*old(driver), old(delay).waited(), final(delay).waited()),
            final(driver).transacted(
                *old(driver),
                r,
                Self::convert_script(self.address@, old(driver).parasite()),
            ),
            r is Ok ==> r->Ok_0 == self.resolution.millis(),
    {
        match self.measure_temperature(driver, delay) {
            Ok(resolution) => Ok(resolution.time_ms()),
            Err(e) => Err(e),
        }
    }

    /// Reads the raw temperature, as `read_temperature` does.
    fn read_measurement_raw<W: IoWire, D: DelayUs>(
        &self,
        driver: &mut Driver<W>,
        delay: &mut D,
    ) -> (r: Result<u16, Error<W::Error>>)
        ensures
            final(driver).kept_time(*old(driver), old(delay).waited(), final(delay).waited()),
            Self::temperature_read(*old(driver), *final(driver), self.address@, r),
    {
        self.read_temperature(driver, delay)
    }
}

} // verus!
