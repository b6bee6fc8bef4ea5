//! ROM-level commands that every 1-Wire device understands.

use vstd::prelude::*;

verus! {

/// Anything that is put on the bus as a one-byte command.
pub trait OpCode {
    /// The byte to transmit.
    fn op_code(&self) -> u8;
}

/// `code` is a byte that `cmd` gives as its command byte.
pub open spec fn gives_code<C: OpCode>(cmd: &C, code: u8) -> bool {
    call_ensures(C::op_code, (cmd,), code)
}

/// The ROM commands.
#[derive(Clone, Copy, Debug)]
pub enum Command {
    /// Address one device by its 64-bit ROM.
    MatchRom,
    /// Enumerate the devices on the bus.
    SearchRom,
    /// Enumerate the devices that are in alarm state.
    SearchRomAlarmed,
    /// Address every device at once.
    SkipRom,
    /// Read the ROM of the only device on the bus.
    ReadRom,
}

impl Command {
    /// The byte that stands for the command.
    pub open spec fn code(&self) -> u8 {
        match self {
            Command::MatchRom => 0x55,
            Command::SearchRom => 0xF0,
            Command::SearchRomAlarmed => 0xEC,
            Command::SkipRom => 0xCC,
            Command::ReadRom => 0x33,
        }
    }

}

impl OpCode for Command {
    fn op_code(&self) -> (r: u8)
        ensures
            r == self.code(),
    {
        match self {
            Command::MatchRom => 0x55,
            Command::SearchRom => 0xF0,
            Command::SearchRomAlarmed => 0xEC,
            Command::SkipRom => 0xCC,
            Command::ReadRom => 0x33,
        }
    }
}

} // verus!
