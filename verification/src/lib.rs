//! A bit-banged master for the 1-Wire bus.
//!
//! The driver owns one bus line and paces every slot with a caller-supplied
//! microsecond delay. Every call to the line and every wait is noted in a
//! ghost transcript. The contracts of the driver and of the device
//! wrappers say what the transcript has gained, and that the delay was
//! asked for the waits in it and for no others.

pub mod address;
pub mod command;
pub mod crc;
pub mod device;
pub mod driver;
pub mod ds18b20;
pub mod ds1990;
pub mod iowire;
pub mod line;
pub mod result;
pub mod rw1990;
pub mod search;
pub mod sensor;
pub mod trace;
pub mod tree;

pub use address::{Address, AddressError};
pub use command::{Command, OpCode};
pub use crc::compute_partial_crc8;
pub use device::Device;
pub use driver::Driver;
pub use iowire::{DelayUs, Inverted, IoWire, Waited};
pub use result::Error;
pub use search::{DeviceSearch, DeviceSearchIter};
pub use sensor::Sensor;
