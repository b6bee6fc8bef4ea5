use std::cell::RefCell;
use std::collections::VecDeque;
use std::rc::Rc;

use onewire::driver::presence_from;
use onewire::ds18b20::{Ds18b20, MeasureResolution};
use onewire::ds1990::Ds1990;
use onewire::rw1990::Ds1990Type;
use onewire::{
    compute_partial_crc8, Address, DelayUs, Device, DeviceSearch, Driver, Error, Inverted,
    IoWire, OpCode, Sensor, Waited,
};

// ---------------------------------------------------------------------
// A bus in software: the line, the time, and the devices that hang on it.
// ---------------------------------------------------------------------

#[derive(Clone, Copy, Debug, PartialEq, Eq)]
enum Op {
    SetLow,
    SetHigh,
    IsHigh(bool),
    IsLow(bool),
    Delay(u32),
}

#[derive(Debug, PartialEq, Eq)]
struct Broken(usize);

#[derive(Clone, Copy, Debug, PartialEq, Eq)]
enum Kind {
    Thermometer,
    Token,
    Rw1990p1,
    Rw1990p2,
    Tm01,
    Tm2004,
}

#[derive(Debug)]
enum State {
    Idle,
    Command(Vec<bool>),
    Send(VecDeque<bool>),
    Match(Vec<bool>),
    Search(usize, u8),
    LockBit(u8),
    Rom(Vec<bool>),
    Status(Vec<bool>),
    Byte(Vec<bool>),
}

struct Slave {
    rom: [u8; 8],
    kind: Kind,
    alarmed: bool,
    scratchpad: [u8; 9],
    flag: bool,
    spoil_echo: bool,
    state: State,
}

fn bits_of(bytes: &[u8]) -> VecDeque<bool> {
    let mut bits = VecDeque::new();
    for byte in bytes {
        for i in 0..8 {
            bits.push_back((byte >> i) & 1 == 1);
        }
    }
    bits
}

fn bytes_of(bits: &[bool]) -> Vec<u8> {
    bits.chunks(8)
        .map(|chunk| {
            let mut byte = 0u8;
            for (i, bit) in chunk.iter().enumerate() {
                if *bit {
                    byte |= 1 << i;
                }
            }
            byte
        })
        .collect()
}

fn rom_ones(rom: &[u8; 8]) -> u32 {
    rom.iter().map(|byte| byte.count_ones()).sum()
}

fn rom_bit(rom: &[u8; 8], index: usize) -> bool {
    (rom[index / 8] >> (index % 8)) & 1 == 1
}

impl Slave {
    fn new(kind: Kind, rom: [u8; 8]) -> Slave {
        Slave {
            rom,
            kind,
            alarmed: false,
            scratchpad: [0; 9],
            flag: false,
            spoil_echo: false,
            state: State::Idle,
        }
    }

    /// Does the device hold the line low in the slot that begins now?
    fn pulls(&self) -> bool {
        match &self.state {
            State::Send(bits) => bits.front() == Some(&false),
            State::Search(index, 0) => !rom_bit(&self.rom, *index),
            State::Search(index, 1) => rom_bit(&self.rom, *index),
            _ => false,
        }
    }

    fn command(&mut self, code: u8) -> State {
        match (code, self.kind) {
            (0x33, _) => State::Send(bits_of(&self.rom)),
            (0x55, _) => State::Match(Vec::new()),
            (0xCC, _) => State::Command(Vec::new()),
            (0xF0, _) => State::Search(0, 0),
            (0xEC, _) if self.alarmed => State::Search(0, 0),
            (0x44, Kind::Thermometer) => State::Idle,
            (0xBE, Kind::Thermometer) => State::Send(bits_of(&self.scratchpad)),
            (0xD1, Kind::Rw1990p1) | (0x1D, Kind::Rw1990p2) | (0xC1, Kind::Tm01) => {
                State::LockBit(code)
            }
            (0xB1, Kind::Rw1990p1) => State::Send(bits_of(&[if !self.flag { 0xFE } else { 0xFF }])),
            (0x1E, Kind::Rw1990p2) => State::Send(bits_of(&[if self.flag { 0xFE } else { 0xFF }])),
            (0xB1, Kind::Tm01) => State::Send(bits_of(&[if self.flag { 0xFE } else { 0xFF }])),
            (0xD5, Kind::Rw1990p1) | (0xD5, Kind::Rw1990p2) | (0xD5, Kind::Tm01) => {
                State::Rom(Vec::new())
            }
            (0xAA, Kind::Tm2004) => State::Status(Vec::new()),
            (0x3C, Kind::Tm2004) => State::Byte(Vec::new()),
            _ => State::Idle,
        }
    }

    /// A slot is over in which the master sent `bit`.
    fn slot(&mut self, bit: bool) {
        let state = std::mem::replace(&mut self.state, State::Idle);
        self.state = match state {
            State::Idle => State::Idle,
            State::Command(mut got) => {
                got.push(bit);
                if got.len() == 8 {
                    self.command(bytes_of(&got)[0])
                } else {
                    State::Command(got)
                }
            }
            State::Send(mut bits) => {
                bits.pop_front();
                if bits.is_empty() {
                    State::Idle
                } else {
                    State::Send(bits)
                }
            }
            State::Match(mut got) => {
                got.push(bit);
                if got.len() < 64 {
                    State::Match(got)
                } else if bytes_of(&got) == self.rom {
                    State::Command(Vec::new())
                } else {
                    State::Idle
                }
            }
            State::Search(index, 2) => {
                if bit != rom_bit(&self.rom, index) {
                    State::Idle
                } else if index == 63 {
                    State::Command(Vec::new())
                } else {
                    State::Search(index + 1, 0)
                }
            }
            State::Search(index, phase) => State::Search(index, phase + 1),
            State::LockBit(_) => {
                self.flag = bit;
                State::Idle
            }
            State::Rom(mut got) => {
                got.push(bit);
                if got.len() < 64 {
                    State::Rom(got)
                } else {
                    let writable = match self.kind {
                        Kind::Rw1990p1 => self.flag,
                        _ => !self.flag,
                    };
                    if writable {
                        let stored: Vec<bool> = match self.kind {
                            Kind::Rw1990p2 => got,
                            _ => got.iter().map(|bit| !bit).collect(),
                        };
                        self.rom.copy_from_slice(&bytes_of(&stored));
                    }
                    State::Idle
                }
            }
            State::Status(mut got) => {
                got.push(bit);
                if got.len() < 16 {
                    State::Status(got)
                } else {
                    let mut request = vec![0xAA];
                    request.extend(bytes_of(&got));
                    State::Send(bits_of(&[compute_partial_crc8(0, &request), 0x55]))
                }
            }
            State::Byte(mut got) => {
                got.push(bit);
                if got.len() < 24 {
                    State::Byte(got)
                } else {
                    let mut request = vec![0x3C];
                    request.extend(bytes_of(&got));
                    let mut echo = compute_partial_crc8(0, &request);
                    if self.spoil_echo && request[1] == 5 {
                        echo ^= 0x10;
                    } else {
                        self.rom[request[1] as usize % 8] = request[3];
                    }
                    State::Send(bits_of(&[echo]))
                }
            }
        };
    }
}

struct Bus {
    slaves: Vec<Slave>,
    now: u64,
    master_low: bool,
    low_since: u64,
    holds: Vec<(u64, u64)>,
    slot_holds: usize,
    stuck_low: bool,
    calls: usize,
    fail_at: Option<usize>,
    broken: bool,
    calls_after_break: usize,
    log: Vec<Op>,
}

impl Bus {
    fn new(slaves: Vec<Slave>) -> Rc<RefCell<Bus>> {
        Rc::new(RefCell::new(Bus {
            slaves,
            now: 0,
            master_low: false,
            low_since: 0,
            holds: Vec::new(),
            slot_holds: 0,
            stuck_low: false,
            calls: 0,
            fail_at: None,
            broken: false,
            calls_after_break: 0,
            log: Vec::new(),
        }))
    }

    fn call(&mut self) -> Result<(), Broken> {
        if self.broken {
            self.calls_after_break += 1;
        }
        self.calls += 1;
        if self.fail_at == Some(self.calls) {
            self.broken = true;
            return Err(Broken(self.calls));
        }
        Ok(())
    }

    fn high(&self) -> bool {
        !self.stuck_low
            && !self.master_low
            && !self.holds.iter().any(|(from, to)| *from <= self.now && self.now < *to)
    }

    fn drive_low(&mut self) {
        if !self.master_low {
            self.master_low = true;
            self.low_since = self.now;
            self.slot_holds = self.holds.len();
            let now = self.now;
            for slave in &self.slaves {
                if slave.pulls() {
                    self.holds.push((now, now + 30));
                }
            }
        }
    }

    fn release(&mut self) {
        if self.master_low {
            self.master_low = false;
            let low_for = self.now - self.low_since;
            if low_for == 0 {
                self.holds.truncate(self.slot_holds);
            } else if low_for >= 480 {
                for slave in &mut self.slaves {
                    slave.state = State::Command(Vec::new());
                }
                if !self.slaves.is_empty() {
                    self.holds.push((self.now + 15, self.now + 135));
                }
            } else {
                for slave in &mut self.slaves {
                    slave.slot(low_for <= 15);
                }
            }
        }
    }
}

struct Wire(Rc<RefCell<Bus>>);

impl IoWire for Wire {
    type Error = Broken;

    fn is_high(&self) -> Result<bool, Broken> {
        let mut bus = self.0.borrow_mut();
        bus.call()?;
        let level = bus.high();
        bus.log.push(Op::IsHigh(level));
        Ok(level)
    }

    fn is_low(&self) -> Result<bool, Broken> {
        let mut bus = self.0.borrow_mut();
        bus.call()?;
        let level = !bus.high();
        bus.log.push(Op::IsLow(level));
        Ok(level)
    }

    fn set_low(&mut self) -> Result<(), Broken> {
        let mut bus = self.0.borrow_mut();
        bus.call()?;
        bus.log.push(Op::SetLow);
        bus.drive_low();
        Ok(())
    }

    fn set_high(&mut self) -> Result<(), Broken> {
        let mut bus = self.0.borrow_mut();
        bus.call()?;
        bus.log.push(Op::SetHigh);
        bus.release();
        Ok(())
    }
}

/// The same line behind hardware that turns the levels over.
struct TurnedWire(Wire);

impl IoWire for TurnedWire {
    type Error = Broken;

    fn is_high(&self) -> Result<bool, Broken> {
        self.0.is_low()
    }

    fn is_low(&self) -> Result<bool, Broken> {
        self.0.is_high()
    }

    fn set_low(&mut self) -> Result<(), Broken> {
        self.0.set_high()
    }

    fn set_high(&mut self) -> Result<(), Broken> {
        self.0.set_low()
    }
}

struct Clock(Rc<RefCell<Bus>>);

impl DelayUs for Clock {
    fn waited(&self) -> Waited {
        unreachable!("the contracts speak of it, nothing calls it")
    }

    fn delay_us(&mut self, us: u32) {
        let mut bus = self.0.borrow_mut();
        bus.now += us as u64;
        bus.log.push(Op::Delay(us));
    }
}

fn rig(slaves: Vec<Slave>, parasite: bool) -> (Rc<RefCell<Bus>>, Driver<Wire>, Clock) {
    let bus = Bus::new(slaves);
    let driver = Driver::new(Wire(bus.clone()), parasite);
    let clock = Clock(bus.clone());
    (bus, driver, clock)
}

fn with_crc(mut rom: [u8; 8]) -> [u8; 8] {
    rom[7] = compute_partial_crc8(0, &rom[..7]);
    rom
}

fn taken(bus: &Rc<RefCell<Bus>>) -> Vec<Op> {
    std::mem::take(&mut bus.borrow_mut().log)
}

// ---------------------------------------------------------------------
// What the transcripts must be.
// ---------------------------------------------------------------------

fn write_slot(high: bool) -> Vec<Op> {
    vec![
        Op::SetLow,
        Op::Delay(if high { 10 } else { 65 }),
        Op::SetHigh,
        Op::Delay(if high { 55 } else { 5 }),
    ]
}

fn read_slot(bit: bool) -> Vec<Op> {
    vec![
        Op::SetLow,
        Op::Delay(3),
        Op::SetHigh,
        Op::Delay(2),
        Op::IsHigh(bit),
        Op::Delay(61),
    ]
}

fn write_byte(byte: u8, parasite: bool) -> Vec<Op> {
    let mut ops = Vec::new();
    for i in 0..8 {
        ops.extend(write_slot((byte >> i) & 1 == 1));
    }
    if !parasite {
        ops.push(Op::SetLow);
    }
    ops
}

fn write_bytes(bytes: &[u8], parasite: bool) -> Vec<Op> {
    let mut ops = Vec::new();
    for byte in bytes {
        ops.extend(write_byte(*byte, false));
    }
    if !parasite {
        ops.push(Op::SetLow);
    }
    ops
}

fn read_bytes(bytes: &[u8]) -> Vec<Op> {
    let mut ops = Vec::new();
    for byte in bytes {
        for i in 0..8 {
            ops.extend(read_slot((byte >> i) & 1 == 1));
        }
    }
    ops
}

fn reset_frame(polls: usize, samples: [bool; 7]) -> Vec<Op> {
    let mut ops = vec![Op::SetHigh];
    for _ in 0..polls {
        ops.push(Op::IsHigh(false));
        ops.push(Op::Delay(2));
    }
    ops.extend([Op::IsHigh(true), Op::SetLow, Op::Delay(480), Op::SetHigh]);
    for sample in samples {
        ops.push(Op::Delay(10));
        ops.push(Op::IsLow(sample));
    }
    ops.push(Op::Delay(410));
    ops
}

const ANSWERED: [bool; 7] = [false, true, true, true, true, true, true];
const SILENT: [bool; 7] = [false; 7];

fn select(rom: &[u8; 8], parasite: bool) -> Vec<Op> {
    let mut ops = write_byte(0x55, parasite);
    for byte in &rom[..7] {
        ops.extend(write_byte(*byte, false));
    }
    ops.extend(write_byte(rom[7], parasite));
    ops
}

// ---------------------------------------------------------------------
// Reset and presence.
// ---------------------------------------------------------------------

#[test]
fn empty_bus() {
    let (bus, mut driver, mut clock) = rig(vec![], false);
    assert!(matches!(driver.reset(&mut clock), Err(Error::NoPresence)));
    assert_eq!(taken(&bus), reset_frame(0, SILENT));
    assert!(matches!(driver.reset_presence(&mut clock), Ok(false)));
    assert_eq!(taken(&bus), reset_frame(0, SILENT));

    let mut search = DeviceSearch::new();
    assert!(matches!(driver.search_next(&mut search, &mut clock), Ok(None)));
    assert_eq!(taken(&bus), reset_frame(0, SILENT));
    assert!(matches!(driver.search_next_alarmed(&mut search, &mut clock), Ok(None)));
    assert!(matches!(Address::search_first(&mut driver, &mut clock, 0x28), Ok(None)));
    assert!(matches!(Address::get_single(&mut driver, &mut clock), Err(Error::NoPresence)));
}

#[test]
fn reset_with_a_device() {
    let rom = with_crc([0x28, 1, 2, 3, 4, 5, 6, 0]);
    let (bus, mut driver, mut clock) = rig(vec![Slave::new(Kind::Thermometer, rom)], false);
    assert!(driver.reset(&mut clock).is_ok());
    assert_eq!(taken(&bus), reset_frame(0, ANSWERED));
    assert_eq!(bus.borrow().now, 960);
    assert!(matches!(driver.reset_presence(&mut clock), Ok(true)));
    assert_eq!(taken(&bus), reset_frame(0, ANSWERED));
}

#[test]
fn reset_waits_for_the_line_to_rise() {
    let (bus, mut driver, mut clock) = rig(vec![], false);
    // Something holds the line for the first 7 microseconds.
    bus.borrow_mut().holds.push((0, 7));
    assert!(matches!(driver.reset(&mut clock), Err(Error::NoPresence)));
    assert_eq!(taken(&bus), reset_frame(4, SILENT));
}

#[test]
fn reset_on_a_stuck_line() {
    let (bus, mut driver, mut clock) = rig(vec![], false);
    bus.borrow_mut().stuck_low = true;
    assert!(matches!(driver.reset(&mut clock), Err(Error::WireFault)));
    let mut expected = vec![Op::SetHigh];
    for _ in 0..125 {
        expected.push(Op::IsHigh(false));
        expected.push(Op::Delay(2));
    }
    assert_eq!(taken(&bus), expected);
    assert_eq!(bus.borrow().now, 250);
    assert!(matches!(driver.reset_presence(&mut clock), Err(Error::WireFault)));
    let mut search = DeviceSearch::new();
    assert!(matches!(driver.search_next(&mut search, &mut clock), Err(Error::WireFault)));
}

#[test]
fn presence_from_reset() {
    assert!(matches!(presence_from::<u8>(Ok(())), Ok(true)));
    assert!(matches!(presence_from::<u8>(Err(Error::NoPresence)), Ok(false)));
    assert!(matches!(presence_from::<u8>(Err(Error::WireFault)), Err(Error::WireFault)));
    assert!(matches!(presence_from::<u8>(Err(Error::NotSupport)), Err(Error::NotSupport)));
    assert!(matches!(
        presence_from::<u8>(Err(Error::CrcMismatch(1, 2))),
        Err(Error::CrcMismatch(1, 2))
    ));
    assert!(matches!(
        presence_from::<u8>(Err(Error::FamilyCodeMismatch(3, 4))),
        Err(Error::FamilyCodeMismatch(3, 4))
    ));
    assert!(matches!(presence_from::<u8>(Err(Error::PortError(9))), Err(Error::PortError(9))));
    assert!(matches!(Error::from(7u8), Error::PortError(7)));
}

#[test]
fn a_failing_line_stops_the_driver_at_once() {
    let rom = with_crc([0x28, 1, 2, 3, 4, 5, 6, 0]);
    for fail_at in 1..200 {
        let (bus, mut driver, mut clock) = rig(vec![Slave::new(Kind::Thermometer, rom)], false);
        bus.borrow_mut().fail_at = Some(fail_at);
        let mut read = [0u8; 2];
        let r = driver.reset_select_write_read(
            &mut clock,
            &Address::from(rom),
            &[0xBE],
            &mut read,
        );
        match r {
            Err(Error::PortError(Broken(at))) => assert_eq!(at, fail_at),
            _ => panic!("the failure of call {} was lost", fail_at),
        }
        assert_eq!(bus.borrow().calls, fail_at);
        assert_eq!(bus.borrow().calls_after_break, 0);
    }
}

#[test]
fn a_failing_line_stops_a_search_at_once() {
    let roms = [
        with_crc([0x28, 0x11, 0x22, 0x33, 0x44, 0x55, 0x66, 0]),
        with_crc([0x28, 0x12, 0x22, 0x33, 0x44, 0x55, 0x66, 0]),
        with_crc([0x01, 0x22, 0x8f, 0xf9, 0x08, 0x00, 0x01, 0]),
    ];
    let mut fail_at = 1;
    while fail_at < 1500 {
        let slaves = roms.iter().map(|rom| Slave::new(Kind::Token, *rom)).collect();
        let (bus, mut driver, mut clock) = rig(slaves, false);
        bus.borrow_mut().fail_at = Some(fail_at);
        let mut search = DeviceSearch::new();
        let mut found = 0;
        loop {
            match driver.search_next(&mut search, &mut clock) {
                Ok(Some(_)) => found += 1,
                Ok(None) => panic!("the failure of call {} was lost", fail_at),
                Err(Error::PortError(Broken(at))) => {
                    assert_eq!(at, fail_at);
                    break;
                }
                Err(_) => panic!("the failure of call {} came as another error", fail_at),
            }
            assert!(found <= 3);
        }
        assert_eq!(bus.borrow().calls, fail_at);
        assert_eq!(bus.borrow().calls_after_break, 0);
        fail_at += 13;
    }
}

#[test]
fn a_failing_line_stops_the_writing_of_a_clone_at_once() {
    let rom = with_crc([0x01, 0x22, 0x8f, 0xf9, 0x08, 0x00, 0x01, 0]);
    let token = Ds1990::from_address::<Broken>(Address::from(rom)).unwrap();
    for (kind, of_kind) in [
        (Kind::Rw1990p1, Ds1990Type::Rw1990p1),
        (Kind::Tm2004, Ds1990Type::Tm2004),
    ] {
        let mut fail_at = 1;
        let mut failed = 0;
        while fail_at < 2500 {
            let (bus, mut driver, mut clock) = rig(vec![Slave::new(kind, BLANK)], false);
            bus.borrow_mut().fail_at = Some(fail_at);
            match token.write_address(&mut driver, &mut clock, of_kind) {
                Err(Error::PortError(Broken(at))) => {
                    assert_eq!(at, fail_at);
                    assert_eq!(bus.borrow().calls, fail_at);
                    assert_eq!(bus.borrow().calls_after_break, 0);
                    failed += 1;
                }
                Ok(()) => assert!(bus.borrow().calls < fail_at),
                Err(_) => panic!("the failure of call {} came as another error", fail_at),
            }
            fail_at += 17;
        }
        assert!(failed > 10);
    }
}

// ---------------------------------------------------------------------
// Bytes.
// ---------------------------------------------------------------------

#[test]
fn bytes_go_out_lowest_bit_first() {
    let (bus, mut driver, mut clock) = rig(vec![], false);
    driver.write_bytes(&mut clock, &[0xA5, 0x01]).unwrap();
    assert_eq!(taken(&bus), write_bytes(&[0xA5, 0x01], false));
    driver.write_bytes(&mut clock, &[]).unwrap();
    assert_eq!(taken(&bus), vec![Op::SetLow]);
    driver.write_command(&mut clock, onewire::Command::SkipRom, false).unwrap();
    assert_eq!(taken(&bus), write_byte(0xCC, false));
    driver.write_command(&mut clock, onewire::Command::SkipRom, true).unwrap();
    assert_eq!(taken(&bus), write_byte(0xCC, true));

    let (bus, mut driver, mut clock) = rig(vec![], true);
    driver.write_bytes(&mut clock, &[0xA5, 0x01]).unwrap();
    assert_eq!(taken(&bus), write_bytes(&[0xA5, 0x01], true));
    assert_eq!(write_slot(true).len() + write_slot(false).len(), 8);
}

struct Ping;

impl OpCode for Ping {
    fn op_code(&self) -> u8 {
        0x99
    }
}

#[test]
fn a_command_of_ones_own() {
    let (bus, mut driver, mut clock) = rig(vec![], true);
    driver.write_command(&mut clock, Ping, true).unwrap();
    assert_eq!(taken(&bus), write_byte(0x99, true));
    driver.write_command(&mut clock, Ping, false).unwrap();
    assert_eq!(taken(&bus), write_byte(0x99, false));
}

#[test]
fn bytes_come_in_lowest_bit_first() {
    let rom = with_crc([0x28, 0xfe, 0x01, 0x80, 0x7f, 0x55, 0xaa, 0]);
    let (bus, mut driver, mut clock) = rig(vec![Slave::new(Kind::Thermometer, rom)], false);
    let mut read = [0u8; 8];
    driver.reset_write_read(&mut clock, &[0x33], &mut read).unwrap();
    assert_eq!(read, rom);
    let mut expected = reset_frame(0, ANSWERED);
    expected.extend(write_bytes(&[0x33], false));
    expected.extend(read_bytes(&rom));
    assert_eq!(taken(&bus), expected);

    // With nothing to answer every bit reads as 1.
    let mut read = [0u8; 3];
    driver.read_bytes(&mut clock, &mut read).unwrap();
    assert_eq!(read, [0xff; 3]);
    assert_eq!(taken(&bus), read_bytes(&[0xff; 3]));
}

#[test]
fn select_and_skip() {
    let rom = with_crc([0x28, 0x10, 0x20, 0x30, 0x40, 0x50, 0x60, 0]);
    for parasite in [false, true] {
        let (bus, mut driver, mut clock) = rig(vec![Slave::new(Kind::Thermometer, rom)], parasite);
        driver.select(&mut clock, &Address::from(rom)).unwrap();
        assert_eq!(taken(&bus), select(&rom, parasite));
        driver.skip(&mut clock).unwrap();
        assert_eq!(taken(&bus), write_byte(0xCC, parasite));
    }
}

#[test]
fn transactions() {
    let rom = with_crc([0x28, 0x10, 0x20, 0x30, 0x40, 0x50, 0x60, 0]);
    let mut pad = [0x50, 0x05, 0x4b, 0x46, 0x7f, 0xff, 0x0c, 0x10, 0];
    pad[8] = compute_partial_crc8(0, &pad[..8]);
    let address = Address::from(rom);
    let mut thermometer = Slave::new(Kind::Thermometer, rom);
    thermometer.scratchpad = pad;
    let (bus, mut driver, mut clock) = rig(vec![thermometer], false);
    let frame = reset_frame(0, ANSWERED);
    let join = |parts: &[&Vec<Op>]| -> Vec<Op> {
        parts.iter().flat_map(|part| part.iter().copied()).collect()
    };

    let mut read = [0u8; 9];
    driver.reset_select_write_read(&mut clock, &address, &[0xBE], &mut read).unwrap();
    assert_eq!(read, pad);
    assert_eq!(
        taken(&bus),
        join(&[&frame, &select(&rom, false), &write_bytes(&[0xBE], false), &read_bytes(&pad)])
    );

    let mut read = [0u8; 9];
    driver.reset_skip_write_read(&mut clock, &[0xBE], &mut read).unwrap();
    assert_eq!(read, pad);
    assert_eq!(
        taken(&bus),
        join(&[&frame, &write_byte(0xCC, false), &write_bytes(&[0xBE], false), &read_bytes(&pad)])
    );

    driver.reset_write_only(&mut clock, &[0xCC, 0x44]).unwrap();
    assert_eq!(taken(&bus), join(&[&frame, &write_bytes(&[0xCC, 0x44], false)]));

    driver.reset_skip_write_only(&mut clock, &[0x44]).unwrap();
    assert_eq!(
        taken(&bus),
        join(&[&frame, &write_byte(0xCC, false), &write_bytes(&[0x44], false)])
    );

    let mut read = [0u8; 1];
    driver.reset_read_only(&mut clock, &mut read).unwrap();
    assert_eq!(read, [0xff]);
    assert_eq!(taken(&bus), join(&[&frame, &read_bytes(&[0xff])]));

    let mut read = [0u8; 1];
    driver.reset_skip_read_only(&mut clock, &mut read).unwrap();
    assert_eq!(read, [0xff]);
    assert_eq!(taken(&bus), join(&[&frame, &write_byte(0xCC, false), &read_bytes(&[0xff])]));

    // These two address the device twice in a row.
    driver.reset_select_write_only(&mut clock, &address, &[0x44]).unwrap();
    assert_eq!(
        taken(&bus),
        join(&[&frame, &select(&rom, false), &select(&rom, false), &write_bytes(&[0x44], false)])
    );
    let mut read = [0u8; 1];
    driver.reset_select_read_only(&mut clock, &address, &mut read).unwrap();
    assert_eq!(
        taken(&bus),
        join(&[&frame, &select(&rom, false), &select(&rom, false), &read_bytes(&read)])
    );
}

#[test]
fn single_device() {
    let rom = with_crc([0x01, 0x22, 0x8f, 0xf9, 0x08, 0x00, 0x01, 0]);
    let (bus, mut driver, mut clock) = rig(vec![Slave::new(Kind::Token, rom)], false);
    let address = Address::get_single(&mut driver, &mut clock).unwrap();
    assert_eq!(address, Address::from(rom));
    let mut expected = reset_frame(0, ANSWERED);
    expected.extend(write_bytes(&[0x33], false));
    expected.extend(read_bytes(&rom));
    assert_eq!(taken(&bus), expected);

    let mut again = Address::default();
    again.read_single(&mut driver, &mut clock).unwrap();
    assert_eq!(again.raw, rom);
    assert_eq!(again, address);

    let token = Ds1990::get_single(&mut driver, &mut clock).unwrap();
    assert_eq!(*token.address(), address);
    match Ds18b20::get_single(&mut driver, &mut clock) {
        Err(Error::FamilyCodeMismatch(expected, actual)) => {
            assert_eq!(expected, 0x28);
            assert_eq!(actual, 0x01);
        }
        _ => panic!("a token went through as a thermometer"),
    }
}

/// A kind of device that the library does not know.
struct Ds18s20 {
    address: Address,
}

impl Device for Ds18s20 {
    const FAMILY_CODE: u8 = 0x10;

    fn rom(&self) -> Address {
        self.address
    }

    fn address(&self) -> &Address {
        &self.address
    }

    fn from_address_unchecked(address: Address) -> Self {
        Ds18s20 { address }
    }
}

#[test]
fn a_device_of_ones_own() {
    let rom = with_crc([0x10, 0x22, 0x8f, 0xf9, 0x08, 0x00, 0x01, 0]);
    let other = with_crc([0x28, 0x22, 0x8f, 0xf9, 0x08, 0x00, 0x01, 0]);
    let (bus, mut driver, mut clock) = rig(vec![Slave::new(Kind::Token, rom)], false);
    let device = Ds18s20::get_single(&mut driver, &mut clock).unwrap();
    assert_eq!(device.address().raw, rom);
    bus.borrow_mut().slaves.push(Slave::new(Kind::Thermometer, other));
    let device = Ds18s20::search_first(&mut driver, &mut clock).unwrap().unwrap();
    assert_eq!(device.address().raw, rom);
    assert!(matches!(
        Ds18s20::from_address::<Broken>(Address::from(other)),
        Err(Error::FamilyCodeMismatch(0x10, 0x28))
    ));
    bus.borrow_mut().slaves.remove(0);
    assert!(Ds18s20::search_first(&mut driver, &mut clock).unwrap().is_none());
}

// ---------------------------------------------------------------------
// Searching.
// ---------------------------------------------------------------------

fn enumerate(
    driver: &mut Driver<Wire>,
    clock: &mut Clock,
    mut search: DeviceSearch,
) -> Vec<[u8; 8]> {
    let mut found = Vec::new();
    while let Some(address) = driver.search_next(&mut search, clock).unwrap() {
        found.push(address.raw);
        assert!(found.len() <= 1000, "the search does not come to an end");
    }
    // At its end the search stays there.
    assert!(driver.search_next(&mut search, clock).unwrap().is_none());
    assert!(driver.search_next(&mut search, clock).unwrap().is_none());
    found
}

fn sorted(mut roms: Vec<[u8; 8]>) -> Vec<[u8; 8]> {
    roms.sort();
    roms
}

#[test]
fn search_finds_one_device() {
    let rom = with_crc([0x28, 0xff, 0x00, 0x81, 0x18, 0x3c, 0x66, 0]);
    let (bus, mut driver, mut clock) = rig(vec![Slave::new(Kind::Thermometer, rom)], false);
    let mut search = DeviceSearch::new();
    assert_eq!(search.last_discrepancy(), None);
    let found = driver.search_next(&mut search, &mut clock).unwrap().unwrap();
    assert_eq!(found.raw, rom);
    assert_eq!(search.last_discrepancy(), None);

    let mut expected = reset_frame(0, ANSWERED);
    expected.extend(write_byte(0xF0, false));
    for i in 0..64 {
        let bit = rom_bit(&rom, i);
        expected.extend(read_slot(bit));
        expected.extend(read_slot(!bit));
        expected.extend(write_slot(bit));
    }
    let waited: u64 = expected
        .iter()
        .map(|op| match op {
            Op::Delay(us) => *us as u64,
            _ => 0,
        })
        .sum();
    assert_eq!(waited, 960 + 540 + 64 * 132 + 64 * 70 - 5 * rom_ones(&rom) as u64);
    assert_eq!(taken(&bus), expected);

    // The only device was found: the search is over, and the bus and the
    // delay are left alone.
    let now = bus.borrow().now;
    assert_eq!(now, waited);
    assert!(driver.search_next(&mut search, &mut clock).unwrap().is_none());
    assert_eq!(taken(&bus), vec![]);
    assert_eq!(bus.borrow().now, now);
}

#[test]
fn search_finds_four_devices() {
    let roms = [
        with_crc([0x28, 0x11, 0x22, 0x33, 0x44, 0x55, 0x66, 0]),
        with_crc([0x28, 0x12, 0x22, 0x33, 0x44, 0x55, 0x66, 0]),
        with_crc([0x28, 0x11, 0x22, 0x33, 0x44, 0x55, 0x67, 0]),
        with_crc([0x01, 0x22, 0x8f, 0xf9, 0x08, 0x00, 0x01, 0]),
    ];
    let slaves = || {
        vec![
            Slave::new(Kind::Thermometer, roms[0]),
            Slave::new(Kind::Thermometer, roms[1]),
            Slave::new(Kind::Thermometer, roms[2]),
            Slave::new(Kind::Token, roms[3]),
        ]
    };
    let (_bus, mut driver, mut clock) = rig(slaves(), false);
    let found = enumerate(&mut driver, &mut clock, DeviceSearch::new());
    assert_eq!(found.len(), 4);
    assert_eq!(sorted(found.clone()), sorted(roms.to_vec()));
    for rom in &found {
        assert_eq!(compute_partial_crc8(0, &rom[..7]), rom[7]);
    }

    let token = Address::search_first(&mut driver, &mut clock, 0x01).unwrap().unwrap();
    assert_eq!(token.raw, roms[3]);
    let token = Ds1990::search_first(&mut driver, &mut clock).unwrap().unwrap();
    assert_eq!(token.address().raw, roms[3]);
    let thermometer = Ds18b20::search_first(&mut driver, &mut clock).unwrap().unwrap();
    assert_eq!(thermometer.address().family_code(), 0x28);
    assert!(roms[..3].contains(&thermometer.address().raw));
    assert!(Address::search_first(&mut driver, &mut clock, 0x10).unwrap().is_none());

    // A search that is set up for a family still finds every device.
    for family in [0x28, 0x01, 0x42] {
        let found = enumerate(&mut driver, &mut clock, DeviceSearch::new_for_family(family));
        assert_eq!(sorted(found.clone()), sorted(roms.to_vec()));
        let of_family: Vec<[u8; 8]> =
            found.into_iter().filter(|rom| Address::from(*rom).family_code() == family).collect();
        let expected: Vec<[u8; 8]> =
            roms.iter().copied().filter(|rom| rom[0] == family).collect();
        assert_eq!(sorted(of_family), sorted(expected));
    }

    // The same with the search bound to its driver.
    let mut iter = DeviceSearch::new().into_iter(&mut driver, &mut clock);
    let mut found = Vec::new();
    while let Some(item) = iter.next() {
        found.push(item.unwrap().raw);
        assert!(found.len() <= 4);
    }
    assert!(iter.next().is_none());
    assert_eq!(sorted(found), sorted(roms.to_vec()));
}

#[test]
fn search_visits_the_zero_side_first() {
    let low = [0x00, 0, 0, 0, 0, 0, 0, 0x01];
    let high = [0x01, 0, 0, 0, 0, 0, 0, 0x00];
    let last = [0xff, 0xff, 0xff, 0xff, 0xff, 0xff, 0xff, 0xff];
    let (_bus, mut driver, mut clock) = rig(
        vec![
            Slave::new(Kind::Token, last),
            Slave::new(Kind::Token, high),
            Slave::new(Kind::Token, low),
        ],
        false,
    );
    let mut search = DeviceSearch::new();
    assert_eq!(driver.search_next(&mut search, &mut clock).unwrap().unwrap().raw, low);
    assert_eq!(search.last_discrepancy(), Some(0));
    assert_eq!(driver.search_next(&mut search, &mut clock).unwrap().unwrap().raw, high);
    assert_eq!(search.last_discrepancy(), Some(1));
    assert_eq!(driver.search_next(&mut search, &mut clock).unwrap().unwrap().raw, last);
    assert_eq!(search.last_discrepancy(), None);
    assert!(driver.search_next(&mut search, &mut clock).unwrap().is_none());
}

#[test]
fn search_finds_many_devices() {
    // A fixed pseudo-random set of ROMs, some of them close to each other.
    let mut state = 0x2545_f491_4f6c_dd1du64;
    let mut roms: Vec<[u8; 8]> = Vec::new();
    while roms.len() < 40 {
        state ^= state << 13;
        state ^= state >> 7;
        state ^= state << 17;
        let mut rom = state.to_le_bytes();
        if roms.len() % 3 == 0 {
            rom[0] = 0x28;
        }
        if roms.len() % 5 == 1 {
            let near = roms[roms.len() - 1];
            rom = near;
            rom[6] ^= 0x80;
        }
        let rom = with_crc(rom);
        if !roms.contains(&rom) {
            roms.push(rom);
        }
    }
    let slaves = roms.iter().map(|rom| Slave::new(Kind::Token, *rom)).collect();
    let (_bus, mut driver, mut clock) = rig(slaves, false);
    let found = enumerate(&mut driver, &mut clock, DeviceSearch::new());
    assert_eq!(found.len(), roms.len());
    assert_eq!(sorted(found.clone()), sorted(roms.clone()));
    for rom in &found {
        assert_eq!(compute_partial_crc8(0, &rom[..7]), rom[7]);
    }
    let found = enumerate(&mut driver, &mut clock, DeviceSearch::new_for_family(0x28));
    let thermometers: Vec<[u8; 8]> = found
        .into_iter()
        .filter(|rom| Address::from(*rom).family_code() == 0x28)
        .collect();
    let expected: Vec<[u8; 8]> = roms.iter().copied().filter(|rom| rom[0] == 0x28).collect();
    assert_eq!(sorted(thermometers), sorted(expected));
}

#[test]
fn search_for_alarms() {
    let roms = [
        with_crc([0x28, 1, 0, 0, 0, 0, 0, 0]),
        with_crc([0x28, 2, 0, 0, 0, 0, 0, 0]),
        with_crc([0x28, 3, 0, 0, 0, 0, 0, 0]),
    ];
    let mut slaves: Vec<Slave> =
        roms.iter().map(|rom| Slave::new(Kind::Thermometer, *rom)).collect();
    slaves[0].alarmed = true;
    slaves[2].alarmed = true;
    let (bus, mut driver, mut clock) = rig(slaves, false);
    let mut search = DeviceSearch::new();
    let mut found = Vec::new();
    taken(&bus);
    while let Some(address) = driver.search_next_alarmed(&mut search, &mut clock).unwrap() {
        if found.is_empty() {
            let log = taken(&bus);
            let frame = reset_frame(0, ANSWERED);
            assert_eq!(log[frame.len()..frame.len() + 33], write_byte(0xEC, false)[..]);
        }
        found.push(address.raw);
    }
    assert_eq!(sorted(found), sorted(vec![roms[0], roms[2]]));
}

#[test]
fn cursor_step_by_step() {
    assert_eq!(DeviceSearch::default().last_discrepancy(), None);
    // Without a fork behind it a pass goes where the devices are.
    let mut search = DeviceSearch::default();
    assert_eq!(search.advance(0, None, false, true), Some(false));
    assert_eq!(search.advance(1, None, true, false), Some(true));
    assert_eq!(search.last_discrepancy(), None);
    assert_eq!(search.advance(2, None, false, false), Some(false));
    assert_eq!(search.last_discrepancy(), Some(2));
    assert_eq!(search.advance(3, None, true, true), None);
    assert_eq!(search.advance(9, None, false, false), Some(false));
    assert_eq!(search.last_discrepancy(), Some(9));
    assert_eq!(search.advance(63, None, false, false), Some(false));
    assert_eq!(search.last_discrepancy(), Some(63));

    // Below the last fork it goes as before, whatever is read but a pair of ones.
    assert_eq!(search.advance(1, Some(9), false, false), Some(true));
    assert_eq!(search.advance(0, Some(9), true, false), Some(false));
    assert_eq!(search.advance(1, Some(9), true, true), None);
    assert_eq!(search.last_discrepancy(), Some(63));
    // At the last fork it takes the other side and the fork is done with.
    assert_eq!(search.advance(63, Some(63), true, true), Some(true));
    assert_eq!(search.last_discrepancy(), Some(9));
    assert_eq!(search.advance(9, Some(9), false, true), Some(true));
    assert_eq!(search.last_discrepancy(), Some(2));
    // Above it a single side is followed and leaves a fork as it is.
    assert_eq!(search.advance(2, Some(1), true, false), Some(true));
    assert_eq!(search.last_discrepancy(), Some(2));
}

// ---------------------------------------------------------------------
// The thermometer.
// ---------------------------------------------------------------------

#[test]
fn thermometer_on_the_bus() {
    let rom = with_crc([0x28, 0x10, 0x20, 0x30, 0x40, 0x50, 0x60, 0]);
    let mut pad = [0x91, 0x01, 0x4b, 0x46, 0x7f, 0xff, 0x0f, 0x10, 0];
    pad[8] = compute_partial_crc8(0, &pad[..8]);
    let mut slave = Slave::new(Kind::Thermometer, rom);
    slave.scratchpad = pad;
    let (bus, mut driver, mut clock) = rig(vec![slave], false);
    let device = Ds18b20::from_address::<Broken>(Address::from(rom)).unwrap();

    let resolution = device.measure_temperature(&mut driver, &mut clock).unwrap();
    assert!(matches!(resolution, MeasureResolution::TC));
    let mut expected = reset_frame(0, ANSWERED);
    expected.extend(select(&rom, false));
    expected.extend(select(&rom, false));
    expected.extend(write_bytes(&[0x44], false));
    assert_eq!(taken(&bus), expected);
    assert_eq!(device.start_measurement(&mut driver, &mut clock).unwrap(), 750);

    let raw = device.read_temperature(&mut driver, &mut clock).unwrap();
    assert_eq!(raw, 0x0191);
    assert_eq!(onewire::ds18b20::split_temp(raw), (25, 625));
    assert_eq!(device.read_measurement_raw(&mut driver, &mut clock).unwrap(), 0x0191);

    bus.borrow_mut().slaves[0].scratchpad[8] ^= 0xff;
    match device.read_temperature(&mut driver, &mut clock) {
        Err(Error::CrcMismatch(computed, received)) => {
            assert_eq!(computed, pad[8]);
            assert_eq!(received, pad[8] ^ 0xff);
        }
        _ => panic!("a spoiled scratchpad went through"),
    }

    bus.borrow_mut().slaves.clear();
    assert!(matches!(device.read_temperature(&mut driver, &mut clock), Err(Error::NoPresence)));
    assert!(matches!(device.measure_temperature(&mut driver, &mut clock), Err(Error::NoPresence)));
}

// ---------------------------------------------------------------------
// Tokens and their clones.
// ---------------------------------------------------------------------

const BLANK: [u8; 8] = [0x01, 0xff, 0xff, 0xff, 0xff, 0xff, 0xff, 0x2f];

fn programming_byte(byte: u8, invert: bool) -> Vec<Op> {
    let mut ops = Vec::new();
    for i in 0..8 {
        let bit = ((byte >> i) & 1 == 1) != invert;
        ops.extend([
            Op::SetLow,
            Op::Delay(if bit { 6 } else { 60 }),
            Op::SetHigh,
            Op::Delay(10000),
        ]);
    }
    ops
}

#[test]
fn detect_the_kind_of_a_clone() {
    for (kind, expected) in [
        (Kind::Rw1990p1, "Rw1990p1"),
        (Kind::Rw1990p2, "Rw1990p2"),
        (Kind::Tm2004, "Tm2004"),
        (Kind::Tm01, "Tm01"),
        (Kind::Token, "Tm01"),
    ] {
        let (_bus, mut driver, mut clock) = rig(vec![Slave::new(kind, BLANK)], false);
        let found = Ds1990::detect_type(&mut driver, &mut clock).unwrap();
        assert_eq!(format!("{:?}", found), expected);
    }
    let (_bus, mut driver, mut clock) = rig(vec![], false);
    assert!(matches!(Ds1990::detect_type(&mut driver, &mut clock), Err(Error::NoPresence)));
}

#[test]
fn write_lock_transcript() {
    let (bus, mut driver, mut clock) = rig(vec![Slave::new(Kind::Rw1990p1, BLANK)], false);
    assert!(Ds1990::set_write_lock(&mut driver, &mut clock, Ds1990Type::Rw1990p1, true).unwrap());
    let mut expected = reset_frame(0, ANSWERED);
    expected.extend(write_bytes(&[0xD1], false));
    expected.extend(write_slot(false));
    expected.push(Op::Delay(10000));
    expected.extend(reset_frame(0, ANSWERED));
    expected.extend(write_bytes(&[0xB1], false));
    expected.extend(read_bytes(&[0xFE]));
    assert_eq!(taken(&bus), expected);
    assert!(!Ds1990::set_write_lock(&mut driver, &mut clock, Ds1990Type::Rw1990p1, false).unwrap());

    let (bus, mut driver, mut clock) = rig(vec![Slave::new(Kind::Rw1990p2, BLANK)], false);
    assert!(Ds1990::set_write_lock(&mut driver, &mut clock, Ds1990Type::Rw1990p2, true).unwrap());
    let mut expected = reset_frame(0, ANSWERED);
    expected.extend(write_bytes(&[0x1D], false));
    expected.extend(write_slot(true));
    expected.push(Op::Delay(10000));
    expected.extend(reset_frame(0, ANSWERED));
    expected.extend(write_bytes(&[0x1E], false));
    expected.extend(read_bytes(&[0xFE]));
    assert_eq!(taken(&bus), expected);

    let (bus, mut driver, mut clock) = rig(vec![Slave::new(Kind::Tm01, BLANK)], false);
    assert!(Ds1990::set_write_lock(&mut driver, &mut clock, Ds1990Type::Tm01, true).unwrap());
    let log = taken(&bus);
    let frame = reset_frame(0, ANSWERED).len();
    assert_eq!(log[frame..frame + 34], write_bytes(&[0xC1], false)[..]);

    for kind in [Ds1990Type::Ds1990, Ds1990Type::Tm2004, Ds1990Type::Cyfral, Ds1990Type::Metacom] {
        // Neither the line nor the delay is called.
        let (calls, now) = (bus.borrow().calls, bus.borrow().now);
        assert!(matches!(
            Ds1990::set_write_lock(&mut driver, &mut clock, kind, true),
            Err(Error::NotSupport)
        ));
        assert_eq!(taken(&bus), vec![]);
        assert_eq!((bus.borrow().calls, bus.borrow().now), (calls, now));
    }
}

#[test]
fn write_a_rom_to_a_clone() {
    let rom = with_crc([0x01, 0x22, 0x8f, 0xf9, 0x08, 0x00, 0x01, 0]);
    let token = Ds1990::from_address::<Broken>(Address::from(rom)).unwrap();
    for (kind, of_kind, invert) in [
        (Kind::Rw1990p1, Ds1990Type::Rw1990p1, true),
        (Kind::Rw1990p2, Ds1990Type::Rw1990p2, false),
        (Kind::Tm01, Ds1990Type::Tm01, true),
    ] {
        let (bus, mut driver, mut clock) = rig(vec![Slave::new(kind, BLANK)], false);
        token.write_address(&mut driver, &mut clock, of_kind).unwrap();
        assert_eq!(bus.borrow().slaves[0].rom, rom);

        // Between taking the lock off and setting it again the ROM goes out.
        let log = taken(&bus);
        let frame = reset_frame(0, ANSWERED);
        let lock = 2 * frame.len() + 2 * 34 + 4 + 1 + 8 * 6;
        let mut body = frame.clone();
        body.extend(write_bytes(&[0xD5], false));
        for byte in rom {
            body.extend(programming_byte(byte, invert));
        }
        assert_eq!(log.len(), 2 * lock + body.len());
        assert_eq!(log[lock..lock + body.len()], body[..]);

        assert_eq!(Address::get_single(&mut driver, &mut clock).unwrap().raw, rom);
    }
}

#[test]
fn write_a_rom_to_a_tm2004() {
    let rom = with_crc([0x01, 0x22, 0x8f, 0xf9, 0x08, 0x00, 0x01, 0]);
    let token = Ds1990::from_address::<Broken>(Address::from(rom)).unwrap();
    let (bus, mut driver, mut clock) = rig(vec![Slave::new(Kind::Tm2004, BLANK)], false);
    token.write_address(&mut driver, &mut clock, Ds1990Type::Tm2004).unwrap();
    assert_eq!(bus.borrow().slaves[0].rom, rom);
    let log = taken(&bus);
    let mut expected = Vec::new();
    for i in 0..8u8 {
        let request = [0x3C, i, 0x00, rom[i as usize]];
        expected.extend(reset_frame(0, ANSWERED));
        expected.extend(write_bytes(&request, false));
        expected.extend(read_bytes(&[compute_partial_crc8(0, &request)]));
    }
    expected.extend([
        Op::SetHigh,
        Op::Delay(600),
        Op::SetLow,
        Op::Delay(6),
        Op::SetHigh,
        Op::Delay(50000),
    ]);
    assert_eq!(log, expected);

    let (bus, mut driver, mut clock) = rig(vec![Slave::new(Kind::Tm2004, BLANK)], false);
    token.write_address_tm2004(&mut driver, &mut clock).unwrap();
    assert_eq!(bus.borrow().slaves[0].rom, rom);

    // An echo that is not the CRC of the request stops the writing there.
    let mut slave = Slave::new(Kind::Tm2004, BLANK);
    slave.spoil_echo = true;
    let (bus, mut driver, mut clock) = rig(vec![slave], false);
    let request = [0x3C, 5, 0x00, rom[5]];
    let sum = compute_partial_crc8(0, &request);
    match token.write_address(&mut driver, &mut clock, Ds1990Type::Tm2004) {
        Err(Error::CrcMismatch(computed, received)) => {
            assert_eq!(computed, sum);
            assert_eq!(received, sum ^ 0x10);
        }
        _ => panic!("a spoiled echo went through"),
    }
    assert_eq!(bus.borrow().slaves[0].rom[..5], rom[..5]);
    assert_eq!(bus.borrow().slaves[0].rom[5..], BLANK[5..]);
    assert_eq!(*taken(&bus).last().unwrap(), Op::Delay(61));
}

#[test]
fn kinds_that_cannot_be_written() {
    let token = Ds1990::default();
    assert_eq!(token.address().raw, [0x01, 0, 0, 0, 0, 0, 0, 0x01]);
    assert_eq!(Ds1990::FAMILY_CODE, 0x01);
    let (bus, mut driver, mut clock) = rig(vec![Slave::new(Kind::Token, BLANK)], false);
    for kind in [Ds1990Type::Ds1990, Ds1990Type::Cyfral, Ds1990Type::Metacom] {
        assert!(matches!(
            token.write_address(&mut driver, &mut clock, kind),
            Err(Error::NotSupport)
        ));
        assert!(matches!(
            token.write_address_rw1990(&mut driver, &mut clock, kind),
            Err(Error::NotSupport)
        ));
    }
    assert!(matches!(
        token.write_address_rw1990(&mut driver, &mut clock, Ds1990Type::Tm2004),
        Err(Error::NotSupport)
    ));
    assert_eq!(taken(&bus), vec![]);
    assert_eq!(bus.borrow().slaves[0].rom, BLANK);
}

#[test]
fn programming_slots() {
    let (bus, mut driver, mut clock) = rig(vec![], false);
    driver.write_bytes_rw(&mut clock, &[0xA5, 0x0f], false).unwrap();
    let mut expected = programming_byte(0xA5, false);
    expected.extend(programming_byte(0x0f, false));
    assert_eq!(taken(&bus), expected);
    driver.write_bytes_rw(&mut clock, &[0xA5], true).unwrap();
    assert_eq!(taken(&bus), programming_byte(0x5A, false));
    assert_eq!(programming_byte(0xA5, true), programming_byte(0x5A, false));
}

// ---------------------------------------------------------------------
// A line whose levels are turned over.
// ---------------------------------------------------------------------

#[test]
fn inverted_line() {
    let rom = with_crc([0x28, 0x10, 0x20, 0x30, 0x40, 0x50, 0x60, 0]);
    let bus = Bus::new(vec![Slave::new(Kind::Thermometer, rom)]);
    let mut driver = Driver::new(Inverted(TurnedWire(Wire(bus.clone()))), false);
    let mut clock = Clock(bus.clone());
    assert!(driver.reset(&mut clock).is_ok());
    // What the turned line reports as low is seen as high, and so on.
    let log = taken(&bus);
    assert_eq!(log[0], Op::SetHigh);
    assert_eq!(log[1], Op::IsHigh(true));
    assert_eq!(log[2], Op::SetLow);
    assert_eq!(log, reset_frame(0, ANSWERED));
    assert_eq!(Address::get_single(&mut driver, &mut clock).unwrap().raw, rom);

    let mut wire = Inverted(Wire(bus.clone()));
    taken(&bus);
    wire.set_low().unwrap();
    wire.set_high().unwrap();
    assert_eq!(taken(&bus), vec![Op::SetHigh, Op::SetLow]);
    assert_eq!(wire.is_high().unwrap(), true);
    assert_eq!(wire.is_low().unwrap(), false);
    assert_eq!(taken(&bus), vec![Op::IsLow(true), Op::IsHigh(false)]);
    let next = bus.borrow().calls + 1;
    bus.borrow_mut().fail_at = Some(next);
    assert!(wire.is_high().is_err());
}
