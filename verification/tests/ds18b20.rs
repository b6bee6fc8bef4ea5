use onewire::ds18b20::{split_temp, Command, Ds18b20, MeasureResolution};
use onewire::{Address, Device, Error, OpCode};

#[test]
fn test_temp_conv() {
    assert_eq!(split_temp(0x07d0), (125, 0));
    assert_eq!(split_temp(0x0550), (85, 0));
    assert_eq!(split_temp(0x0191), (25, 625)); // 25.0625
    assert_eq!(split_temp(0x00A2), (10, 1250)); // 10.125
    assert_eq!(split_temp(0x0008), (0, 5000)); // 0.5
    assert_eq!(split_temp(0x0000), (0, 0)); // 0
    assert_eq!(split_temp(0xfff8), (0, -5000)); // -0.5
    assert_eq!(split_temp(0xFF5E), (-10, -1250)); // -10.125
    assert_eq!(split_temp(0xFE6F), (-25, -625)); // -25.0625
    assert_eq!(split_temp(0xFC90), (-55, 0)); // -55
}

#[test]
fn split_temp_at_the_ends() {
    assert_eq!(split_temp(0x7fff), (2047, 9375));
    assert_eq!(split_temp(0x8000), (-2048, 0));
    assert_eq!(split_temp(0x8001), (-2047, -9375));
    assert_eq!(split_temp(0xffff), (0, -625));
    assert_eq!(split_temp(0x0001), (0, 625));
}

#[test]
fn split_temp_adds_up() {
    for raw in 0..=u16::MAX {
        let (whole, fraction) = split_temp(raw);
        let value = raw as i16 as i32;
        assert_eq!(whole as i32 * 10000 + fraction as i32, value * 625);
        assert!(whole as i32 * fraction as i32 >= 0);
        assert!(value >= 0 || (whole <= 0 && fraction <= 0));
        assert!(value <= 0 || (whole >= 0 && fraction >= 0));
        assert!(fraction.abs() < 10000);
    }
}

#[test]
fn resolution_times() {
    assert_eq!(MeasureResolution::TC8.time_ms(), 94);
    assert_eq!(MeasureResolution::TC4.time_ms(), 188);
    assert_eq!(MeasureResolution::TC2.time_ms(), 375);
    assert_eq!(MeasureResolution::TC.time_ms(), 750);
    assert_eq!(MeasureResolution::TC8.config(), 0b0001_1111);
    assert_eq!(MeasureResolution::TC4.config(), 0b0011_1111);
    assert_eq!(MeasureResolution::TC2.config(), 0b0101_1111);
    assert_eq!(MeasureResolution::TC.config(), 0b0111_1111);
}

#[test]
fn thermometer_commands() {
    assert_eq!(Command::Convert.op_code(), 0x44);
    assert_eq!(Command::WriteScratchpad.op_code(), 0x4e);
    assert_eq!(Command::ReadScratchpad.op_code(), 0xbe);
    assert_eq!(Command::CopyScratchpad.op_code(), 0x48);
    assert_eq!(Command::RecallE2.op_code(), 0xb8);
    assert_eq!(Command::ReadPowerSupply.op_code(), 0xb4);
}

#[test]
fn scratchpad_with_a_good_crc() {
    // 25.0625 degrees: the low byte comes first.
    let pad = [0x91, 0x01, 0x4b, 0x46, 0x7f, 0xff, 0x0f, 0x10, 0x25];
    assert_eq!(onewire::compute_partial_crc8(0, &pad[..8]), 0x25);
    match Ds18b20::decode_scratchpad::<()>(&pad) {
        Ok(raw) => assert_eq!(raw, 0x0191),
        Err(_) => panic!("a good scratchpad was refused"),
    }
    // The two bytes are not taken the other way round.
    let crc = onewire::compute_partial_crc8(0, &[2, 1, 0, 0, 0, 0, 0, 0]);
    let pad = [0x02, 0x01, 0, 0, 0, 0, 0, 0, crc];
    match Ds18b20::decode_scratchpad::<()>(&pad) {
        Ok(raw) => assert_eq!(raw, 0x0102),
        Err(_) => panic!("a good scratchpad was refused"),
    }
}

#[test]
fn scratchpad_with_a_bad_crc() {
    let pad = [0x91, 0x01, 0x4b, 0x46, 0x7f, 0xff, 0x0f, 0x10, 0x26];
    match Ds18b20::decode_scratchpad::<()>(&pad) {
        Err(Error::CrcMismatch(computed, received)) => {
            assert_eq!(computed, 0x25);
            assert_eq!(received, 0x26);
        }
        _ => panic!("a bad scratchpad went through"),
    }
}

#[test]
fn thermometer_from_address() {
    let good = Address::from([0x28, 1, 2, 3, 4, 5, 6, 7]);
    let device = Ds18b20::from_address::<()>(good).unwrap();
    assert_eq!(*device.address(), good);
    assert!(matches!(device.resolution, MeasureResolution::TC));
    assert_eq!(Address::from(device), good);
    assert_eq!(Ds18b20::FAMILY_CODE, 0x28);

    let other = Address::from([0x01, 1, 2, 3, 4, 5, 6, 7]);
    match Ds18b20::from_address::<()>(other) {
        Err(Error::FamilyCodeMismatch(expected, actual)) => {
            assert_eq!(expected, 0x28);
            assert_eq!(actual, 0x01);
        }
        _ => panic!("an address of another family went through"),
    }
    let forced = Ds18b20::from_address_unchecked(other);
    assert_eq!(*forced.address(), other);
}
