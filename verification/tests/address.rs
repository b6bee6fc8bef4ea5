use onewire::address::{hex_to_u8, Address, AddressError};
use onewire::compute_partial_crc8;
use onewire::Error;

#[test]
fn parse_address() {
    let addr: Address = "01228ff908000168".parse().unwrap();

    assert_eq!(
        addr,
        Address::from([0x01, 0x22, 0x8f, 0xf9, 0x08, 0x00, 0x01, 0x68])
    );
}

#[test]
fn parse_address_space_separated() {
    let addr: Address = "01 22 8f f9 08 00 01 68".parse().unwrap();

    assert_eq!(
        addr,
        Address::from([0x01, 0x22, 0x8f, 0xf9, 0x08, 0x00, 0x01, 0x68])
    );
}

#[test]
fn parse_address_colon_separated() {
    let addr: Address = "01:22:8f:f9:08:00:01:68".parse().unwrap();

    assert_eq!(
        addr,
        Address::from([0x01, 0x22, 0x8f, 0xf9, 0x08, 0x00, 0x01, 0x68])
    );
}

#[test]
fn parse_ignores_case_and_unicode_space() {
    let expected = Address::from([0xab, 0xcd, 0xef, 0x01, 0x23, 0x45, 0x67, 0x89]);
    assert_eq!("ABCDEF0123456789".parse::<Address>().unwrap(), expected);
    assert_eq!("aBcDeF0123456789".parse::<Address>().unwrap(), expected);
    assert_eq!("ab\tcd\u{a0}ef\u{2003}01:23 45\n67:89".parse::<Address>().unwrap(), expected);
    assert_eq!(" a b c d e f 0 1 2 3 4 5 6 7 8 9 ".parse::<Address>().unwrap(), expected);
}

#[test]
fn parse_takes_sixteen_digits_and_no_more() {
    assert!(matches!("01228ff908000168ff".parse::<Address>(), Err(AddressError::Invalid)));
    assert!(matches!("01228ff9080001680".parse::<Address>(), Err(AddressError::Invalid)));
    assert!(matches!("01228ff908000168zz".parse::<Address>(), Err(AddressError::Invalid)));
    assert!(matches!("01:22:8f:f9:08:00:01:68:00".parse::<Address>(), Err(AddressError::Invalid)));
    assert!(matches!("01228ff908000168 0".parse::<Address>(), Err(AddressError::Invalid)));
    // Separators may follow the last digit.
    let expected = Address::from([0x01, 0x22, 0x8f, 0xf9, 0x08, 0x00, 0x01, 0x68]);
    assert_eq!("01228ff908000168 ".parse::<Address>().unwrap(), expected);
    assert_eq!(" 01:22:8f:f9:08:00:01:68:\n".parse::<Address>().unwrap(), expected);
    // A pair that is no pair of digits is found before the length is.
    assert!(matches!("0g228ff908000168ff".parse::<Address>(), Err(AddressError::Invalid)));
}

#[test]
fn parse_not_enough() {
    assert!(matches!("".parse::<Address>(), Err(AddressError::NotEnough)));
    assert!(matches!("0".parse::<Address>(), Err(AddressError::NotEnough)));
    assert!(matches!("01228ff90800016".parse::<Address>(), Err(AddressError::NotEnough)));
    assert!(matches!("01:22:8f:f9:08:00:01".parse::<Address>(), Err(AddressError::NotEnough)));
    assert!(matches!(" : : ".parse::<Address>(), Err(AddressError::NotEnough)));
    // A lone last character is not looked at.
    assert!(matches!("z".parse::<Address>(), Err(AddressError::NotEnough)));
    assert!(matches!("0122z".parse::<Address>(), Err(AddressError::NotEnough)));
}

#[test]
fn parse_invalid() {
    assert!(matches!("zz".parse::<Address>(), Err(AddressError::Invalid)));
    assert!(matches!("0z".parse::<Address>(), Err(AddressError::Invalid)));
    assert!(matches!("01228ff90800016g".parse::<Address>(), Err(AddressError::Invalid)));
    assert!(matches!("01-22".parse::<Address>(), Err(AddressError::Invalid)));
    assert!(matches!("0x01228ff908000168".parse::<Address>(), Err(AddressError::Invalid)));
    // The pair that fails first decides.
    assert!(matches!("01g".parse::<Address>(), Err(AddressError::NotEnough)));
    assert!(matches!("0g1".parse::<Address>(), Err(AddressError::Invalid)));
}

#[test]
fn format_address() {
    let addr = Address::from([0x01, 0x22, 0x8f, 0xf9, 0x08, 0x00, 0x01, 0x68]);
    assert_eq!(addr.to_string(), "01:22:8f:f9:08:00:01:68");
    assert_eq!(Address::default().to_string(), "00:00:00:00:00:00:00:00");
    assert_eq!(
        Address::from([0xff, 0xa0, 0x0a, 0x9b, 0xc4, 0xde, 0x5f, 0x10]).to_string(),
        "ff:a0:0a:9b:c4:de:5f:10"
    );
}

#[test]
fn format_then_parse_gives_the_address() {
    let samples = [
        [0x01, 0x22, 0x8f, 0xf9, 0x08, 0x00, 0x01, 0x68],
        [0x00, 0x00, 0x00, 0x00, 0x00, 0x00, 0x00, 0x00],
        [0xff, 0xff, 0xff, 0xff, 0xff, 0xff, 0xff, 0xff],
        [0x28, 0xa1, 0xb2, 0xc3, 0xd4, 0xe5, 0xf6, 0x07],
    ];
    for raw in samples {
        let addr = Address::from(raw);
        assert_eq!(addr.to_string().parse::<Address>().unwrap(), addr);
    }
}

#[test]
fn address_bytes() {
    let raw = [0x28, 0x01, 0x02, 0x03, 0x04, 0x05, 0x06, 0x07];
    let mut addr = Address::from(raw);
    assert_eq!(addr.family_code(), 0x28);
    assert_eq!(addr.as_ref(), &raw[..]);
    assert_eq!(addr[3], 0x03);
    let back: [u8; 8] = addr.into();
    assert_eq!(back, raw);
    addr.as_mut()[0] = 0x10;
    assert_eq!(addr.family_code(), 0x10);
    assert_ne!(addr, Address::from(raw));
    // The same through the traits of the standard library.
    let mut other = Address::from(raw);
    other[7] = 0x70;
    assert_eq!(other.raw[7], 0x70);
    assert_eq!(AsRef::<[u8]>::as_ref(&other)[7], 0x70);
    AsMut::<[u8]>::as_mut(&mut other)[1] = 0x11;
    assert_eq!(other.raw, [0x28, 0x11, 0x02, 0x03, 0x04, 0x05, 0x06, 0x70]);
    let sum: u32 = other.iter().map(|byte| *byte as u32).sum();
    assert_eq!(sum, 0x28 + 0x11 + 2 + 3 + 4 + 5 + 6 + 0x70);
    assert_eq!(Address::BYTES, 8);
    assert_eq!(Address::BITS, 64);
    assert_eq!(Address::default(), Address::from([0; 8]));
}

#[test]
fn hex_digits() {
    assert_eq!(hex_to_u8('0'), Some(0));
    assert_eq!(hex_to_u8('9'), Some(9));
    assert_eq!(hex_to_u8('a'), Some(10));
    assert_eq!(hex_to_u8('f'), Some(15));
    assert_eq!(hex_to_u8('A'), Some(10));
    assert_eq!(hex_to_u8('F'), Some(15));
    assert_eq!(hex_to_u8('g'), None);
    assert_eq!(hex_to_u8('G'), None);
    assert_eq!(hex_to_u8(':'), None);
    assert_eq!(hex_to_u8('/'), None);
    assert_eq!(hex_to_u8('@'), None);
    assert_eq!(hex_to_u8('`'), None);
    assert_eq!(hex_to_u8('\u{ff11}'), None);
}

#[test]
fn crc8_of_a_rom() {
    assert_eq!(
        compute_partial_crc8(0, &[0x02, 0x1c, 0xb8, 0x01, 0x00, 0x00, 0x00]),
        0xa2
    );
    assert_eq!(
        compute_partial_crc8(0, &[0x01, 0x22, 0x8f, 0xf9, 0x08, 0x00, 0x01]),
        0xd8
    );
    assert_eq!(compute_partial_crc8(0, "123456789".as_bytes()), 0xa1);
    assert_eq!(compute_partial_crc8(0, &[]), 0);
    assert_eq!(compute_partial_crc8(0x5a, &[]), 0x5a);
    assert_eq!(compute_partial_crc8(0, &[0x01]), 0x5e);
    // A buffer followed by its own CRC sums to zero.
    assert_eq!(
        compute_partial_crc8(0, &[0x02, 0x1c, 0xb8, 0x01, 0x00, 0x00, 0x00, 0xa2]),
        0
    );
}

#[test]
fn crc8_piece_by_piece() {
    let data = [0x28u8, 0xff, 0x4b, 0x46, 0x7f, 0xff, 0x0c, 0x10, 0x33];
    let whole = compute_partial_crc8(0, &data);
    for cut in 0..=data.len() {
        let head = compute_partial_crc8(0, &data[..cut]);
        assert_eq!(compute_partial_crc8(head, &data[cut..]), whole);
    }
}

#[test]
fn address_crc8() {
    let addr = Address::from([0x02, 0x1c, 0xb8, 0x01, 0x00, 0x00, 0x00, 0xa2]);
    // The address sums to zero, so the payload alone decides.
    let payload = [0x91, 0x01, 0x4b, 0x46, 0x7f, 0xff, 0x0f, 0x10];
    let crc = compute_partial_crc8(0, &payload);
    assert_eq!(addr.compute_crc8(&payload), crc);
    assert!(addr.ensure_correct_crc8::<()>(&payload, crc).is_ok());
    match addr.ensure_correct_crc8::<()>(&payload, crc ^ 0x01) {
        Err(Error::CrcMismatch(computed, received)) => {
            assert_eq!(computed, crc);
            assert_eq!(received, crc ^ 0x01);
        }
        _ => panic!("a wrong checksum went through"),
    }
    let odd = Address::from([0x01, 0x22, 0x8f, 0xf9, 0x08, 0x00, 0x01, 0x69]);
    assert_eq!(
        odd.compute_crc8(&payload),
        compute_partial_crc8(compute_partial_crc8(0, &odd.raw), &payload)
    );
}

#[test]
fn white_space_is_what_unicode_says() {
    let listed = |c: char| {
        let n = c as u32;
        (0x09..=0x0d).contains(&n)
            || n == 0x20
            || n == 0x85
            || n == 0xa0
            || n == 0x1680
            || (0x2000..=0x200a).contains(&n)
            || n == 0x2028
            || n == 0x2029
            || n == 0x202f
            || n == 0x205f
            || n == 0x3000
    };
    let mut count = 0;
    for n in 0..=0x10ffffu32 {
        if let Some(c) = char::from_u32(n) {
            assert_eq!(c.is_whitespace(), listed(c), "at {:x}", n);
            if listed(c) {
                count += 1;
                // Each of them may stand between the digits of an address.
                let text = format!("01228ff9{}08000168", c);
                assert_eq!(
                    text.parse::<Address>().unwrap(),
                    Address::from([0x01, 0x22, 0x8f, 0xf9, 0x08, 0x00, 0x01, 0x68])
                );
            }
        }
    }
    assert_eq!(count, 25);
    // A zero-width space is no white space.
    assert!(matches!(
        "01228ff9\u{200b}08000168".parse::<Address>(),
        Err(AddressError::Invalid)
    ));
}
