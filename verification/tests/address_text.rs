use brazucascan::address::{ipv4_to_u32, u32_to_ipv4, Address, AddressRange};
use brazucascan::error::ScanError;

#[test]
fn packs_octets_most_significant_first() {
    assert_eq!(ipv4_to_u32([127, 0, 0, 1]), 0x7F00_0001);
    assert_eq!(ipv4_to_u32([10, 0, 0, 2]), 167_772_162);
    assert_eq!(ipv4_to_u32([0, 0, 0, 0]), 0);
    assert_eq!(ipv4_to_u32([255, 255, 255, 255]), u32::MAX);
    assert_eq!(ipv4_to_u32([1, 2, 3, 4]), 0x0102_0304);
}

#[test]
fn unpacks_number_into_octets() {
    assert_eq!(u32_to_ipv4(0x7F00_0001), [127, 0, 0, 1]);
    assert_eq!(u32_to_ipv4(0), [0, 0, 0, 0]);
    assert_eq!(u32_to_ipv4(u32::MAX), [255, 255, 255, 255]);
    assert_eq!(u32_to_ipv4(0xC0A8_01FE), [192, 168, 1, 254]);
}

#[test]
fn octets_and_number_round_trip() {
    let mut value: u32 = 0;
    for _ in 0..5000 {
        assert_eq!(ipv4_to_u32(u32_to_ipv4(value)), value);
        let address = Address::new(value);
        assert_eq!(Address::from_octets(address.octets()), address);
        value = value.wrapping_mul(1_664_525).wrapping_add(1_013_904_223);
    }
}

#[test]
fn writes_dotted_quad() {
    assert_eq!(Address::from_octets([127, 0, 0, 1]).to_text(), "127.0.0.1");
    assert_eq!(Address::new(0).to_text(), "0.0.0.0");
    assert_eq!(Address::new(u32::MAX).to_text(), "255.255.255.255");
    assert_eq!(Address::from_octets([10, 20, 30, 40]).to_text(), "10.20.30.40");
    assert_eq!(Address::from_octets([1, 100, 9, 99]).to_text(), "1.100.9.99");
}

#[test]
fn reads_dotted_quad() {
    assert_eq!(Address::parse("127.0.0.1"), Ok(Address::from_octets([127, 0, 0, 1])));
    assert_eq!(Address::parse("0.0.0.0"), Ok(Address::new(0)));
    assert_eq!(Address::parse("255.255.255.255"), Ok(Address::new(u32::MAX)));
    assert_eq!(Address::parse("10.0.0.2"), Ok(Address::new(167_772_162)));
    assert_eq!(Address::parse("192.168.1.254").map(|a| a.value), Ok(0xC0A8_01FE));
}

#[test]
fn refuses_what_is_no_dotted_quad() {
    let wrong = [
        "",
        ".",
        "...",
        "1",
        "1.2.3",
        "1.2.3.",
        ".1.2.3",
        "1.2.3.4.",
        "1.2.3.4.5",
        "1..2.3",
        "256.1.1.1",
        "1.1.1.256",
        "1.1.1.1000",
        "999.999.999.999",
        "01.2.3.4",
        "1.2.3.04",
        "1.2.3.00",
        "+1.2.3.4",
        "-1.2.3.4",
        " 1.2.3.4",
        "1.2.3.4 ",
        "1.2.3.4\n",
        "1. 2.3.4",
        "a.b.c.d",
        "1.2.3.x",
        "0x7f.0.0.1",
        "1,2,3,4",
        "::1",
        "localhost",
        "1.2.3.4é",
        "١.٢.٣.٤",
        "4294967296",
        "1.2.3.99999999999999999999999",
    ];
    for text in wrong {
        assert_eq!(Address::parse(text), Err(ScanError::InvalidAddress), "{:?}", text);
    }
}

#[test]
fn text_round_trip_on_a_sample() {
    let mut value: u32 = 0x9E37_79B9;
    for _ in 0..20000 {
        let address = Address::new(value);
        assert_eq!(Address::parse(&address.to_text()), Ok(address));
        value = value.wrapping_mul(1_664_525).wrapping_add(1_013_904_223);
    }
    for value in [0u32, 1, 255, 256, 65535, 65536, 0x00FF_FFFF, 0x0100_0000, u32::MAX - 1, u32::MAX]
    {
        let address = Address::new(value);
        assert_eq!(Address::parse(&address.to_text()), Ok(address));
    }
}

#[test]
fn accepted_text_is_written_back_unchanged() {
    for text in ["1.2.3.4", "0.0.0.0", "10.0.0.1", "255.0.255.0", "100.10.1.0"] {
        let address = Address::parse(text).unwrap();
        assert_eq!(address.to_text(), text);
    }
}

#[test]
fn addresses_are_ordered_as_numbers() {
    let low = Address::from_octets([9, 255, 255, 255]);
    let high = Address::from_octets([10, 0, 0, 0]);
    assert!(low < high);
    assert!(Address::new(0) < Address::new(u32::MAX));
    assert_eq!(Address::new(7), Address::new(7));
}

#[test]
fn address_range_counts_both_ends() {
    let range = AddressRange::new(Address::from_octets([10, 0, 0, 1]), Address::from_octets([10, 0, 0, 2]));
    assert_eq!(range.len(), 2);
    assert_eq!(range.first(), Address::from_octets([10, 0, 0, 1]));
    assert_eq!(range.last(), Address::from_octets([10, 0, 0, 2]));
    assert!(range.contains(Address::from_octets([10, 0, 0, 1])));
    assert!(range.contains(Address::from_octets([10, 0, 0, 2])));
    assert!(!range.contains(Address::from_octets([10, 0, 0, 0])));
    assert!(!range.contains(Address::from_octets([10, 0, 0, 3])));
    let whole = AddressRange::new(Address::new(0), Address::new(u32::MAX));
    assert_eq!(whole.len(), 4_294_967_296);
    let one = AddressRange::single(Address::new(5));
    assert_eq!(one.len(), 1);
    assert_eq!(one.first(), one.last());
}

#[test]
fn invalid_address_has_its_message() {
    assert_eq!(ScanError::InvalidAddress.message(), "IP inválido");
}
