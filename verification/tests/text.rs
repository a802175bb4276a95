use ircd_core::number::unsigned;
use ircd_core::text::str_eq;

#[test]
fn same_text() {
    assert!(str_eq("", ""));
    assert!(str_eq("CAP", "CAP"));
    assert!(str_eq("żółw", "żółw"));
    assert!(!str_eq("CAP", "CAp"));
    assert!(!str_eq("CAP", "CA"));
    assert!(!str_eq("CA", "CAP"));
    assert!(!str_eq("", " "));
}

#[test]
fn numerals() {
    assert_eq!(unsigned("0", 255), Some(0));
    assert_eq!(unsigned("302", 0xffff), Some(302));
    assert_eq!(unsigned("+302", 0xffff), Some(302));
    assert_eq!(unsigned("000000000000000000000302", 0xffff), Some(302));
    assert_eq!(unsigned("255", 255), Some(255));
    assert_eq!(unsigned("256", 255), None);
    assert_eq!(unsigned("65535", 0xffff), Some(65535));
    assert_eq!(unsigned("65536", 0xffff), None);
    assert_eq!(unsigned("4294967295", u32::MAX), Some(u32::MAX));
    assert_eq!(unsigned("4294967296", u32::MAX), None);
    assert_eq!(unsigned("99999999999999999999999999", u32::MAX), None);
    assert_eq!(unsigned("", 255), None);
    assert_eq!(unsigned("+", 255), None);
    assert_eq!(unsigned("-", 255), None);
    assert_eq!(unsigned("-0", 255), None);
    assert_eq!(unsigned("++1", 255), None);
    assert_eq!(unsigned("1+", 255), None);
    assert_eq!(unsigned(" 1", 255), None);
    assert_eq!(unsigned("1 ", 255), None);
    assert_eq!(unsigned("0x10", 255), None);
    assert_eq!(unsigned("1e2", 255), None);
    assert_eq!(unsigned("١٢", 255), None);
    assert_eq!(unsigned("1é", 255), None);
}

#[test]
fn numerals_read_as_the_standard_library_reads_them() {
    let samples = [
        "", "+", "-", "0", "7", "+7", "-7", "007", "255", "256", "+255", "65535", "65536", "+065535",
        "99999", "1a", "a1", " 1", "1 ", "+-1", "٣", "12345678901234567890",
    ];
    for sample in samples {
        assert_eq!(unsigned(sample, 0xff).map(|n| n as u8), sample.parse::<u8>().ok(), "{:?}", sample);
        assert_eq!(
            unsigned(sample, 0xffff).map(|n| n as u16),
            sample.parse::<u16>().ok(),
            "{:?}",
            sample
        );
    }
}
