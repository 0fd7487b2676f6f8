use timeloop::{calculate_os_frequency, parse_page_faults};

const STAT: &[u8] = b"4242 (prog) S 1 4242 4242 0 -1 4194560 150 0 7 0 12 3 0 0 20 0 1 0 100 1000 200";

#[test]
fn page_faults_are_minor_plus_major() {
    assert_eq!(parse_page_faults(STAT), Some(157));
}

#[test]
fn page_faults_in_zero_padded_buffer() {
    let mut buf = [0u8; 0x400];
    buf[..STAT.len()].copy_from_slice(STAT);
    assert_eq!(parse_page_faults(&buf), Some(157));
}

#[test]
fn page_faults_need_both_fields() {
    assert_eq!(parse_page_faults(b"1 (a) S 1 1 1 0 -1 0 5 0"), None);
    assert_eq!(parse_page_faults(b""), None);
    assert_eq!(parse_page_faults(b"1 (a) S 1 1 1 0 -1 0 5 0 8"), Some(13));
}

#[test]
fn page_faults_reject_non_numbers() {
    assert_eq!(parse_page_faults(b"1 (a) S 1 1 1 0 -1 0 5x 0 8 0"), None);
    assert_eq!(parse_page_faults(b"1 (a) S 1 1 1 0 -1 0  0 8 0"), None);
    assert_eq!(parse_page_faults(b"1 (a) S 1 1 1 0 -1 0 5 0 -8 0"), None);
}

#[test]
fn page_faults_reject_overflow() {
    assert_eq!(
        parse_page_faults(b"1 (a) S 1 1 1 0 -1 0 18446744073709551615 0 0 0"),
        Some(u64::MAX)
    );
    assert_eq!(parse_page_faults(b"1 (a) S 1 1 1 0 -1 0 18446744073709551616 0 0 0"), None);
    assert_eq!(parse_page_faults(b"1 (a) S 1 1 1 0 -1 0 18446744073709551615 0 1 0"), None);
}

#[test]
fn frequency_from_calibration() {
    assert_eq!(calculate_os_frequency(1_000, 300_001_000, 100_000_000), Some(3_000_000_000));
    assert_eq!(calculate_os_frequency(u64::MAX - 99, 200, 100), Some(3_000_000_000));
    assert_eq!(calculate_os_frequency(0, 5, 0), None);
    assert_eq!(calculate_os_frequency(0, u64::MAX, 1), None);
}
