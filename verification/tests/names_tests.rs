use kvs::names::{parse_segment_file_name, segment_file_name};

#[test]
fn name_of_generation_is_decimal_dot_log() {
    assert_eq!(segment_file_name(1), b"1.log".to_vec());
    assert_eq!(segment_file_name(42), b"42.log".to_vec());
    assert_eq!(segment_file_name(0), b"0.log".to_vec());
    assert_eq!(segment_file_name(18446744073709551615), b"18446744073709551615.log".to_vec());
}

#[test]
fn name_round_trip() {
    for g in [0u64, 1, 9, 10, 99, 100, 12345, u64::MAX] {
        assert_eq!(parse_segment_file_name(&segment_file_name(g)), Some(g));
    }
}

#[test]
fn non_segment_names_are_ignored() {
    assert_eq!(parse_segment_file_name(&b"1.txt".to_vec()), None);
    assert_eq!(parse_segment_file_name(&b".log".to_vec()), None);
    assert_eq!(parse_segment_file_name(&b"a.log".to_vec()), None);
    assert_eq!(parse_segment_file_name(&b"1a.log".to_vec()), None);
    assert_eq!(parse_segment_file_name(&b"".to_vec()), None);
}

#[test]
fn leading_zeros_are_not_canonical() {
    assert_eq!(parse_segment_file_name(&b"01.log".to_vec()), None);
    assert_eq!(parse_segment_file_name(&b"00.log".to_vec()), None);
    assert_eq!(parse_segment_file_name(&b"0.log".to_vec()), Some(0));
}

#[test]
fn values_beyond_64_bits_are_ignored() {
    assert_eq!(parse_segment_file_name(&b"18446744073709551616.log".to_vec()), None);
    assert_eq!(parse_segment_file_name(&b"99999999999999999999999.log".to_vec()), None);
}
