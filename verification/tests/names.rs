use bitcask::data::file_name::{data_file_name, parse_data_file_name};

#[test]
fn names_have_ten_digits_and_a_suffix() {
    assert_eq!(data_file_name(0), b"0000000000.data".to_vec());
    assert_eq!(data_file_name(7), b"0000000007.data".to_vec());
    assert_eq!(data_file_name(1234), b"0000001234.data".to_vec());
    assert_eq!(data_file_name(u32::MAX), b"4294967295.data".to_vec());
}

#[test]
fn names_are_read_back_as_ids() {
    for id in [0u32, 1, 9, 10, 99, 100, 65_535, 1_000_000_000, u32::MAX - 1, u32::MAX] {
        assert_eq!(parse_data_file_name(&data_file_name(id)), Some(id));
    }
    assert_eq!(parse_data_file_name(b"0000000042.data"), Some(42));
}

#[test]
fn other_names_are_no_segments() {
    assert_eq!(parse_data_file_name(b""), None);
    assert_eq!(parse_data_file_name(b"42.data"), None);
    assert_eq!(parse_data_file_name(b"0000000042.dat"), None);
    assert_eq!(parse_data_file_name(b"0000000042.datb"), None);
    assert_eq!(parse_data_file_name(b"0000000042-data"), None);
    assert_eq!(parse_data_file_name(b"000000004a.data"), None);
    assert_eq!(parse_data_file_name(b" 000000042.data"), None);
    assert_eq!(parse_data_file_name(b"+000000042.data"), None);
    assert_eq!(parse_data_file_name(b"00000000042.data"), None);
    assert_eq!(parse_data_file_name(b"0000000042.data "), None);
    assert_eq!(parse_data_file_name(b"hint-index"), None);
}

#[test]
fn names_beyond_the_largest_id_are_no_segments() {
    assert_eq!(parse_data_file_name(b"4294967295.data"), Some(u32::MAX));
    assert_eq!(parse_data_file_name(b"4294967296.data"), None);
    assert_eq!(parse_data_file_name(b"9999999999.data"), None);
}
