use bitcask::data::log_record::{LogRecord, LogRecordType, RecordHeader};
use bitcask::error::Errors;
use bitcask::util::crc32::crc32;
use bitcask::util::varint::{decode_varint, encode_varint};

fn varint_of(n: u64) -> Vec<u8> {
    let mut out = Vec::new();
    encode_varint(n, &mut out);
    out
}

fn record(key: &[u8], value: &[u8], record_type: LogRecordType) -> LogRecord {
    LogRecord { key: key.to_vec(), value: value.to_vec(), record_type }
}

#[test]
fn varint_encodes_small_values_in_one_byte() {
    assert_eq!(varint_of(0), vec![0x00]);
    assert_eq!(varint_of(1), vec![0x01]);
    assert_eq!(varint_of(127), vec![0x7f]);
}

#[test]
fn varint_encodes_larger_values_low_group_first() {
    assert_eq!(varint_of(128), vec![0x80, 0x01]);
    assert_eq!(varint_of(300), vec![0xac, 0x02]);
    assert_eq!(varint_of(16_384), vec![0x80, 0x80, 0x01]);
    assert_eq!(
        varint_of(u64::MAX),
        vec![0xff, 0xff, 0xff, 0xff, 0xff, 0xff, 0xff, 0xff, 0xff, 0x01]
    );
}

#[test]
fn varint_appends_behind_what_is_there() {
    let mut out = vec![9u8, 9];
    encode_varint(300, &mut out);
    assert_eq!(out, vec![9, 9, 0xac, 0x02]);
}

#[test]
fn varint_decodes_what_was_encoded() {
    for n in [0u64, 1, 127, 128, 255, 300, 65_535, 1 << 32, u64::MAX - 1, u64::MAX] {
        let bytes = varint_of(n);
        assert_eq!(decode_varint(&bytes), Some((n, bytes.len())));
    }
}

#[test]
fn varint_decoding_stops_at_the_last_group() {
    assert_eq!(decode_varint(&[0xac, 0x02, 0xff, 0xff]), Some((300, 2)));
    assert_eq!(decode_varint(&[0x05, 0x80]), Some((5, 1)));
}

#[test]
fn varint_decoding_takes_padded_encodings() {
    assert_eq!(decode_varint(&[0x80, 0x00]), Some((0, 2)));
}

#[test]
fn varint_decoding_fails_on_empty_input() {
    assert_eq!(decode_varint(&[]), None);
}

#[test]
fn varint_decoding_fails_where_the_encoding_does_not_end() {
    assert_eq!(decode_varint(&[0x80]), None);
    assert_eq!(decode_varint(&[0xff, 0xff, 0xff]), None);
}

#[test]
fn varint_decoding_fails_beyond_ten_bytes() {
    let bytes = [0x80u8, 0x80, 0x80, 0x80, 0x80, 0x80, 0x80, 0x80, 0x80, 0x80, 0x00];
    assert_eq!(decode_varint(&bytes), None);
}

#[test]
fn varint_decoding_fails_on_values_beyond_64_bits() {
    let bytes = [0xffu8, 0xff, 0xff, 0xff, 0xff, 0xff, 0xff, 0xff, 0xff, 0x02];
    assert_eq!(decode_varint(&bytes), None);
}

#[test]
fn crc32_of_known_inputs() {
    assert_eq!(crc32(b""), 0);
    assert_eq!(crc32(b"a"), 0xE8B7_BE43);
    assert_eq!(crc32(b"123456789"), 0xCBF4_3926);
}

#[test]
fn type_bytes() {
    assert_eq!(LogRecordType::NORMAL.to_byte(), 1);
    assert_eq!(LogRecordType::DELETED.to_byte(), 2);
    assert_eq!(LogRecordType::from_byte(1), Some(LogRecordType::NORMAL));
    assert_eq!(LogRecordType::from_byte(2), Some(LogRecordType::DELETED));
    assert_eq!(LogRecordType::from_byte(0), None);
    assert_eq!(LogRecordType::from_byte(3), None);
}

#[test]
fn encode_normal_record_exact_bytes() {
    let mut r = record(b"a", b"1", LogRecordType::NORMAL);
    assert_eq!(r.encode(), vec![1, 1, 1, 97, 49, 35, 137, 4, 111]);
    assert_eq!(r, record(b"a", b"1", LogRecordType::NORMAL));
}

#[test]
fn encode_tombstone_exact_bytes() {
    let mut r = record(b"a", b"", LogRecordType::DELETED);
    assert_eq!(r.encode(), vec![2, 1, 0, 97, 110, 44, 58, 176]);
}

#[test]
fn encode_longer_record_exact_bytes() {
    let mut r = record(b"name", b"bitcask", LogRecordType::NORMAL);
    assert_eq!(
        r.encode(),
        vec![1, 4, 7, 110, 97, 109, 101, 98, 105, 116, 99, 97, 115, 107, 186, 47, 65, 112]
    );
}

#[test]
fn encode_uses_two_bytes_for_a_length_of_200() {
    let mut r = record(&[7u8; 200], b"v", LogRecordType::NORMAL);
    let bytes = r.encode();
    assert_eq!(&bytes[..4], &[1, 0xc8, 0x01, 1]);
    assert_eq!(bytes.len(), 1 + 2 + 1 + 200 + 1 + 4);
}

#[test]
fn decode_gives_back_what_was_encoded() {
    let cases = [
        record(b"a", b"1", LogRecordType::NORMAL),
        record(b"k", b"", LogRecordType::NORMAL),
        record(b"a", b"", LogRecordType::DELETED),
        record(b"", b"", LogRecordType::NORMAL),
        record(&[0u8; 300], &[255u8; 70_000], LogRecordType::NORMAL),
    ];
    for mut r in cases {
        let bytes = r.encode();
        assert_eq!(LogRecord::decode(&bytes), Ok((r, bytes.len())));
    }
}

#[test]
fn decode_leaves_what_follows_the_record() {
    let mut first = record(b"a", b"1", LogRecordType::NORMAL);
    let mut second = record(b"b", b"22", LogRecordType::NORMAL);
    let mut bytes = first.encode();
    bytes.extend_from_slice(&second.encode());
    assert_eq!(LogRecord::decode(&bytes), Ok((first, 9)));
    assert_eq!(LogRecord::decode(&bytes[9..]), Ok((second, 10)));
}

#[test]
fn decode_fails_on_a_damaged_checksum() {
    let bytes = record(b"a", b"1", LogRecordType::NORMAL).encode();
    for at in 5..9 {
        let mut damaged = bytes.clone();
        damaged[at] ^= 0x01;
        assert_eq!(LogRecord::decode(&damaged), Err(Errors::CorruptRecord));
    }
}

#[test]
fn decode_fails_on_a_damaged_payload() {
    let mut bytes = record(b"a", b"1", LogRecordType::NORMAL).encode();
    bytes[4] = b'2';
    assert_eq!(LogRecord::decode(&bytes), Err(Errors::CorruptRecord));
}

#[test]
fn decode_fails_on_a_torn_record() {
    let bytes = record(b"name", b"bitcask", LogRecordType::NORMAL).encode();
    for len in 0..bytes.len() {
        assert_eq!(LogRecord::decode(&bytes[..len]), Err(Errors::CorruptRecord));
    }
}

#[test]
fn decode_fails_on_an_unknown_type() {
    let mut bytes = record(b"a", b"1", LogRecordType::NORMAL).encode();
    bytes[0] = 0;
    assert_eq!(LogRecord::decode(&bytes), Err(Errors::CorruptRecord));
    bytes[0] = 3;
    assert_eq!(LogRecord::decode(&bytes), Err(Errors::CorruptRecord));
}

#[test]
fn decode_header_reads_type_and_lengths() {
    let bytes = record(&[7u8; 200], b"v", LogRecordType::DELETED).encode();
    assert_eq!(
        LogRecord::decode_header(&bytes),
        Some(RecordHeader {
            record_type: LogRecordType::DELETED,
            key_len: 200,
            value_len: 1,
            header_len: 4,
        })
    );
    assert_eq!(LogRecord::decode_header(&bytes[..2]), None);
    assert_eq!(LogRecord::decode_header(&[]), None);
}

#[test]
fn header_fit_counts_the_whole_record() {
    let header = RecordHeader {
        record_type: LogRecordType::NORMAL,
        key_len: 4,
        value_len: 7,
        header_len: 3,
    };
    assert_eq!(header.fit(18), Some(18));
    assert_eq!(header.fit(100), Some(18));
    assert_eq!(header.fit(17), None);
    assert_eq!(header.fit(0), None);
    let huge = RecordHeader {
        record_type: LogRecordType::NORMAL,
        key_len: u64::MAX,
        value_len: u64::MAX,
        header_len: 21,
    };
    assert_eq!(huge.fit(u64::MAX), None);
}

#[test]
fn error_messages() {
    assert_eq!(Errors::FailedToReadFromDataFile.message(), "failed to read from data file");
    assert_eq!(Errors::FailedToWriteToDataFile.message(), "failed to write to data file");
    assert_eq!(Errors::FailedToSyncDataFile.message(), "failed to sync data file");
    assert_eq!(Errors::FailedToOpenDataFile.message(), "failed to open data file");
    assert_eq!(Errors::KeyIsEmpty.message(), "key is empty");
    assert_eq!(Errors::FailedToUpdataMemIndex.message(), "failed to update memory index");
    assert_eq!(Errors::KeyNotFound.message(), "key not found");
    assert_eq!(Errors::DataFileNotFound.message(), "data file not found");
    assert_eq!(Errors::CorruptRecord.message(), "corrupt record");
}
