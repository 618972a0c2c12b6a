use bitcask::{Errors, LogRecord, LogRecordPos, LogRecordType, decode_log_record};

fn normal_record(key: &[u8], value: &[u8]) -> LogRecord {
    LogRecord::new(key.to_vec(), value.to_vec())
}

#[test]
fn encode_has_exact_layout() {
    // CRC32 (little-endian), type byte, two varint lengths, key, value
    let rec = normal_record(b"a", b"1");
    let enc = rec.encode();
    assert_eq!(enc, vec![35u8, 137, 4, 111, 1, 1, 1, 97, 49]);
}

#[test]
fn encode_decode_round_trip() {
    let rec = normal_record(b"key-a", b"some value");
    let enc = rec.encode();
    let read = decode_log_record(&enc, 0).expect("a fresh encoding must decode");
    assert_eq!(read.record.key, b"key-a".to_vec());
    assert_eq!(read.record.value, b"some value".to_vec());
    assert!(matches!(read.record.rec_type, LogRecordType::NORMAL));
    assert_eq!(read.size as usize, enc.len());
}

#[test]
fn empty_value_round_trips() {
    let rec = normal_record(b"k", b"");
    let enc = rec.encode();
    let read = decode_log_record(&enc, 0).unwrap();
    assert_eq!(read.record.key, b"k".to_vec());
    assert_eq!(read.record.value, Vec::<u8>::new());
}

#[test]
fn long_key_uses_multibyte_varint() {
    let key = vec![7u8; 300];
    let value = vec![9u8; 200];
    let rec = LogRecord::new(key.clone(), value.clone());
    let enc = rec.encode();
    // 4 crc + 1 type + 2 bytes for each length + payload
    assert_eq!(enc.len(), 4 + 1 + 2 + 2 + 300 + 200);
    let read = decode_log_record(&enc, 0).unwrap();
    assert_eq!(read.record.key, key);
    assert_eq!(read.record.value, value);
    assert_eq!(read.size as usize, enc.len());
}

#[test]
fn tombstone_round_trips() {
    let rec = LogRecord { key: b"gone".to_vec(), value: Vec::new(), rec_type: LogRecordType::DELETED };
    let enc = rec.encode();
    let read = decode_log_record(&enc, 0).unwrap();
    assert!(matches!(read.record.rec_type, LogRecordType::DELETED));
    assert_eq!(read.record.key, b"gone".to_vec());
}

#[test]
fn decode_at_end_is_eof() {
    let enc = normal_record(b"a", b"b").encode();
    let n = enc.len() as u64;
    assert_eq!(decode_log_record(&enc, n).unwrap_err(), Errors::ReadDataFileEOF);
    assert_eq!(decode_log_record(&Vec::new(), 0).unwrap_err(), Errors::ReadDataFileEOF);
}

#[test]
fn decode_detects_corruption() {
    let mut enc = normal_record(b"abc", b"defgh").encode();
    let mid = enc.len() - 2;
    enc[mid] ^= 0x40;
    assert_eq!(decode_log_record(&enc, 0).unwrap_err(), Errors::FailedToReadFromDataFile);
}

#[test]
fn decode_truncated_record_fails() {
    let mut enc = normal_record(b"abc", b"defgh").encode();
    enc.truncate(enc.len() - 1);
    assert_eq!(decode_log_record(&enc, 0).unwrap_err(), Errors::FailedToReadFromDataFile);
}

#[test]
fn positions_expose_their_parts() {
    let pos = LogRecordPos::new(3, 77);
    assert_eq!(pos.get_file_id(), 3);
    assert_eq!(pos.get_offset(), 77);
}

#[test]
fn varint_boundary_lengths() {
    for n in [127usize, 128, 129] {
        let key = vec![b'x'; n];
        let rec = LogRecord::new(key.clone(), b"v".to_vec());
        let enc = rec.encode();
        let klen_bytes = if n < 128 { 1 } else { 2 };
        assert_eq!(enc.len(), 4 + 1 + klen_bytes + 1 + n + 1);
        let read = decode_log_record(&enc, 0).unwrap();
        assert_eq!(read.record.key, key);
    }
}

#[test]
fn records_decode_back_to_back() {
    let first = LogRecord::new(b"one".to_vec(), b"1".to_vec()).encode();
    let second = LogRecord::new(b"two".to_vec(), b"22".to_vec()).encode();
    let mut buf = first.clone();
    buf.extend_from_slice(&second);
    let r1 = decode_log_record(&buf, 0).unwrap();
    assert_eq!(r1.size as usize, first.len());
    let r2 = decode_log_record(&buf, r1.size).unwrap();
    assert_eq!(r2.record.key, b"two".to_vec());
    assert_eq!(r2.size as usize, second.len());
}
