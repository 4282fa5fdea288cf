use ihex::reader::Reader;
use ihex::record::{parse_record, ReaderError, Record};

#[test]
fn parses_data_record() {
    assert_eq!(
        parse_record(b":0300300002337A1E"),
        Ok(Record::Data { offset: 0x0030, value: vec![0x02, 0x33, 0x7a] })
    );
}

#[test]
fn parses_lower_case_digits() {
    assert_eq!(
        parse_record(b":02000000f0ff0f"),
        Ok(Record::Data { offset: 0, value: vec![0xf0, 0xff] })
    );
}

#[test]
fn parses_address_and_start_records() {
    assert_eq!(parse_record(b":00000001FF"), Ok(Record::EndOfFile));
    assert_eq!(parse_record(b":020000021200EA"), Ok(Record::ExtendedSegmentAddress(0x1200)));
    assert_eq!(parse_record(b":020000040800F2"), Ok(Record::ExtendedLinearAddress(0x0800)));
    assert_eq!(
        parse_record(b":0400000300003800C1"),
        Ok(Record::StartSegmentAddress { cs: 0x0000, ip: 0x3800 })
    );
    assert_eq!(parse_record(b":04000005000000CD2A"), Ok(Record::StartLinearAddress(0x000000cd)));
}

#[test]
fn reports_each_error() {
    assert_eq!(parse_record(b""), Err(ReaderError::MissingStartCode));
    assert_eq!(parse_record(b"00000001FF"), Err(ReaderError::MissingStartCode));
    assert_eq!(parse_record(b":0000000G01"), Err(ReaderError::InvalidCharacter));
    assert_eq!(parse_record(b":00000001F"), Err(ReaderError::OddDigitCount));
    assert_eq!(parse_record(b":01000001FF"), Err(ReaderError::InvalidLength));
    assert_eq!(parse_record(b":00000001"), Err(ReaderError::InvalidLength));
    assert_eq!(parse_record(b":00000001FE"), Err(ReaderError::ChecksumMismatch));
    assert_eq!(parse_record(b":00000006FA"), Err(ReaderError::UnsupportedRecordType));
    assert_eq!(parse_record(b":0100000100FE"), Err(ReaderError::InvalidLength));
}

#[test]
fn reader_hands_out_lines_in_order() {
    let mut reader = Reader::new(b":020000040800F2\r\n\n:00000001FF\n:zz");
    assert_eq!(reader.next(), Some(Ok(Record::ExtendedLinearAddress(0x0800))));
    assert_eq!(reader.next(), Some(Ok(Record::EndOfFile)));
    assert_eq!(reader.next(), Some(Err(ReaderError::InvalidCharacter)));
    assert_eq!(reader.next(), None);
    assert_eq!(reader.next(), None);
}

#[test]
fn reader_from_records_keeps_order() {
    let mut reader = Reader::from_records(vec![
        Ok(Record::EndOfFile),
        Err(ReaderError::ChecksumMismatch),
    ]);
    assert_eq!(reader.next(), Some(Ok(Record::EndOfFile)));
    assert_eq!(reader.next(), Some(Err(ReaderError::ChecksumMismatch)));
    assert_eq!(reader.next(), None);
}
