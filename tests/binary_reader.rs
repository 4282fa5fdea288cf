use ihex::binary_reader::{BinaryReader, DecodeError, StartAddress};
use ihex::reader::Reader;
use ihex::record::ReaderError;

fn converter(text: &str) -> BinaryReader {
    BinaryReader::new(Reader::new(text.as_bytes()))
}

#[test]
fn test_binary_reader() {
    let input = ":020000040800F2\n:10000000F0FF001029BA05086D440508DDE6010877\n";

    let mut binary_reader = converter(input);
    let mut buf = [0; 12];

    match binary_reader.read(&mut buf) {
        Ok(n) => {
            assert_eq!(n, 12);
            assert_eq!(
                &buf[..],
                &[0xf0, 0xff, 0x00, 0x10, 0x29, 0xba, 0x05, 0x08, 0x6d, 0x44, 0x05, 0x08]
            );
        }
        Err(e) => panic!("unexpected error: {:?}", e),
    }

    match binary_reader.read(&mut buf) {
        Ok(n) => {
            assert_eq!(n, 4);
            assert_eq!(&buf[..n], &[0xdd, 0xe6, 0x01, 0x08]);
        }
        Err(e) => panic!("unexpected error: {:?}", e),
    }
}

#[test]
fn test_binary_reader_skip() {
    let input = ":020000040800F2\n:02000000F0FF0F\n:020000040801F1\n:02000000F0FF0F\n";

    let mut binary_reader = converter(input);
    let mut buf = [0; 12];

    match binary_reader.read(&mut buf) {
        Ok(n) => {
            assert_eq!(n, 12);
            assert_eq!(
                &buf[..],
                &[0xf0, 0xff, 0x0, 0x0, 0x0, 0x0, 0x0, 0x0, 0x0, 0x0, 0x0, 0x0]
            );
        }
        Err(e) => panic!("unexpected error: {:?}", e),
    }

    let mut huge_buf = [0; 65536 - 10];
    match binary_reader.read(&mut huge_buf) {
        Ok(n) => {
            assert_eq!(n, huge_buf.len());
            assert_eq!(&huge_buf[..8], &[0x0, 0x0, 0x0, 0x0, 0x0, 0x0, 0x0, 0x0]);
            assert_eq!(
                &huge_buf[huge_buf.len() - 8..],
                &[0x0, 0x0, 0x0, 0x0, 0x0, 0x0, 0xf0, 0xff]
            );
        }
        Err(e) => panic!("unexpected error: {:?}", e),
    }
}

fn read_all(text: &str, chunk: usize) -> Vec<u8> {
    let mut reader = converter(text);
    let mut out = Vec::new();
    let mut buf = vec![0u8; chunk];
    loop {
        let n = reader.read(&mut buf).unwrap();
        out.extend_from_slice(&buf[..n]);
        if n < chunk {
            return out;
        }
    }
}

const GAP_INPUT: &str = ":020000040800F2\n:02000000F0FF0F\n:020000040801F1\n:02000000F0FF0F\n";

#[test]
fn contiguous_records_concatenate() {
    let input = ":020000040800F2\n:10000000F0FF001029BA05086D440508DDE6010877\n:02001000AABB89\n";
    let out = read_all(input, 64);
    assert_eq!(
        out,
        vec![
            0xf0, 0xff, 0x00, 0x10, 0x29, 0xba, 0x05, 0x08, 0x6d, 0x44, 0x05, 0x08, 0xdd, 0xe6,
            0x01, 0x08, 0xaa, 0xbb
        ]
    );
}

#[test]
fn gap_is_filled_with_exact_zero_count() {
    let out = read_all(GAP_INPUT, 1000);
    assert_eq!(out.len(), 65538);
    assert_eq!(&out[..2], &[0xf0, 0xff]);
    assert!(out[2..65536].iter().all(|b| *b == 0));
    assert_eq!(&out[65536..], &[0xf0, 0xff]);
}

#[test]
fn chunk_size_does_not_change_output() {
    let whole = read_all(GAP_INPUT, 65538 + 5);
    assert_eq!(whole.len(), 65538);

    let mut reader = converter(GAP_INPUT);
    let mut first = vec![0u8; 12];
    let mut second = vec![0u8; 65526];
    assert_eq!(reader.read(&mut first).unwrap(), 12);
    assert_eq!(reader.read(&mut second).unwrap(), 65526);
    let mut split = first.clone();
    split.extend_from_slice(&second);
    assert_eq!(&split[..], &whole[..65538]);

    for chunk in [1usize, 7, 64, 4096] {
        assert_eq!(read_all(GAP_INPUT, chunk), whole);
    }
}

#[test]
fn end_of_file_closes_the_stream() {
    let input = ":02000000F0FF0F\n:00000001FF\n:02000000AABB99\n";
    let mut reader = converter(input);
    let mut buf = [0u8; 8];
    assert_eq!(reader.read(&mut buf).unwrap(), 2);
    assert_eq!(&buf[..2], &[0xf0, 0xff]);
    for _ in 0..3 {
        assert_eq!(reader.read(&mut buf).unwrap(), 0);
    }
}

#[test]
fn exhausted_records_close_the_stream() {
    let mut reader = converter(":02000000F0FF0F\n");
    let mut buf = [0u8; 4];
    assert_eq!(reader.read(&mut buf).unwrap(), 2);
    assert_eq!(reader.read(&mut buf).unwrap(), 0);
    assert_eq!(reader.read(&mut buf).unwrap(), 0);
}

#[test]
fn empty_buffer_reads_nothing() {
    let mut reader = converter(":0400000508000000EF\n:02000000F0FF0F\n");
    let mut empty: [u8; 0] = [];
    assert_eq!(reader.read(&mut empty).unwrap(), 0);
    assert_eq!(reader.start_address(), None);
    let mut buf = [0u8; 4];
    assert_eq!(reader.read(&mut buf).unwrap(), 2);
    assert_eq!(&buf[..2], &[0xf0, 0xff]);
}

#[test]
fn start_linear_address_is_captured() {
    let mut reader = converter(":02000000F0FF0F\n:0400000508000000EF\n:00000001FF\n");
    assert_eq!(reader.start_address(), None);
    let mut buf = [0u8; 16];
    assert_eq!(reader.read(&mut buf).unwrap(), 2);
    assert_eq!(reader.start_address(), Some(StartAddress::Linear(0x0800_0000)));
}

#[test]
fn start_segment_address_is_captured() {
    let mut reader = converter(":0400000300003800C1\n");
    let mut buf = [0u8; 4];
    assert_eq!(reader.read(&mut buf).unwrap(), 0);
    assert_eq!(reader.start_address(), Some(StartAddress::Segment { cs: 0x0000, ip: 0x3800 }));
}

#[test]
fn no_start_record_leaves_none() {
    let mut reader = converter(GAP_INPUT);
    let mut buf = vec![0u8; 70000];
    assert_eq!(reader.read(&mut buf).unwrap(), 65538);
    assert_eq!(reader.start_address(), None);
}

#[test]
fn invalid_line_fails_the_next_read() {
    let mut reader = converter(":02000000F0FF0F\n:02000000F0FF00\n");
    let mut buf = [0u8; 8];
    assert_eq!(
        reader.read(&mut buf),
        Err(DecodeError::Producer(ReaderError::ChecksumMismatch))
    );
}

#[test]
fn bytes_before_an_error_fill_a_small_buffer() {
    let mut reader = converter(":02000000F0FF0F\nnot hex\n");
    let mut buf = [0u8; 2];
    assert_eq!(reader.read(&mut buf).unwrap(), 2);
    assert_eq!(
        reader.read(&mut buf),
        Err(DecodeError::Producer(ReaderError::MissingStartCode))
    );
}

#[test]
fn address_below_base_is_refused() {
    let mut reader = converter(":020000040800F2\n:02000000F0FF0F\n:020000040700F3\n:02000000F0FF0F\n");
    let mut buf = [0u8; 8];
    assert_eq!(reader.read(&mut buf), Err(DecodeError::AddressBelowBase));
}

#[test]
fn address_past_four_gib_is_refused() {
    let input = ":020000040000FA\n:02000000F0FF0F\n:02000004FFFFFC\n:02FFFF00F0FF11\n";
    let mut reader = converter(input);
    let mut buf = [0u8; 12];
    assert_eq!(reader.read(&mut buf), Err(DecodeError::AddressOverflow));
}

#[test]
fn segment_address_moves_relative_to_base() {
    let input = ":020000021000EC\n:02000000F0FF0F\n:020000021001EB\n:02000000AABB99\n";
    let out = read_all(input, 32);
    assert_eq!(out.len(), 18);
    assert_eq!(&out[..2], &[0xf0, 0xff]);
    assert!(out[2..16].iter().all(|b| *b == 0));
    assert_eq!(&out[16..], &[0xaa, 0xbb]);
}

#[test]
fn start_address_known_after_a_full_read() {
    let mut reader = converter(":0400000508000000EF\n:02000000AABB99\n");
    let mut buf = [0u8; 1];
    assert_eq!(reader.read(&mut buf).unwrap(), 1);
    assert_eq!(buf, [0xaa]);
    assert_eq!(reader.start_address(), Some(StartAddress::Linear(0x0800_0000)));
}

#[test]
fn start_record_after_a_full_read_is_not_yet_taken_in() {
    let mut reader = converter(":02000000AABB99\n:0400000508000000EF\n");
    let mut buf = [0u8; 2];
    assert_eq!(reader.read(&mut buf).unwrap(), 2);
    assert_eq!(reader.start_address(), None);
    assert_eq!(reader.read(&mut buf).unwrap(), 0);
    assert_eq!(reader.start_address(), Some(StartAddress::Linear(0x0800_0000)));
}

#[test]
fn no_start_record_leaves_none_mid_stream() {
    let mut reader = converter(GAP_INPUT);
    let mut buf = [0u8; 12];
    assert_eq!(reader.read(&mut buf).unwrap(), 12);
    assert_eq!(reader.start_address(), None);
}
