//! The records of an Intel HEX file and the errors met while reading them.
use vstd::arithmetic::div_mod::lemma_add_mod_noop;
use vstd::prelude::*;

verus! {

/// Why a line of HEX text could not be turned into a record.
#[derive(Clone, Copy, Debug, PartialEq, Eq, Structural)]
pub enum ReaderError {
    /// The line does not begin with `:`.
    MissingStartCode,
    /// A character after `:` is not a hexadecimal digit.
    InvalidCharacter,
    /// The line holds an odd number of digits.
    OddDigitCount,
    /// The byte count does not match the bytes on the line, or the record
    /// type asks for another length.
    InvalidLength,
    /// The bytes of the line do not sum to zero modulo 256.
    ChecksumMismatch,
    /// The record type is not one of the six that Intel HEX defines.
    UnsupportedRecordType,
}

/// One decoded line of an Intel HEX file.
#[derive(Clone, Debug, PartialEq, Eq)]
pub enum Record {
    /// Bytes to place at the current base plus `offset`.
    Data { offset: u16, value: Vec<u8> },
    /// Explicit end of the file.
    EndOfFile,
    /// A base address of `segment << 4`.
    ExtendedSegmentAddress(u16),
    /// Entry point as segment and offset.
    StartSegmentAddress { cs: u16, ip: u16 },
    /// A base address of `high << 16`.
    ExtendedLinearAddress(u16),
    /// Entry point as a flat 32-bit address.
    StartLinearAddress(u32),
}

/// A record as a mathematical value.
pub ghost enum RecordView {
    Data { offset: u16, value: Seq<u8> },
    EndOfFile,
    ExtendedSegmentAddress(u16),
    StartSegmentAddress { cs: u16, ip: u16 },
    ExtendedLinearAddress(u16),
    StartLinearAddress(u32),
}

impl View for Record {
    type V = RecordView;

    open spec fn view(&self) -> RecordView {
        match self {
            Record::Data { offset, value } => RecordView::Data { offset: *offset, value: value@ },
            Record::EndOfFile => RecordView::EndOfFile,
            Record::ExtendedSegmentAddress(s) => RecordView::ExtendedSegmentAddress(*s),
            Record::StartSegmentAddress { cs, ip } => RecordView::StartSegmentAddress {
                cs: *cs,
                ip: *ip,
            },
            Record::ExtendedLinearAddress(h) => RecordView::ExtendedLinearAddress(*h),
            Record::StartLinearAddress(a) => RecordView::StartLinearAddress(*a),
        }
    }
}

/// What a record producer hands out at one step, as a mathematical value.
pub open spec fn item_view(item: Result<Record, ReaderError>) -> Result<RecordView, ReaderError> {
    match item {
        Ok(r) => Ok(r@),
        Err(e) => Err(e),
    }
}

/// The value of a hexadecimal digit, or -1 for any other byte.
pub open spec fn hex_value(c: u8) -> int {
    if 0x30 <= c <= 0x39 {
        c - 0x30
    } else if 0x61 <= c <= 0x66 {
        c - 0x61 + 10
    } else if 0x41 <= c <= 0x46 {
        c - 0x41 + 10
    } else {
        -1
    }
}

/// The bytes that a run of hexadecimal digits spells, two digits each.
pub open spec fn decode_pairs(d: Seq<u8>) -> Seq<u8> {
    Seq::new(
        (d.len() / 2) as nat,
        |i: int| (hex_value(d[2 * i]) * 16 + hex_value(d[2 * i + 1])) as u8,
    )
}

/// The sum of the bytes.
pub open spec fn byte_sum(b: Seq<u8>) -> int
    decreases b.len(),
{
    if b.len() == 0 {
        0
    } else {
        byte_sum(b.drop_last()) + b.last()
    }
}

/// A big-endian 16-bit value.
pub open spec fn be16(hi: u8, lo: u8) -> u16 {
    (hi * 256 + lo) as u16
}

/// The record of a given type, address field and data, when the data has the
/// length that the type asks for.
pub open spec fn record_of(kind: u8, offset: u16, data: Seq<u8>) -> Result<RecordView, ReaderError> {
    if kind == 0 {
        Ok(RecordView::Data { offset, value: data })
    } else if kind == 1 {
        if data.len() == 0 { Ok(RecordView::EndOfFile) } else { Err(ReaderError::InvalidLength) }
    } else if kind == 2 || kind == 4 {
        if data.len() != 2 {
            Err(ReaderError::InvalidLength)
        } else if kind == 2 {
            Ok(RecordView::ExtendedSegmentAddress(be16(data[0], data[1])))
        } else {
            Ok(RecordView::ExtendedLinearAddress(be16(data[0], data[1])))
        }
    } else if kind == 3 || kind == 5 {
        if data.len() != 4 {
            Err(ReaderError::InvalidLength)
        } else if kind == 3 {
            Ok(RecordView::StartSegmentAddress {
                cs: be16(data[0], data[1]),
                ip: be16(data[2], data[3]),
            })
        } else {
            Ok(RecordView::StartLinearAddress(
                (be16(data[0], data[1]) * 65536 + be16(data[2], data[3])) as u32,
            ))
        }
    } else {
        Err(ReaderError::UnsupportedRecordType)
    }
}

/// What one line of HEX text decodes to: `:` and then pairs of digits for
/// the byte count, the two address bytes, the record type, the data and the
/// checksum, which makes all the bytes sum to zero modulo 256.
pub open spec fn parse_line(line: Seq<u8>) -> Result<RecordView, ReaderError> {
    if line.len() == 0 || line[0] != 0x3a {
        Err(ReaderError::MissingStartCode)
    } else {
        let d = line.drop_first();
        if exists|i: int| 0 <= i < d.len() && hex_value(#[trigger] d[i]) < 0 {
            Err(ReaderError::InvalidCharacter)
        } else if d.len() % 2 == 1 {
            Err(ReaderError::OddDigitCount)
        } else {
            let b = decode_pairs(d);
            if b.len() < 5 || b[0] + 5 != b.len() {
                Err(ReaderError::InvalidLength)
            } else if byte_sum(b) % 256 != 0 {
                Err(ReaderError::ChecksumMismatch)
            } else {
                record_of(b[3], be16(b[1], b[2]), b.subrange(4, b.len() - 1))
            }
        }
    }
}

fn hex_digit(c: u8) -> (r: Option<u8>)
    ensures
        hex_value(c) < 0 <==> r is None,
        r matches Some(v) ==> v == hex_value(c),
{
    if 0x30 <= c && c <= 0x39 {
        Some(c - 0x30)
    } else if 0x61 <= c && c <= 0x66 {
        Some(c - 0x61 + 10)
    } else if 0x41 <= c && c <= 0x46 {
        Some(c - 0x41 + 10)
    } else {
        None
    }
}

fn build_record(kind: u8, offset: u16, data: Vec<u8>) -> (r: Result<Record, ReaderError>)
    ensures
        item_view(r) == record_of(kind, offset, data@),
{
    if kind == 0 {
        Ok(Record::Data { offset, value: data })
    } else if kind == 1 {
        if data.len() == 0 {
            Ok(Record::EndOfFile)
        } else {
            Err(ReaderError::InvalidLength)
        }
    } else if kind == 2 || kind == 4 {
        if data.len() != 2 {
            Err(ReaderError::InvalidLength)
        } else {
            let v: u16 = data[0] as u16 * 256 + data[1] as u16;
            if kind == 2 {
                Ok(Record::ExtendedSegmentAddress(v))
            } else {
                Ok(Record::ExtendedLinearAddress(v))
            }
        }
    } else if kind == 3 || kind == 5 {
        if data.len() != 4 {
            Err(ReaderError::InvalidLength)
        } else {
            let hi: u16 = data[0] as u16 * 256 + data[1] as u16;
            let lo: u16 = data[2] as u16 * 256 + data[3] as u16;
            if kind == 3 {
                Ok(Record::StartSegmentAddress { cs: hi, ip: lo })
            } else {
                Ok(Record::StartLinearAddress(hi as u32 * 65536 + lo as u32))
            }
        }
    } else {
        Err(ReaderError::UnsupportedRecordType)
    }
}

/// Decodes one line of HEX text, without its line break.
pub fn parse_record(line: &[u8]) -> (r: Result<Record, ReaderError>)
    ensures
        item_view(r) == parse_line(line@),
{
    if line.len() == 0 || line[0] != 0x3a {
        return Err(ReaderError::MissingStartCode);
    }
    let ghost d = line@.drop_first();
    let mut i: usize = 1;
    while i < line.len()
        invariant
            1 <= i <= line.len(),
            line@[0] == 0x3a,
            d == line@.drop_first(),
            forall|j: int| 0 <= j < i - 1 ==> hex_value(#[trigger] d[j]) >= 0,
        decreases line.len() - i,
    {
        if hex_digit(line[i]).is_none() {
            assert(d[i - 1] == line@[i as int]);
            assert(hex_value(d[i - 1]) < 0);
            assert(exists|j: int| 0 <= j < d.len() && hex_value(#[trigger] d[j]) < 0);
            assert(line@.len() > 0 && line@[0] == 0x3a);
            assert(parse_line(line@) == Err::<RecordView, ReaderError>(
                ReaderError::InvalidCharacter,
            ));
            return Err(ReaderError::InvalidCharacter);
        }
        i = i + 1;
    }
    if (line.len() - 1) % 2 == 1 {
        return Err(ReaderError::OddDigitCount);
    }
    let n: usize = (line.len() - 1) / 2;
    let ghost b = decode_pairs(d);
    let mut bytes: Vec<u8> = Vec::new();
    let mut sum: u32 = 0;
    let mut k: usize = 0;
    while k < n
        invariant
            n == b.len(),
            line@.len() == 2 * n + 1,
            d.len() == 2 * n,
            d == line@.drop_first(),
            b == decode_pairs(d),
            forall|j: int| 0 <= j < d.len() ==> hex_value(#[trigger] d[j]) >= 0,
            k <= n,
            bytes@ == b.take(k as int),
            sum == byte_sum(bytes@) % 256,
        decreases n - k,
    {
        assert(2 * k + 2 < line.len());
        let at: usize = 2 * k + 1;
        assert(d[2 * k as int] == line@[2 * k + 1]);
        assert(d[2 * k + 1] == line@[2 * k + 2]);
        assert(hex_value(d[2 * k as int]) >= 0);
        assert(hex_value(d[2 * k + 1]) >= 0);
        let hi = hex_digit(line[at]).unwrap();
        let lo = hex_digit(line[at + 1]).unwrap();
        let byte: u8 = hi * 16 + lo;
        proof {
            lemma_add_mod_noop(byte_sum(bytes@), byte as int, 256);
            assert(bytes@.push(byte).drop_last() =~= bytes@);
        }
        bytes.push(byte);
        sum = (sum + byte as u32) % 256;
        k = k + 1;
        assert(bytes@ =~= b.take(k as int));
    }
    assert(bytes@ =~= b);
    if n < 5 || bytes[0] as usize + 5 != n {
        return Err(ReaderError::InvalidLength);
    }
    if sum != 0 {
        return Err(ReaderError::ChecksumMismatch);
    }
    let mut data: Vec<u8> = Vec::new();
    let mut j: usize = 4;
    while j < n - 1
        invariant
            bytes@ == b,
            n == b.len(),
            n >= 5,
            4 <= j <= n - 1,
            data@ == b.subrange(4, j as int),
        decreases n - 1 - j,
    {
        data.push(bytes[j]);
        j = j + 1;
        assert(data@ =~= b.subrange(4, j as int));
    }
    let offset: u16 = bytes[1] as u16 * 256 + bytes[2] as u16;
    build_record(bytes[3], offset, data)
}

} // verus!
