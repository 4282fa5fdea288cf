//! The converter from a record producer to the flat byte image it describes.
use vstd::prelude::*;

use crate::reader::Reader;
use crate::record::{Record, ReaderError, RecordView};

verus! {

/// The entry point of a program.
#[derive(Clone, Copy, Debug, PartialEq, Eq, Structural)]
pub enum StartAddress {
    Segment { cs: u16, ip: u16 },
    Linear(u32),
}

/// Why the converter stopped.
#[derive(Clone, Copy, Debug, PartialEq, Eq, Structural)]
pub enum DecodeError {
    /// The producer could not decode a record.
    Producer(ReaderError),
    /// An address record names an address below the base that the first one
    /// fixed.
    AddressBelowBase,
    /// A data record reaches past the 32-bit address space.
    AddressOverflow,
}

/// The address bookkeeping of the converter.
pub ghost struct Position {
    /// Fixed by the first address record met before any byte is emitted.
    pub base: u32,
    /// Where data offsets count from, relative to `base`.
    pub address: u32,
    /// How many bytes have been emitted.
    pub read: u32,
    /// The entry point seen last.
    pub start: Option<StartAddress>,
}

/// All that a converter still produces: its bytes, the entry point known at
/// the end, and the error it stops at, if any.
pub ghost struct Outcome {
    pub bytes: Seq<u8>,
    pub start: Option<StartAddress>,
    pub error: Option<DecodeError>,
}

/// The position before any record.
pub open spec fn initial_position() -> Position {
    Position { base: 0, address: 0, read: 0, start: None }
}

/// The position after an address record for `addr`: the first one met before
/// any output fixes the base, later ones move relative to it.
pub open spec fn rebase(p: Position, addr: int) -> Result<Position, DecodeError> {
    if p.base == 0 && p.read == 0 {
        Ok(Position { base: addr as u32, ..p })
    } else if addr < p.base {
        Err(DecodeError::AddressBelowBase)
    } else {
        Ok(Position { address: (addr - p.base) as u32, ..p })
    }
}

/// Where the bytes of a data record land: at `address + offset`, or at the
/// end of the output when that lies further on.
pub open spec fn data_start(p: Position, offset: u16) -> int {
    let at = p.address + offset;
    if at > p.read { at } else { p.read as int }
}

/// `n` zero bytes.
pub open spec fn zeros(n: int) -> Seq<u8> {
    Seq::new(n as nat, |i: int| 0u8)
}

/// The outcome of `rest` preceded by `bytes`.
pub open spec fn prepend(bytes: Seq<u8>, rest: Outcome) -> Outcome {
    Outcome { bytes: bytes + rest.bytes, ..rest }
}

/// What a converter at `p` produces from `items`: each data record adds zeros
/// up to its address and then its bytes; address records move the position;
/// start records set the entry point; the end record, the end of the items or
/// an error stops it.
pub open spec fn run(p: Position, items: Seq<Result<RecordView, ReaderError>>) -> Outcome
    decreases items.len(),
{
    let stop = Outcome { bytes: Seq::empty(), start: p.start, error: None };
    if items.len() == 0 {
        stop
    } else {
        let rest = items.drop_first();
        match items[0] {
            Err(e) => Outcome { error: Some(DecodeError::Producer(e)), ..stop },
            Ok(RecordView::EndOfFile) => stop,
            Ok(RecordView::ExtendedSegmentAddress(seg)) => match rebase(p, seg * 16) {
                Ok(q) => run(q, rest),
                Err(e) => Outcome { error: Some(e), ..stop },
            },
            Ok(RecordView::ExtendedLinearAddress(high)) => match rebase(p, high * 65536) {
                Ok(q) => run(q, rest),
                Err(e) => Outcome { error: Some(e), ..stop },
            },
            Ok(RecordView::StartSegmentAddress { cs, ip }) => run(
                Position { start: Some(StartAddress::Segment { cs, ip }), ..p },
                rest,
            ),
            Ok(RecordView::StartLinearAddress(a)) => run(
                Position { start: Some(StartAddress::Linear(a)), ..p },
                rest,
            ),
            Ok(RecordView::Data { offset, value }) => {
                let from = data_start(p, offset);
                let end = from + value.len();
                if p.address + offset > u32::MAX || end > u32::MAX {
                    Outcome { error: Some(DecodeError::AddressOverflow), ..stop }
                } else {
                    prepend(
                        zeros(from - p.read) + value,
                        run(Position { read: end as u32, ..p }, rest),
                    )
                }
            },
        }
    }
}

/// The entry point that a converter at `p` with `items` ahead knows once it
/// has handed out `n` bytes and stopped right after the last of them: start
/// records before the `n`-th byte are taken in, later ones not yet.
pub open spec fn start_after(p: Position, items: Seq<Result<RecordView, ReaderError>>, n: int) -> Option<
    StartAddress,
>
    decreases items.len(),
{
    if n <= 0 || items.len() == 0 {
        p.start
    } else {
        let rest = items.drop_first();
        match items[0] {
            Err(_) => p.start,
            Ok(RecordView::EndOfFile) => p.start,
            Ok(RecordView::ExtendedSegmentAddress(seg)) => match rebase(p, seg * 16) {
                Ok(q) => start_after(q, rest, n),
                Err(_) => p.start,
            },
            Ok(RecordView::ExtendedLinearAddress(high)) => match rebase(p, high * 65536) {
                Ok(q) => start_after(q, rest, n),
                Err(_) => p.start,
            },
            Ok(RecordView::StartSegmentAddress { cs, ip }) => start_after(
                Position { start: Some(StartAddress::Segment { cs, ip }), ..p },
                rest,
                n,
            ),
            Ok(RecordView::StartLinearAddress(a)) => start_after(
                Position { start: Some(StartAddress::Linear(a)), ..p },
                rest,
                n,
            ),
            Ok(RecordView::Data { offset, value }) => {
                let from = data_start(p, offset);
                let end = from + value.len();
                let k = end - p.read;
                if p.address + offset > u32::MAX || end > u32::MAX || n <= k {
                    p.start
                } else {
                    start_after(Position { read: end as u32, ..p }, rest, n - k)
                }
            },
        }
    }
}

proof fn lemma_front(
    x: Result<RecordView, ReaderError>,
    rest: Seq<Result<RecordView, ReaderError>>,
)
    ensures
        (seq![x] + rest).len() > 0,
        (seq![x] + rest)[0] == x,
        (seq![x] + rest).drop_first() == rest,
{
    assert((seq![x] + rest).drop_first() =~= rest);
}

/// One byte of a data record, a zero of its gap or its first value byte,
/// comes off the front of the outcome.
proof fn lemma_data_byte(
    p: Position,
    offset: u16,
    value: Seq<u8>,
    rest: Seq<Result<RecordView, ReaderError>>,
)
    requires
        p.address + offset <= u32::MAX,
        data_start(p, offset) + value.len() <= u32::MAX,
        data_start(p, offset) > p.read || value.len() > 0,
    ensures
        ({
            let gap = data_start(p, offset) > p.read;
            let q = Position { read: (p.read + 1) as u32, ..p };
            let v = if gap { value } else { value.drop_first() };
            let b = if gap { 0u8 } else { value[0] };
            run(p, seq![Ok(RecordView::Data { offset, value })] + rest) == prepend(
                seq![b],
                run(q, seq![Ok(RecordView::Data { offset, value: v })] + rest),
            )
        }),
{
    let gap = data_start(p, offset) > p.read;
    let q = Position { read: (p.read + 1) as u32, ..p };
    let v = if gap { value } else { value.drop_first() };
    let b = if gap { 0u8 } else { value[0] };
    let from = data_start(p, offset);
    let end = from + value.len();
    lemma_front(Ok(RecordView::Data { offset, value }), rest);
    lemma_front(Ok(RecordView::Data { offset, value: v }), rest);
    assert(data_start(q, offset) + v.len() == end);
    assert(Position { read: end as u32, ..q } == Position { read: end as u32, ..p });
    let tail = run(Position { read: end as u32, ..p }, rest);
    assert(zeros(from - p.read) + value =~= seq![b] + (zeros(data_start(q, offset) - q.read) + v));
    assert((zeros(from - p.read) + value) + tail.bytes =~= seq![b] + ((zeros(
        data_start(q, offset) - q.read,
    ) + v) + tail.bytes));
}

/// A data record with nothing left to emit adds nothing.
proof fn lemma_data_done(
    p: Position,
    offset: u16,
    value: Seq<u8>,
    rest: Seq<Result<RecordView, ReaderError>>,
)
    requires
        p.address + offset <= u32::MAX,
        data_start(p, offset) == p.read,
        value.len() == 0,
    ensures
        run(p, seq![Ok(RecordView::Data { offset, value })] + rest) == run(p, rest),
{
    lemma_front(Ok(RecordView::Data { offset, value }), rest);
    assert(Position { read: p.read, ..p } == p);
    assert(zeros(0) + value + run(p, rest).bytes =~= run(p, rest).bytes);
}

/// Emitting one byte of a data record leaves the entry point as it was, and
/// shifts by one what is known after further bytes.
proof fn lemma_start_data_byte(
    p: Position,
    offset: u16,
    value: Seq<u8>,
    rest: Seq<Result<RecordView, ReaderError>>,
    m: int,
)
    requires
        p.address + offset <= u32::MAX,
        data_start(p, offset) + value.len() <= u32::MAX,
        data_start(p, offset) > p.read || value.len() > 0,
        m >= 0,
    ensures
        ({
            let gap = data_start(p, offset) > p.read;
            let q = Position { read: (p.read + 1) as u32, ..p };
            let v = if gap { value } else { value.drop_first() };
            start_after(p, seq![Ok(RecordView::Data { offset, value })] + rest, m + 1)
                == start_after(q, seq![Ok(RecordView::Data { offset, value: v })] + rest, m)
        }),
{
    let gap = data_start(p, offset) > p.read;
    let q = Position { read: (p.read + 1) as u32, ..p };
    let v = if gap { value } else { value.drop_first() };
    lemma_front(Ok(RecordView::Data { offset, value }), rest);
    lemma_front(Ok(RecordView::Data { offset, value: v }), rest);
    let end = data_start(p, offset) + value.len();
    assert(data_start(q, offset) + v.len() == end);
    assert(Position { read: end as u32, ..q } == Position { read: end as u32, ..p });
}

/// A data record with nothing left to emit changes nothing of the entry point.
proof fn lemma_start_data_done(
    p: Position,
    offset: u16,
    value: Seq<u8>,
    rest: Seq<Result<RecordView, ReaderError>>,
    m: int,
)
    requires
        p.address + offset <= u32::MAX,
        data_start(p, offset) == p.read,
        value.len() == 0,
    ensures
        start_after(p, seq![Ok(RecordView::Data { offset, value })] + rest, m) == start_after(
            p,
            rest,
            m,
        ),
{
    lemma_front(Ok(RecordView::Data { offset, value }), rest);
    assert(Position { read: p.read, ..p } == p);
}

/// How many bytes a read into a buffer of `size` hands out when
/// `available` are left.
pub open spec fn chunk_len(size: int, available: int) -> int {
    if size <= available { size } else { available }
}

/// Turns the records of a [`Reader`] into the binary image they describe,
/// a buffer at a time.
pub struct BinaryReader {
    reader: Reader,
    record: Option<Record>,
    record_pos: usize,
    base_address: u32,
    address: u32,
    read_bytes: u32,
    start_address: Option<StartAddress>,
}

impl BinaryReader {
    /// The address bookkeeping.
    pub closed spec fn position(&self) -> Position {
        Position {
            base: self.base_address,
            address: self.address,
            read: self.read_bytes,
            start: self.start_address,
        }
    }

    /// The records still to be worked through, the one in progress first
    /// with what of it has been emitted taken off.
    pub closed spec fn pending(&self) -> Seq<Result<RecordView, ReaderError>> {
        match self.record {
            None => self.reader@,
            Some(Record::Data { offset, value }) => seq![
                Ok(RecordView::Data { offset, value: value@.skip(self.record_pos as int) }),
            ] + self.reader@,
            Some(r) => seq![Ok(r@)] + self.reader@,
        }
    }

    /// Everything this converter still produces.
    pub open spec fn remaining(&self) -> Outcome {
        run(self.position(), self.pending())
    }

    /// The record in progress has no more of its bytes emitted than it holds.
    pub closed spec fn wf(&self) -> bool {
        match self.record {
            Some(Record::Data { value, .. }) => self.record_pos <= value.len(),
            _ => true,
        }
    }

    /// A converter at the start of the records of `reader`.
    pub fn new(reader: Reader) -> (r: Self)
        ensures
            r.wf(),
            r.position() == initial_position(),
            r.pending() == reader@,
            r.remaining() == run(initial_position(), reader@),
            r.start_address_spec() == None::<StartAddress>,
    {
        let r = BinaryReader {
            reader,
            record: None,
            record_pos: 0,
            base_address: 0,
            address: 0,
            read_bytes: 0,
            start_address: None,
        };
        assert(r.position() == initial_position());
        r
    }

    /// Applies an address record for `addr`.
    fn update_address(&mut self, addr: u32) -> (r: Result<(), DecodeError>)
        ensures
            match rebase(old(self).position(), addr as int) {
                Ok(q) => r is Ok && final(self).position() == q,
                Err(e) => r == Err::<(), DecodeError>(e) && final(self).position() == old(
                    self,
                ).position(),
            },
            final(self).reader == old(self).reader,
            final(self).record == old(self).record,
            final(self).record_pos == old(self).record_pos,
    {
        if self.base_address == 0 && self.read_bytes == 0 {
            self.base_address = addr;
        } else if addr < self.base_address {
            return Err(DecodeError::AddressBelowBase);
        } else {
            self.address = addr - self.base_address;
        }
        Ok(())
    }

    /// Fills `buf` with the next bytes of the image. Hands out the front of
    /// [`Self::remaining`]: all of `buf` while enough is left, else what is
    /// left, after which the stream is closed and every later call gives 0.
    /// Fails with the error the records stop at once the bytes before it are
    /// too few to fill `buf`. A read that fills `buf` stops right after its
    /// last byte, so the entry point is then [`start_after`] that many bytes;
    /// an empty `buf` leaves the converter untouched.
    #[verifier::rlimit(60)]
    pub fn read(&mut self, buf: &mut [u8]) -> (r: Result<usize, DecodeError>)
        requires
            old(self).wf(),
        ensures
            final(buf)@.len() == old(buf)@.len(),
            r is Ok <==> (old(self).remaining().error is None
                || old(self).remaining().bytes.len() >= old(buf)@.len()),
            r matches Err(e) ==> old(self).remaining().error == Some(e),
            old(buf)@.len() == 0 ==> r == Ok::<usize, DecodeError>(0) && *final(self) == *old(self),
            r matches Ok(n) ==> ({
                let total = old(self).remaining();
                &&& final(self).wf()
                &&& n as int == chunk_len(old(buf)@.len() as int, total.bytes.len() as int)
                &&& final(buf)@.take(n as int) == total.bytes.take(n as int)
                &&& final(buf)@.skip(n as int) == old(buf)@.skip(n as int)
                &&& final(self).remaining() == (Outcome { bytes: total.bytes.skip(n as int), ..total })
                &&& n < old(buf)@.len() ==> final(self).start_address_spec() == total.start
                &&& n == old(buf)@.len() ==> final(self).start_address_spec() == start_after(
                    old(self).position(),
                    old(self).pending(),
                    n as int,
                )
                &&& n < old(buf)@.len() ==> final(self).remaining() == (Outcome {
                    bytes: Seq::empty(),
                    start: total.start,
                    error: None,
                })
            }),
    {
        let ghost total = self.remaining();
        let ghost p0 = self.position();
        let ghost i0 = self.pending();
        let ghost original = buf@;
        let mut written: usize = 0;
        proof {
            assert(total.bytes.skip(0) =~= total.bytes);
        }
        loop
            invariant
                self.wf(),
                original == old(buf)@,
                total == old(self).remaining(),
                p0 == old(self).position(),
                i0 == old(self).pending(),
                original.len() == 0 ==> *self == *old(self),
                written == original.len() ==> self.start_address == start_after(p0, i0, written as int),
                forall|m: int|
                    m > 0 ==> #[trigger] start_after(self.position(), self.pending(), m)
                        == start_after(p0, i0, written + m),
                buf@.len() == original.len(),
                written <= original.len(),
                written <= total.bytes.len(),
                buf@.take(written as int) == total.bytes.take(written as int),
                forall|i: int| written <= i < original.len() ==> buf@[i] == original[i],
                self.remaining() == (Outcome { bytes: total.bytes.skip(written as int), ..total }),
            decreases
                buf@.len() - written,
                2 * self.reader@.len() + if self.record is Some { 1int } else { 0int },
        {
            if written == buf.len() {
                proof {
                    assert(buf@.skip(written as int) =~= original.skip(written as int));
                }
                return Ok(written);
            }
            if self.record.is_none() {
                let ghost before = self.pending();
                match self.reader.next() {
                    None => {
                        proof {
                            assert(buf@.skip(written as int) =~= original.skip(written as int));
                            assert(total.bytes.skip(written as int).len() == 0);
                            assert(total.bytes.skip(written as int) =~= Seq::empty());
                        }
                        return Ok(written);
                    },
                    Some(Err(e)) => {
                        proof {
                            assert(total.bytes.skip(written as int).len() == 0);
                        }
                        return Err(DecodeError::Producer(e));
                    },
                    Some(Ok(rec)) => {
                        let ghost g = rec;
                        self.record = Some(rec);
                        self.record_pos = 0;
                        proof {
                            if let Record::Data { offset, value } = g {
                                assert(value@.skip(0) =~= value@);
                            }
                            assert(self.pending() =~= before);
                        }
                    },
                }
            } else {
                let ghost p = self.position();
                let ghost rest = self.reader@;
                match &self.record {
                    Some(Record::Data { offset, value }) => {
                        let ghost v = value@.skip(self.record_pos as int);
                        let ghost before = self.remaining();
                        assert(self.pending() == seq![
                            Ok(RecordView::Data { offset: *offset, value: v }),
                        ] + rest);
                        proof {
                            lemma_front(Ok(RecordView::Data { offset: *offset, value: v }), rest);
                        }
                        let at: u64 = self.address as u64 + *offset as u64;
                        if at > u32::MAX as u64 {
                            return Err(DecodeError::AddressOverflow);
                        }
                        let from: u64 = if at > self.read_bytes as u64 {
                            at
                        } else {
                            self.read_bytes as u64
                        };
                        let left: usize = value.len() - self.record_pos;
                        if left as u64 > u32::MAX as u64 - from {
                            return Err(DecodeError::AddressOverflow);
                        }
                        let emitted: u64 = self.read_bytes as u64;
                        if from > emitted {
                            proof {
                                lemma_data_byte(p, *offset, v, rest);
                            }
                            buf[written] = 0;
                            self.read_bytes = self.read_bytes + 1;
                            proof {
                                assert(self.position() == Position { read: (p.read + 1) as u32, ..p });
                                assert(self.pending() =~= seq![
                                    Ok(RecordView::Data { offset: *offset, value: v }),
                                ] + rest);
                                lemma_start_data_byte(p, *offset, v, rest, 0);
                                assert forall|m: int| m > 0 implies #[trigger] start_after(
                                    self.position(),
                                    self.pending(),
                                    m,
                                ) == start_after(p0, i0, written + 1 + m) by {
                                    lemma_start_data_byte(p, *offset, v, rest, m);
                                }
                            }
                        } else if left > 0 {
                            proof {
                                lemma_data_byte(p, *offset, v, rest);
                                assert(value@.skip(self.record_pos + 1) =~= v.drop_first());
                            }
                            buf[written] = value[self.record_pos];
                            self.record_pos = self.record_pos + 1;
                            self.read_bytes = self.read_bytes + 1;
                            proof {
                                assert(self.position() == Position { read: (p.read + 1) as u32, ..p });
                                assert(self.pending() =~= seq![
                                    Ok(RecordView::Data { offset: *offset, value: v.drop_first() }),
                                ] + rest);
                                lemma_start_data_byte(p, *offset, v, rest, 0);
                                assert forall|m: int| m > 0 implies #[trigger] start_after(
                                    self.position(),
                                    self.pending(),
                                    m,
                                ) == start_after(p0, i0, written + 1 + m) by {
                                    lemma_start_data_byte(p, *offset, v, rest, m);
                                }
                            }
                        } else {
                            proof {
                                lemma_data_done(p, *offset, v, rest);
                            }
                            self.record = None;
                            self.record_pos = 0;
                            proof {
                                assert forall|m: int| m > 0 implies #[trigger] start_after(
                                    self.position(),
                                    self.pending(),
                                    m,
                                ) == start_after(p0, i0, written + m) by {
                                    lemma_start_data_done(p, *offset, v, rest, m);
                                }
                            }
                        }
                        proof {
                            if left > 0 || from > emitted {
                                assert(before.bytes == seq![buf@[written as int]] + self.remaining().bytes);
                                assert(total.bytes.skip(written as int)[0] == buf@[written as int]);
                                assert(before.bytes == total.bytes.skip(written as int));
                                assert(self.remaining().bytes =~= before.bytes.drop_first());
                                assert(self.remaining().bytes =~= total.bytes.skip(written + 1));
                                assert(buf@.take(written + 1) =~= total.bytes.take(written + 1));
                            }
                        }
                        if left > 0 || from > emitted {
                            written = written + 1;
                        }
                    },
                    Some(Record::EndOfFile) => {
                        proof {
                            lemma_front(Ok(RecordView::EndOfFile), rest);
                            assert(buf@.skip(written as int) =~= original.skip(written as int));
                            assert(total.bytes.skip(written as int) =~= Seq::empty());
                        }
                        return Ok(written);
                    },
                    Some(Record::ExtendedSegmentAddress(seg)) => {
                        proof {
                            lemma_front(Ok(RecordView::ExtendedSegmentAddress(*seg)), rest);
                        }
                        let addr: u32 = *seg as u32 * 16;
                        if let Err(e) = self.update_address(addr) {
                            return Err(e);
                        }
                        self.record = None;
                        proof {
                            assert forall|m: int| m > 0 implies #[trigger] start_after(
                                self.position(),
                                self.pending(),
                                m,
                            ) == start_after(p0, i0, written + m) by {
                                assert(start_after(p, seq![Ok(RecordView::ExtendedSegmentAddress(*seg))] + rest, m) == start_after(
                                    self.position(),
                                    rest,
                                    m,
                                ));
                            }
                        }
                    },
                    Some(Record::ExtendedLinearAddress(high)) => {
                        proof {
                            lemma_front(Ok(RecordView::ExtendedLinearAddress(*high)), rest);
                        }
                        let addr: u32 = *high as u32 * 65536;
                        if let Err(e) = self.update_address(addr) {
                            return Err(e);
                        }
                        self.record = None;
                        proof {
                            assert forall|m: int| m > 0 implies #[trigger] start_after(
                                self.position(),
                                self.pending(),
                                m,
                            ) == start_after(p0, i0, written + m) by {
                                assert(start_after(p, seq![Ok(RecordView::ExtendedLinearAddress(*high))] + rest, m) == start_after(
                                    self.position(),
                                    rest,
                                    m,
                                ));
                            }
                        }
                    },
                    Some(Record::StartSegmentAddress { cs, ip }) => {
                        proof {
                            lemma_front(Ok(RecordView::StartSegmentAddress { cs: *cs, ip: *ip }), rest);
                        }
                        self.start_address = Some(StartAddress::Segment { cs: *cs, ip: *ip });
                        self.record = None;
                        proof {
                            assert forall|m: int| m > 0 implies #[trigger] start_after(
                                self.position(),
                                self.pending(),
                                m,
                            ) == start_after(p0, i0, written + m) by {
                                assert(start_after(p, seq![Ok(RecordView::StartSegmentAddress { cs: *cs, ip: *ip })] + rest, m) == start_after(
                                    self.position(),
                                    rest,
                                    m,
                                ));
                            }
                        }
                    },
                    Some(Record::StartLinearAddress(a)) => {
                        proof {
                            lemma_front(Ok(RecordView::StartLinearAddress(*a)), rest);
                        }
                        self.start_address = Some(StartAddress::Linear(*a));
                        self.record = None;
                        proof {
                            assert forall|m: int| m > 0 implies #[trigger] start_after(
                                self.position(),
                                self.pending(),
                                m,
                            ) == start_after(p0, i0, written + m) by {
                                assert(start_after(p, seq![Ok(RecordView::StartLinearAddress(*a))] + rest, m) == start_after(
                                    self.position(),
                                    rest,
                                    m,
                                ));
                            }
                        }
                    },
                    None => {},
                }
            }
        }
    }

    /// The entry point seen last so far.
    pub closed spec fn start_address_spec(&self) -> Option<StartAddress> {
        self.start_address
    }

    /// The entry point seen last so far, if any.
    pub fn start_address(&self) -> (r: Option<StartAddress>)
        ensures
            r == self.start_address_spec(),
    {
        self.start_address
    }
}

/// The bytes of a data record; nothing for any other item.
pub open spec fn payload(item: Result<RecordView, ReaderError>) -> Seq<u8> {
    match item {
        Ok(RecordView::Data { value, .. }) => value,
        _ => Seq::empty(),
    }
}

/// The bytes of all data records, in order.
pub open spec fn payloads(items: Seq<Result<RecordView, ReaderError>>) -> Seq<u8>
    decreases items.len(),
{
    if items.len() == 0 {
        Seq::empty()
    } else {
        payload(items[0]) + payloads(items.drop_first())
    }
}

/// Every item is a data record, the first at offset `at` and each next one
/// right where the one before it ends.
pub open spec fn contiguous_from(items: Seq<Result<RecordView, ReaderError>>, at: int) -> bool
    decreases items.len(),
{
    items.len() == 0 || match items[0] {
        Ok(RecordView::Data { offset, value }) => offset == at && contiguous_from(
            items.drop_first(),
            at + value.len(),
        ),
        _ => false,
    }
}

/// No item is a start record.
pub open spec fn no_start_record(items: Seq<Result<RecordView, ReaderError>>) -> bool {
    forall|i: int|
        0 <= i < items.len() ==> !(#[trigger] items[i] matches Ok(
            RecordView::StartSegmentAddress { .. },
        )) && !(items[i] matches Ok(RecordView::StartLinearAddress(_)))
}

proof fn lemma_contiguous(
    p: Position,
    items: Seq<Result<RecordView, ReaderError>>,
    tail: Seq<Result<RecordView, ReaderError>>,
)
    requires
        p.address == 0,
        contiguous_from(items, p.read as int),
        p.read + payloads(items).len() <= u32::MAX,
    ensures
        run(p, items + tail) == prepend(
            payloads(items),
            run(Position { read: (p.read + payloads(items).len()) as u32, ..p }, tail),
        ),
    decreases items.len(),
{
    if items.len() == 0 {
        assert(items + tail =~= tail);
        assert(Position { read: p.read, ..p } == p);
        assert(payloads(items) + run(p, tail).bytes =~= run(p, tail).bytes);
    } else {
        assert((items + tail)[0] == items[0]);
        assert((items + tail).drop_first() =~= items.drop_first() + tail);
        if let Ok(RecordView::Data { offset, value }) = items[0] {
            let q = Position { read: (p.read + value.len()) as u32, ..p };
            lemma_contiguous(q, items.drop_first(), tail);
            assert(Position { read: (q.read + payloads(items.drop_first()).len()) as u32, ..q }
                == Position { read: (p.read + payloads(items).len()) as u32, ..p });
            let t = run(Position { read: (p.read + payloads(items).len()) as u32, ..p }, tail);
            assert(zeros(0) + value + (payloads(items.drop_first()) + t.bytes) =~= payloads(items)
                + t.bytes);
        }
    }
}

/// Data records laid end to end from offset 0, after at most one extended
/// address record and before an optional end record, give exactly their
/// bytes, one record after another, with nothing in between and no error.
pub proof fn contiguous_data_concatenates(
    lead: Seq<Result<RecordView, ReaderError>>,
    items: Seq<Result<RecordView, ReaderError>>,
    tail: Seq<Result<RecordView, ReaderError>>,
)
    requires
        lead.len() <= 1,
        lead.len() == 1 ==> (lead[0] matches Ok(RecordView::ExtendedSegmentAddress(_)) || lead[0] matches Ok(
            RecordView::ExtendedLinearAddress(_),
        )),
        tail == Seq::<Result<RecordView, ReaderError>>::empty() || tail == seq![
            Ok::<RecordView, ReaderError>(RecordView::EndOfFile),
        ],
        contiguous_from(items, 0),
        payloads(items).len() <= u32::MAX,
    ensures
        run(initial_position(), lead + items + tail) == (Outcome {
            bytes: payloads(items),
            start: None,
            error: None,
        }),
{
    let p0 = initial_position();
    let p = if lead.len() == 0 {
        p0
    } else {
        match lead[0] {
            Ok(RecordView::ExtendedSegmentAddress(seg)) => Position { base: (seg * 16) as u32, ..p0 },
            Ok(RecordView::ExtendedLinearAddress(high)) => Position {
                base: (high * 65536) as u32,
                ..p0
            },
            _ => p0,
        }
    };
    lemma_contiguous(p, items, tail);
    let e = Position { read: payloads(items).len() as u32, ..p };
    if tail.len() == 1 {
        lemma_front(Ok(RecordView::EndOfFile), Seq::empty());
        assert(tail =~= seq![Ok(RecordView::EndOfFile)] + Seq::empty());
    }
    assert(run(e, tail).bytes =~= Seq::empty());
    assert(payloads(items) + run(e, tail).bytes =~= payloads(items));
    if lead.len() == 0 {
        assert(lead + items + tail =~= items + tail);
    } else {
        assert((lead + items + tail)[0] == lead[0]);
        assert((lead + items + tail).drop_first() =~= items + tail);
    }
}

/// A data record at offset 0, then an extended linear address record one
/// 64 KiB page on, then a data record at offset 0 again: the gap between the
/// two records is filled with exactly as many zeros as it spans.
pub proof fn gap_filled_with_zeros(high: u16, first: Seq<u8>, second: Seq<u8>)
    requires
        high < 0xffff,
        0 < first.len() <= 0x10000,
        second.len() <= u32::MAX - 0x10000,
    ensures
        run(
            initial_position(),
            seq![
                Ok(RecordView::ExtendedLinearAddress(high)),
                Ok(RecordView::Data { offset: 0, value: first }),
                Ok(RecordView::ExtendedLinearAddress((high + 1) as u16)),
                Ok(RecordView::Data { offset: 0, value: second }),
            ],
        ).bytes == first + zeros(0x10000 - first.len()) + second,
        run(
            initial_position(),
            seq![
                Ok(RecordView::ExtendedLinearAddress(high)),
                Ok(RecordView::Data { offset: 0, value: first }),
                Ok(RecordView::ExtendedLinearAddress((high + 1) as u16)),
                Ok(RecordView::Data { offset: 0, value: second }),
            ],
        ).error is None,
{
    let items = seq![
        Ok(RecordView::ExtendedLinearAddress(high)),
        Ok(RecordView::Data { offset: 0, value: first }),
        Ok(RecordView::ExtendedLinearAddress((high + 1) as u16)),
        Ok(RecordView::Data { offset: 0, value: second }),
    ];
    let p0 = initial_position();
    let p1 = Position { base: (high * 0x10000) as u32, ..p0 };
    let p2 = Position { read: first.len() as u32, ..p1 };
    let p3 = Position { address: 0x10000, ..p2 };
    let p4 = Position { read: (0x10000 + second.len()) as u32, ..p3 };
    assert(items.drop_first().drop_first().drop_first().drop_first() =~= Seq::empty());
    let o4 = run(p4, Seq::<Result<RecordView, ReaderError>>::empty());
    let o3 = run(p3, items.drop_first().drop_first().drop_first());
    assert(o3.bytes == zeros(0x10000 - first.len()) + second + o4.bytes);
    let o2 = run(p2, items.drop_first().drop_first());
    assert(rebase(p2, (high + 1) * 65536) == Ok::<Position, DecodeError>(p3));
    assert(o2 == o3);
    let o1 = run(p1, items.drop_first());
    assert(data_start(p1, 0) == 0);
    assert(o1.bytes == zeros(0) + first + o2.bytes);
    assert(run(p0, items) == o1);
    assert(first + zeros(0x10000 - first.len()) + second =~= zeros(0) + first + (zeros(
        0x10000 - first.len(),
    ) + second + o4.bytes));
}

/// Reading `a` bytes and then `b` bytes hands out the same bytes as one read
/// of `a + b`, and both reads succeed exactly when that one does.
pub proof fn chunked_reads_agree(o: Outcome, a: nat, b: nat)
    ensures
        ({
            let n1 = chunk_len(a as int, o.bytes.len() as int);
            let rest = o.bytes.skip(n1);
            let n2 = chunk_len(b as int, rest.len() as int);
            &&& o.bytes.take(n1) + rest.take(n2) == o.bytes.take(
                chunk_len((a + b) as int, o.bytes.len() as int),
            )
            &&& ((o.error is None || o.bytes.len() >= a) && (o.error is None || rest.len() >= b))
                <==> (o.error is None || o.bytes.len() >= a + b)
        }),
{
    let n1 = chunk_len(a as int, o.bytes.len() as int);
    let rest = o.bytes.skip(n1);
    let n2 = chunk_len(b as int, rest.len() as int);
    assert(o.bytes.take(n1) + rest.take(n2) =~= o.bytes.take(
        chunk_len((a + b) as int, o.bytes.len() as int),
    ));
}

/// Without start records the entry point stays what it was.
pub proof fn start_kept_without_start_records(
    p: Position,
    items: Seq<Result<RecordView, ReaderError>>,
)
    requires
        no_start_record(items),
    ensures
        run(p, items).start == p.start,
    decreases items.len(),
{
    if items.len() > 0 {
        let rest = items.drop_first();
        assert(no_start_record(rest)) by {
            assert forall|i: int| 0 <= i < rest.len() implies !(#[trigger] rest[i] matches Ok(
                RecordView::StartSegmentAddress { .. },
            )) && !(rest[i] matches Ok(RecordView::StartLinearAddress(_))) by {
                assert(rest[i] == items[i + 1]);
            }
        }
        assert(!(items[0] matches Ok(RecordView::StartSegmentAddress { .. })));
        assert(!(items[0] matches Ok(RecordView::StartLinearAddress(_))));
        match items[0] {
            Ok(RecordView::ExtendedSegmentAddress(seg)) => match rebase(p, seg * 16) {
                Ok(q) => start_kept_without_start_records(q, rest),
                Err(_) => {},
            },
            Ok(RecordView::ExtendedLinearAddress(high)) => match rebase(p, high * 65536) {
                Ok(q) => start_kept_without_start_records(q, rest),
                Err(_) => {},
            },
            Ok(RecordView::Data { offset, value }) => {
                let end = data_start(p, offset) + value.len();
                start_kept_without_start_records(Position { read: end as u32, ..p }, rest);
            },
            _ => {},
        }
    }
}

/// A start linear address record sets the entry point, which the records
/// after it keep when none of them is a start record.
pub proof fn start_linear_address_captured(
    p: Position,
    addr: u32,
    rest: Seq<Result<RecordView, ReaderError>>,
)
    requires
        no_start_record(rest),
    ensures
        run(p, seq![Ok(RecordView::StartLinearAddress(addr))] + rest).start == Some(
            StartAddress::Linear(addr),
        ),
{
    lemma_front(Ok(RecordView::StartLinearAddress(addr)), rest);
    start_kept_without_start_records(
        Position { start: Some(StartAddress::Linear(addr)), ..p },
        rest,
    );
}


/// Without start records the entry point stays what it was, at every point
/// of the stream.
pub proof fn start_after_kept_without_start_records(
    p: Position,
    items: Seq<Result<RecordView, ReaderError>>,
    n: int,
)
    requires
        no_start_record(items),
    ensures
        start_after(p, items, n) == p.start,
    decreases items.len(),
{
    if items.len() > 0 && n > 0 {
        let rest = items.drop_first();
        assert(no_start_record(rest)) by {
            assert forall|i: int| 0 <= i < rest.len() implies !(#[trigger] rest[i] matches Ok(
                RecordView::StartSegmentAddress { .. },
            )) && !(rest[i] matches Ok(RecordView::StartLinearAddress(_))) by {
                assert(rest[i] == items[i + 1]);
            }
        }
        assert(!(items[0] matches Ok(RecordView::StartSegmentAddress { .. })));
        assert(!(items[0] matches Ok(RecordView::StartLinearAddress(_))));
        match items[0] {
            Ok(RecordView::ExtendedSegmentAddress(seg)) => match rebase(p, seg * 16) {
                Ok(q) => start_after_kept_without_start_records(q, rest, n),
                Err(_) => {},
            },
            Ok(RecordView::ExtendedLinearAddress(high)) => match rebase(p, high * 65536) {
                Ok(q) => start_after_kept_without_start_records(q, rest, n),
                Err(_) => {},
            },
            Ok(RecordView::Data { offset, value }) => {
                let end = data_start(p, offset) + value.len();
                start_after_kept_without_start_records(
                    Position { read: end as u32, ..p },
                    rest,
                    n - (end - p.read),
                );
            },
            _ => {},
        }
    }
}

/// Once a start linear address record has been taken in, that is, once any
/// byte after it has been handed out, the entry point is its address as long
/// as no later start record is.
pub proof fn start_linear_address_known_mid_stream(
    p: Position,
    addr: u32,
    rest: Seq<Result<RecordView, ReaderError>>,
    n: int,
)
    requires
        no_start_record(rest),
        n > 0,
    ensures
        start_after(p, seq![Ok(RecordView::StartLinearAddress(addr))] + rest, n) == Some(
            StartAddress::Linear(addr),
        ),
{
    lemma_front(Ok(RecordView::StartLinearAddress(addr)), rest);
    start_after_kept_without_start_records(
        Position { start: Some(StartAddress::Linear(addr)), ..p },
        rest,
        n,
    );
}

/// Records that are neither errors nor the end record.
pub open spec fn plain_records(items: Seq<Result<RecordView, ReaderError>>) -> bool {
    forall|i: int|
        0 <= i < items.len() ==> (#[trigger] items[i] is Ok) && !(items[i] matches Ok(
            RecordView::EndOfFile,
        ))
}

/// A producer error after records that raise no error of their own ends the
/// stream right there: the bytes of those records come out, then that error.
pub proof fn producer_error_surfaces(
    p: Position,
    pre: Seq<Result<RecordView, ReaderError>>,
    e: ReaderError,
    post: Seq<Result<RecordView, ReaderError>>,
)
    requires
        plain_records(pre),
        run(p, pre).error is None,
    ensures
        run(p, pre + seq![Err(e)] + post) == (Outcome {
            bytes: run(p, pre).bytes,
            error: Some(DecodeError::Producer(e)),
            ..run(p, pre)
        }),
    decreases pre.len(),
{
    let all = pre + seq![Err(e)] + post;
    if pre.len() == 0 {
        assert(all =~= seq![Err(e)] + post);
        lemma_front(Err(e), post);
    } else {
        let rest = pre.drop_first();
        assert(all[0] == pre[0]);
        assert(all.drop_first() =~= rest + seq![Err(e)] + post);
        assert(plain_records(rest)) by {
            assert forall|i: int| 0 <= i < rest.len() implies (#[trigger] rest[i] is Ok) && !(
            rest[i] matches Ok(RecordView::EndOfFile)) by {
                assert(rest[i] == pre[i + 1]);
            }
        }
        assert(pre[0] is Ok);
        assert(!(pre[0] matches Ok(RecordView::EndOfFile)));
        match pre[0] {
            Ok(RecordView::ExtendedSegmentAddress(seg)) => match rebase(p, seg * 16) {
                Ok(q) => producer_error_surfaces(q, rest, e, post),
                Err(_) => {},
            },
            Ok(RecordView::ExtendedLinearAddress(high)) => match rebase(p, high * 65536) {
                Ok(q) => producer_error_surfaces(q, rest, e, post),
                Err(_) => {},
            },
            Ok(RecordView::StartSegmentAddress { cs, ip }) => producer_error_surfaces(
                Position { start: Some(StartAddress::Segment { cs, ip }), ..p },
                rest,
                e,
                post,
            ),
            Ok(RecordView::StartLinearAddress(a)) => producer_error_surfaces(
                Position { start: Some(StartAddress::Linear(a)), ..p },
                rest,
                e,
                post,
            ),
            Ok(RecordView::Data { offset, value }) => {
                let end = data_start(p, offset) + value.len();
                if p.address + offset <= u32::MAX && end <= u32::MAX {
                    let q = Position { read: end as u32, ..p };
                    producer_error_surfaces(q, rest, e, post);
                    let a = run(q, rest + seq![Err(e)] + post);
                    let b = run(q, rest);
                    assert(a.bytes == b.bytes);
                }
            },
            _ => {},
        }
    }
}

} // verus!
