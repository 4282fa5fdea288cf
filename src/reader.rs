//! A producer of records: hands them out one at a time, in order.
use vstd::prelude::*;

use crate::record::{item_view, parse_line, parse_record, Record, ReaderError, RecordView};

verus! {

/// The line in progress with a trailing carriage return taken off.
pub open spec fn strip_cr(line: Seq<u8>) -> Seq<u8> {
    if line.len() > 0 && line.last() == 0x0d { line.drop_last() } else { line }
}

/// `done` with the record of `line` added, unless the line is blank.
pub open spec fn close_line(
    done: Seq<Result<RecordView, ReaderError>>,
    line: Seq<u8>,
) -> Seq<Result<RecordView, ReaderError>> {
    if strip_cr(line).len() == 0 {
        done
    } else {
        done.push(parse_line(strip_cr(line)))
    }
}

/// The records of the complete lines of `text`, and the line still open at
/// its end.
pub open spec fn scan_lines(text: Seq<u8>) -> (Seq<Result<RecordView, ReaderError>>, Seq<u8>)
    decreases text.len(),
{
    if text.len() == 0 {
        (Seq::empty(), Seq::empty())
    } else {
        let (done, line) = scan_lines(text.drop_last());
        if text.last() == 0x0a {
            (close_line(done, line), Seq::empty())
        } else {
            (done, line.push(text.last()))
        }
    }
}

/// The records of the non-blank lines of `text`, in order.
pub open spec fn parse_text(text: Seq<u8>) -> Seq<Result<RecordView, ReaderError>> {
    close_line(scan_lines(text).0, scan_lines(text).1)
}

fn push_line(items: &mut Vec<Result<Record, ReaderError>>, line: Vec<u8>)
    ensures
        final(items)@.map_values(|i: Result<Record, ReaderError>| item_view(i)) == close_line(
            old(items)@.map_values(|i: Result<Record, ReaderError>| item_view(i)),
            line@,
        ),
{
    let mut line = line;
    if line.len() > 0 && line[line.len() - 1] == 0x0d {
        line.pop();
    }
    if line.len() > 0 {
        let ghost before = items@;
        items.push(parse_record(line.as_slice()));
        assert(items@.map_values(|i: Result<Record, ReaderError>| item_view(i)) =~= before.map_values(
            |i: Result<Record, ReaderError>| item_view(i),
        ).push(parse_line(line@)));
    }
}

/// A sequence of decoded records, or of errors met while decoding them,
/// handed out front to back.
pub struct Reader {
    items: Vec<Result<Record, ReaderError>>,
}

impl View for Reader {
    type V = Seq<Result<RecordView, ReaderError>>;

    /// What is still to be handed out, front first.
    closed spec fn view(&self) -> Seq<Result<RecordView, ReaderError>> {
        self.items@.map_values(|i: Result<Record, ReaderError>| item_view(i))
    }
}

impl Reader {
    /// A producer of the records of the lines of HEX text; blank lines are
    /// passed over and a line that cannot be decoded gives its error.
    pub fn new(text: &[u8]) -> (r: Reader)
        ensures
            r@ == parse_text(text@),
    {
        let mut items: Vec<Result<Record, ReaderError>> = Vec::new();
        let mut line: Vec<u8> = Vec::new();
        let mut i: usize = 0;
        proof {
            assert(text@.take(0) =~= Seq::<u8>::empty());
            assert(items@.map_values(|i: Result<Record, ReaderError>| item_view(i)) =~= Seq::empty());
        }
        while i < text.len()
            invariant
                i <= text.len(),
                (items@.map_values(|i: Result<Record, ReaderError>| item_view(i)), line@)
                    == scan_lines(text@.take(i as int)),
            decreases text.len() - i,
        {
            assert(text@.take(i + 1).drop_last() =~= text@.take(i as int));
            if text[i] == 0x0a {
                push_line(&mut items, line);
                line = Vec::new();
            } else {
                line.push(text[i]);
            }
            i = i + 1;
        }
        assert(text@.take(i as int) =~= text@);
        push_line(&mut items, line);
        Reader { items }
    }

    /// A producer that hands out `items` in order.
    pub fn from_records(items: Vec<Result<Record, ReaderError>>) -> (r: Reader)
        ensures
            r@ == items@.map_values(|i: Result<Record, ReaderError>| item_view(i)),
    {
        Reader { items }
    }

    /// Hands out the next item; `None` once all have been handed out, and
    /// on every call after that.
    pub fn next(&mut self) -> (r: Option<Result<Record, ReaderError>>)
        ensures
            old(self)@.len() == 0 ==> r is None && final(self)@ == old(self)@,
            old(self)@.len() > 0 ==> (r matches Some(i) && item_view(i) == old(self)@[0]
                && final(self)@ == old(self)@.drop_first()),
    {
        if self.items.len() == 0 {
            None
        } else {
            let ghost before = self.items@;
            let item = self.items.remove(0);
            proof {
                assert(self.items@.map_values(|i: Result<Record, ReaderError>| item_view(i))
                    =~= before.map_values(|i: Result<Record, ReaderError>| item_view(i)).drop_first());
            }
            Some(item)
        }
    }
}

} // verus!
