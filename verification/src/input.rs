//! Framing of a JSONL record stream: one record per line, numbered from one.
use crate::text::{decimal, decimal_text};
use vstd::prelude::*;
use vstd::string::*;

verus! {

/// The bytes of a line that hold its record: the line less a final newline, and then less a
/// final carriage return.
pub open spec fn body_len(line: Seq<u8>) -> int {
    let n = if line.len() > 0 && line.last() == 10 {
        line.len() - 1
    } else {
        line.len() as int
    };
    if n > 0 && line[n - 1] == 13 {
        n - 1
    } else {
        n
    }
}

/// The message refusing a line that holds no record.
pub open spec fn empty_message(offset: nat) -> Seq<char> {
    "invalid Atom on line "@ + decimal_text(offset) + ": empty record"@
}

/// The message refusing a line whose record cannot be read.
pub open spec fn invalid_message(offset: nat, detail: Seq<char>) -> Seq<char> {
    "invalid Atom on line "@ + decimal_text(offset) + ": "@ + detail
}

/// The message refusing a stream of more than `u64::MAX` records.
pub open spec fn count_message() -> Seq<char> {
    "Atom count overflowed"@
}

/// One line of the stream, framed.
#[derive(Debug)]
pub struct Line {
    /// Its number, counting from one.
    pub offset: u64,
    /// How many of its bytes hold the record.
    pub body: usize,
    /// How many bytes it took in the stream, its newline included.
    pub encoded: u64,
}

/// The framing of a stream of lines.
#[derive(Debug)]
pub struct Framing {
    offset: u64,
}

impl Framing {
    /// How many lines have been framed.
    pub closed spec fn spec_offset(&self) -> u64 {
        self.offset
    }

    /// A framing that has read no line.
    pub fn new() -> (r: Self)
        ensures
            r.spec_offset() == 0,
    {
        Framing { offset: 0 }
    }

    /// How many lines have been framed.
    pub fn records(&self) -> (r: u64)
        ensures
            r == self.spec_offset(),
    {
        self.offset
    }

    /// Frames the next line as read: the bytes up to and including its newline, or none at the
    /// end of the stream. A line that holds no record refuses the stream.
    pub fn next(&mut self, line: &[u8]) -> (r: Result<Option<Line>, String>)
        ensures
            line@.len() == 0 ==> (r matches Ok(None)) && final(self).spec_offset()
                == old(self).spec_offset(),
            line@.len() > 0 && old(self).spec_offset() == u64::MAX ==> (r matches Err(m) && m@
                == count_message()),
            line@.len() > 0 && old(self).spec_offset() < u64::MAX ==> {
                &&& final(self).spec_offset() == old(self).spec_offset() + 1
                &&& body_len(line@) == 0 ==> (r matches Err(m) && m@ == empty_message(
                    final(self).spec_offset() as nat,
                ))
                &&& body_len(line@) > 0 ==> (r matches Ok(Some(l)) && l.offset
                    == final(self).spec_offset() && l.body == body_len(line@) && l.encoded
                    == line@.len())
            },
    {
        let bytes = line.len();
        if bytes == 0 {
            return Ok(None);
        }
        if self.offset == u64::MAX {
            return Err("Atom count overflowed".to_owned());
        }
        self.offset = self.offset + 1;
        let mut n = bytes;
        if line[n - 1] == 10 {
            n = n - 1;
        }
        if n > 0 && line[n - 1] == 13 {
            n = n - 1;
        }
        if n == 0 {
            let mut m = "invalid Atom on line ".to_owned();
            let number = decimal(self.offset);
            m.append(number.as_str());
            m.append(": empty record");
            return Err(m);
        }
        Ok(Some(Line { offset: self.offset, body: n, encoded: bytes as u64 }))
    }
}

/// The message refusing line `offset` whose record cannot be read, for the reason `detail`.
pub fn invalid(offset: u64, detail: &str) -> (r: String)
    ensures
        r@ == invalid_message(offset as nat, detail@),
{
    let mut m = "invalid Atom on line ".to_owned();
    let number = decimal(offset);
    m.append(number.as_str());
    m.append(": ");
    m.append(detail);
    m
}

} // verus!
