//! Question records and the producer that walks them.

use crate::codes::QueryClass;
use crate::codes::QueryKind;
use crate::name::ParseError;
use crate::name::QuestionName;
use crate::scan::lemma_scan_question_bounds;
use crate::scan::read_question;
use crate::scan::scan_question;
use vstd::prelude::*;
use vstd::slice::slice_subrange;

verus! {

/// The 16-bit big-endian value held at offsets `j` and `j + 1`.
pub open spec fn spec_be16(buf: Seq<u8>, j: int) -> u16 {
    (buf[j] * 256 + buf[j + 1]) as u16
}

/// One complete question record: the bytes `[start, end)` of the message
/// hold its encoded name followed by the 2-byte type code and the 2-byte
/// class code.  The view borrows the buffer and copies nothing.
#[derive(Clone, Copy, Debug)]
pub struct Question<'a> {
    buf: &'a [u8],
    start: usize,
    end: usize,
}

impl<'a> Question<'a> {
    /// The message buffer the record lies in.
    pub closed spec fn sbuf(self) -> Seq<u8> {
        self.buf@
    }

    /// The offset of the record's first byte: the start of its encoded name.
    pub closed spec fn sstart(self) -> int {
        self.start as int
    }

    /// The offset one past the record's type and class tail.
    pub closed spec fn send(self) -> int {
        self.end as int
    }

    /// The record is well formed: scanning one question at `start` ends
    /// exactly at `end`.  This puts `start < end <= len` and the 4-byte tail
    /// just before `end`.
    pub open spec fn wf(self) -> bool {
        scan_question(self.sbuf(), self.sstart()) == Some(self.send())
    }

    /// A view of the record's name, beginning at the record's first byte.
    pub fn name(&self) -> (r: QuestionName<'a>)
        ensures
            r.sbuf() == self.sbuf(),
            r.sstart() == self.sstart(),
    {
        QuestionName::new(self.buf, self.start)
    }

    /// The record's type code, decoded from the 2 bytes at `end - 4`.
    pub fn kind(&self) -> (r: QueryKind)
        requires
            self.wf(),
        ensures
            r == QueryKind::spec_from(spec_be16(self.sbuf(), self.send() - 4)),
    {
        proof {
            lemma_scan_question_bounds(self.sbuf(), self.sstart());
        }
        let b0 = self.end - 4;
        let b1 = b0 + 1;
        let v = (self.buf[b0] as u16) * 256 + (self.buf[b1] as u16);
        QueryKind::from_u16(v)
    }

    /// The record's class code, decoded from the 2 bytes at `end - 2`.
    pub fn class(&self) -> (r: QueryClass)
        requires
            self.wf(),
        ensures
            r == QueryClass::spec_from(spec_be16(self.sbuf(), self.send() - 2)),
    {
        proof {
            lemma_scan_question_bounds(self.sbuf(), self.sstart());
        }
        let b0 = self.end - 2;
        let b1 = b0 + 1;
        let v = (self.buf[b0] as u16) * 256 + (self.buf[b1] as u16);
        QueryClass::from_u16(v)
    }

    /// The record's verbatim wire encoding, `[start, end)`: name, type code
    /// and class code exactly as they stand in the message.
    pub fn as_bytes(&self) -> (r: &'a [u8])
        requires
            self.wf(),
        ensures
            r@ == self.sbuf().subrange(self.sstart(), self.send()),
    {
        proof {
            lemma_scan_question_bounds(self.sbuf(), self.sstart());
        }
        slice_subrange(self.buf, self.start, self.end)
    }
}

/// Forward-only, single-pass producer of the question records of a message.
///
/// It holds the buffer, the number of questions it is expected to yield, the
/// number already yielded, and the cursor where the next record begins.
pub struct Questions<'a> {
    question_count: usize,
    current_question: usize,
    buf: &'a [u8],
    buf_i: usize,
}

impl<'a> Questions<'a> {
    /// The message buffer the producer walks.
    pub closed spec fn sbuf(self) -> Seq<u8> {
        self.buf@
    }

    /// How many questions the producer was asked for.
    pub closed spec fn scount(self) -> int {
        self.question_count as int
    }

    /// How many questions it has yielded so far.
    pub closed spec fn sproduced(self) -> int {
        self.current_question as int
    }

    /// The offset where the next record would begin.
    pub closed spec fn scursor(self) -> int {
        self.buf_i as int
    }

    /// A producer over `buf` that will yield `count` questions, the first
    /// beginning at offset `start`.
    pub fn new(buf: &'a [u8], start: usize, count: usize) -> (r: Questions<'a>)
        ensures
            r.sbuf() == buf@,
            r.scount() == count as int,
            r.sproduced() == 0,
            r.scursor() == start as int,
    {
        Questions { question_count: count, current_question: 0, buf, buf_i: start }
    }

    /// Yields the next question record, if any are still owed.
    ///
    /// Once the expected count has been produced the producer is exhausted
    /// and yields nothing, which is not an error.  When the record at the
    /// cursor does not scan, the producer reports the truncation as a value
    /// and is exhausted from then on.
    pub fn next(&mut self) -> (r: Option<Result<Question<'a>, ParseError>>)
        ensures
            final(self).sbuf() == old(self).sbuf(),
            final(self).scount() == old(self).scount(),
            old(self).sproduced() >= old(self).scount() ==> r is None && final(self).sproduced()
                == old(self).sproduced() && final(self).scursor() == old(self).scursor(),
            old(self).sproduced() < old(self).scount() ==> match scan_question(
                old(self).sbuf(),
                old(self).scursor(),
            ) {
                Some(e) => {
                    &&& r matches Some(q) && q matches Ok(q) && q.sbuf() == old(self).sbuf()
                        && q.sstart() == old(self).scursor() && q.send() == e && q.wf()
                    &&& final(self).scursor() == e
                    &&& final(self).sproduced() == old(self).sproduced() + 1
                },
                None => {
                    &&& r == Some(Err::<Question<'a>, ParseError>(ParseError::Truncated))
                    &&& final(self).sproduced() == final(self).scount()
                    &&& final(self).scursor() == old(self).scursor()
                },
            },
    {
        if self.current_question >= self.question_count {
            return None;
        }
        let mut i = self.buf_i;
        if read_question(self.buf, &mut i) {
            let question = Question { buf: self.buf, start: self.buf_i, end: i };
            self.current_question = self.current_question + 1;
            self.buf_i = i;
            Some(Ok(question))
        } else {
            self.current_question = self.question_count;
            Some(Err(ParseError::Truncated))
        }
    }
}

/// The cursor after `n` question records scanned back-to-back from `i`, or
/// `None` when one of them fails to scan.
pub open spec fn records_end(buf: Seq<u8>, i: int, n: nat) -> Option<int>
    decreases n,
{
    if n == 0 {
        Some(i)
    } else {
        match scan_question(buf, i) {
            Some(e) => records_end(buf, e, (n - 1) as nat),
            None => None,
        }
    }
}

/// Scanning `n + 1` records back-to-back is scanning `n` and then one more.
pub proof fn lemma_records_end_snoc(buf: Seq<u8>, i: int, n: nat)
    ensures
        records_end(buf, i, n + 1) == match records_end(buf, i, n) {
            Some(c) => scan_question(buf, c),
            None => None::<int>,
        },
    decreases n,
{
    if n == 0 {
        match scan_question(buf, i) {
            Some(e) => {
                assert(records_end(buf, e, 0) == Some(e));
                assert(records_end(buf, i, 1) == Some(e));
            },
            None => {
                assert(records_end(buf, i, 1) is None);
            },
        }
    } else {
        match scan_question(buf, i) {
            Some(e) => {
                lemma_records_end_snoc(buf, e, (n - 1) as nat);
                assert(records_end(buf, i, n + 1) == records_end(buf, e, n));
                assert(records_end(buf, i, n) == records_end(buf, e, (n - 1) as nat));
            },
            None => {
                assert(records_end(buf, i, n + 1) is None);
                assert(records_end(buf, i, n) is None);
            },
        }
    }
}

/// Once scanning some prefix of the records fails, scanning any longer run
/// fails too.
pub proof fn lemma_records_end_none_mono(buf: Seq<u8>, i: int, n: nat, m: nat)
    requires
        n <= m,
        records_end(buf, i, n) is None,
    ensures
        records_end(buf, i, m) is None,
    decreases n,
{
    if n > 0 {
        match scan_question(buf, i) {
            Some(e) => {
                lemma_records_end_none_mono(buf, e, (n - 1) as nat, (m - 1) as nat);
            },
            None => {},
        }
    }
}

/// Reads `count` question records from `buf`, the first beginning at offset
/// `start`.
///
/// On success the returned views tile the scanned region exactly: the first
/// starts at `start`, each next one starts where the previous ended, every
/// view is well formed, and there are exactly `count` of them.  When the
/// records do not fit the buffer, the truncation comes back as an error
/// value.
pub fn parse_questions<'a>(buf: &'a [u8], start: usize, count: usize) -> (r: Result<
    Vec<Question<'a>>,
    ParseError,
>)
    ensures
        match r {
            Ok(v) => {
                &&& records_end(buf@, start as int, count as nat) is Some
                &&& v@.len() == count
                &&& forall|k: int|
                    0 <= k < count ==> (#[trigger] v@[k]).wf() && v@[k].sbuf() == buf@
                        && records_end(buf@, start as int, k as nat) == Some(v@[k].sstart())
                        && records_end(buf@, start as int, (k + 1) as nat) == Some(v@[k].send())
                &&& forall|k: int| 1 <= k < count ==> (#[trigger] v@[k]).sstart() == v@[k - 1].send()
            },
            Err(e) => {
                &&& e == ParseError::Truncated
                &&& records_end(buf@, start as int, count as nat) is None
            },
        },
{
    let mut questions = Questions::new(buf, start, count);
    let mut v: Vec<Question<'a>> = Vec::new();
    loop
        invariant
            questions.sbuf() == buf@,
            questions.scount() == count as int,
            questions.sproduced() == v@.len() as int,
            v@.len() <= count,
            records_end(buf@, start as int, v@.len() as nat) == Some(questions.scursor()),
            forall|k: int|
                0 <= k < v@.len() ==> (#[trigger] v@[k]).wf() && v@[k].sbuf() == buf@
                    && records_end(buf@, start as int, k as nat) == Some(v@[k].sstart())
                    && records_end(buf@, start as int, (k + 1) as nat) == Some(v@[k].send()),
        decreases count - v@.len(),
    {
        if v.len() == count {
            return Ok(v);
        }
        let ghost done = v@.len() as nat;
        proof {
            lemma_records_end_snoc(buf@, start as int, done);
        }
        match questions.next() {
            None => {
                assert(false);
                return Err(ParseError::Truncated);
            },
            Some(Ok(question)) => {
                v.push(question);
            },
            Some(Err(e)) => {
                proof {
                    lemma_records_end_none_mono(
                        buf@,
                        start as int,
                        done + 1,
                        count as nat,
                    );
                }
                return Err(e);
            },
        }
    }
}

} // verus!
