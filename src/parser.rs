use crate::record::{RecordView, Sequence};
use vstd::prelude::*;
use vstd::slice::slice_to_vec;
use vstd::utf8::{decode_utf8, decode_utf8_encode_utf8, encode_utf8, valid_utf8};

verus! {

/// The byte that opens a header line (`>`).
pub const HEADER_BYTE: u8 = 62;

/// The line terminator (`\n`).
pub const LINE_END: u8 = 10;

/// The identifier given to the record that collects whatever precedes the
/// first header line.
pub const PLACEHOLDER_ID: &'static str = "INVALID_ID_FIRST_ENTRY_YOU_SHOULD_NOT_SEE_THIS";

/// Why a line could not be taken in.
#[derive(Debug, Clone, Copy, PartialEq, Eq)]
pub enum ParseError {
    /// The identifier of a header line is not valid UTF-8.
    InvalidIdentifier,
}

pub open spec fn placeholder_id() -> Seq<char> {
    PLACEHOLDER_ID@
}

/// A line opens a new record when its first byte is the header byte.
pub open spec fn is_header(line: Seq<u8>) -> bool {
    line.len() > 0 && line[0] == HEADER_BYTE
}

/// The line without its terminator, if it has one.
pub open spec fn strip_end(line: Seq<u8>) -> Seq<u8> {
    if line.len() > 0 && line.last() == LINE_END {
        line.drop_last()
    } else {
        line
    }
}

/// The identifier bytes of a header line: the sentinel byte and the
/// terminator removed.
pub open spec fn header_text(line: Seq<u8>) -> Seq<u8> {
    let s = strip_end(line);
    s.subrange(1, s.len() as int)
}

/// The stripped lines concatenated.
pub open spec fn concat_stripped(lines: Seq<Seq<u8>>) -> Seq<u8>
    decreases lines.len(),
{
    if lines.len() == 0 {
        Seq::empty()
    } else {
        concat_stripped(lines.drop_last()) + strip_end(lines.last())
    }
}

/// The number of header lines.
pub open spec fn header_count(lines: Seq<Seq<u8>>) -> nat
    decreases lines.len(),
{
    if lines.len() == 0 {
        0
    } else {
        header_count(lines.drop_last()) + if is_header(lines.last()) { 1nat } else { 0nat }
    }
}

/// The first line is a header: nothing precedes the first record, and no
/// placeholder record is emitted.
pub open spec fn opens_with_header(lines: Seq<Seq<u8>>) -> bool {
    lines.len() > 0 && is_header(lines[0])
}

/// How many placeholder records an input yields: one, unless it opens with
/// a header.
pub open spec fn placeholder_count(lines: Seq<Seq<u8>>) -> nat {
    if opens_with_header(lines) {
        0
    } else {
        1
    }
}

/// The number of records closed after reading `lines`: each header closes
/// the record before it, but a header on the first line has none to close.
pub open spec fn closed_count(lines: Seq<Seq<u8>>) -> nat {
    if opens_with_header(lines) {
        (header_count(lines) - 1) as nat
    } else {
        header_count(lines)
    }
}

/// The index in the output of the record opened by the header at `h`: one
/// for each earlier header, after the placeholder if there is one.
pub open spec fn record_index(lines: Seq<Seq<u8>>, h: int) -> nat {
    header_count(lines.take(h)) + placeholder_count(lines)
}

/// Every header line of the input has a UTF-8 identifier.
pub open spec fn ids_valid(lines: Seq<Seq<u8>>) -> bool {
    forall|i: int| 0 <= i < lines.len() && is_header(#[trigger] lines[i]) ==> valid_utf8(
        header_text(lines[i]),
    )
}

/// A record before its identifier is decoded: `None` for the placeholder,
/// else the identifier bytes.
pub struct RawRecord {
    pub id: Option<Seq<u8>>,
    pub seq: Seq<u8>,
}

pub open spec fn first_raw() -> RawRecord {
    RawRecord { id: None, seq: Seq::empty() }
}

/// The records closed so far and the record still open after reading
/// `lines`.
pub open spec fn scan(lines: Seq<Seq<u8>>) -> (Seq<RawRecord>, RawRecord)
    decreases lines.len(),
{
    if lines.len() == 0 {
        (Seq::empty(), first_raw())
    } else {
        let (closed, open) = scan(lines.drop_last());
        let line = lines.last();
        if is_header(line) {
            let fresh = RawRecord { id: Some(header_text(line)), seq: Seq::empty() };
            if lines.len() == 1 {
                (closed, fresh)
            } else {
                (closed.push(open), fresh)
            }
        } else {
            (closed, RawRecord { id: open.id, seq: open.seq + strip_end(line) })
        }
    }
}

/// All records of a complete input, the last one flushed at end of stream.
pub open spec fn raw_records(lines: Seq<Seq<u8>>) -> Seq<RawRecord> {
    scan(lines).0.push(scan(lines).1)
}

/// The record as it is handed out: the identifier decoded as UTF-8.
pub open spec fn decoded(r: RawRecord) -> RecordView {
    RecordView {
        id: match r.id {
            None => placeholder_id(),
            Some(b) => decode_utf8(b),
        },
        seq: r.seq,
    }
}

/// The records that a complete input yields.
pub open spec fn records(lines: Seq<Seq<u8>>) -> Seq<RecordView> {
    raw_records(lines).map_values(|r: RawRecord| decoded(r))
}

/// Relies on `String::from_utf8`: it accepts exactly the valid UTF-8 byte
/// strings and decodes them.
#[verifier::external_body]
fn utf8_string(bytes: Vec<u8>) -> (r: Option<String>)
    ensures
        r is Some <==> valid_utf8(bytes@),
        r matches Some(s) ==> s@ == decode_utf8(bytes@),
{
    String::from_utf8(bytes).ok()
}

fn placeholder() -> (r: String)
    ensures
        r@ == placeholder_id(),
{
    PLACEHOLDER_ID.to_owned()
}

/// Appends `line` to `buf` without its terminator.
fn push_stripped(buf: &mut Vec<u8>, line: &Vec<u8>)
    ensures
        final(buf)@ == old(buf)@ + strip_end(line@),
{
    let n = line.len();
    let end = if n > 0 && line[n - 1] == LINE_END { n - 1 } else { n };
    let mut i: usize = 0;
    while i < end
        invariant
            end <= line@.len(),
            strip_end(line@) == line@.subrange(0, end as int),
            i <= end,
            buf@ == old(buf)@ + line@.subrange(0, i as int),
        decreases end - i,
    {
        buf.push(line[i]);
        i = i + 1;
        assert(line@.subrange(0, i as int) =~= line@.subrange(0, i - 1 as int).push(line@[i - 1]));
    }
    assert(line@.subrange(0, end as int) =~= strip_end(line@));
}

/// The incremental parser: it is fed one line at a time, each with its
/// terminator if it has one, and hands out a record whenever a header line
/// closes the one before it.
pub struct FastaParser {
    id: String,
    seqbuffer: Vec<u8>,
    submitted: usize,
    started: bool,
    lines: Ghost<Seq<Seq<u8>>>,
}

impl FastaParser {
    /// The lines taken in so far.
    pub closed spec fn lines(&self) -> Seq<Seq<u8>> {
        self.lines@
    }

    pub closed spec fn wf(&self) -> bool {
        &&& self.id@ == decoded(scan(self.lines@).1).id
        &&& self.seqbuffer@ == scan(self.lines@).1.seq
        &&& self.submitted == scan(self.lines@).0.len()
        &&& self.started == (self.lines@.len() > 0)
        &&& ids_valid(self.lines@)
    }

    /// A parser that has read nothing.
    pub fn new() -> (r: Self)
        ensures
            r.wf(),
            r.lines() == Seq::<Seq<u8>>::empty(),
    {
        let r = FastaParser {
            id: placeholder(),
            seqbuffer: Vec::with_capacity(8 * 1024 * 1024),
            submitted: 0,
            started: false,
            lines: Ghost(Seq::empty()),
        };
        r
    }

    /// The number of records handed out so far: one for each header line
    /// taken in, but for a header on the first line. The end of stream hands
    /// out one more.
    pub fn submitted(&self) -> (r: usize)
        requires
            self.wf(),
        ensures
            r == closed_count(self.lines()),
    {
        proof {
            lemma_closed_len(self.lines@);
        }
        self.submitted
    }

    /// Takes in one line. A header line closes the open record, which is
    /// returned, and opens a new one; a header on the very first line closes
    /// nothing. Any other line adds its residues to the open record. A header
    /// whose identifier is not UTF-8 is refused and leaves the parser as it
    /// was.
    pub fn feed_line(&mut self, line: &Vec<u8>) -> (r: Result<Option<Sequence>, ParseError>)
        requires
            old(self).wf(),
            is_header(line@) ==> closed_count(old(self).lines()) < usize::MAX,
        ensures
            final(self).wf(),
            closed_count(final(self).lines()) == closed_count(old(self).lines()) + if r matches Ok(
                Some(_),
            ) {
                1int
            } else {
                0int
            },
            r is Err <==> is_header(line@) && !valid_utf8(header_text(line@)),
            r is Err ==> final(self).lines() == old(self).lines(),
            r is Ok ==> final(self).lines() == old(self).lines().push(line@),
            r matches Ok(o) ==> (o is Some <==> is_header(line@) && old(self).lines().len() > 0),
            r matches Ok(Some(s)) ==> s@ == decoded(scan(old(self).lines()).1),
    {
        let ghost before = self.lines@;
        let ghost after = before.push(line@);
        proof {
            assert(after.drop_last() =~= before);
            lemma_closed_len(before);
            lemma_closed_len(after);
        }
        if line.len() > 0 && line[0] == HEADER_BYTE {
            let n = line.len();
            let end = if line[n - 1] == LINE_END { n - 1 } else { n };
            let mut text: Vec<u8> = Vec::new();
            let mut i: usize = 1;
            while i < end
                invariant
                    1 <= i <= end <= line@.len(),
                    n == line@.len(),
                    end == strip_end(line@).len(),
                    strip_end(line@) == line@.subrange(0, end as int),
                    text@ == line@.subrange(1, i as int),
                decreases end - i,
            {
                text.push(line[i]);
                i = i + 1;
                assert(line@.subrange(1, i as int) =~= line@.subrange(1, i - 1 as int).push(line@[i - 1]));
            }
            assert(text@ =~= header_text(line@));
            match utf8_string(text) {
                None => Err(ParseError::InvalidIdentifier),
                Some(new_id) => {
                    if !self.started {
                        self.id = new_id;
                        self.started = true;
                        self.lines = Ghost(after);
                        proof {
                            assert forall|k: int| 0 <= k < after.len() && is_header(#[trigger] after[k]) implies valid_utf8(header_text(after[k])) by {
                                if k < before.len() {
                                    assert(after[k] == before[k]);
                                }
                            }
                        }
                        return Ok(None);
                    }
                    let seq = slice_to_vec(self.seqbuffer.as_slice());
                    let mut id = new_id;
                    std::mem::swap(&mut self.id, &mut id);
                    let done = Sequence { seq, id };
                    self.seqbuffer.clear();
                    self.submitted = self.submitted + 1;
                    self.lines = Ghost(after);
                    proof {
                        assert(self.seqbuffer@ =~= Seq::<u8>::empty());
                        assert forall|k: int| 0 <= k < after.len() && is_header(#[trigger] after[k]) implies valid_utf8(header_text(after[k])) by {
                            if k < before.len() {
                                assert(after[k] == before[k]);
                            }
                        }
                    }
                    Ok(Some(done))
                },
            }
        } else {
            push_stripped(&mut self.seqbuffer, line);
            self.started = true;
            self.lines = Ghost(after);
            proof {
                assert forall|k: int| 0 <= k < after.len() && is_header(#[trigger] after[k]) implies valid_utf8(header_text(after[k])) by {
                    if k < before.len() {
                        assert(after[k] == before[k]);
                    }
                }
            }
            Ok(None)
        }
    }

    /// Ends the stream: the open record is the last one, handed out even when
    /// it is empty.
    pub fn finish(self) -> (r: Sequence)
        requires
            self.wf(),
        ensures
            r@ == decoded(scan(self.lines()).1),
            r@ == records(self.lines()).last(),
    {
        let seq = slice_to_vec(self.seqbuffer.as_slice());
        Sequence { seq, id: self.id }
    }
}

/// The lines of an input as byte sequences.
pub open spec fn lines_of(lines: Seq<Vec<u8>>) -> Seq<Seq<u8>> {
    lines.map_values(|l: Vec<u8>| l@)
}

/// Parses a whole input given as its lines, each with its terminator if it
/// has one. Succeeds exactly when every header identifier is UTF-8, and then
/// returns every record in input order, the last one flushed at the end.
pub fn parse_lines(lines: &Vec<Vec<u8>>) -> (r: Result<Vec<Sequence>, ParseError>)
    ensures
        r is Ok <==> ids_valid(lines_of(lines@)),
        r matches Ok(v) ==> v@.map_values(|s: Sequence| s@) == records(lines_of(lines@)),
{
    let ghost all = lines_of(lines@);
    let mut parser = FastaParser::new();
    let mut out: Vec<Sequence> = Vec::new();
    let mut i: usize = 0;
    while i < lines.len()
        invariant
            all == lines_of(lines@),
            i <= lines@.len(),
            parser.wf(),
            parser.lines() == all.subrange(0, i as int),
            out@.map_values(|s: Sequence| s@) == scan(parser.lines()).0.map_values(
                |r: RawRecord| decoded(r),
            ),
        decreases lines@.len() - i,
    {
        let ghost before = parser.lines();
        proof {
            lemma_count_bound(before);
            lemma_closed_len(before);
        }
        match parser.feed_line(&lines[i]) {
            Err(e) => {
                proof {
                    assert(all[i as int] == lines@[i as int]@);
                    assert(!ids_valid(all));
                }
                return Err(e);
            },
            Ok(o) => {
                proof {
                    assert(all.subrange(0, i + 1) =~= before.push(all[i as int]));
                    assert(before.push(all[i as int]).drop_last() =~= before);
                }
                match o {
                    Some(s) => {
                        let ghost prev = out@;
                        out.push(s);
                        proof {
                            assert(scan(parser.lines()).0 == scan(before).0.push(scan(before).1));
                            assert(out@ == prev.push(s));
                            assert(out@.map_values(|s: Sequence| s@) =~= prev.map_values(
                                |s: Sequence| s@,
                            ).push(s@));
                            assert(out@.map_values(|s: Sequence| s@) =~= scan(
                                parser.lines(),
                            ).0.map_values(|r: RawRecord| decoded(r)));
                        }
                    },
                    None => {},
                }
            },
        }
        i = i + 1;
    }
    proof {
        assert(all.subrange(0, i as int) =~= all);
    }
    let last = parser.finish();
    let ghost prev = out@;
    out.push(last);
    proof {
        assert(out@ == prev.push(last));
        assert(out@.map_values(|s: Sequence| s@) =~= prev.map_values(|s: Sequence| s@).push(
            last@,
        ));
        assert(out@.map_values(|s: Sequence| s@) =~= records(all));
    }
    Ok(out)
}

proof fn lemma_count_bound(lines: Seq<Seq<u8>>)
    ensures
        header_count(lines) <= lines.len(),
    decreases lines.len(),
{
    if lines.len() > 0 {
        lemma_count_bound(lines.drop_last());
    }
}

proof fn lemma_closed_len(lines: Seq<Seq<u8>>)
    ensures
        opens_with_header(lines) ==> header_count(lines) >= 1,
        scan(lines).0.len() == closed_count(lines),
        !opens_with_header(lines) ==> (scan(lines).0.len() == 0 ==> scan(lines).1.id is None),
        !opens_with_header(lines) ==> (scan(lines).0.len() > 0 ==> scan(lines).0[0].id is None),
        opens_with_header(lines) ==> scan(lines).1.id is Some,
        opens_with_header(lines) ==> forall|k: int|
            0 <= k < scan(lines).0.len() ==> (#[trigger] scan(lines).0[k]).id is Some,
    decreases lines.len(),
{
    if lines.len() > 0 {
        let prev = lines.drop_last();
        lemma_closed_len(prev);
        if lines.len() > 1 {
            assert(prev[0] == lines[0]);
        }
        if opens_with_header(lines) && is_header(lines.last()) && lines.len() > 1 {
            let (closed, open) = scan(prev);
            assert forall|k: int| 0 <= k < scan(lines).0.len() implies (#[trigger] scan(
                lines,
            ).0[k]).id is Some by {
                if k < closed.len() {
                    assert(scan(lines).0[k] == closed[k]);
                } else {
                    assert(scan(lines).0[k] == open);
                }
            }
        }
    }
}

/// The records closed after a prefix stay, in place, among the records
/// closed after a longer prefix.
proof fn lemma_closed_prefix(lines: Seq<Seq<u8>>, m: int, n: int)
    requires
        0 <= m <= n <= lines.len(),
    ensures
        scan(lines.take(m)).0.len() <= scan(lines.take(n)).0.len(),
        forall|k: int|
            0 <= k < scan(lines.take(m)).0.len() ==> #[trigger] scan(lines.take(n)).0[k] == scan(
                lines.take(m),
            ).0[k],
    decreases n - m,
{
    if m < n {
        lemma_closed_prefix(lines, m, n - 1);
        assert(lines.take(n).drop_last() =~= lines.take(n - 1));
    }
}

/// Inside a run of lines without a header, the closed records stay as they
/// are and the open record gathers the stripped lines.
proof fn lemma_open_run(lines: Seq<Seq<u8>>, s: int, m: int)
    requires
        0 <= s <= m <= lines.len(),
        forall|j: int| s <= j < m ==> !is_header(#[trigger] lines[j]),
    ensures
        scan(lines.take(m)).0 == scan(lines.take(s)).0,
        scan(lines.take(m)).1 == (RawRecord {
            id: scan(lines.take(s)).1.id,
            seq: scan(lines.take(s)).1.seq + concat_stripped(lines.subrange(s, m)),
        }),
    decreases m - s,
{
    if m == s {
        assert(lines.subrange(s, m) =~= Seq::<Seq<u8>>::empty());
        assert(scan(lines.take(s)).1.seq + Seq::<u8>::empty() =~= scan(lines.take(s)).1.seq);
    } else {
        lemma_open_run(lines, s, m - 1);
        assert(lines.take(m).drop_last() =~= lines.take(m - 1));
        assert(lines.take(m).last() == lines[m - 1]);
        assert(lines.subrange(s, m).drop_last() =~= lines.subrange(s, m - 1));
        assert(lines.subrange(s, m).last() == lines[m - 1]);
        let a = scan(lines.take(s)).1.seq;
        let b = concat_stripped(lines.subrange(s, m - 1));
        let c = strip_end(lines[m - 1]);
        assert((a + b) + c =~= a + (b + c));
    }
}

/// The record opened at position `s` (the start, or just after a header)
/// ends at `e`, the next header or the end of input, and is then the record
/// at index `k` of the output, where `k` is the number of records closed
/// before it.
proof fn lemma_segment(lines: Seq<Seq<u8>>, s: int, e: int)
    requires
        0 <= s <= e <= lines.len(),
        forall|j: int| s <= j < e ==> !is_header(#[trigger] lines[j]),
        e == lines.len() || (0 < e && is_header(lines[e])),
    ensures
        scan(lines.take(s)).0.len() < raw_records(lines).len(),
        raw_records(lines)[scan(lines.take(s)).0.len() as int] == (RawRecord {
            id: scan(lines.take(s)).1.id,
            seq: scan(lines.take(s)).1.seq + concat_stripped(lines.subrange(s, e)),
        }),
{
    lemma_open_run(lines, s, e);
    let k = scan(lines.take(s)).0.len() as int;
    if e == lines.len() {
        assert(lines.take(e) =~= lines);
    } else {
        assert(lines.take(e + 1).drop_last() =~= lines.take(e));
        assert(lines.take(e + 1).last() == lines[e]);
        lemma_closed_prefix(lines, e + 1, lines.len() as int);
        assert(lines.take(lines.len() as int) =~= lines);
        assert(scan(lines.take(e + 1)).0[k] == scan(lines.take(e)).1);
        assert(raw_records(lines)[k] == scan(lines).0[k]);
    }
}

/// An input with N header lines yields N records, plus the placeholder
/// record unless it opens with a header. When it opens with a header, every
/// record comes from a header; otherwise the first record carries the
/// placeholder identifier and, as residues, the stripped lines before the
/// first header (`first_header`, or the end of input).
pub proof fn lemma_record_count(lines: Seq<Seq<u8>>, first_header: int)
    requires
        0 <= first_header <= lines.len(),
        forall|j: int| 0 <= j < first_header ==> !is_header(#[trigger] lines[j]),
        first_header == lines.len() || is_header(lines[first_header]),
    ensures
        records(lines).len() == header_count(lines) + placeholder_count(lines),
        opens_with_header(lines) ==> forall|k: int|
            0 <= k < raw_records(lines).len() ==> (#[trigger] raw_records(lines)[k]).id is Some,
        !opens_with_header(lines) ==> records(lines)[0].id == placeholder_id(),
        !opens_with_header(lines) ==> records(lines)[0].seq == concat_stripped(
            lines.subrange(0, first_header),
        ),
{
    lemma_closed_len(lines);
    if opens_with_header(lines) {
        assert forall|k: int| 0 <= k < raw_records(lines).len() implies (#[trigger] raw_records(
            lines,
        )[k]).id is Some by {
            if k < scan(lines).0.len() {
                assert(raw_records(lines)[k] == scan(lines).0[k]);
            }
        }
    } else {
        lemma_segment(lines, 0, first_header);
        assert(lines.take(0) =~= Seq::<Seq<u8>>::empty());
        assert(Seq::<u8>::empty() + concat_stripped(lines.subrange(0, first_header))
            =~= concat_stripped(lines.subrange(0, first_header)));
    }
}

/// The record of the header at `h`, whose run of residue lines ends at `e`
/// (the next header or the end of input), is the output record at
/// `record_index(lines, h)`: after one record for each earlier header and
/// the placeholder, if any. Its residues are the stripped lines strictly
/// between, concatenated; its identifier is the header line without the
/// sentinel and terminator, and when that text is UTF-8 the identifier
/// encodes back to exactly those bytes.
pub proof fn lemma_record_of_header(lines: Seq<Seq<u8>>, h: int, e: int)
    requires
        0 <= h < e <= lines.len(),
        is_header(lines[h]),
        forall|j: int| h < j < e ==> !is_header(#[trigger] lines[j]),
        e == lines.len() || is_header(lines[e]),
    ensures
        record_index(lines, h) < records(lines).len(),
        raw_records(lines)[record_index(lines, h) as int] == (RawRecord {
            id: Some(header_text(lines[h])),
            seq: concat_stripped(lines.subrange(h + 1, e)),
        }),
        records(lines)[record_index(lines, h) as int].seq == concat_stripped(
            lines.subrange(h + 1, e),
        ),
        valid_utf8(header_text(lines[h])) ==> encode_utf8(
            records(lines)[record_index(lines, h) as int].id,
        ) == header_text(lines[h]),
{
    lemma_closed_len(lines.take(h + 1));
    assert(lines.take(h + 1).drop_last() =~= lines.take(h));
    assert(lines.take(h + 1).last() == lines[h]);
    assert(lines.take(h + 1)[0] == lines[0]);
    lemma_segment(lines, h + 1, e);
    assert(Seq::<u8>::empty() + concat_stripped(lines.subrange(h + 1, e)) =~= concat_stripped(
        lines.subrange(h + 1, e),
    ));
    if valid_utf8(header_text(lines[h])) {
        decode_utf8_encode_utf8(header_text(lines[h]));
    }
}

} // verus!
