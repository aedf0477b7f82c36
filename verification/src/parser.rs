//! The streaming driver over an LCOV byte stream: a pull interface
//! ([`LCOVParser::parse_next`]), a batch interface ([`parse_all`]) and a
//! callback interface ([`each_records`]), all sharing one line loop.

use crate::combinator::{content, decode_content, lemma_unknown_directive_rejected, no_directive, spec_decode};
use crate::record::{formattable, lemma_spec_format_valid, spec_format, wf_model, LCOVRecord, RecordModel};
use crate::text::{
    dec_digits, find_byte, idx_from, int_field, is_digit, lemma_dec_digits, lemma_field_valid,
    lemma_idx_from, lemma_idx_from_is, utf8_decode,
};
use vstd::prelude::*;
use vstd::slice::{slice_subrange, slice_to_vec};
use vstd::utf8::{decode_utf8_encode_utf8, encode_utf8, valid_utf8};

verus! {

/// The category of an I/O failure reported by a byte source.  The driver in
/// this crate reads from memory and never produces one; streaming front
/// ends map their source's failures onto these.
#[derive(Clone, Copy, Debug, PartialEq, Eq, Structural)]
pub enum IoErrorKind {
    Interrupted,
    UnexpectedEof,
    InvalidData,
    Other,
}

/// Why a line could not be decoded: the source failed, the line was not
/// UTF-8 (the offending bytes are kept), or the line was well-formed text
/// that matches no directive (the line and the 1-based column of the first
/// offending byte are kept).
#[derive(Clone, Debug, PartialEq, Eq)]
pub enum RecordParsedError {
    Read(IoErrorKind),
    Record(String, usize),
    UTF8(Vec<u8>),
}

/// The mathematical shape of a parse error; text appears as its UTF-8 bytes.
pub enum ErrorModel {
    Read { kind: IoErrorKind },
    Record { source: Seq<u8>, column: int },
    Utf8 { bytes: Seq<u8> },
}

impl View for RecordParsedError {
    type V = ErrorModel;

    open spec fn view(&self) -> ErrorModel {
        match self {
            RecordParsedError::Read(k) => ErrorModel::Read { kind: *k },
            RecordParsedError::Record(s, col) => ErrorModel::Record {
                source: encode_utf8(s@),
                column: *col as int,
            },
            RecordParsedError::UTF8(v) => ErrorModel::Utf8 { bytes: v@ },
        }
    }
}

/// What the bytes of one whole line (terminator included) produce: exactly
/// one record or one error, never both and never neither.
pub open spec fn line_outcome(lb: Seq<u8>) -> Result<RecordModel, ErrorModel> {
    if !valid_utf8(lb) {
        Err(ErrorModel::Utf8 { bytes: lb })
    } else {
        match spec_decode(content(lb)) {
            Ok(rm) => Ok(rm),
            Err(col) => Err(ErrorModel::Record { source: lb, column: col }),
        }
    }
}

/// Decodes one line of an LCOV report.
///
/// The input is the bytes of a single line; a trailing `\n` (or `\r\n`) is
/// tolerated and stripped, and bytes after a first interior `\n` are
/// ignored.  The result is pinned down by [`line_outcome`] for every input.
/// A line must fall just short of `usize::MAX` bytes so that every failure
/// column fits in a `usize` — which any real slice satisfies.
pub fn parse_record(input: &[u8]) -> (r: Result<LCOVRecord, RecordParsedError>)
    requires
        input@.len() < usize::MAX,
    ensures
        match r {
            Ok(rec) => line_outcome(input@) == Ok::<RecordModel, ErrorModel>(rec@),
            Err(e) => line_outcome(input@) == Err::<RecordModel, ErrorModel>(e@),
        },
{
    match utf8_decode(input) {
        None => Err(RecordParsedError::UTF8(slice_to_vec(input))),
        Some(src) => {
            let e2 = crate::combinator::content_end(input);
            proof {
                lemma_field_valid(input@, 0, e2 as int);
            }
            let c = slice_subrange(input, 0, e2);
            match decode_content(c) {
                Ok(rec) => Ok(rec),
                Err(col) => {
                    proof {
                        decode_utf8_encode_utf8(input@);
                    }
                    Err(RecordParsedError::Record(src, col))
                },
            }
        },
    }
}

/// End of the line starting at `p`: just past the first newline at or after
/// `p`, or the end of the input when no newline remains.
pub open spec fn line_end(s: Seq<u8>, p: int) -> int {
    if idx_from(s, p, 10u8) == s.len() {
        s.len() as int
    } else {
        idx_from(s, p, 10u8) + 1
    }
}

/// One step of the driver: a record tagged with its 1-based line number,
/// end of input, or an error for the line just consumed.
#[derive(Clone, Debug, PartialEq, Eq)]
pub enum ParsedResult {
    Record(LCOVRecord, u32),
    Eof,
    Error(RecordParsedError),
}

/// Streaming driver: owns the input bytes, yields one outcome per line, and
/// keeps a 1-based line counter that grows by exactly one per line read —
/// also across lines that fail to decode.
pub struct LCOVParser {
    input: Vec<u8>,
    pos: usize,
    line: u32,
}

impl LCOVParser {
    /// The bytes being parsed.
    pub closed spec fn src(&self) -> Seq<u8> {
        self.input@
    }

    /// The cursor: everything before it has been consumed.
    pub closed spec fn position(&self) -> int {
        self.pos as int
    }

    /// How many lines have been read so far.
    pub closed spec fn lines_read(&self) -> int {
        self.line as int
    }

    /// Validity: the cursor stays inside the input, the line counter never
    /// exceeds the cursor (every line holds at least one byte), and the
    /// input leaves room in the 32-bit counter.
    pub closed spec fn wf(&self) -> bool {
        self.line as int <= self.pos as int && self.pos as int <= self.input@.len()
            && self.input@.len() < u32::MAX as int
    }

    /// A driver over in-memory bytes.  The 32-bit line counter limits the
    /// input to `u32::MAX` bytes.
    pub fn new(input: Vec<u8>) -> (r: LCOVParser)
        requires
            input@.len() < u32::MAX as int,
        ensures
            r.wf(),
            r.src() == input@,
            r.position() == 0,
            r.lines_read() == 0,
    {
        LCOVParser { input, pos: 0, line: 0 }
    }

    /// Reads and decodes the next line.
    ///
    /// At the end of the input it yields `Eof` and changes nothing; before
    /// that it consumes exactly the next line, increments the line counter
    /// by one, and yields that line's outcome — a record tagged with the
    /// counter, or the line's error.  The driver stays usable after an
    /// error: the next call moves on to the following line.
    pub fn parse_next(&mut self) -> (r: ParsedResult)
        requires
            old(self).wf(),
        ensures
            final(self).wf(),
            final(self).src() == old(self).src(),
            old(self).position() == old(self).src().len() ==> r is Eof && final(self).position()
                == old(self).position() && final(self).lines_read() == old(self).lines_read(),
            old(self).position() < old(self).src().len() ==> ({
                let s = old(self).src();
                let p = old(self).position();
                let e = line_end(s, p);
                &&& final(self).position() == e
                &&& final(self).lines_read() == old(self).lines_read() + 1
                &&& match line_outcome(s.subrange(p, e)) {
                    Ok(rm) => r matches ParsedResult::Record(rec, ln) && rec@ == rm && ln as int
                        == final(self).lines_read(),
                    Err(em) => r matches ParsedResult::Error(err) && err@ == em,
                }
            }),
    {
        let n = self.input.len();
        if self.pos == n {
            return ParsedResult::Eof;
        }
        let e1 = find_byte(self.input.as_slice(), self.pos, 10);
        proof {
            lemma_idx_from(self.input@, self.pos as int, 10u8);
        }
        let end = if e1 == n {
            n
        } else {
            e1 + 1
        };
        let lb = slice_subrange(self.input.as_slice(), self.pos, end);
        let r = match parse_record(lb) {
            Ok(rec) => ParsedResult::Record(rec, self.line + 1),
            Err(err) => ParsedResult::Error(err),
        };
        self.pos = end;
        self.line = self.line + 1;
        r
    }

    /// The number of lines consumed so far; the line number of the record
    /// most recently yielded.
    pub fn current_record_count(&self) -> (n: u32)
        ensures
            n as int == self.lines_read(),
    {
        self.line
    }
}

/// The outcomes of all lines from position `p` on, stopping at the first
/// error: the batch-parsing semantics.
pub open spec fn spec_parse_from(s: Seq<u8>, p: int) -> Result<Seq<RecordModel>, ErrorModel>
    decreases s.len() - p,
    when 0 <= p
    via spec_parse_from_dec
{
    if p < 0 || p >= s.len() {
        Ok(Seq::empty())
    } else {
        let e = line_end(s, p);
        match line_outcome(s.subrange(p, e)) {
            Err(em) => Err(em),
            Ok(rm) => match spec_parse_from(s, e) {
                Err(em) => Err(em),
                Ok(rest) => Ok(seq![rm] + rest),
            },
        }
    }
}

#[via_fn]
proof fn spec_parse_from_dec(s: Seq<u8>, p: int) {
    if 0 <= p < s.len() {
        lemma_idx_from(s, p, 10u8);
    }
}

/// Decodes a whole in-memory report, collecting the records in input
/// order; the first malformed line aborts with its error.
pub fn parse_all(input: &[u8]) -> (r: Result<Vec<LCOVRecord>, RecordParsedError>)
    requires
        input@.len() < u32::MAX as int,
    ensures
        match r {
            Ok(v) => spec_parse_from(input@, 0) == Ok::<Seq<RecordModel>, ErrorModel>(
                v@.map_values(|rec: LCOVRecord| rec@),
            ),
            Err(e) => spec_parse_from(input@, 0) == Err::<Seq<RecordModel>, ErrorModel>(e@),
        },
{
    let mut parser = LCOVParser::new(slice_to_vec(input));
    let mut out: Vec<LCOVRecord> = Vec::new();
    loop
        invariant
            parser.wf(),
            parser.src() == input@,
            0 <= parser.position() <= input@.len(),
            match spec_parse_from(input@, parser.position()) {
                Ok(rest) => spec_parse_from(input@, 0) == Ok::<Seq<RecordModel>, ErrorModel>(
                    out@.map_values(|rec: LCOVRecord| rec@) + rest,
                ),
                Err(em) => spec_parse_from(input@, 0) == Err::<Seq<RecordModel>, ErrorModel>(em),
            },
        decreases input@.len() - parser.position(),
    {
        let ghost p = parser.position();
        match parser.parse_next() {
            ParsedResult::Eof => {
                proof {
                    assert(out@.map_values(|rec: LCOVRecord| rec@) + Seq::<RecordModel>::empty()
                        =~= out@.map_values(|rec: LCOVRecord| rec@));
                }
                return Ok(out);
            },
            ParsedResult::Record(rec, _) => {
                proof {
                    lemma_idx_from(input@, p, 10u8);
                    let e = line_end(input@, p);
                    let prev = out@.map_values(|r2: LCOVRecord| r2@);
                    match spec_parse_from(input@, e) {
                        Ok(rest) => {
                            assert(prev + (seq![rec@] + rest) =~= (prev + seq![rec@]) + rest);
                            assert(out@.push(rec).map_values(|r2: LCOVRecord| r2@) =~= prev
                                + seq![rec@]);
                        },
                        Err(_) => {},
                    }
                }
                out.push(rec);
            },
            ParsedResult::Error(err) => {
                return Err(err);
            },
        }
    }
}

/// Feeds every record of an in-memory report, in input order, to the
/// callback; the first malformed line aborts with its error instead of
/// reaching the callback.
pub fn each_records<F: Fn(LCOVRecord)>(input: &[u8], callback: F) -> (r: Result<
    (),
    RecordParsedError,
>)
    requires
        input@.len() < u32::MAX as int,
        forall|rec: LCOVRecord| #[trigger] callback.requires((rec,)),
    ensures
        r is Ok <==> spec_parse_from(input@, 0) is Ok,
        r matches Err(e) ==> spec_parse_from(input@, 0) == Err::<Seq<RecordModel>, ErrorModel>(e@),
{
    let mut parser = LCOVParser::new(slice_to_vec(input));
    loop
        invariant
            parser.wf(),
            parser.src() == input@,
            0 <= parser.position() <= input@.len(),
            forall|rec: LCOVRecord| #[trigger] callback.requires((rec,)),
            (spec_parse_from(input@, parser.position()) is Ok) == (spec_parse_from(input@, 0)
                is Ok),
            spec_parse_from(input@, parser.position()) matches Err(em) ==> spec_parse_from(
                input@,
                0,
            ) == Err::<Seq<RecordModel>, ErrorModel>(em),
        decreases input@.len() - parser.position(),
    {
        let ghost p = parser.position();
        match parser.parse_next() {
            ParsedResult::Eof => {
                return Ok(());
            },
            ParsedResult::Record(rec, _) => {
                proof {
                    lemma_idx_from(input@, p, 10u8);
                }
                callback(rec);
            },
            ParsedResult::Error(err) => {
                return Err(err);
            },
        }
    }
}

/// How many outputs the driver yields from position `p` on: one per line.
pub open spec fn output_count(s: Seq<u8>, p: int) -> nat
    decreases s.len() - p,
    when 0 <= p
    via output_count_dec
{
    if p < 0 || p >= s.len() {
        0
    } else {
        1 + output_count(s, line_end(s, p))
    }
}

#[via_fn]
proof fn output_count_dec(s: Seq<u8>, p: int) {
    if 0 <= p < s.len() {
        lemma_idx_from(s, p, 10u8);
    }
}

/// How many newline bytes `s` holds at or after position `p`.
pub open spec fn nl_count(s: Seq<u8>, p: int) -> nat
    decreases s.len() - p,
{
    if p < 0 || p >= s.len() {
        0
    } else {
        (if s[p] == 10 {
            1nat
        } else {
            0nat
        }) + nl_count(s, p + 1)
    }
}

proof fn lemma_nl_skip(s: Seq<u8>, p: int, q: int)
    requires
        0 <= p <= q <= s.len(),
        forall|k: int| p <= k < q ==> s[k] != 10,
    ensures
        nl_count(s, p) == nl_count(s, q),
    decreases q - p,
{
    if p < q {
        lemma_nl_skip(s, p + 1, q);
    }
}

proof fn lemma_output_count_from(s: Seq<u8>, p: int)
    requires
        s.len() > 0,
        s[s.len() - 1] == 10,
        0 <= p <= s.len(),
    ensures
        output_count(s, p) == nl_count(s, p),
    decreases s.len() - p,
{
    if p < s.len() {
        lemma_idx_from(s, p, 10u8);
        let i = idx_from(s, p, 10u8);
        if i == s.len() {
            assert(s[s.len() - 1] != 10);
        } else {
            let e = line_end(s, p);
            lemma_nl_skip(s, p, i);
            lemma_output_count_from(s, e);
        }
    }
}

/// Law: a well-formed line whose payload opens with none of the enumerated
/// directives is rejected as an invalid record at column 1 — at or before
/// the end of whatever unrecognized prefix the line carries.
pub proof fn lemma_unknown_prefix_line(lb: Seq<u8>)
    requires
        valid_utf8(lb),
        no_directive(content(lb)),
    ensures
        line_outcome(lb) == Err::<RecordModel, ErrorModel>(
            ErrorModel::Record { source: lb, column: 1 },
        ),
{
    lemma_unknown_directive_rejected(content(lb));
}

/// Law: for an input that ends in a newline, the driver yields exactly one
/// output — a record or a decode error — per newline byte in the input.
/// Each call of [`LCOVParser::parse_next`] before the end consumes one line
/// and yields one outcome, so the outputs number `output_count(s, 0)`.
pub proof fn lemma_one_output_per_newline(s: Seq<u8>)
    requires
        s.len() > 0,
        s[s.len() - 1] == 10,
    ensures
        output_count(s, 0) == nl_count(s, 0),
{
    lemma_output_count_from(s, 0);
}

/// A body with no newline byte, followed by one newline, has exactly that
/// body as its payload.
proof fn lemma_content_line(a: Seq<u8>)
    requires
        forall|i: int| 0 <= i < a.len() ==> a[i] != 10,
        a.len() > 0,
        a.last() != 13,
    ensures
        content(a + seq![10u8]) == a,
{
    let s = a + seq![10u8];
    lemma_idx_from_is(s, 0, 10u8, a.len() as int);
    assert(s.subrange(0, a.len() as int) =~= a);
}

/// Round trip for a `DA` line.
#[verifier::rlimit(100)]
proof fn lemma_rt_da(rm: RecordModel)
    requires
        formattable(rm),
        rm is Data,
    ensures
        spec_decode(content(spec_format(rm))) == Ok::<RecordModel, int>(rm),
{
    match rm {
        RecordModel::Data { line, hits, checksum } => {
            lemma_dec_digits(line as nat);
            lemma_dec_digits(hits as nat);
            let dl = dec_digits(line as nat);
            let dh = dec_digits(hits as nat);
            let tail = match checksum {
                Some(c) => seq![44u8] + c,
                None => Seq::<u8>::empty(),
            };
            let a = seq![68u8, 65u8, 58u8] + dl + seq![44u8] + dh + tail;
            assert(spec_format(rm) == a + seq![10u8]);
            assert(forall|k: int| 0 <= k < dl.len() ==> is_digit(#[trigger] dl[k]));
            assert(forall|k: int| 0 <= k < dh.len() ==> is_digit(#[trigger] dh[k]));
            assert(forall|i: int| 0 <= i < a.len() ==> a[i] != 10);
            assert(a.last() != 13);
            lemma_content_line(a);
            let i = 3 + dl.len() as int;
            lemma_idx_from_is(a, 3, 44u8, i);
            assert(a.subrange(3, i) =~= dl);
            match checksum {
                None => {
                    lemma_idx_from_is(a, i + 1, 44u8, a.len() as int);
                    assert(a.subrange(i + 1, a.len() as int) =~= dh);
                },
                Some(c) => {
                    let j = i + 1 + dh.len() as int;
                    lemma_idx_from_is(a, i + 1, 44u8, j);
                    assert(a.subrange(i + 1, j) =~= dh);
                    assert(a.subrange(j + 1, a.len() as int) =~= c);
                },
            }
            assert(spec_decode(a) == Ok::<RecordModel, int>(rm));
        },
        _ => {},
    }
}

/// Round trip for a `BRDA` line.
#[verifier::rlimit(100)]
proof fn lemma_rt_brda(rm: RecordModel)
    requires
        formattable(rm),
        rm is BranchData,
    ensures
        spec_decode(content(spec_format(rm))) == Ok::<RecordModel, int>(rm),
{
    match rm {
        RecordModel::BranchData { line, block, branch, taken } => {
            lemma_dec_digits(line as nat);
            lemma_dec_digits(block as nat);
            lemma_dec_digits(branch as nat);
            lemma_dec_digits(taken as nat);
            let d1 = dec_digits(line as nat);
            let d2 = dec_digits(block as nat);
            let d3 = dec_digits(branch as nat);
            let d4 = dec_digits(taken as nat);
            let a = seq![66u8, 82u8, 68u8, 65u8, 58u8] + d1 + seq![44u8] + d2 + seq![44u8] + d3
                + seq![44u8] + d4;
            assert(spec_format(rm) == a + seq![10u8]);
            assert(forall|k: int| 0 <= k < d1.len() ==> is_digit(#[trigger] d1[k]));
            assert(forall|k: int| 0 <= k < d2.len() ==> is_digit(#[trigger] d2[k]));
            assert(forall|k: int| 0 <= k < d3.len() ==> is_digit(#[trigger] d3[k]));
            assert(forall|k: int| 0 <= k < d4.len() ==> is_digit(#[trigger] d4[k]));
            assert(forall|i: int| 0 <= i < a.len() ==> a[i] != 10);
            assert(a.last() != 13);
            lemma_content_line(a);
            let i1 = 5 + d1.len() as int;
            lemma_idx_from_is(a, 5, 44u8, i1);
            assert(a.subrange(5, i1) =~= d1);
            let i2 = i1 + 1 + d2.len() as int;
            lemma_idx_from_is(a, i1 + 1, 44u8, i2);
            assert(a.subrange(i1 + 1, i2) =~= d2);
            let i3 = i2 + 1 + d3.len() as int;
            lemma_idx_from_is(a, i2 + 1, 44u8, i3);
            assert(a.subrange(i2 + 1, i3) =~= d3);
            let t = a.subrange(i3 + 1, a.len() as int);
            assert(t =~= d4);
            assert(!(t.len() == 1 && t[0] == 45));
            assert(spec_decode(a) == Ok::<RecordModel, int>(rm));
        },
        _ => {},
    }
}

/// Round trip for the two directives whose payload is plain text.
#[verifier::rlimit(100)]
proof fn lemma_rt_text(rm: RecordModel)
    requires
        formattable(rm),
        rm is TestName || rm is SourceFile,
    ensures
        spec_decode(content(spec_format(rm))) == Ok::<RecordModel, int>(rm),
{
    match rm {
        RecordModel::TestName { name } => {
            let a = seq![84u8, 78u8, 58u8] + name;
            assert(spec_format(rm) == a + seq![10u8]);
            assert(forall|i: int| 0 <= i < a.len() ==> a[i] != 10);
            assert(a.last() != 13);
            lemma_content_line(a);
            assert(a.subrange(3, a.len() as int) =~= name);
            assert(spec_decode(a) == Ok::<RecordModel, int>(rm));
        },
        RecordModel::SourceFile { path } => {
            let a = seq![83u8, 70u8, 58u8] + path;
            assert(spec_format(rm) == a + seq![10u8]);
            assert(forall|i: int| 0 <= i < a.len() ==> a[i] != 10);
            assert(a.last() != 13);
            lemma_content_line(a);
            assert(a.subrange(3, a.len() as int) =~= path);
            assert(spec_decode(a) == Ok::<RecordModel, int>(rm));
        },
        _ => {},
    }
}

/// Round trip for `FN` and `FNDA`: an integer, a comma, then a name.
#[verifier::rlimit(100)]
proof fn lemma_rt_fn(rm: RecordModel)
    requires
        formattable(rm),
        rm is FunctionName || rm is FunctionData,
    ensures
        spec_decode(content(spec_format(rm))) == Ok::<RecordModel, int>(rm),
{
    match rm {
        RecordModel::FunctionName { start_line, name } => {
            lemma_dec_digits(start_line as nat);
            let d = dec_digits(start_line as nat);
            let a = seq![70u8, 78u8, 58u8] + d + seq![44u8] + name;
            assert(spec_format(rm) == a + seq![10u8]);
            assert(forall|k: int| 0 <= k < d.len() ==> is_digit(#[trigger] d[k]));
            assert(forall|i: int| 0 <= i < a.len() ==> a[i] != 10);
            assert(a.last() != 13);
            lemma_content_line(a);
            let i = 3 + d.len() as int;
            lemma_idx_from_is(a, 3, 44u8, i);
            assert(a.subrange(3, i) =~= d);
            assert(a.subrange(i + 1, a.len() as int) =~= name);
            assert(spec_decode(a) == Ok::<RecordModel, int>(rm));
        },
        RecordModel::FunctionData { hits, name } => {
            lemma_dec_digits(hits as nat);
            let d = dec_digits(hits as nat);
            let a = seq![70u8, 78u8, 68u8, 65u8, 58u8] + d + seq![44u8] + name;
            assert(spec_format(rm) == a + seq![10u8]);
            assert(forall|k: int| 0 <= k < d.len() ==> is_digit(#[trigger] d[k]));
            assert(forall|i: int| 0 <= i < a.len() ==> a[i] != 10);
            assert(a.last() != 13);
            lemma_content_line(a);
            let i = 5 + d.len() as int;
            lemma_idx_from_is(a, 5, 44u8, i);
            assert(a.subrange(5, i) =~= d);
            assert(a.subrange(i + 1, a.len() as int) =~= name);
            assert(spec_decode(a) == Ok::<RecordModel, int>(rm));
        },
        _ => {},
    }
}

/// The payload and decoding of one count-carrying line `pre ++ digits ++ \n`.
proof fn lemma_rt_count(pre: Seq<u8>, v: u32)
    requires
        3 <= pre.len() <= 4,
        forall|i: int| 0 <= i < pre.len() ==> #[trigger] pre[i] != 10 && pre[i] != 13,
    ensures
        content(pre + dec_digits(v as nat) + seq![10u8]) == pre + dec_digits(v as nat),
        int_field((pre + dec_digits(v as nat)).subrange(
            pre.len() as int,
            (pre + dec_digits(v as nat)).len() as int,
        )) == Some(v),
{
    lemma_dec_digits(v as nat);
    let d = dec_digits(v as nat);
    let a = pre + d;
    assert(forall|k: int| 0 <= k < d.len() ==> is_digit(#[trigger] d[k]));
    assert(forall|i: int| 0 <= i < a.len() ==> a[i] != 10);
    assert(a.last() != 13);
    lemma_content_line(a);
    assert(a.subrange(pre.len() as int, a.len() as int) =~= d);
}

/// Round trip for the six directives that carry one count.
proof fn lemma_rt_counted(rm: RecordModel)
    requires
        formattable(rm),
        rm is FunctionsFound || rm is FunctionsHit || rm is BranchesFound || rm is BranchesHit
            || rm is LinesFound || rm is LinesHit,
    ensures
        spec_decode(content(spec_format(rm))) == Ok::<RecordModel, int>(rm),
{
    match rm {
        RecordModel::FunctionsFound { count } => lemma_rt_fnf(count),
        RecordModel::FunctionsHit { count } => lemma_rt_fnh(count),
        RecordModel::BranchesFound { count } => lemma_rt_brf(count),
        RecordModel::BranchesHit { count } => lemma_rt_brh(count),
        RecordModel::LinesFound { count } => lemma_rt_lf(count),
        RecordModel::LinesHit { count } => lemma_rt_lh(count),
        _ => {},
    }
}

proof fn lemma_rt_fnf(count: u32)
    ensures
        spec_decode(content(spec_format(RecordModel::FunctionsFound { count }))) == Ok::<RecordModel, int>(
            RecordModel::FunctionsFound { count },
        ),
{
    let rm = RecordModel::FunctionsFound { count };
    lemma_rt_count(seq![70u8, 78u8, 70u8, 58u8], count);
    let a = seq![70u8, 78u8, 70u8, 58u8] + dec_digits(count as nat);
    assert(content(spec_format(rm)) == a);
    assert(spec_decode(a) == Ok::<RecordModel, int>(rm));
}

proof fn lemma_rt_fnh(count: u32)
    ensures
        spec_decode(content(spec_format(RecordModel::FunctionsHit { count }))) == Ok::<RecordModel, int>(
            RecordModel::FunctionsHit { count },
        ),
{
    let rm = RecordModel::FunctionsHit { count };
    lemma_rt_count(seq![70u8, 78u8, 72u8, 58u8], count);
    let a = seq![70u8, 78u8, 72u8, 58u8] + dec_digits(count as nat);
    assert(content(spec_format(rm)) == a);
    assert(spec_decode(a) == Ok::<RecordModel, int>(rm));
}

proof fn lemma_rt_brf(count: u32)
    ensures
        spec_decode(content(spec_format(RecordModel::BranchesFound { count }))) == Ok::<RecordModel, int>(
            RecordModel::BranchesFound { count },
        ),
{
    let rm = RecordModel::BranchesFound { count };
    lemma_rt_count(seq![66u8, 82u8, 70u8, 58u8], count);
    let a = seq![66u8, 82u8, 70u8, 58u8] + dec_digits(count as nat);
    assert(content(spec_format(rm)) == a);
    assert(spec_decode(a) == Ok::<RecordModel, int>(rm));
}

proof fn lemma_rt_brh(count: u32)
    ensures
        spec_decode(content(spec_format(RecordModel::BranchesHit { count }))) == Ok::<RecordModel, int>(
            RecordModel::BranchesHit { count },
        ),
{
    let rm = RecordModel::BranchesHit { count };
    lemma_rt_count(seq![66u8, 82u8, 72u8, 58u8], count);
    let a = seq![66u8, 82u8, 72u8, 58u8] + dec_digits(count as nat);
    assert(content(spec_format(rm)) == a);
    assert(spec_decode(a) == Ok::<RecordModel, int>(rm));
}

proof fn lemma_rt_lf(count: u32)
    ensures
        spec_decode(content(spec_format(RecordModel::LinesFound { count }))) == Ok::<RecordModel, int>(
            RecordModel::LinesFound { count },
        ),
{
    let rm = RecordModel::LinesFound { count };
    lemma_rt_count(seq![76u8, 70u8, 58u8], count);
    let a = seq![76u8, 70u8, 58u8] + dec_digits(count as nat);
    assert(content(spec_format(rm)) == a);
    assert(spec_decode(a) == Ok::<RecordModel, int>(rm));
}

proof fn lemma_rt_lh(count: u32)
    ensures
        spec_decode(content(spec_format(RecordModel::LinesHit { count }))) == Ok::<RecordModel, int>(
            RecordModel::LinesHit { count },
        ),
{
    let rm = RecordModel::LinesHit { count };
    lemma_rt_count(seq![76u8, 72u8, 58u8], count);
    let a = seq![76u8, 72u8, 58u8] + dec_digits(count as nat);
    assert(content(spec_format(rm)) == a);
    assert(spec_decode(a) == Ok::<RecordModel, int>(rm));
}

/// Round trip for the bare `end_of_record` line.
proof fn lemma_rt_eor(rm: RecordModel)
    requires
        rm is EndOfRecord,
    ensures
        spec_decode(content(spec_format(rm))) == Ok::<RecordModel, int>(rm),
{
    let a = seq![
        101u8,
        110u8,
        100u8,
        95u8,
        111u8,
        102u8,
        95u8,
        114u8,
        101u8,
        99u8,
        111u8,
        114u8,
        100u8,
    ];
    assert(spec_format(rm) =~= a + seq![10u8]);
    assert(forall|i: int| 0 <= i < a.len() ==> a[i] != 10);
    assert(a.last() != 13);
    lemma_content_line(a);
    assert(spec_decode(a) == Ok::<RecordModel, int>(rm));
}

/// Law: round trip on the decodable subset.  Formatting any record whose
/// text fields hold no newline byte and do not end in a carriage return,
/// and then decoding the formatted line, yields exactly that record.
pub proof fn lemma_format_round_trip(rm: RecordModel)
    requires
        formattable(rm),
    ensures
        line_outcome(spec_format(rm)) == Ok::<RecordModel, ErrorModel>(rm),
{
    assert(wf_model(rm));
    lemma_spec_format_valid(rm);
    match rm {
        RecordModel::TestName { .. } => lemma_rt_text(rm),
        RecordModel::SourceFile { .. } => lemma_rt_text(rm),
        RecordModel::Data { .. } => lemma_rt_da(rm),
        RecordModel::FunctionName { .. } => lemma_rt_fn(rm),
        RecordModel::FunctionData { .. } => lemma_rt_fn(rm),
        RecordModel::FunctionsFound { .. } => lemma_rt_counted(rm),
        RecordModel::FunctionsHit { .. } => lemma_rt_counted(rm),
        RecordModel::BranchData { .. } => lemma_rt_brda(rm),
        RecordModel::BranchesFound { .. } => lemma_rt_counted(rm),
        RecordModel::BranchesHit { .. } => lemma_rt_counted(rm),
        RecordModel::LinesFound { .. } => lemma_rt_counted(rm),
        RecordModel::LinesHit { .. } => lemma_rt_counted(rm),
        RecordModel::EndOfRecord => lemma_rt_eor(rm),
    }
}

} // verus!
