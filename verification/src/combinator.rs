//! The per-line decoder: recognizes every LCOV directive on the payload of
//! one line and yields a record, or the 1-based byte column at which the
//! line stopped making sense.
//!
//! Supported directives:
//!
//! * `TN:<test name>`
//! * `SF:<absolute path to the source file>`
//! * `DA:<line number>,<execution count>[,<checksum>]`
//! * `FN:<line number>,<function name>`
//! * `FNDA:<execution count>,<function name>`
//! * `FNF:<functions found>` / `FNH:<functions hit>`
//! * `BRDA:<line>,<block>,<branch>,<taken or ->`
//! * `BRF:<branches found>` / `BRH:<branches hit>`
//! * `LF:<lines found>` / `LH:<lines hit>`
//! * `end_of_record`

pub mod branch;
pub mod line;

use crate::record::{LCOVRecord, RecordModel};
use crate::text::{
    find_byte, idx_from, int_field, lemma_field_valid, lemma_idx_from, parse_uint, utf8_decode,
};
use vstd::prelude::*;
use vstd::slice::{slice_index_get, slice_subrange};
use vstd::utf8::{decode_utf8_encode_utf8, encode_utf8, valid_utf8};

verus! {

/// The payload of one line: the bytes before the first newline, with a
/// single trailing carriage return stripped.
pub open spec fn content(lb: Seq<u8>) -> Seq<u8> {
    let t = lb.subrange(0, idx_from(lb, 0, 10u8));
    if t.len() > 0 && t.last() == 13 {
        t.drop_last()
    } else {
        t
    }
}

pub open spec fn is_tn(c: Seq<u8>) -> bool {
    c.len() >= 3 && c[0] == 84 && c[1] == 78 && c[2] == 58
}

pub open spec fn is_sf(c: Seq<u8>) -> bool {
    c.len() >= 3 && c[0] == 83 && c[1] == 70 && c[2] == 58
}

pub open spec fn is_da(c: Seq<u8>) -> bool {
    c.len() >= 3 && c[0] == 68 && c[1] == 65 && c[2] == 58
}

pub open spec fn is_fn(c: Seq<u8>) -> bool {
    c.len() >= 3 && c[0] == 70 && c[1] == 78 && c[2] == 58
}

pub open spec fn is_fnda(c: Seq<u8>) -> bool {
    c.len() >= 5 && c[0] == 70 && c[1] == 78 && c[2] == 68 && c[3] == 65 && c[4] == 58
}

pub open spec fn is_fnf(c: Seq<u8>) -> bool {
    c.len() >= 4 && c[0] == 70 && c[1] == 78 && c[2] == 70 && c[3] == 58
}

pub open spec fn is_fnh(c: Seq<u8>) -> bool {
    c.len() >= 4 && c[0] == 70 && c[1] == 78 && c[2] == 72 && c[3] == 58
}

pub open spec fn is_brda(c: Seq<u8>) -> bool {
    c.len() >= 5 && c[0] == 66 && c[1] == 82 && c[2] == 68 && c[3] == 65 && c[4] == 58
}

pub open spec fn is_brf(c: Seq<u8>) -> bool {
    c.len() >= 4 && c[0] == 66 && c[1] == 82 && c[2] == 70 && c[3] == 58
}

pub open spec fn is_brh(c: Seq<u8>) -> bool {
    c.len() >= 4 && c[0] == 66 && c[1] == 82 && c[2] == 72 && c[3] == 58
}

pub open spec fn is_lf(c: Seq<u8>) -> bool {
    c.len() >= 3 && c[0] == 76 && c[1] == 70 && c[2] == 58
}

pub open spec fn is_lh(c: Seq<u8>) -> bool {
    c.len() >= 3 && c[0] == 76 && c[1] == 72 && c[2] == 58
}

/// The bare word `end_of_record`.
pub open spec fn is_eor(c: Seq<u8>) -> bool {
    c.len() == 13 && c[0] == 101 && c[1] == 110 && c[2] == 100 && c[3] == 95 && c[4] == 111
        && c[5] == 102 && c[6] == 95 && c[7] == 114 && c[8] == 101 && c[9] == 99 && c[10] == 111
        && c[11] == 114 && c[12] == 100
}

/// A single integer field occupying the rest of the payload, starting at
/// `off`; a failure points at the start of the field.
pub open spec fn dec_count(c: Seq<u8>, off: int) -> Result<u32, int> {
    match int_field(c.subrange(off, c.len() as int)) {
        Some(v) => Ok(v),
        None => Err(off + 1),
    }
}

/// An integer field up to the first comma at or after `off`, then text
/// through the end of the payload.
pub open spec fn dec_int_text(c: Seq<u8>, off: int) -> Result<(u32, Seq<u8>), int> {
    let i = idx_from(c, off, 44u8);
    if i == c.len() {
        Err(off + 1)
    } else {
        match int_field(c.subrange(off, i)) {
            Some(v) => Ok((v, c.subrange(i + 1, c.len() as int))),
            None => Err(off + 1),
        }
    }
}

/// `DA:<line>,<count>[,<checksum>]`.
pub open spec fn dec_da(c: Seq<u8>) -> Result<RecordModel, int> {
    let n = c.len() as int;
    let i = idx_from(c, 3, 44u8);
    if i == n {
        Err(4)
    } else {
        match int_field(c.subrange(3, i)) {
            None => Err(4),
            Some(line) => {
                let j = idx_from(c, i + 1, 44u8);
                match int_field(c.subrange(i + 1, j)) {
                    None => Err(i + 2),
                    Some(hits) => {
                        if j == n {
                            Ok(RecordModel::Data { line, hits, checksum: None })
                        } else {
                            Ok(
                                RecordModel::Data {
                                    line,
                                    hits,
                                    checksum: Some(c.subrange(j + 1, n)),
                                },
                            )
                        }
                    },
                }
            },
        }
    }
}

/// `BRDA:<line>,<block>,<branch>,<taken>`, where `taken` is an integer or
/// the single byte `-`, which decodes to zero.
pub open spec fn dec_brda(c: Seq<u8>) -> Result<RecordModel, int> {
    let n = c.len() as int;
    let i1 = idx_from(c, 5, 44u8);
    if i1 == n {
        Err(6)
    } else {
        match int_field(c.subrange(5, i1)) {
            None => Err(6),
            Some(line) => {
                let i2 = idx_from(c, i1 + 1, 44u8);
                if i2 == n {
                    Err(i1 + 2)
                } else {
                    match int_field(c.subrange(i1 + 1, i2)) {
                        None => Err(i1 + 2),
                        Some(block) => {
                            let i3 = idx_from(c, i2 + 1, 44u8);
                            if i3 == n {
                                Err(i2 + 2)
                            } else {
                                match int_field(c.subrange(i2 + 1, i3)) {
                                    None => Err(i2 + 2),
                                    Some(branch) => {
                                        let t = c.subrange(i3 + 1, n);
                                        if t.len() == 1 && t[0] == 45 {
                                            Ok(
                                                RecordModel::BranchData {
                                                    line,
                                                    block,
                                                    branch,
                                                    taken: 0,
                                                },
                                            )
                                        } else {
                                            match int_field(t) {
                                                Some(taken) => Ok(
                                                    RecordModel::BranchData {
                                                        line,
                                                        block,
                                                        branch,
                                                        taken,
                                                    },
                                                ),
                                                None => Err(i3 + 2),
                                            }
                                        }
                                    },
                                }
                            }
                        },
                    }
                }
            },
        }
    }
}

/// What the payload of one line decodes to: a record model, or the 1-based
/// byte column at which decoding first failed.  Prefixes are checked
/// longest-match; a payload matching no directive fails at column 1.
pub open spec fn spec_decode(c: Seq<u8>) -> Result<RecordModel, int> {
    let n = c.len() as int;
    if is_tn(c) {
        Ok(RecordModel::TestName { name: c.subrange(3, n) })
    } else if is_sf(c) {
        Ok(RecordModel::SourceFile { path: c.subrange(3, n) })
    } else if is_da(c) {
        dec_da(c)
    } else if is_fnda(c) {
        match dec_int_text(c, 5) {
            Ok(p) => Ok(RecordModel::FunctionData { hits: p.0, name: p.1 }),
            Err(col) => Err(col),
        }
    } else if is_fn(c) {
        match dec_int_text(c, 3) {
            Ok(p) => Ok(RecordModel::FunctionName { start_line: p.0, name: p.1 }),
            Err(col) => Err(col),
        }
    } else if is_fnf(c) {
        match dec_count(c, 4) {
            Ok(v) => Ok(RecordModel::FunctionsFound { count: v }),
            Err(col) => Err(col),
        }
    } else if is_fnh(c) {
        match dec_count(c, 4) {
            Ok(v) => Ok(RecordModel::FunctionsHit { count: v }),
            Err(col) => Err(col),
        }
    } else if is_brda(c) {
        dec_brda(c)
    } else if is_brf(c) {
        match dec_count(c, 4) {
            Ok(v) => Ok(RecordModel::BranchesFound { count: v }),
            Err(col) => Err(col),
        }
    } else if is_brh(c) {
        match dec_count(c, 4) {
            Ok(v) => Ok(RecordModel::BranchesHit { count: v }),
            Err(col) => Err(col),
        }
    } else if is_lf(c) {
        match dec_count(c, 3) {
            Ok(v) => Ok(RecordModel::LinesFound { count: v }),
            Err(col) => Err(col),
        }
    } else if is_lh(c) {
        match dec_count(c, 3) {
            Ok(v) => Ok(RecordModel::LinesHit { count: v }),
            Err(col) => Err(col),
        }
    } else if is_eor(c) {
        Ok(RecordModel::EndOfRecord)
    } else {
        Err(1)
    }
}

/// The payload matches none of the enumerated directives.
pub open spec fn no_directive(c: Seq<u8>) -> bool {
    &&& !is_tn(c)
    &&& !is_sf(c)
    &&& !is_da(c)
    &&& !is_fnda(c)
    &&& !is_fn(c)
    &&& !is_fnf(c)
    &&& !is_fnh(c)
    &&& !is_brda(c)
    &&& !is_brf(c)
    &&& !is_brh(c)
    &&& !is_lf(c)
    &&& !is_lh(c)
    &&& !is_eor(c)
}

/// Law: a payload beginning with anything but an enumerated directive is
/// rejected at column 1 — which is at or before the end of whatever
/// unrecognized prefix the line carries.
pub proof fn lemma_unknown_directive_rejected(c: Seq<u8>)
    requires
        no_directive(c),
    ensures
        spec_decode(c) == Err::<RecordModel, int>(1),
{
}

/// Where the payload of the line ends: `content(lb) == lb[0..content_end(lb)]`.
pub fn content_end(input: &[u8]) -> (e: usize)
    requires
        input@.len() < usize::MAX,
    ensures
        e <= input@.len(),
        content(input@) == input@.subrange(0, e as int),
        e == input@.len() || input@[e as int] == 10 || input@[e as int] == 13,
{
    let e1 = find_byte(input, 0, 10);
    proof {
        lemma_idx_from(input@, 0, 10u8);
    }
    let e2 = if e1 > 0 && *slice_index_get(input, e1 - 1) == 13 {
        e1 - 1
    } else {
        e1
    };
    proof {
        let t = input@.subrange(0, e1 as int);
        if e1 > 0 && input@[e1 as int - 1] == 13 {
            assert(t.len() > 0 && t.last() == 13);
            assert(t.drop_last() =~= input@.subrange(0, e2 as int));
        } else {
            if t.len() > 0 {
                assert(t.last() == input@[e1 as int - 1]);
            }
        }
    }
    e2
}

/// One byte of a slice.
pub(crate) fn byte_at(c: &[u8], i: usize) -> (b: u8)
    requires
        i < c@.len(),
    ensures
        b == c@[i as int],
{
    *slice_index_get(c, i)
}

/// Copies the field `c[a..b]` out as owned text.  The cut points sit next to
/// ASCII delimiters, so the field is itself valid UTF-8.
fn field_text(c: &[u8], a: usize, b: usize) -> (s: String)
    requires
        valid_utf8(c@),
        a <= b <= c@.len(),
        a == 0 || c@[a as int - 1] < 128,
        b == c@.len() || c@[b as int] < 128,
    ensures
        encode_utf8(s@) == c@.subrange(a as int, b as int),
{
    proof {
        lemma_field_valid(c@, a as int, b as int);
    }
    let f = slice_subrange(c, a, b);
    match utf8_decode(f) {
        Some(s) => {
            proof {
                decode_utf8_encode_utf8(f@);
            }
            s
        },
        None => {
            proof {
                assert(false);
            }
            String::new()
        },
    }
}

/// `dec_count`, executably.
fn decode_count(c: &[u8], off: usize) -> (r: Result<u32, usize>)
    requires
        off <= c@.len(),
        c@.len() < usize::MAX,
    ensures
        match dec_count(c@, off as int) {
            Ok(v) => r matches Ok(u) && u == v,
            Err(col) => r matches Err(u) && u as int == col,
        },
{
    match parse_uint(c, off, c.len()) {
        Some(v) => Ok(v),
        None => Err(off + 1),
    }
}

/// `dec_int_text`, executably.
fn decode_int_text(c: &[u8], off: usize) -> (r: Result<(u32, String), usize>)
    requires
        valid_utf8(c@),
        off <= c@.len(),
        c@.len() < usize::MAX,
    ensures
        match dec_int_text(c@, off as int) {
            Ok(p) => r matches Ok(q) && q.0 == p.0 && encode_utf8(q.1@) == p.1,
            Err(col) => r matches Err(u) && u as int == col,
        },
{
    let n = c.len();
    let i = find_byte(c, off, 44);
    proof {
        lemma_idx_from(c@, off as int, 44u8);
    }
    if i == n {
        return Err(off + 1);
    }
    match parse_uint(c, off, i) {
        None => Err(off + 1),
        Some(v) => {
            let name = field_text(c, i + 1, n);
            Ok((v, name))
        },
    }
}

/// `dec_da`, executably.
fn decode_da(c: &[u8]) -> (r: Result<LCOVRecord, usize>)
    requires
        valid_utf8(c@),
        is_da(c@),
        c@.len() < usize::MAX,
    ensures
        match dec_da(c@) {
            Ok(rm) => r matches Ok(rec) && rec@ == rm,
            Err(col) => r matches Err(u) && u as int == col,
        },
{
    let n = c.len();
    let i = find_byte(c, 3, 44);
    proof {
        lemma_idx_from(c@, 3, 44u8);
    }
    if i == n {
        return Err(4);
    }
    match parse_uint(c, 3, i) {
        None => Err(4),
        Some(line) => {
            let j = find_byte(c, i + 1, 44);
            proof {
                lemma_idx_from(c@, i as int + 1, 44u8);
            }
            match parse_uint(c, i + 1, j) {
                None => Err(i + 2),
                Some(hits) => {
                    if j == n {
                        Ok(LCOVRecord::Data { line, hits, checksum: None })
                    } else {
                        let cs = field_text(c, j + 1, n);
                        Ok(LCOVRecord::Data { line, hits, checksum: Some(cs) })
                    }
                },
            }
        },
    }
}

/// `dec_brda`, executably.
fn decode_brda(c: &[u8]) -> (r: Result<LCOVRecord, usize>)
    requires
        valid_utf8(c@),
        is_brda(c@),
        c@.len() < usize::MAX,
    ensures
        match dec_brda(c@) {
            Ok(rm) => r matches Ok(rec) && rec@ == rm,
            Err(col) => r matches Err(u) && u as int == col,
        },
{
    let n = c.len();
    let i1 = find_byte(c, 5, 44);
    proof {
        lemma_idx_from(c@, 5, 44u8);
    }
    if i1 == n {
        return Err(6);
    }
    let line = match parse_uint(c, 5, i1) {
        None => {
            return Err(6);
        },
        Some(v) => v,
    };
    let i2 = find_byte(c, i1 + 1, 44);
    proof {
        lemma_idx_from(c@, i1 as int + 1, 44u8);
    }
    if i2 == n {
        return Err(i1 + 2);
    }
    let block = match parse_uint(c, i1 + 1, i2) {
        None => {
            return Err(i1 + 2);
        },
        Some(v) => v,
    };
    let i3 = find_byte(c, i2 + 1, 44);
    proof {
        lemma_idx_from(c@, i2 as int + 1, 44u8);
    }
    if i3 == n {
        return Err(i2 + 2);
    }
    let branch = match parse_uint(c, i2 + 1, i3) {
        None => {
            return Err(i2 + 2);
        },
        Some(v) => v,
    };
    let ghost t = c@.subrange(i3 as int + 1, n as int);
    if i3 + 2 == n && byte_at(c, i3 + 1) == 45 {
        proof {
            assert(t.len() == 1 && t[0] == 45);
        }
        return Ok(LCOVRecord::BranchData { line, block, branch, taken: 0 });
    }
    proof {
        assert(!(t.len() == 1 && t[0] == 45));
    }
    match parse_uint(c, i3 + 1, n) {
        Some(taken) => Ok(LCOVRecord::BranchData { line, block, branch, taken }),
        None => Err(i3 + 2),
    }
}

/// Decodes the payload of one line (terminator already stripped) into a
/// record, or the 1-based byte column at which decoding failed.
pub fn decode_content(c: &[u8]) -> (r: Result<LCOVRecord, usize>)
    requires
        valid_utf8(c@),
        c@.len() < usize::MAX,
    ensures
        match spec_decode(c@) {
            Ok(rm) => r matches Ok(rec) && rec@ == rm,
            Err(col) => r matches Err(u) && u as int == col,
        },
{
    let n = c.len();
    if n >= 3 && byte_at(c, 0) == 84 && byte_at(c, 1) == 78 && byte_at(c, 2) == 58 {
        let name = field_text(c, 3, n);
        Ok(LCOVRecord::TestName { name })
    } else if n >= 3 && byte_at(c, 0) == 83 && byte_at(c, 1) == 70 && byte_at(c, 2) == 58 {
        let path = field_text(c, 3, n);
        Ok(LCOVRecord::SourceFile { path })
    } else if n >= 3 && byte_at(c, 0) == 68 && byte_at(c, 1) == 65 && byte_at(c, 2) == 58 {
        decode_da(c)
    } else if n >= 5 && byte_at(c, 0) == 70 && byte_at(c, 1) == 78 && byte_at(c, 2) == 68
        && byte_at(c, 3) == 65 && byte_at(c, 4) == 58 {
        match decode_int_text(c, 5) {
            Ok(p) => Ok(LCOVRecord::FunctionData { hits: p.0, name: p.1 }),
            Err(col) => Err(col),
        }
    } else if n >= 3 && byte_at(c, 0) == 70 && byte_at(c, 1) == 78 && byte_at(c, 2) == 58 {
        match decode_int_text(c, 3) {
            Ok(p) => Ok(LCOVRecord::FunctionName { start_line: p.0, name: p.1 }),
            Err(col) => Err(col),
        }
    } else if n >= 4 && byte_at(c, 0) == 70 && byte_at(c, 1) == 78 && byte_at(c, 2) == 70
        && byte_at(c, 3) == 58 {
        match decode_count(c, 4) {
            Ok(v) => Ok(LCOVRecord::FunctionsFound { count: v }),
            Err(col) => Err(col),
        }
    } else if n >= 4 && byte_at(c, 0) == 70 && byte_at(c, 1) == 78 && byte_at(c, 2) == 72
        && byte_at(c, 3) == 58 {
        match decode_count(c, 4) {
            Ok(v) => Ok(LCOVRecord::FunctionsHit { count: v }),
            Err(col) => Err(col),
        }
    } else if n >= 5 && byte_at(c, 0) == 66 && byte_at(c, 1) == 82 && byte_at(c, 2) == 68
        && byte_at(c, 3) == 65 && byte_at(c, 4) == 58 {
        decode_brda(c)
    } else if n >= 4 && byte_at(c, 0) == 66 && byte_at(c, 1) == 82 && byte_at(c, 2) == 70
        && byte_at(c, 3) == 58 {
        match decode_count(c, 4) {
            Ok(v) => Ok(LCOVRecord::BranchesFound { count: v }),
            Err(col) => Err(col),
        }
    } else if n >= 4 && byte_at(c, 0) == 66 && byte_at(c, 1) == 82 && byte_at(c, 2) == 72
        && byte_at(c, 3) == 58 {
        match decode_count(c, 4) {
            Ok(v) => Ok(LCOVRecord::BranchesHit { count: v }),
            Err(col) => Err(col),
        }
    } else if n >= 3 && byte_at(c, 0) == 76 && byte_at(c, 1) == 70 && byte_at(c, 2) == 58 {
        match decode_count(c, 3) {
            Ok(v) => Ok(LCOVRecord::LinesFound { count: v }),
            Err(col) => Err(col),
        }
    } else if n >= 3 && byte_at(c, 0) == 76 && byte_at(c, 1) == 72 && byte_at(c, 2) == 58 {
        match decode_count(c, 3) {
            Ok(v) => Ok(LCOVRecord::LinesHit { count: v }),
            Err(col) => Err(col),
        }
    } else if n == 13 && byte_at(c, 0) == 101 && byte_at(c, 1) == 110 && byte_at(c, 2) == 100
        && byte_at(c, 3) == 95 && byte_at(c, 4) == 111 && byte_at(c, 5) == 102 && byte_at(c, 6)
        == 95 && byte_at(c, 7) == 114 && byte_at(c, 8) == 101 && byte_at(c, 9) == 99 && byte_at(
        c,
        10,
    ) == 111 && byte_at(c, 11) == 114 && byte_at(c, 12) == 100 {
        Ok(LCOVRecord::EndOfRecord)
    } else {
        Err(1)
    }
}

} // verus!
