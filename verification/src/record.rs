//! The record type: one decoded LCOV directive, together with its
//! mathematical model and its canonical textual form.

use crate::text::{
    dec_digits, lemma_ascii_valid, lemma_dec_digits, utf8_decode, with_decimal,
};
use vstd::prelude::*;
use vstd::utf8::{
    decode_utf8_encode_utf8, encode_utf8, encode_utf8_valid_utf8, valid_utf8, valid_utf8_concat,
};

verus! {

/// One decoded LCOV directive.
///
/// Integer fields are 32 bits throughout; `taken == 0` is the canonical
/// decoding of the textual `-` marker of a `BRDA` line.
#[derive(Clone, Debug, PartialEq, Eq)]
pub enum LCOVRecord {
    TestName { name: String },
    SourceFile { path: String },
    Data { line: u32, hits: u32, checksum: Option<String> },
    FunctionName { start_line: u32, name: String },
    FunctionData { hits: u32, name: String },
    FunctionsFound { count: u32 },
    FunctionsHit { count: u32 },
    BranchData { line: u32, block: u32, branch: u32, taken: u32 },
    BranchesFound { count: u32 },
    BranchesHit { count: u32 },
    LinesFound { count: u32 },
    LinesHit { count: u32 },
    EndOfRecord,
}

/// The mathematical shape of a record.  Text fields appear as their UTF-8
/// encodings, which is how they stand in the input line.
pub enum RecordModel {
    TestName { name: Seq<u8> },
    SourceFile { path: Seq<u8> },
    Data { line: u32, hits: u32, checksum: Option<Seq<u8>> },
    FunctionName { start_line: u32, name: Seq<u8> },
    FunctionData { hits: u32, name: Seq<u8> },
    FunctionsFound { count: u32 },
    FunctionsHit { count: u32 },
    BranchData { line: u32, block: u32, branch: u32, taken: u32 },
    BranchesFound { count: u32 },
    BranchesHit { count: u32 },
    LinesFound { count: u32 },
    LinesHit { count: u32 },
    EndOfRecord,
}

impl View for LCOVRecord {
    type V = RecordModel;

    open spec fn view(&self) -> RecordModel {
        match self {
            LCOVRecord::TestName { name } => RecordModel::TestName { name: encode_utf8(name@) },
            LCOVRecord::SourceFile { path } => RecordModel::SourceFile {
                path: encode_utf8(path@),
            },
            LCOVRecord::Data { line, hits, checksum } => RecordModel::Data {
                line: *line,
                hits: *hits,
                checksum: match checksum {
                    Some(c) => Some(encode_utf8(c@)),
                    None => None,
                },
            },
            LCOVRecord::FunctionName { start_line, name } => RecordModel::FunctionName {
                start_line: *start_line,
                name: encode_utf8(name@),
            },
            LCOVRecord::FunctionData { hits, name } => RecordModel::FunctionData {
                hits: *hits,
                name: encode_utf8(name@),
            },
            LCOVRecord::FunctionsFound { count } => RecordModel::FunctionsFound { count: *count },
            LCOVRecord::FunctionsHit { count } => RecordModel::FunctionsHit { count: *count },
            LCOVRecord::BranchData { line, block, branch, taken } => RecordModel::BranchData {
                line: *line,
                block: *block,
                branch: *branch,
                taken: *taken,
            },
            LCOVRecord::BranchesFound { count } => RecordModel::BranchesFound { count: *count },
            LCOVRecord::BranchesHit { count } => RecordModel::BranchesHit { count: *count },
            LCOVRecord::LinesFound { count } => RecordModel::LinesFound { count: *count },
            LCOVRecord::LinesHit { count } => RecordModel::LinesHit { count: *count },
            LCOVRecord::EndOfRecord => RecordModel::EndOfRecord,
        }
    }
}

/// The text fields of the model are valid UTF-8.  This holds of the view of
/// every executable record.
pub open spec fn wf_model(rm: RecordModel) -> bool {
    match rm {
        RecordModel::TestName { name } => valid_utf8(name),
        RecordModel::SourceFile { path } => valid_utf8(path),
        RecordModel::Data { checksum, .. } => match checksum {
            Some(c) => valid_utf8(c),
            None => true,
        },
        RecordModel::FunctionName { name, .. } => valid_utf8(name),
        RecordModel::FunctionData { name, .. } => valid_utf8(name),
        _ => true,
    }
}

pub proof fn lemma_view_wf(r: &LCOVRecord)
    ensures
        wf_model(r@),
{
    broadcast use encode_utf8_valid_utf8;

}

/// The canonical line for a record: the directive prefix, its fields with
/// `,` between them, and the terminating newline.
pub open spec fn spec_format(rm: RecordModel) -> Seq<u8> {
    match rm {
        RecordModel::TestName { name } => seq![84u8, 78u8, 58u8] + name + seq![10u8],
        RecordModel::SourceFile { path } => seq![83u8, 70u8, 58u8] + path + seq![10u8],
        RecordModel::Data { line, hits, checksum } => seq![68u8, 65u8, 58u8] + dec_digits(
            line as nat,
        ) + seq![44u8] + dec_digits(hits as nat) + (match checksum {
            Some(c) => seq![44u8] + c,
            None => Seq::<u8>::empty(),
        }) + seq![10u8],
        RecordModel::FunctionName { start_line, name } => seq![70u8, 78u8, 58u8] + dec_digits(
            start_line as nat,
        ) + seq![44u8] + name + seq![10u8],
        RecordModel::FunctionData { hits, name } => seq![70u8, 78u8, 68u8, 65u8, 58u8]
            + dec_digits(hits as nat) + seq![44u8] + name + seq![10u8],
        RecordModel::FunctionsFound { count } => seq![70u8, 78u8, 70u8, 58u8] + dec_digits(
            count as nat,
        ) + seq![10u8],
        RecordModel::FunctionsHit { count } => seq![70u8, 78u8, 72u8, 58u8] + dec_digits(
            count as nat,
        ) + seq![10u8],
        RecordModel::BranchData { line, block, branch, taken } => seq![66u8, 82u8, 68u8, 65u8, 58u8]
            + dec_digits(line as nat) + seq![44u8] + dec_digits(block as nat) + seq![44u8]
            + dec_digits(branch as nat) + seq![44u8] + dec_digits(taken as nat) + seq![10u8],
        RecordModel::BranchesFound { count } => seq![66u8, 82u8, 70u8, 58u8] + dec_digits(
            count as nat,
        ) + seq![10u8],
        RecordModel::BranchesHit { count } => seq![66u8, 82u8, 72u8, 58u8] + dec_digits(
            count as nat,
        ) + seq![10u8],
        RecordModel::LinesFound { count } => seq![76u8, 70u8, 58u8] + dec_digits(count as nat)
            + seq![10u8],
        RecordModel::LinesHit { count } => seq![76u8, 72u8, 58u8] + dec_digits(count as nat)
            + seq![10u8],
        RecordModel::EndOfRecord => seq![
            101u8,
            110u8,
            100u8,
            95u8,
            111u8,
            102u8,
            95u8,
            114u8,
            101u8,
            99u8,
            111u8,
            114u8,
            100u8,
            10u8,
        ],
    }
}

/// A text field whose canonical line decodes back to it: valid UTF-8, free of
/// newline bytes, and not ending in a carriage return.
pub open spec fn text_ok(t: Seq<u8>) -> bool {
    &&& valid_utf8(t)
    &&& forall|i: int| 0 <= i < t.len() ==> #[trigger] t[i] != 10
    &&& (t.len() > 0 ==> t.last() != 13)
}

/// The decodable subset of records: every text field is `text_ok`.
pub open spec fn formattable(rm: RecordModel) -> bool {
    match rm {
        RecordModel::TestName { name } => text_ok(name),
        RecordModel::SourceFile { path } => text_ok(path),
        RecordModel::Data { checksum, .. } => match checksum {
            Some(c) => text_ok(c),
            None => true,
        },
        RecordModel::FunctionName { name, .. } => text_ok(name),
        RecordModel::FunctionData { name, .. } => text_ok(name),
        _ => true,
    }
}

/// The canonical line of a well-formed model is valid UTF-8.
pub proof fn lemma_spec_format_valid(rm: RecordModel)
    requires
        wf_model(rm),
    ensures
        valid_utf8(spec_format(rm)),
{
    assert(valid_utf8(seq![44u8])) by {
        lemma_ascii_valid(seq![44u8]);
    }
    assert(valid_utf8(seq![10u8])) by {
        lemma_ascii_valid(seq![10u8]);
    }
    match rm {
        RecordModel::TestName { name } => {
            lemma_ascii_valid(seq![84u8, 78u8, 58u8]);
            lemma_cat3(seq![84u8, 78u8, 58u8], name, seq![10u8]);
        },
        RecordModel::SourceFile { path } => {
            lemma_ascii_valid(seq![83u8, 70u8, 58u8]);
            lemma_cat3(seq![83u8, 70u8, 58u8], path, seq![10u8]);
        },
        RecordModel::Data { line, hits, checksum } => {
            lemma_ascii_valid(seq![68u8, 65u8, 58u8]);
            lemma_valid_digits(line as nat);
            lemma_valid_digits(hits as nat);
            let tail = match checksum {
                Some(c) => seq![44u8] + c,
                None => Seq::<u8>::empty(),
            };
            match checksum {
                Some(c) => {
                    valid_utf8_concat(seq![44u8], c);
                },
                None => {
                    lemma_ascii_valid(Seq::<u8>::empty());
                },
            }
            lemma_cat3(seq![68u8, 65u8, 58u8], dec_digits(line as nat), seq![44u8]);
            let p = seq![68u8, 65u8, 58u8] + dec_digits(line as nat) + seq![44u8];
            valid_utf8_concat(p, dec_digits(hits as nat));
            valid_utf8_concat(p + dec_digits(hits as nat), tail);
            valid_utf8_concat(p + dec_digits(hits as nat) + tail, seq![10u8]);
        },
        RecordModel::FunctionName { start_line, name } => {
            lemma_ascii_valid(seq![70u8, 78u8, 58u8]);
            lemma_valid_digits(start_line as nat);
            lemma_cat3(seq![70u8, 78u8, 58u8], dec_digits(start_line as nat), seq![44u8]);
            let p = seq![70u8, 78u8, 58u8] + dec_digits(start_line as nat) + seq![44u8];
            valid_utf8_concat(p, name);
            valid_utf8_concat(p + name, seq![10u8]);
        },
        RecordModel::FunctionData { hits, name } => {
            lemma_ascii_valid(seq![70u8, 78u8, 68u8, 65u8, 58u8]);
            lemma_valid_digits(hits as nat);
            lemma_cat3(seq![70u8, 78u8, 68u8, 65u8, 58u8], dec_digits(hits as nat), seq![44u8]);
            let p = seq![70u8, 78u8, 68u8, 65u8, 58u8] + dec_digits(hits as nat) + seq![44u8];
            valid_utf8_concat(p, name);
            valid_utf8_concat(p + name, seq![10u8]);
        },
        RecordModel::FunctionsFound { count } => {
            lemma_ascii_valid(seq![70u8, 78u8, 70u8, 58u8]);
            lemma_valid_digits(count as nat);
            lemma_cat3(seq![70u8, 78u8, 70u8, 58u8], dec_digits(count as nat), seq![10u8]);
        },
        RecordModel::FunctionsHit { count } => {
            lemma_ascii_valid(seq![70u8, 78u8, 72u8, 58u8]);
            lemma_valid_digits(count as nat);
            lemma_cat3(seq![70u8, 78u8, 72u8, 58u8], dec_digits(count as nat), seq![10u8]);
        },
        RecordModel::BranchData { line, block, branch, taken } => {
            lemma_ascii_valid(seq![66u8, 82u8, 68u8, 65u8, 58u8]);
            lemma_valid_digits(line as nat);
            lemma_valid_digits(block as nat);
            lemma_valid_digits(branch as nat);
            lemma_valid_digits(taken as nat);
            lemma_cat3(seq![66u8, 82u8, 68u8, 65u8, 58u8], dec_digits(line as nat), seq![44u8]);
            let p1 = seq![66u8, 82u8, 68u8, 65u8, 58u8] + dec_digits(line as nat) + seq![44u8];
            valid_utf8_concat(p1, dec_digits(block as nat));
            valid_utf8_concat(p1 + dec_digits(block as nat), seq![44u8]);
            let p2 = p1 + dec_digits(block as nat) + seq![44u8];
            valid_utf8_concat(p2, dec_digits(branch as nat));
            valid_utf8_concat(p2 + dec_digits(branch as nat), seq![44u8]);
            let p3 = p2 + dec_digits(branch as nat) + seq![44u8];
            valid_utf8_concat(p3, dec_digits(taken as nat));
            valid_utf8_concat(p3 + dec_digits(taken as nat), seq![10u8]);
        },
        RecordModel::BranchesFound { count } => {
            lemma_ascii_valid(seq![66u8, 82u8, 70u8, 58u8]);
            lemma_valid_digits(count as nat);
            lemma_cat3(seq![66u8, 82u8, 70u8, 58u8], dec_digits(count as nat), seq![10u8]);
        },
        RecordModel::BranchesHit { count } => {
            lemma_ascii_valid(seq![66u8, 82u8, 72u8, 58u8]);
            lemma_valid_digits(count as nat);
            lemma_cat3(seq![66u8, 82u8, 72u8, 58u8], dec_digits(count as nat), seq![10u8]);
        },
        RecordModel::LinesFound { count } => {
            lemma_ascii_valid(seq![76u8, 70u8, 58u8]);
            lemma_valid_digits(count as nat);
            lemma_cat3(seq![76u8, 70u8, 58u8], dec_digits(count as nat), seq![10u8]);
        },
        RecordModel::LinesHit { count } => {
            lemma_ascii_valid(seq![76u8, 72u8, 58u8]);
            lemma_valid_digits(count as nat);
            lemma_cat3(seq![76u8, 72u8, 58u8], dec_digits(count as nat), seq![10u8]);
        },
        RecordModel::EndOfRecord => {
            lemma_ascii_valid(spec_format(rm));
        },
    }
}

/// Three valid UTF-8 pieces concatenate to a valid UTF-8 sequence.
proof fn lemma_cat3(a: Seq<u8>, b: Seq<u8>, c: Seq<u8>)
    requires
        valid_utf8(a),
        valid_utf8(b),
        valid_utf8(c),
    ensures
        valid_utf8(a + b),
        valid_utf8(a + b + c),
{
    valid_utf8_concat(a, b);
    valid_utf8_concat(a + b, c);
}

/// The canonical digits of a number are valid UTF-8.
pub proof fn lemma_valid_digits(n: nat)
    ensures
        valid_utf8(dec_digits(n)),
{
    lemma_dec_digits(n);
    lemma_ascii_valid(dec_digits(n));
}

/// Turns accumulated line bytes, proved valid, into an owned string.
fn bytes_to_string(v: Vec<u8>) -> (s: String)
    requires
        valid_utf8(v@),
    ensures
        encode_utf8(s@) == v@,
{
    match utf8_decode(v.as_slice()) {
        Some(s) => {
            proof {
                decode_utf8_encode_utf8(v@);
            }
            s
        },
        None => {
            proof {
                assert(false);
            }
            String::new()
        },
    }
}

/// Appends the UTF-8 bytes of `s` to `out`.
fn push_text(out: Vec<u8>, s: &String) -> (r: Vec<u8>)
    ensures
        r@ == out@ + encode_utf8(s@),
{
    let bs = s.as_str().as_bytes();
    let mut v = out;
    let ghost start = v@;
    let mut i: usize = 0;
    while i < bs.len()
        invariant
            i <= bs@.len(),
            v@ == start + bs@.subrange(0, i as int),
            bs@ == encode_utf8(s@),
        decreases bs@.len() - i,
    {
        v.push(*vstd::slice::slice_index_get(bs, i));
        proof {
            assert(v@ =~= start + bs@.subrange(0, (i + 1) as int));
        }
        i = i + 1;
    }
    proof {
        assert(bs@.subrange(0, bs@.len() as int) =~= bs@);
    }
    v
}

/// Renders a record back to its canonical textual line, newline included.
pub fn format_record(r: &LCOVRecord) -> (s: String)
    ensures
        encode_utf8(s@) == spec_format(r@),
{
    let mut out: Vec<u8> = Vec::new();
    match r {
        LCOVRecord::TestName { name } => {
            out.push(84);
            out.push(78);
            out.push(58);
            proof {
                assert(out@ =~= seq![84u8, 78u8, 58u8]);
            }
            out = push_text(out, name);
        },
        LCOVRecord::SourceFile { path } => {
            out.push(83);
            out.push(70);
            out.push(58);
            proof {
                assert(out@ =~= seq![83u8, 70u8, 58u8]);
            }
            out = push_text(out, path);
        },
        LCOVRecord::Data { line, hits, checksum } => {
            out.push(68);
            out.push(65);
            out.push(58);
            proof {
                assert(out@ =~= seq![68u8, 65u8, 58u8]);
            }
            out = with_decimal(out, *line);
            out.push(44);
            proof {
                assert(out@ =~= seq![68u8, 65u8, 58u8] + dec_digits(*line as nat) + seq![44u8]);
            }
            out = with_decimal(out, *hits);
            match checksum {
                Some(c) => {
                    out.push(44);
                    proof {
                        assert(out@ =~= seq![68u8, 65u8, 58u8] + dec_digits(*line as nat)
                            + seq![44u8] + dec_digits(*hits as nat) + seq![44u8]);
                    }
                    out = push_text(out, c);
                },
                None => {
                },
            }
        },
        LCOVRecord::FunctionName { start_line, name } => {
            out.push(70);
            out.push(78);
            out.push(58);
            proof {
                assert(out@ =~= seq![70u8, 78u8, 58u8]);
            }
            out = with_decimal(out, *start_line);
            out.push(44);
            proof {
                assert(out@ =~= seq![70u8, 78u8, 58u8] + dec_digits(*start_line as nat)
                    + seq![44u8]);
            }
            out = push_text(out, name);
        },
        LCOVRecord::FunctionData { hits, name } => {
            out.push(70);
            out.push(78);
            out.push(68);
            out.push(65);
            out.push(58);
            proof {
                assert(out@ =~= seq![70u8, 78u8, 68u8, 65u8, 58u8]);
            }
            out = with_decimal(out, *hits);
            out.push(44);
            proof {
                assert(out@ =~= seq![70u8, 78u8, 68u8, 65u8, 58u8] + dec_digits(*hits as nat)
                    + seq![44u8]);
            }
            out = push_text(out, name);
        },
        LCOVRecord::FunctionsFound { count } => {
            out.push(70);
            out.push(78);
            out.push(70);
            out.push(58);
            proof {
                assert(out@ =~= seq![70u8, 78u8, 70u8, 58u8]);
            }
            out = with_decimal(out, *count);
        },
        LCOVRecord::FunctionsHit { count } => {
            out.push(70);
            out.push(78);
            out.push(72);
            out.push(58);
            proof {
                assert(out@ =~= seq![70u8, 78u8, 72u8, 58u8]);
            }
            out = with_decimal(out, *count);
        },
        LCOVRecord::BranchData { line, block, branch, taken } => {
            out.push(66);
            out.push(82);
            out.push(68);
            out.push(65);
            out.push(58);
            proof {
                assert(out@ =~= seq![66u8, 82u8, 68u8, 65u8, 58u8]);
            }
            out = with_decimal(out, *line);
            out.push(44);
            out = with_decimal(out, *block);
            out.push(44);
            out = with_decimal(out, *branch);
            out.push(44);
            proof {
                assert(out@ =~= seq![66u8, 82u8, 68u8, 65u8, 58u8] + dec_digits(*line as nat)
                    + seq![44u8] + dec_digits(*block as nat) + seq![44u8] + dec_digits(
                    *branch as nat,
                ) + seq![44u8]);
            }
            out = with_decimal(out, *taken);
        },
        LCOVRecord::BranchesFound { count } => {
            out.push(66);
            out.push(82);
            out.push(70);
            out.push(58);
            proof {
                assert(out@ =~= seq![66u8, 82u8, 70u8, 58u8]);
            }
            out = with_decimal(out, *count);
        },
        LCOVRecord::BranchesHit { count } => {
            out.push(66);
            out.push(82);
            out.push(72);
            out.push(58);
            proof {
                assert(out@ =~= seq![66u8, 82u8, 72u8, 58u8]);
            }
            out = with_decimal(out, *count);
        },
        LCOVRecord::LinesFound { count } => {
            out.push(76);
            out.push(70);
            out.push(58);
            proof {
                assert(out@ =~= seq![76u8, 70u8, 58u8]);
            }
            out = with_decimal(out, *count);
        },
        LCOVRecord::LinesHit { count } => {
            out.push(76);
            out.push(72);
            out.push(58);
            proof {
                assert(out@ =~= seq![76u8, 72u8, 58u8]);
            }
            out = with_decimal(out, *count);
        },
        LCOVRecord::EndOfRecord => {
            out.push(101);
            out.push(110);
            out.push(100);
            out.push(95);
            out.push(111);
            out.push(102);
            out.push(95);
            out.push(114);
            out.push(101);
            out.push(99);
            out.push(111);
            out.push(114);
            out.push(100);
        },
    }
    out.push(10);
    proof {
        assert(out@ =~= spec_format(r@));
        lemma_view_wf(r);
        lemma_spec_format_valid(r@);
    }
    bytes_to_string(out)
}

} // verus!
