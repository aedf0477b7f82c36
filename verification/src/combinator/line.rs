//! Decoding restricted to the line-coverage summary directives: `LH:` and
//! `LF:`.  Any line carrying another directive is rejected outright.

use crate::combinator::{byte_at, content, content_end, decode_content, is_lf, is_lh};
use crate::parser::{line_outcome, ErrorModel, RecordParsedError};
use crate::record::{LCOVRecord, RecordModel};
use crate::text::{lemma_field_valid, utf8_decode};
use vstd::prelude::*;
use vstd::slice::{slice_subrange, slice_to_vec};
use vstd::utf8::{decode_utf8_encode_utf8, valid_utf8};

verus! {

/// What a line produces when only `LH:` and `LF:` are admitted: a payload
/// opening with anything else is rejected at column 1; otherwise the line
/// decodes as usual.
pub open spec fn lines_outcome(lb: Seq<u8>) -> Result<RecordModel, ErrorModel> {
    if valid_utf8(lb) && !(is_lh(content(lb)) || is_lf(content(lb))) {
        Err(ErrorModel::Record { source: lb, column: 1 })
    } else {
        line_outcome(lb)
    }
}

/// Decodes one line that must carry a lines-found or lines-hit directive.
pub fn lines_record(input: &[u8]) -> (r: Result<LCOVRecord, RecordParsedError>)
    requires
        input@.len() < usize::MAX,
    ensures
        match r {
            Ok(rec) => lines_outcome(input@) == Ok::<RecordModel, ErrorModel>(rec@),
            Err(e) => lines_outcome(input@) == Err::<RecordModel, ErrorModel>(e@),
        },
{
    match utf8_decode(input) {
        None => Err(RecordParsedError::UTF8(slice_to_vec(input))),
        Some(src) => {
            let e2 = content_end(input);
            proof {
                lemma_field_valid(input@, 0, e2 as int);
                decode_utf8_encode_utf8(input@);
            }
            let c = slice_subrange(input, 0, e2);
            let n = c.len();
            let admitted = n >= 3 && byte_at(c, 0) == 76 && (byte_at(c, 1) == 72 || byte_at(c, 1)
                == 70) && byte_at(c, 2) == 58;
            if !admitted {
                return Err(RecordParsedError::Record(src, 1));
            }
            match decode_content(c) {
                Ok(rec) => Ok(rec),
                Err(col) => Err(RecordParsedError::Record(src, col)),
            }
        },
    }
}

} // verus!
