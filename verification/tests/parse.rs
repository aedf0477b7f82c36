//! End-to-end checks of the line decoder, the streaming driver, and the
//! formatter.

use lcov_parser::{
    branch_record, each_records, format_record, lines_record, parse_all, parse_record,
    LCOVParser, LCOVRecord, ParsedResult, RecordParsedError,
};

#[test]
fn test_parse_tn_record() {
    let result = parse_record(b"TN:foo\n");
    let expected = LCOVRecord::TestName { name: "foo".to_string() };
    assert_eq!(result, Ok(expected));
}

#[test]
fn test_parse_source_file_record() {
    let result = parse_record(b"SF:foo\n");
    let expected = LCOVRecord::SourceFile { path: "foo".to_string() };
    assert_eq!(result, Ok(expected));
}

#[test]
fn test_parse_data_record() {
    let result = parse_record(b"DA:2,10\n");
    let expected = LCOVRecord::Data { line: 2, hits: 10, checksum: None };
    assert_eq!(result, Ok(expected));
}

#[test]
fn test_parse_end_of_record() {
    let result = parse_record(b"end_of_record\n");
    assert_eq!(result, Ok(LCOVRecord::EndOfRecord));
}

#[test]
fn three_records_with_line_numbers() {
    let mut parser = LCOVParser::new(b"TN:testname\nSF:/path/to/src\nend_of_record\n".to_vec());
    assert_eq!(
        parser.parse_next(),
        ParsedResult::Record(LCOVRecord::TestName { name: "testname".to_string() }, 1)
    );
    assert_eq!(
        parser.parse_next(),
        ParsedResult::Record(LCOVRecord::SourceFile { path: "/path/to/src".to_string() }, 2)
    );
    assert_eq!(parser.parse_next(), ParsedResult::Record(LCOVRecord::EndOfRecord, 3));
    assert_eq!(parser.parse_next(), ParsedResult::Eof);
    assert_eq!(parser.current_record_count(), 3);
}

#[test]
fn data_without_checksum() {
    let records = parse_all(b"DA:2,10\n").unwrap();
    assert_eq!(records, vec![LCOVRecord::Data { line: 2, hits: 10, checksum: None }]);
}

#[test]
fn data_with_checksum() {
    let records = parse_all(b"DA:2,10,abc123\n").unwrap();
    assert_eq!(
        records,
        vec![LCOVRecord::Data { line: 2, hits: 10, checksum: Some("abc123".to_string()) }]
    );
}

#[test]
fn branch_not_taken_is_zero() {
    let records = parse_all(b"BRDA:7,0,1,-\n").unwrap();
    assert_eq!(
        records,
        vec![LCOVRecord::BranchData { line: 7, block: 0, branch: 1, taken: 0 }]
    );
}

#[test]
fn branch_group() {
    let records = parse_all(b"BRDA:7,0,1,3\nBRF:1\nBRH:1\n").unwrap();
    assert_eq!(
        records,
        vec![
            LCOVRecord::BranchData { line: 7, block: 0, branch: 1, taken: 3 },
            LCOVRecord::BranchesFound { count: 1 },
            LCOVRecord::BranchesHit { count: 1 },
        ]
    );
}

#[test]
fn driver_survives_bad_line() {
    let mut parser = LCOVParser::new(b"XX:bogus\nTN:ok\n".to_vec());
    match parser.parse_next() {
        ParsedResult::Error(RecordParsedError::Record(source, column)) => {
            assert_eq!(source, "XX:bogus\n".to_string());
            assert_eq!(column, 1);
        }
        other => panic!("expected a record error, got {:?}", other),
    }
    assert_eq!(parser.current_record_count(), 1);
    assert_eq!(
        parser.parse_next(),
        ParsedResult::Record(LCOVRecord::TestName { name: "ok".to_string() }, 2)
    );
    assert_eq!(parser.parse_next(), ParsedResult::Eof);
}

#[test]
fn every_directive_parses() {
    let input = b"TN:t\nSF:/s\nFN:4,main\nFNDA:7,main\nFNF:1\nFNH:1\nDA:4,7,deadbeef\nLF:1\nLH:1\nBRDA:4,0,0,2\nBRF:1\nBRH:0\nend_of_record\n";
    let records = parse_all(input).unwrap();
    assert_eq!(records.len(), 13);
    assert_eq!(records[2], LCOVRecord::FunctionName { start_line: 4, name: "main".to_string() });
    assert_eq!(records[3], LCOVRecord::FunctionData { hits: 7, name: "main".to_string() });
    assert_eq!(records[4], LCOVRecord::FunctionsFound { count: 1 });
    assert_eq!(records[5], LCOVRecord::FunctionsHit { count: 1 });
    assert_eq!(records[7], LCOVRecord::LinesFound { count: 1 });
    assert_eq!(records[8], LCOVRecord::LinesHit { count: 1 });
    assert_eq!(records[12], LCOVRecord::EndOfRecord);
}

#[test]
fn outputs_match_newlines() {
    // one output per newline, counting records and decode errors alike
    let input = b"TN:a\nnot a directive\nLF:3\n\nLH:2\n";
    let mut parser = LCOVParser::new(input.to_vec());
    let mut outputs = 0;
    loop {
        match parser.parse_next() {
            ParsedResult::Eof => break,
            _ => outputs += 1,
        }
    }
    let newlines = input.iter().filter(|b| **b == b'\n').count();
    assert_eq!(outputs, newlines);
    assert_eq!(outputs, 5);
}

#[test]
fn line_numbers_have_no_gaps() {
    let input = b"TN:a\nbad\nLF:3\nLH:2\n";
    let mut parser = LCOVParser::new(input.to_vec());
    let mut expected_line = 0;
    loop {
        match parser.parse_next() {
            ParsedResult::Eof => break,
            ParsedResult::Record(_, line) => {
                expected_line += 1;
                assert_eq!(line, expected_line);
                assert_eq!(parser.current_record_count(), expected_line);
            }
            ParsedResult::Error(_) => {
                expected_line += 1;
                assert_eq!(parser.current_record_count(), expected_line);
            }
        }
    }
    assert_eq!(expected_line, 4);
}

#[test]
fn arbitrary_bytes_terminate() {
    // the driver terminates and reports per-line outcomes on garbage
    let input: Vec<u8> = (0u8..=255).chain(0u8..=255).collect();
    let mut parser = LCOVParser::new(input);
    let mut outputs = 0;
    loop {
        match parser.parse_next() {
            ParsedResult::Eof => break,
            _ => outputs += 1,
        }
    }
    assert!(outputs >= 1);
}

#[test]
fn unknown_prefix_rejected_at_column_one() {
    for line in [&b"QQ:1\n"[..], &b"ZZZZ:a,b\n"[..], &b"end_of_\n"[..], &b"\n"[..]] {
        match parse_record(line) {
            Err(RecordParsedError::Record(_, column)) => assert_eq!(column, 1),
            other => panic!("expected a record error, got {:?}", other),
        }
    }
}

#[test]
fn invalid_utf8_is_reported_with_bytes() {
    let line = b"TN:\xff\xfe\n";
    match parse_record(line) {
        Err(RecordParsedError::UTF8(bytes)) => assert_eq!(bytes, line.to_vec()),
        other => panic!("expected a UTF-8 error, got {:?}", other),
    }
}

#[test]
fn non_ascii_name_survives() {
    let records = parse_all("TN:caf\u{e9}\n".as_bytes()).unwrap();
    assert_eq!(records, vec![LCOVRecord::TestName { name: "caf\u{e9}".to_string() }]);
}

#[test]
fn carriage_return_is_stripped() {
    let records = parse_all(b"TN:name\r\nDA:1,2\r\n").unwrap();
    assert_eq!(
        records,
        vec![
            LCOVRecord::TestName { name: "name".to_string() },
            LCOVRecord::Data { line: 1, hits: 2, checksum: None },
        ]
    );
}

#[test]
fn final_line_without_newline_is_a_record() {
    let records = parse_all(b"TN:a\nLF:3").unwrap();
    assert_eq!(
        records,
        vec![
            LCOVRecord::TestName { name: "a".to_string() },
            LCOVRecord::LinesFound { count: 3 },
        ]
    );
}

#[test]
fn bad_integer_fields_are_rejected() {
    match parse_record(b"DA:x,10\n") {
        Err(RecordParsedError::Record(_, column)) => assert_eq!(column, 4),
        other => panic!("expected a record error, got {:?}", other),
    }
    match parse_record(b"DA:2,x\n") {
        Err(RecordParsedError::Record(_, column)) => assert_eq!(column, 6),
        other => panic!("expected a record error, got {:?}", other),
    }
    match parse_record(b"LF:\n") {
        Err(RecordParsedError::Record(_, column)) => assert_eq!(column, 4),
        other => panic!("expected a record error, got {:?}", other),
    }
    // a count that does not fit in 32 bits
    match parse_record(b"LH:4294967296\n") {
        Err(RecordParsedError::Record(_, column)) => assert_eq!(column, 4),
        other => panic!("expected a record error, got {:?}", other),
    }
    assert_eq!(
        parse_record(b"LH:4294967295\n"),
        Ok(LCOVRecord::LinesHit { count: 4294967295 })
    );
}

#[test]
fn format_then_parse_round_trips() {
    let samples = vec![
        LCOVRecord::TestName { name: "".to_string() },
        LCOVRecord::TestName { name: "a,b c".to_string() },
        LCOVRecord::SourceFile { path: "/p/q.rs".to_string() },
        LCOVRecord::Data { line: 2, hits: 10, checksum: None },
        LCOVRecord::Data { line: 2, hits: 10, checksum: Some("abc123".to_string()) },
        LCOVRecord::FunctionName { start_line: 0, name: "f,g".to_string() },
        LCOVRecord::FunctionData { hits: 4294967295, name: "caf\u{e9}".to_string() },
        LCOVRecord::FunctionsFound { count: 3 },
        LCOVRecord::FunctionsHit { count: 0 },
        LCOVRecord::BranchData { line: 7, block: 0, branch: 1, taken: 0 },
        LCOVRecord::BranchesFound { count: 10 },
        LCOVRecord::BranchesHit { count: 9 },
        LCOVRecord::LinesFound { count: 107 },
        LCOVRecord::LinesHit { count: 101 },
        LCOVRecord::EndOfRecord,
    ];
    for record in samples {
        let text = format_record(&record);
        assert_eq!(parse_record(text.as_bytes()), Ok(record.clone()), "line {:?}", text);
    }
}

#[test]
fn format_is_canonical_text() {
    assert_eq!(format_record(&LCOVRecord::TestName { name: "t".to_string() }), "TN:t\n");
    assert_eq!(
        format_record(&LCOVRecord::Data { line: 2, hits: 10, checksum: None }),
        "DA:2,10\n"
    );
    assert_eq!(
        format_record(&LCOVRecord::BranchData { line: 7, block: 0, branch: 1, taken: 0 }),
        "BRDA:7,0,1,0\n"
    );
    assert_eq!(format_record(&LCOVRecord::EndOfRecord), "end_of_record\n");
}

#[test]
fn branch_record_admits_only_branch_directives() {
    assert_eq!(
        branch_record(b"BRDA:7,0,1,3\n"),
        Ok(LCOVRecord::BranchData { line: 7, block: 0, branch: 1, taken: 3 })
    );
    assert_eq!(branch_record(b"BRF:2\n"), Ok(LCOVRecord::BranchesFound { count: 2 }));
    assert_eq!(branch_record(b"BRH:1\n"), Ok(LCOVRecord::BranchesHit { count: 1 }));
    match branch_record(b"TN:foo\n") {
        Err(RecordParsedError::Record(source, column)) => {
            assert_eq!(source, "TN:foo\n".to_string());
            assert_eq!(column, 1);
        }
        other => panic!("expected a record error, got {:?}", other),
    }
    match branch_record(b"BRDA:7,0\n") {
        Err(RecordParsedError::Record(_, column)) => assert_eq!(column, 8),
        other => panic!("expected a record error, got {:?}", other),
    }
}

#[test]
fn lines_record_admits_only_line_totals() {
    assert_eq!(lines_record(b"LH:5\n"), Ok(LCOVRecord::LinesHit { count: 5 }));
    assert_eq!(lines_record(b"LF:6\n"), Ok(LCOVRecord::LinesFound { count: 6 }));
    match lines_record(b"DA:1,2\n") {
        Err(RecordParsedError::Record(_, column)) => assert_eq!(column, 1),
        other => panic!("expected a record error, got {:?}", other),
    }
}

#[test]
fn each_records_visits_in_order() {
    let seen = std::cell::RefCell::new(Vec::new());
    let result = each_records(b"TN:a\nLF:3\nend_of_record\n", |record| {
        seen.borrow_mut().push(record);
    });
    assert_eq!(result, Ok(()));
    assert_eq!(
        *seen.borrow(),
        vec![
            LCOVRecord::TestName { name: "a".to_string() },
            LCOVRecord::LinesFound { count: 3 },
            LCOVRecord::EndOfRecord,
        ]
    );
}

#[test]
fn each_records_stops_at_first_error() {
    let seen = std::cell::RefCell::new(Vec::new());
    let result = each_records(b"TN:a\nbad line\nLF:3\n", |record| {
        seen.borrow_mut().push(record);
    });
    match result {
        Err(RecordParsedError::Record(source, column)) => {
            assert_eq!(source, "bad line\n".to_string());
            assert_eq!(column, 1);
        }
        other => panic!("expected a record error, got {:?}", other),
    }
    assert_eq!(*seen.borrow(), vec![LCOVRecord::TestName { name: "a".to_string() }]);
}

#[test]
fn parse_all_aborts_on_first_error() {
    match parse_all(b"TN:a\nDA:oops\nLF:3\n") {
        Err(RecordParsedError::Record(source, _)) => {
            assert_eq!(source, "DA:oops\n".to_string());
        }
        other => panic!("expected a record error, got {:?}", other),
    }
}

#[test]
fn empty_input_yields_nothing() {
    assert_eq!(parse_all(b""), Ok(vec![]));
    let mut parser = LCOVParser::new(Vec::new());
    assert_eq!(parser.parse_next(), ParsedResult::Eof);
    assert_eq!(parser.current_record_count(), 0);
}

#[test]
fn brda_errors_point_at_the_failing_field() {
    match parse_record(b"BRDA:a,0,1,2\n") {
        Err(RecordParsedError::Record(_, column)) => assert_eq!(column, 6),
        other => panic!("expected a record error, got {:?}", other),
    }
    match parse_record(b"BRDA:7,0,1,x\n") {
        Err(RecordParsedError::Record(_, column)) => assert_eq!(column, 12),
        other => panic!("expected a record error, got {:?}", other),
    }
}

#[test]
fn da_empty_checksum_is_kept() {
    assert_eq!(
        parse_record(b"DA:1,2,\n"),
        Ok(LCOVRecord::Data { line: 1, hits: 2, checksum: Some("".to_string()) })
    );
}
