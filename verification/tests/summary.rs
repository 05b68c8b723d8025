use brc::cli::{first_mismatch, paths, result_to_out, Action, BenchArgs, Cli, CliError, Commands};
use brc::scan::summarize_slice;
use brc::split::{find_split_index, partition, truncate_end};
use brc::table::SummaryEntry;
use brc::{summarize, ParseError, SummaryErrorKind};

#[test]
fn single() {
    let slice: Vec<u8> = vec![75, 117, 110, 109, 105, 110, 103, 59, 49, 57, 46, 56];
    let summary = summarize_slice(&slice, 0, slice.len()).unwrap();
    assert_eq!(summary.len(), 1);
}

#[test]
fn single_record_summary() {
    let data = b"Kunming;19.8\n".to_vec();
    let out = summarize(&data, None, 1).unwrap();
    assert_eq!(out, "{Kunming=19.8/19.8/19.8}\n");
}

#[test]
fn two_keys_two_workers() {
    let data = b"A;10.0\nB;-5.5\nA;20.0\n".to_vec();
    let out = summarize(&data, None, 2).unwrap();
    assert_eq!(out, "{A=10.0/15.0/20.0, B=-5.5/-5.5/-5.5}\n");
}

#[test]
fn worker_count_does_not_change_output() {
    let mut data = Vec::new();
    for i in 0..40 {
        let line = format!("station{};{}.{}\n", i % 7, (i * 13) % 90, i % 10);
        data.extend_from_slice(line.as_bytes());
    }
    let reference = summarize(&data, None, 1).unwrap();
    for k in [1usize, 2, 3, 8, 17, 64] {
        assert_eq!(summarize(&data, None, k).unwrap(), reference);
    }
}

#[test]
fn merge_order_does_not_change_output() {
    let data = b"A;10.0\nB;-5.5\nA;20.0\n".to_vec();
    // Every record-aligned split point, merged in both orders, gives the
    // same table as the unsplit scan.
    let reference = summarize_slice(&data, 0, data.len()).unwrap().into_result();
    for cut in [0usize, 7, 14, 21] {
        let left = summarize_slice(&data, 0, cut).unwrap();
        let right = summarize_slice(&data, cut, data.len()).unwrap();
        assert_eq!(left.merge(right).into_result(), reference);
        let left = summarize_slice(&data, 0, cut).unwrap();
        let right = summarize_slice(&data, cut, data.len()).unwrap();
        assert_eq!(right.merge(left).into_result(), reference);
    }
}

#[test]
fn aggregates_min_mean_max_count() {
    let data = b"K;1.0\nK;2.0\nK;4.0\n".to_vec();
    // mean: 70 / 3 = 23.33 -> rounds to 2.3
    let out = summarize(&data, None, 1).unwrap();
    assert_eq!(out, "{K=1.0/2.3/4.0}\n");
}

#[test]
fn mean_rounds_half_away_from_zero() {
    let data = b"A;0.1\nA;0.2\n".to_vec();
    assert_eq!(summarize(&data, None, 1).unwrap(), "{A=0.1/0.2/0.2}\n");
    let data = b"A;-0.1\nA;-0.2\n".to_vec();
    assert_eq!(summarize(&data, None, 1).unwrap(), "{A=-0.2/-0.2/-0.1}\n");
}

#[test]
fn negative_mean_rounding_to_zero_prints_unsigned() {
    let data = b"A;-0.1\nA;0.0\nA;0.0\n".to_vec();
    assert_eq!(summarize(&data, None, 1).unwrap(), "{A=-0.1/0.0/0.0}\n");
}

#[test]
fn truncation_keeps_only_complete_records() {
    let data = b"A;1.0\nB;2.0\nC;3.0\n".to_vec();
    // Byte 8 lies inside the second line: only the first record counts.
    assert_eq!(truncate_end(&data, Some(8)), 6);
    let out = summarize(&data, Some(8), 1).unwrap();
    assert_eq!(out, "{A=1.0/1.0/1.0}\n");
}

#[test]
fn truncation_at_newline_keeps_that_record() {
    let data = b"A;1.0\nB;2.0\nC;3.0\n".to_vec();
    // Byte 11 is the newline that ends the second record.
    assert_eq!(truncate_end(&data, Some(11)), 12);
    let out = summarize(&data, Some(11), 1).unwrap();
    assert_eq!(out, "{A=1.0/1.0/1.0, B=2.0/2.0/2.0}\n");
}

#[test]
fn limit_past_end_takes_whole_buffer() {
    let data = b"A;1.0\nB;2.0".to_vec();
    assert_eq!(truncate_end(&data, Some(1000)), data.len());
    let out = summarize(&data, Some(1000), 2).unwrap();
    assert_eq!(out, "{A=1.0/1.0/1.0, B=2.0/2.0/2.0}\n");
}

#[test]
fn empty_input_gives_empty_summary() {
    let data = Vec::new();
    assert_eq!(summarize(&data, None, 3).unwrap(), "{}\n");
}

#[test]
fn final_line_may_omit_newline() {
    let data = b"A;1.0\nB;2.5".to_vec();
    assert_eq!(
        summarize(&data, None, 2).unwrap(),
        "{A=1.0/1.0/1.0, B=2.5/2.5/2.5}\n"
    );
}

#[test]
fn partitions_cover_exactly() {
    let data = b"A;1.0\nBC;2.0\nD;3.0\nEF;4.0\nG;5.0\n".to_vec();
    for k in [1usize, 2, 3, 8, 17] {
        let parts = partition(&data, data.len(), k);
        assert_eq!(parts.len(), k);
        assert_eq!(parts[0].0, 0);
        assert_eq!(parts[k - 1].1, data.len());
        for i in 0..k {
            let (s, e) = parts[i];
            assert!(s <= e && e <= data.len());
            if i > 0 {
                assert_eq!(s, parts[i - 1].1);
            }
            assert!(s == 0 || s == data.len() || data[s - 1] == b'\n');
            assert!(e == 0 || e == data.len() || data[e - 1] == b'\n');
        }
    }
}

#[test]
fn missing_delimiter_is_reported() {
    let data = b"Abc\n".to_vec();
    let err = summarize(&data, None, 1).unwrap_err();
    assert_eq!(err.kind, SummaryErrorKind::Parse(ParseError::MissingDelimiter));
}

#[test]
fn leading_delimiter_is_reported() {
    let data = b";1.0\n".to_vec();
    let err = summarize(&data, None, 1).unwrap_err();
    assert_eq!(err.kind, SummaryErrorKind::Parse(ParseError::LeadingDelimiter));
}

#[test]
fn malformed_value_is_reported() {
    for bad in [&b"A;1x.0\n"[..], b"A;12.34\n", b"A;.5\n", b"A;-\n", b"A;5\n"] {
        let err = summarize(&bad.to_vec(), None, 1).unwrap_err();
        assert_eq!(err.kind, SummaryErrorKind::Parse(ParseError::MalformedValue));
    }
}

#[test]
fn value_out_of_range_is_malformed() {
    let data = b"A;99999999999999999999.0\n".to_vec();
    let err = summarize(&data, None, 1).unwrap_err();
    assert_eq!(err.kind, SummaryErrorKind::Parse(ParseError::MalformedValue));
}

#[test]
fn missing_terminator_is_reported() {
    let data = b"A;1.0x\n".to_vec();
    let err = summarize(&data, None, 1).unwrap_err();
    assert_eq!(err.kind, SummaryErrorKind::Parse(ParseError::MissingTerminator));
}

#[test]
fn invalid_key_is_reported() {
    let data = vec![0xFF, 0xFE, b';', b'1', b'.', b'0', b'\n'];
    let err = summarize(&data, None, 1).unwrap_err();
    assert_eq!(err.kind, SummaryErrorKind::Parse(ParseError::InvalidKey));
}

#[test]
fn first_error_wins() {
    let data = b"A;1.0\nBad\nC;ouch\n".to_vec();
    let err = summarize(&data, None, 2).unwrap_err();
    assert_eq!(err.kind, SummaryErrorKind::Parse(ParseError::MissingDelimiter));
}

#[test]
fn utf8_keys_survive_the_round_trip() {
    let data = "Zürich;12.3\nSão Paulo;30.1\n".as_bytes().to_vec();
    let out = summarize(&data, None, 2).unwrap();
    assert_eq!(out, "{São Paulo=30.1/30.1/30.1, Zürich=12.3/12.3/12.3}\n");
}

#[test]
fn entry_renders_itself() {
    let mut e = SummaryEntry::new(b"X".to_vec());
    e.update(-55);
    assert_eq!(e.into_string(), "X=-5.5/-5.5/-5.5");
}

#[test]
fn empty_lines_are_skipped() {
    let data = b"\nA;1.0\n\n\nB;2.0\n".to_vec();
    assert_eq!(
        summarize(&data, None, 2).unwrap(),
        "{A=1.0/1.0/1.0, B=2.0/2.0/2.0}\n"
    );
}

#[test]
fn paths_name_the_data_and_baseline_files() {
    let (d, o) = paths("measurements", None);
    assert_eq!(d, "data/measurements.txt");
    assert_eq!(o, "data/measurements.out");
    let (d, o) = paths("measurements", Some(1000));
    assert_eq!(d, "data/measurements.txt");
    assert_eq!(o, "data/measurements_1000.out");
}

#[test]
fn result_to_out_unwraps_the_summary() {
    let s = b"{A=1.0/1.0/1.0, B=2.0/2.0/2.0}\n".to_vec();
    let out = result_to_out(&s);
    assert_eq!(out, b"A=1.0/1.0/1.0\nB=2.0/2.0/2.0\n".to_vec());
}

#[test]
fn bench_command_is_validated() {
    let cli = Cli {
        command: Commands::Bench(BenchArgs {
            max_bytes: None,
            repeats: 1,
            num_threads: 8,
            data_name: String::from("measurements"),
            versions: vec![],
        }),
    };
    assert!(matches!(cli.run(), Err(CliError::NoVersions)));
    let cli = Cli {
        command: Commands::Bench(BenchArgs {
            max_bytes: None,
            repeats: 0,
            num_threads: 8,
            data_name: String::from("measurements"),
            versions: vec![2],
        }),
    };
    assert!(matches!(cli.run(), Err(CliError::NoRepeats)));
    let cli = Cli {
        command: Commands::Bench(BenchArgs {
            max_bytes: Some(64),
            repeats: 3,
            num_threads: 4,
            data_name: String::from("measurements"),
            versions: vec![2],
        }),
    };
    match cli.run() {
        Ok(Action::Bench {
            data_path,
            out_path,
            max_bytes,
            repeats,
            num_slices,
            versions,
        }) => {
            assert_eq!(data_path, "data/measurements.txt");
            assert_eq!(out_path, "data/measurements_64.out");
            assert_eq!(max_bytes, Some(64));
            assert_eq!(repeats, 3);
            assert_eq!(num_slices, 4);
            assert_eq!(versions, vec![2]);
        }
        other => panic!("unexpected action: {:?}", other.is_ok()),
    }
}

#[test]
fn first_mismatch_finds_the_first_differing_line() {
    let a = b"A=1.0/1.0/1.0\nB=2.0/2.0/2.0\n".to_vec();
    let b = b"A=1.0/1.0/1.0\nB=2.0/2.0/2.0\n".to_vec();
    assert_eq!(first_mismatch(&a, &b), None);
    let c = b"A=1.0/1.0/1.0\nB=2.0/2.5/2.0\n".to_vec();
    assert_eq!(first_mismatch(&a, &c), Some(1));
    let d = b"X=9.9/9.9/9.9\n".to_vec();
    assert_eq!(first_mismatch(&a, &d), Some(0));
    // Lines past the shorter input are not compared.
    let e = b"A=1.0/1.0/1.0\n".to_vec();
    assert_eq!(first_mismatch(&a, &e), None);
}

#[test]
fn negative_zero_value_prints_unsigned() {
    let data = b"A;-0.0\n".to_vec();
    assert_eq!(summarize(&data, None, 1).unwrap(), "{A=0.0/0.0/0.0}\n");
}

#[test]
fn largest_value_in_range_renders_exactly() {
    let data = b"A;214748364.7\n".to_vec();
    assert_eq!(
        summarize(&data, None, 1).unwrap(),
        "{A=214748364.7/214748364.7/214748364.7}\n"
    );
    let data = b"A;214748364.8\n".to_vec();
    let err = summarize(&data, None, 1).unwrap_err();
    assert_eq!(err.kind, SummaryErrorKind::Parse(ParseError::MalformedValue));
}

#[test]
fn split_index_snaps_to_line_starts() {
    let data = b"A;1.0\nB;2.0\n".to_vec();
    assert_eq!(find_split_index(&data, 12, 0), 0);
    assert_eq!(find_split_index(&data, 12, 3), 6);
    assert_eq!(find_split_index(&data, 12, 6), 12);
    assert_eq!(find_split_index(&data, 12, 7), 12);
}

#[test]
fn merging_with_empty_changes_nothing() {
    let data = b"A;1.0\nB;2.0\n".to_vec();
    let reference = summarize_slice(&data, 0, data.len()).unwrap().into_result();
    let t = summarize_slice(&data, 0, data.len()).unwrap();
    assert_eq!(t.merge(brc::table::Summary::new()).into_result(), reference);
    let t = summarize_slice(&data, 0, data.len()).unwrap();
    assert_eq!(brc::table::Summary::new().merge(t).into_result(), reference);
    let empty = brc::table::Summary::new().merge(brc::table::Summary::new());
    assert_eq!(empty.into_result(), "{}\n");
}
