use mde::chunk::encode_chunk;
use mde::error::{MissingKind, PngError};
use mde::ops::{delete_chunk, insert_chunk, update_chunk, RunOutcome};
use mde::params::{PngParser, WorkMode};

fn png_sig() -> Vec<u8> {
    vec![0x89, 0x50, 0x4E, 0x47, 0x0D, 0x0A, 0x1A, 0x0A]
}

fn chunk(tag: &[u8], data: &[u8]) -> Vec<u8> {
    encode_chunk(&tag.to_vec(), &data.to_vec())
}

fn concat(parts: &[Vec<u8>]) -> Vec<u8> {
    let mut out = Vec::new();
    for p in parts {
        out.extend_from_slice(p);
    }
    out
}

/// Signature, a header-like chunk, three tEXt chunks, IEND.
fn three_text_fixture() -> Vec<u8> {
    concat(&[
        png_sig(),
        chunk(b"IHDR", &[0, 0, 0, 1, 0, 0, 0, 1, 8, 6, 0, 0, 0]),
        chunk(b"tEXt", b"first"),
        chunk(b"tEXt", b"second"),
        chunk(b"tEXt", b"third"),
        chunk(b"IEND", b""),
    ])
}

#[test]
fn update_replaces_only_second_text_chunk() {
    let file = three_text_fixture();
    let new_data = b"patched".to_vec();
    let (out, found) = update_chunk(&file, &b"tEXt".to_vec(), 2, &new_data).expect("update runs");
    assert!(found);
    let expected = concat(&[
        png_sig(),
        chunk(b"IHDR", &[0, 0, 0, 1, 0, 0, 0, 1, 8, 6, 0, 0, 0]),
        chunk(b"tEXt", b"first"),
        chunk(b"tEXt", b"patched"),
        chunk(b"tEXt", b"third"),
        chunk(b"IEND", b""),
    ]);
    assert_eq!(out, expected);
}

#[test]
fn delete_removes_only_second_text_chunk() {
    let file = three_text_fixture();
    let (out, found) = delete_chunk(&file, &b"tEXt".to_vec(), 2).expect("delete runs");
    assert!(found);
    let expected = concat(&[
        png_sig(),
        chunk(b"IHDR", &[0, 0, 0, 1, 0, 0, 0, 1, 8, 6, 0, 0, 0]),
        chunk(b"tEXt", b"first"),
        chunk(b"tEXt", b"third"),
        chunk(b"IEND", b""),
    ]);
    assert_eq!(out, expected);
}

#[test]
fn update_missing_target_reports_not_found_and_changes_nothing() {
    let file = three_text_fixture();
    let (out, found) =
        update_chunk(&file, &b"zTXt".to_vec(), 1, &b"x".to_vec()).expect("pass completes");
    assert!(!found);
    assert_eq!(out, file);
}

#[test]
fn delete_missing_target_reports_not_found_and_changes_nothing() {
    let file = three_text_fixture();
    let (out, found) = delete_chunk(&file, &b"zTXt".to_vec(), 1).expect("pass completes");
    assert!(!found);
    assert_eq!(out, file);
}

#[test]
fn delete_position_beyond_occurrences_is_not_found() {
    let file = three_text_fixture();
    let (out, found) = delete_chunk(&file, &b"tEXt".to_vec(), 4).expect("pass completes");
    assert!(!found);
    assert_eq!(out, file);
}

#[test]
fn update_and_delete_copy_trailing_bytes_through() {
    let junk = vec![1u8, 2, 3];
    let file = concat(&[png_sig(), chunk(b"tEXt", b"a"), chunk(b"IEND", b""), junk.clone()]);
    let (out, found) = update_chunk(&file, &b"tEXt".to_vec(), 1, &b"b".to_vec()).unwrap();
    assert!(found);
    let expected = concat(&[png_sig(), chunk(b"tEXt", b"b"), chunk(b"IEND", b""), junk.clone()]);
    assert_eq!(out, expected);
    let (out, found) = delete_chunk(&file, &b"tEXt".to_vec(), 1).unwrap();
    assert!(found);
    assert_eq!(out, concat(&[png_sig(), chunk(b"IEND", b""), junk]));
}

#[test]
fn insert_before_addressed_occurrence() {
    let file = concat(&[
        png_sig(),
        chunk(b"tEXt", b"one"),
        chunk(b"tEXt", b"two"),
        chunk(b"IEND", b""),
    ]);
    // Offset 1: the new chunk goes before the current second occurrence.
    let out = insert_chunk(&file, &b"tEXt".to_vec(), 1, &b"mid".to_vec()).expect("insert runs");
    let expected = concat(&[
        png_sig(),
        chunk(b"tEXt", b"one"),
        chunk(b"tEXt", b"mid"),
        chunk(b"tEXt", b"two"),
        chunk(b"IEND", b""),
    ]);
    assert_eq!(out, expected);
}

#[test]
fn insert_at_offset_zero_goes_before_first_occurrence() {
    let file = concat(&[png_sig(), chunk(b"IHDR", b"h"), chunk(b"tEXt", b"one"), chunk(b"IEND", b"")]);
    let out = insert_chunk(&file, &b"tEXt".to_vec(), 0, &b"new".to_vec()).expect("insert runs");
    let expected = concat(&[
        png_sig(),
        chunk(b"IHDR", b"h"),
        chunk(b"tEXt", b"new"),
        chunk(b"tEXt", b"one"),
        chunk(b"IEND", b""),
    ]);
    assert_eq!(out, expected);
}

#[test]
fn insert_with_too_few_occurrences_goes_before_iend() {
    let file = concat(&[png_sig(), chunk(b"IHDR", b"h"), chunk(b"IEND", b"")]);
    let out = insert_chunk(&file, &b"tEXt".to_vec(), 5, &b"tail".to_vec()).expect("insert runs");
    let expected = concat(&[
        png_sig(),
        chunk(b"IHDR", b"h"),
        chunk(b"tEXt", b"tail"),
        chunk(b"IEND", b""),
    ]);
    assert_eq!(out, expected);
}

#[test]
fn insert_without_iend_appends_at_end() {
    let file = concat(&[png_sig(), chunk(b"IHDR", b"h")]);
    let out = insert_chunk(&file, &b"tEXt".to_vec(), 0, &b"tail".to_vec()).expect("insert runs");
    let expected = concat(&[png_sig(), chunk(b"IHDR", b"h"), chunk(b"tEXt", b"tail")]);
    assert_eq!(out, expected);
}

#[test]
fn mutations_reject_bad_signature_before_any_parsing() {
    let mut file = three_text_fixture();
    file[7] = 0x00;
    let t = b"tEXt".to_vec();
    assert_eq!(update_chunk(&file, &t, 1, &b"x".to_vec()), Err(PngError::NotAPngFile));
    assert_eq!(delete_chunk(&file, &t, 1), Err(PngError::NotAPngFile));
    assert_eq!(insert_chunk(&file, &t, 0, &b"x".to_vec()), Err(PngError::NotAPngFile));
}

#[test]
fn mutations_report_truncated_chunk_mid_stream() {
    let file = concat(&[png_sig(), chunk(b"tEXt", b"ok"), vec![0, 0, 0, 40, b'B', b'A', b'D']]);
    let t = b"tEXt".to_vec();
    assert_eq!(update_chunk(&file, &t, 1, &b"x".to_vec()), Err(PngError::TruncatedChunk));
    assert_eq!(delete_chunk(&file, &t, 1), Err(PngError::TruncatedChunk));
    assert_eq!(insert_chunk(&file, &t, 0, &b"x".to_vec()), Err(PngError::TruncatedChunk));
}

#[test]
fn new_parser_has_documented_defaults() {
    let p = PngParser::new();
    assert_eq!(p.mode, WorkMode::Help);
    assert!(p.data.is_empty());
    assert!(p.chunk_type.is_empty());
    assert_eq!(p.offset, 0);
    assert_eq!(p.position, 1);
    assert!(p.file.is_empty());
}

fn filled_parser(mode: WorkMode) -> PngParser {
    let mut p = PngParser::new();
    p.mode = mode;
    p.file = b"image.png".to_vec();
    p.chunk_type = b"tEXt".to_vec();
    p.position = 1;
    p.data = vec![1, 2, 3];
    p
}

#[test]
fn validate_reports_each_missing_parameter() {
    let mut p = filled_parser(WorkMode::Update);
    p.file = Vec::new();
    assert_eq!(
        p.validate_params(),
        Err(PngError::MissingParameter(MissingKind::Filename))
    );

    let mut p = filled_parser(WorkMode::Update);
    p.chunk_type = Vec::new();
    assert_eq!(
        p.validate_params(),
        Err(PngError::MissingParameter(MissingKind::ChunkType))
    );

    let mut p = filled_parser(WorkMode::Delete);
    p.position = 0;
    assert_eq!(
        p.validate_params(),
        Err(PngError::MissingParameter(MissingKind::Position))
    );

    let mut p = filled_parser(WorkMode::Write);
    p.data = Vec::new();
    assert_eq!(
        p.validate_params(),
        Err(PngError::MissingParameter(MissingKind::Data))
    );

    // Read needs only the file name.
    let mut p = filled_parser(WorkMode::Read);
    p.chunk_type = Vec::new();
    p.data = Vec::new();
    assert_eq!(p.validate_params(), Ok(()));

    assert_eq!(filled_parser(WorkMode::Update).validate_params(), Ok(()));
}

#[test]
fn run_dispatches_read_to_a_report() {
    let p = filled_parser(WorkMode::Read);
    match p.run(&three_text_fixture()) {
        Ok(RunOutcome::Report(rep)) => {
            assert_eq!(rep.records.len(), 5);
            assert_eq!(rep.records[2].chunk.data, b"second".to_vec());
            assert_eq!(rep.records[2].count, 2);
        }
        other => panic!("expected a report, got {:?}", other.is_ok()),
    }
}

#[test]
fn run_dispatches_update_and_delete() {
    let file = three_text_fixture();
    let mut p = filled_parser(WorkMode::Update);
    p.position = 2;
    p.data = b"patched".to_vec();
    match p.run(&file) {
        Ok(RunOutcome::Rewrite { bytes, found }) => {
            assert!(found);
            let (expected, _) =
                update_chunk(&file, &b"tEXt".to_vec(), 2, &b"patched".to_vec()).unwrap();
            assert_eq!(bytes, expected);
        }
        _ => panic!("expected a rewrite"),
    }
    let mut p = filled_parser(WorkMode::Delete);
    p.chunk_type = b"zTXt".to_vec();
    match p.run(&file) {
        Ok(RunOutcome::Rewrite { bytes, found }) => {
            assert!(!found);
            assert_eq!(bytes, file);
        }
        _ => panic!("expected a rewrite"),
    }
}

#[test]
fn run_dispatches_write_to_an_insert() {
    let file = concat(&[png_sig(), chunk(b"IHDR", b"h"), chunk(b"IEND", b"")]);
    let mut p = filled_parser(WorkMode::Write);
    p.offset = 0;
    p.data = b"note".to_vec();
    match p.run(&file) {
        Ok(RunOutcome::Rewrite { bytes, found }) => {
            assert!(found);
            let expected = concat(&[
                png_sig(),
                chunk(b"IHDR", b"h"),
                chunk(b"tEXt", b"note"),
                chunk(b"IEND", b""),
            ]);
            assert_eq!(bytes, expected);
        }
        _ => panic!("expected a rewrite"),
    }
}

#[test]
fn run_gates_every_mode_on_the_signature() {
    let not_png = b"GIF89a-not-a-png-at-all".to_vec();
    for mode in [WorkMode::Read, WorkMode::Write, WorkMode::Update, WorkMode::Delete] {
        let p = filled_parser(mode);
        match p.run(&not_png) {
            Err(PngError::NotAPngFile) => {}
            _ => panic!("a bad signature must be rejected in every mode"),
        }
    }
}

#[test]
fn run_reports_missing_parameters_before_touching_bytes() {
    let mut p = filled_parser(WorkMode::Update);
    p.file = Vec::new();
    assert!(matches!(
        p.run(&three_text_fixture()),
        Err(PngError::MissingParameter(MissingKind::Filename))
    ));
}

#[test]
fn error_descriptions_match_the_diagnostics() {
    assert_eq!(PngError::NotAPngFile.describe(), "File is not png");
    assert_eq!(
        PngError::MissingParameter(MissingKind::Position).describe(),
        "No position provided"
    );
    assert_eq!(PngError::BackupFailed.describe(), "Failed to create backup");
}

#[test]
fn parse_data_fills_payload_from_decimal_list() {
    let mut p = PngParser::new();
    assert_eq!(p.parse_data(&b"1,23,44,32,2".to_vec()), Ok(()));
    assert_eq!(p.data, vec![1, 23, 44, 32, 2]);
}

#[test]
fn parse_data_accepts_bounds_and_leading_zeros() {
    let mut p = PngParser::new();
    assert_eq!(p.parse_data(&b"0,255,007,0000000255".to_vec()), Ok(()));
    assert_eq!(p.data, vec![0, 255, 7, 255]);
}

#[test]
fn parse_data_rejects_bad_lists_and_keeps_old_payload() {
    let mut p = PngParser::new();
    p.data = vec![9];
    assert_eq!(p.parse_data(&b"256".to_vec()), Err(()));
    assert_eq!(p.parse_data(&b"2560".to_vec()), Err(()));
    assert_eq!(p.parse_data(&b"1,,2".to_vec()), Err(()));
    assert_eq!(p.parse_data(&b"".to_vec()), Err(()));
    assert_eq!(p.parse_data(&b"1,".to_vec()), Err(()));
    assert_eq!(p.parse_data(&b"12a".to_vec()), Err(()));
    assert_eq!(p.parse_data(&b"-1".to_vec()), Err(()));
    assert_eq!(p.data, vec![9]);
}

#[test]
fn delete_addresses_the_terminal_chunk_like_any_other() {
    let junk = vec![5u8, 6];
    let file = concat(&[png_sig(), chunk(b"tEXt", b"a"), chunk(b"IEND", b""), junk.clone()]);
    let (out, found) = delete_chunk(&file, &b"IEND".to_vec(), 1).expect("pass completes");
    assert!(found);
    assert_eq!(out, concat(&[png_sig(), chunk(b"tEXt", b"a"), junk]));
}
