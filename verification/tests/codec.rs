use mde::chunk::{decode_chunk, encode_chunk};
use mde::error::PngError;
use mde::scan::read_chunks;

fn png_sig() -> Vec<u8> {
    vec![0x89, 0x50, 0x4E, 0x47, 0x0D, 0x0A, 0x1A, 0x0A]
}

fn chunk(tag: &[u8], data: &[u8]) -> Vec<u8> {
    encode_chunk(&tag.to_vec(), &data.to_vec())
}

fn concat(parts: &[Vec<u8>]) -> Vec<u8> {
    let mut out = Vec::new();
    for p in parts {
        out.extend_from_slice(p);
    }
    out
}

#[test]
fn round_trip_encode_decode() {
    let tag = b"tEXt".to_vec();
    let data = vec![1u8, 23, 44, 32, 2];
    let enc = encode_chunk(&tag, &data);
    assert_eq!(enc.len(), 12 + data.len());
    let (c, end) = decode_chunk(&enc, 0).expect("an encoded chunk must decode");
    assert_eq!(c.ctype, tag);
    assert_eq!(c.data, data);
    assert_eq!(end, enc.len());
    let crc_bytes = [enc[enc.len() - 4], enc[enc.len() - 3], enc[enc.len() - 2], enc[enc.len() - 1]];
    assert_eq!(c.crc, u32::from_be_bytes(crc_bytes));
}

#[test]
fn crc_matches_iso_hdlc_check_value() {
    // CRC-32/ISO-HDLC of "123456789" is the algorithm's published check
    // value 0xCBF43926; the checksum here runs over type ‖ data.
    let enc = chunk(b"1234", b"56789");
    assert_eq!(&enc[enc.len() - 4..], &[0xCB, 0xF4, 0x39, 0x26]);
}

#[test]
fn crc_matches_known_iend_trailer() {
    // The empty IEND chunk of every PNG file ends AE 42 60 82.
    let enc = chunk(b"IEND", b"");
    assert_eq!(
        enc,
        vec![0x00, 0x00, 0x00, 0x00, 0x49, 0x45, 0x4E, 0x44, 0xAE, 0x42, 0x60, 0x82]
    );
}

#[test]
fn encode_length_field_is_big_endian_payload_length() {
    let data: Vec<u8> = (0..300u32).map(|i| (i % 256) as u8).collect();
    let enc = chunk(b"teST", &data);
    assert_eq!(&enc[0..4], &[0x00, 0x00, 0x01, 0x2C]);
    assert_eq!(&enc[4..8], b"teST");
    assert_eq!(&enc[8..8 + 300], &data[..]);
}

#[test]
fn decode_truncated_header_fails() {
    let bytes = vec![0u8, 0, 0, 5, b'A', b'B'];
    assert_eq!(decode_chunk(&bytes, 0), Err(PngError::TruncatedChunk));
}

#[test]
fn decode_truncated_payload_fails() {
    // Header declares 5 payload bytes but only 2 remain before the trailer.
    let bytes = vec![0u8, 0, 0, 5, b'A', b'B', b'C', b'D', 1, 2, 9, 9, 9, 9];
    assert_eq!(decode_chunk(&bytes, 0), Err(PngError::TruncatedChunk));
}

#[test]
fn decode_keeps_stored_crc_as_read() {
    // A wrong trailer is stored, not fixed: copy-through must not touch it.
    let mut bytes = chunk(b"tEXt", b"xy");
    let n = bytes.len();
    bytes[n - 1] ^= 0xFF;
    let (c, _) = decode_chunk(&bytes, 0).expect("decode reads the trailer as it stands");
    let crc_bytes = [bytes[n - 4], bytes[n - 3], bytes[n - 2], bytes[n - 1]];
    assert_eq!(c.crc, u32::from_be_bytes(crc_bytes));
}

#[test]
fn read_scan_counts_occurrences_per_tag() {
    let file = concat(&[
        png_sig(),
        chunk(b"IHDR", &[0, 0, 0, 1, 0, 0, 0, 1, 8, 6, 0, 0, 0]),
        chunk(b"tEXt", b"one"),
        chunk(b"tEXt", b"two"),
        chunk(b"IDAT", &[7, 7, 7]),
        chunk(b"tEXt", b"three"),
        chunk(b"IEND", b""),
    ]);
    let rep = read_chunks(&file).expect("a well-formed file scans");
    let tags: Vec<&[u8]> = rep.records.iter().map(|r| &r.chunk.ctype[..]).collect();
    assert_eq!(tags, vec![&b"IHDR"[..], b"tEXt", b"tEXt", b"IDAT", b"tEXt", b"IEND"]);
    let counts: Vec<usize> = rep.records.iter().map(|r| r.count).collect();
    assert_eq!(counts, vec![1, 1, 2, 1, 3, 1]);
    assert_eq!(rep.records[4].chunk.data, b"three".to_vec());
    assert!(rep.trailing.is_empty());
}

#[test]
fn read_scan_stops_at_iend_and_reports_trailing_bytes() {
    let junk = vec![0xDE, 0xAD, 0xBE, 0xEF];
    let file = concat(&[png_sig(), chunk(b"IEND", b""), junk.clone()]);
    let rep = read_chunks(&file).expect("scan succeeds up to IEND");
    assert_eq!(rep.records.len(), 1);
    assert_eq!(rep.records[0].chunk.ctype, b"IEND".to_vec());
    assert_eq!(rep.trailing, junk);
}

#[test]
fn read_scan_of_signature_only_file_is_empty() {
    let rep = read_chunks(&png_sig()).expect("no chunks is not an error");
    assert!(rep.records.is_empty());
    assert!(rep.trailing.is_empty());
}

#[test]
fn read_scan_twice_reports_identical_metadata() {
    let file = concat(&[
        png_sig(),
        chunk(b"IHDR", &[1, 2, 3]),
        chunk(b"tEXt", b"note"),
        chunk(b"IEND", b""),
        vec![9, 9],
    ]);
    let rep1 = read_chunks(&file).expect("first scan");
    let rep2 = read_chunks(&file).expect("second scan");
    assert_eq!(rep1.records.len(), rep2.records.len());
    for (a, b) in rep1.records.iter().zip(rep2.records.iter()) {
        assert_eq!(a.chunk.ctype, b.chunk.ctype);
        assert_eq!(a.chunk.data, b.chunk.data);
        assert_eq!(a.chunk.crc, b.chunk.crc);
        assert_eq!(a.count, b.count);
    }
    assert_eq!(rep1.trailing, rep2.trailing);
}

#[test]
fn read_rejects_bad_signature_before_any_parsing() {
    let mut file = png_sig();
    file[0] = 0x88;
    file.extend_from_slice(&chunk(b"IEND", b""));
    assert!(matches!(read_chunks(&file), Err(PngError::NotAPngFile)));
    let empty: Vec<u8> = Vec::new();
    assert!(matches!(read_chunks(&empty), Err(PngError::NotAPngFile)));
}

#[test]
fn read_reports_truncated_chunk() {
    let file = concat(&[png_sig(), vec![0, 0, 0, 9, b'A', b'B']]);
    assert!(matches!(read_chunks(&file), Err(PngError::TruncatedChunk)));
}
