use inspect::base64::{decode_chunks, Base64, Base64Error, Progress};
use inspect::float::Kind;
use inspect::source::ChunkSource;

fn one(s: &str) -> Vec<Vec<u8>> {
    vec![s.as_bytes().to_vec()]
}

fn decode_str(s: &str) -> Result<Vec<u8>, Base64Error> {
    decode_chunks(one(s), 1024)
}

#[test]
fn padded_hello() {
    assert_eq!(decode_str("SGVsbG8=").unwrap(), b"Hello".to_vec());
}

#[test]
fn unpadded_full_quads() {
    assert_eq!(decode_str("SGVsbG8h").unwrap(), b"Hello!".to_vec());
}

#[test]
fn double_padding_single_byte() {
    assert_eq!(decode_str("TQ==").unwrap(), vec![0x4Du8]);
}

#[test]
fn trailing_newline_is_noise() {
    assert_eq!(decode_str("SGVsbG8=\n").unwrap(), b"Hello".to_vec());
}

#[test]
fn padding_before_final_position_fails() {
    assert_eq!(decode_str("SGVs=bG8="), Err(Base64Error::InvalidPadding));
}

#[test]
fn truncated_quad_is_dropped() {
    assert_eq!(decode_str("SGVzb").unwrap(), b"Hes".to_vec());
}

#[test]
fn empty_input_decodes_to_nothing() {
    assert_eq!(decode_str("").unwrap(), Vec::<u8>::new());
    assert_eq!(decode_chunks(Vec::new(), 1).unwrap(), Vec::<u8>::new());
}

#[test]
fn padding_in_first_or_second_place_fails() {
    assert_eq!(decode_str("=AAA"), Err(Base64Error::InvalidPadding));
    assert_eq!(decode_str("A=AA"), Err(Base64Error::InvalidPadding));
}

#[test]
fn symbol_after_third_place_padding_fails() {
    assert_eq!(decode_str("TQ=A"), Err(Base64Error::InvalidPadding));
}

#[test]
fn single_padding_two_bytes() {
    assert_eq!(decode_str("TWE=").unwrap(), b"Ma".to_vec());
}

#[test]
fn round_trip_of_known_encodings() {
    let cases: Vec<(&str, &[u8])> = vec![
        ("", b""),
        ("Zg==", b"f"),
        ("Zm8=", b"fo"),
        ("Zm9v", b"foo"),
        ("Zm9vYg==", b"foob"),
        ("Zm9vYmE=", b"fooba"),
        ("Zm9vYmFy", b"foobar"),
        ("AP8=", &[0x00, 0xFF]),
        ("+/+/", &[0xFB, 0xFF, 0xBF]),
    ];
    for (enc, dec) in cases {
        assert_eq!(decode_str(enc).unwrap(), dec.to_vec());
    }
}

#[test]
fn every_byte_value_round_trips() {
    let enc = "AAECAwQFBgcICQoLDA0ODxAREhMUFRYXGBkaGxwdHh8gISIjJCUmJygpKissLS4vMDEyMzQ1Njc4OTo7PD0+P0BBQkNERUZHSElKS0xNTk9QUVJTVFVWV1hZWltcXV5fYGFiY2RlZmdoaWprbG1ub3BxcnN0dXZ3eHl6e3x9fn+AgYKDhIWGh4iJiouMjY6PkJGSk5SVlpeYmZqbnJ2en6ChoqOkpaanqKmqq6ytrq+wsbKztLW2t7i5uru8vb6/wMHCw8TFxsfIycrLzM3Oz9DR0tPU1dbX2Nna29zd3t/g4eLj5OXm5+jp6uvs7e7v8PHy8/T19vf4+fr7/P3+/w==";
    let expected: Vec<u8> = (0..=255u8).collect();
    assert_eq!(decode_str(enc).unwrap(), expected);
}

#[test]
fn chunking_and_read_size_do_not_matter() {
    let text = "SGVsbG8sIHdvcmxkIQ==";
    let whole = decode_str(text).unwrap();
    assert_eq!(whole, b"Hello, world!".to_vec());
    let bytes = text.as_bytes();
    for size in 1..=bytes.len() {
        let chunks: Vec<Vec<u8>> = bytes.chunks(size).map(|c| c.to_vec()).collect();
        for read_size in [1usize, 2, 3, 5, 64] {
            assert_eq!(decode_chunks(chunks.clone(), read_size).unwrap(), whole);
        }
    }
    let uneven = vec![b"S".to_vec(), Vec::new(), b"GVsbG8sIH".to_vec(), b"dvcmxkIQ=".to_vec(), b"=".to_vec()];
    assert_eq!(decode_chunks(uneven, 4).unwrap(), whole);
}

#[test]
fn whitespace_anywhere_is_ignored() {
    assert_eq!(decode_str(" S G\nVs\r\nbG\t8 = ").unwrap(), b"Hello".to_vec());
    assert_eq!(decode_str("\n\nTQ\n==\n").unwrap(), vec![0x4Du8]);
}

#[test]
fn url_safe_alphabet_matches_standard() {
    assert_eq!(decode_str("-_-_").unwrap(), decode_str("+/+/").unwrap());
    assert_eq!(decode_str("-_-_").unwrap(), vec![0xFB, 0xFF, 0xBF]);
    assert_eq!(decode_str("+_-/").unwrap(), decode_str("+/+/").unwrap());
}

#[test]
fn end_of_stream_is_sticky() {
    let mut dec = Base64::new();
    let mut out: Vec<u8> = Vec::new();
    assert_eq!(dec.decode_into(&mut out, 4), Ok(Progress::NeedInput(4)));
    dec.refill(b"TQ==".to_vec());
    assert_eq!(dec.decode_into(&mut out, 4), Ok(Progress::NeedInput(3)));
    assert_eq!(out, vec![0x4Du8]);
    for _ in 0..3 {
        let mut again: Vec<u8> = Vec::new();
        assert_eq!(dec.decode_into(&mut again, 4), Ok(Progress::NeedInput(4)));
        assert!(again.is_empty());
    }
}

#[test]
fn decoder_stops_when_output_is_full() {
    let mut dec = Base64::new();
    dec.refill(b"SGVsbG8h".to_vec());
    let mut out: Vec<u8> = Vec::new();
    assert_eq!(dec.decode_into(&mut out, 2), Ok(Progress::Full));
    assert_eq!(out, b"He".to_vec());
    let mut rest: Vec<u8> = Vec::new();
    assert_eq!(dec.decode_into(&mut rest, 10), Ok(Progress::NeedInput(6)));
    assert_eq!(rest, b"llo!".to_vec());
}

#[test]
fn refill_keeps_unconsumed_bytes() {
    let mut dec = Base64::new();
    dec.refill(b"SGVs".to_vec());
    let mut out: Vec<u8> = Vec::new();
    assert_eq!(dec.decode_into(&mut out, 1), Ok(Progress::Full));
    dec.refill(b"bG8=".to_vec());
    assert_eq!(dec.decode_into(&mut out, 5), Ok(Progress::Full));
    assert_eq!(out, b"Hello".to_vec());
}

#[test]
fn chunk_source_hands_out_bounded_pieces() {
    let mut src = ChunkSource::new(vec![b"abcde".to_vec(), Vec::new(), b"fg".to_vec()]);
    assert_eq!(src.read(3), b"abc".to_vec());
    assert_eq!(src.read(3), b"de".to_vec());
    assert_eq!(src.read(3), b"fg".to_vec());
    assert_eq!(src.read(3), Vec::<u8>::new());
    assert_eq!(src.read(3), Vec::<u8>::new());
}

#[test]
fn error_message() {
    assert_eq!(Base64Error::InvalidPadding.message(), "Invalid base64 padding.".to_string());
}

#[test]
fn kind_sizes() {
    assert_eq!(Kind::F32.get_size(), 4);
    assert_eq!(Kind::F64.get_size(), 8);
}
