use png_meta::error::PngError;
use png_meta::png::{
    parse_gAMA_chunk, parse_IHDR_chunk, parse_tEXt_chunks, parse_tIME_chunk, read_png,
    read_png_chunks, ColorType, PngChunk,
};
use png_meta::utils::{slice_to_u16, slice_to_u32};

const SIGNATURE: [u8; 8] = [0x89, 0x50, 0x4E, 0x47, 0x0D, 0x0A, 0x1A, 0x0A];

fn chunk(tag: &[u8; 4], data: &[u8]) -> Vec<u8> {
    let mut out = Vec::new();
    out.extend_from_slice(&(data.len() as u32).to_be_bytes());
    out.extend_from_slice(tag);
    out.extend_from_slice(data);
    out.extend_from_slice(&[0, 0, 0, 0]); // CRC, skipped without validation
    out
}

fn raw(data: &[u8]) -> PngChunk {
    PngChunk { length: data.len() as u32, data: data.to_vec() }
}

#[test]
fn u32_big_endian() {
    assert_eq!(slice_to_u32(&[0x00, 0x00, 0xC3, 0x50]), Ok(50000));
    assert_eq!(slice_to_u32(&[0xFF, 0xFF, 0xFF, 0xFF]), Ok(u32::MAX));
    assert_eq!(slice_to_u32(&[0x01, 0x02, 0x03, 0x04]), Ok(0x01020304));
}

#[test]
fn u16_big_endian() {
    assert_eq!(slice_to_u16(&[0x07, 0xE8]), Ok(2024));
    assert_eq!(slice_to_u16(&[0x00, 0x01]), Ok(1));
}

#[test]
fn wrong_width_is_length_mismatch() {
    assert_eq!(slice_to_u32(&[1, 2, 3]), Err(PngError::LengthMismatch));
    assert_eq!(slice_to_u32(&[1, 2, 3, 4, 5]), Err(PngError::LengthMismatch));
    assert_eq!(slice_to_u16(&[1]), Err(PngError::LengthMismatch));
    assert_eq!(slice_to_u16(&[1, 2, 3]), Err(PngError::LengthMismatch));
}

#[test]
fn color_codes_round_trip() {
    for (code, variant) in [
        (0u8, ColorType::Grayscale),
        (2, ColorType::Truecolor),
        (3, ColorType::Indexed),
        (4, ColorType::GrayscaleAlpha),
        (6, ColorType::TruecolorAlpha),
    ] {
        let decoded = ColorType::from_byte(code).unwrap();
        assert_eq!(decoded, variant);
        assert_eq!(decoded.code(), code);
    }
}

#[test]
fn invalid_color_byte_is_rejected() {
    for code in [1u8, 5, 7, 8, 127, 255] {
        assert_eq!(ColorType::from_byte(code), Err(PngError::InvalidColorType));
    }
}

#[test]
fn ihdr_decodes_all_fields() {
    let data = [
        0x00, 0x00, 0x01, 0x00, // width 256
        0x00, 0x00, 0x00, 0x80, // height 128
        8,    // bit depth
        6,    // color type: truecolor with alpha
        0,    // compression method
        0,    // filter method
        1,    // interlace method
    ];
    let fields = parse_IHDR_chunk(&raw(&data)).unwrap();
    assert_eq!(fields, (256, 128, 8, ColorType::TruecolorAlpha, 0, 0, 1));
}

#[test]
fn ihdr_invalid_color_type() {
    let mut data = [0u8; 13];
    data[9] = 5;
    assert_eq!(parse_IHDR_chunk(&raw(&data)), Err(PngError::InvalidColorType));
}

#[test]
fn ihdr_short_data_is_malformed() {
    assert_eq!(parse_IHDR_chunk(&raw(&[0u8; 12])), Err(PngError::MalformedChunk));
    assert_eq!(parse_IHDR_chunk(&raw(&[])), Err(PngError::MalformedChunk));
}

#[test]
fn framer_groups_by_tag_in_order() {
    let mut buf = chunk(b"tEXt", b"a\0b");
    buf.extend_from_slice(&chunk(b"gAMA", &[0, 0, 0xC3, 0x50]));
    buf.extend_from_slice(&chunk(b"tEXt", b"c\0d"));
    let table = read_png_chunks(&buf).unwrap();
    let texts = table.get("tEXt").unwrap();
    assert_eq!(texts.len(), 2);
    assert_eq!(texts[0].data, b"a\0b".to_vec());
    assert_eq!(texts[1].data, b"c\0d".to_vec());
    assert_eq!(texts[0].length, 3);
    let gammas = table.get("gAMA").unwrap();
    assert_eq!(gammas.len(), 1);
    assert_eq!(gammas[0].data, vec![0, 0, 0xC3, 0x50]);
    assert!(table.get("IHDR").is_none());
}

#[test]
fn framer_empty_buffer_is_empty_table() {
    let table = read_png_chunks(&[]).unwrap();
    assert!(table.get("IHDR").is_none());
    assert!(table.get("tEXt").is_none());
}

#[test]
fn framer_truncated_at_each_step() {
    // shorter than the 4 length bytes
    assert!(matches!(read_png_chunks(&[0, 0]), Err(PngError::TruncatedChunk)));
    // length present, tag cut short
    assert!(matches!(read_png_chunks(&[0, 0, 0, 0, b'I', b'H']), Err(PngError::TruncatedChunk)));
    // declared data length runs past the end
    let buf = [0, 0, 0, 9, b't', b'E', b'X', b't', 1, 2, 3];
    assert!(matches!(read_png_chunks(&buf), Err(PngError::TruncatedChunk)));
    // data complete but the 4 CRC bytes are missing
    let mut buf = chunk(b"tEXt", b"k\0v");
    buf.truncate(buf.len() - 1);
    assert!(matches!(read_png_chunks(&buf), Err(PngError::TruncatedChunk)));
    // a later chunk is truncated
    let mut buf = chunk(b"gAMA", &[0, 0, 0xC3, 0x50]);
    buf.extend_from_slice(&[0, 0, 0, 1]);
    assert!(matches!(read_png_chunks(&buf), Err(PngError::TruncatedChunk)));
}

#[test]
fn text_single_pair_value_runs_to_end_of_data() {
    let chunks = vec![raw(b"Author\0Jane Smith")];
    let entries = parse_tEXt_chunks(&chunks).unwrap();
    assert_eq!(entries, vec![("Author".to_string(), "Jane Smith".to_string())]);
}

#[test]
fn text_scans_multiple_pairs_in_one_chunk() {
    let chunks = vec![raw(b"Author\0Jane\0Smith\0Doe")];
    let entries = parse_tEXt_chunks(&chunks).unwrap();
    assert_eq!(
        entries,
        vec![("Author".to_string(), "Jane".to_string()), ("Smith".to_string(), "Doe".to_string())]
    );
}

#[test]
fn text_unterminated_trailing_key_is_malformed() {
    let chunks = vec![raw(b"Author\0Jane\0Smith")];
    assert_eq!(parse_tEXt_chunks(&chunks), Err(PngError::MalformedChunk));
}

#[test]
fn text_zero_terminated_value_leaves_empty_trailing_value() {
    let chunks = vec![raw(b"A\0B\0C\0")];
    let entries = parse_tEXt_chunks(&chunks).unwrap();
    assert_eq!(
        entries,
        vec![("A".to_string(), "B".to_string()), ("C".to_string(), String::new())]
    );
}

#[test]
fn text_repeated_key_within_one_chunk_overwrites() {
    let chunks = vec![raw(b"K\0a\0K\0b")];
    let entries = parse_tEXt_chunks(&chunks).unwrap();
    assert_eq!(entries, vec![("K".to_string(), "b".to_string())]);
}

#[test]
fn text_multiple_chunks_merge_in_order() {
    let chunks = vec![raw(b"Author\0Jane"), raw(b"Title\0Hills"), raw(b"Author\0Ada")];
    let entries = parse_tEXt_chunks(&chunks).unwrap();
    assert_eq!(
        entries,
        vec![("Author".to_string(), "Ada".to_string()), ("Title".to_string(), "Hills".to_string())]
    );
}

#[test]
fn text_empty_key_and_value() {
    let chunks = vec![raw(b"\0")];
    let entries = parse_tEXt_chunks(&chunks).unwrap();
    assert_eq!(entries, vec![(String::new(), String::new())]);
}

#[test]
fn text_without_separator_is_malformed() {
    let chunks = vec![raw(b"AuthorJane")];
    assert_eq!(parse_tEXt_chunks(&chunks), Err(PngError::MalformedChunk));
    let chunks = vec![raw(b"a\0b"), raw(b"nozero")];
    assert_eq!(parse_tEXt_chunks(&chunks), Err(PngError::MalformedChunk));
}

#[test]
fn text_invalid_utf8_is_replaced_not_copied() {
    let chunks = vec![raw(&[0xFF, 0x00, b'x'])];
    let entries = parse_tEXt_chunks(&chunks).unwrap();
    assert_eq!(entries, vec![("\u{FFFD}".to_string(), "x".to_string())]);
}

#[test]
fn time_formats_with_padding_rule() {
    let fields = [0x07, 0xE8, 12, 25, 9, 5, 3]; // 2024-12-25 09:05:03
    assert_eq!(parse_tIME_chunk(&raw(&fields)).unwrap(), "12/25/2024 9:05:03");
}

#[test]
fn time_pads_only_minute_and_second() {
    let fields = [0x00, 0x07, 1, 2, 3, 4, 5];
    assert_eq!(parse_tIME_chunk(&raw(&fields)).unwrap(), "1/2/7 3:04:05");
    let fields = [0x07, 0xE8, 10, 20, 30, 40, 50];
    assert_eq!(parse_tIME_chunk(&raw(&fields)).unwrap(), "10/20/2024 30:40:50");
}

#[test]
fn time_short_data_is_malformed() {
    assert_eq!(parse_tIME_chunk(&raw(&[0x07, 0xE8, 12, 25, 9, 5])), Err(PngError::MalformedChunk));
}

#[test]
fn gamma_decodes_scaled_integer() {
    let scaled = parse_gAMA_chunk(&raw(&[0x00, 0x00, 0xC3, 0x50])).unwrap();
    assert_eq!(scaled, 50000);
    // the display gamma is the stored integer divided by 100000
    assert_eq!(scaled as f32 / 100000.0, 0.5);
}

#[test]
fn gamma_short_data_is_malformed() {
    assert_eq!(parse_gAMA_chunk(&raw(&[0, 0, 0xC3])), Err(PngError::MalformedChunk));
}

fn minimal_ihdr_data() -> [u8; 13] {
    let mut data = [0u8; 13];
    data[0..4].copy_from_slice(&16u32.to_be_bytes()); // width
    data[4..8].copy_from_slice(&9u32.to_be_bytes()); // height
    data[8] = 8; // bit depth
    data[9] = 2; // color type: truecolor
    data
}

#[test]
fn minimal_file_parses_with_all_optionals_absent() {
    let mut buf = SIGNATURE.to_vec();
    buf.extend_from_slice(&chunk(b"IHDR", &minimal_ihdr_data()));
    let img = read_png(&buf).unwrap();
    assert_eq!(img.width, 16);
    assert_eq!(img.height, 9);
    assert_eq!(img.bit_depth, 8);
    assert_eq!(img.color_type, ColorType::Truecolor);
    assert_eq!(img.compression_method, 0);
    assert_eq!(img.filter_method, 0);
    assert_eq!(img.interlace_method, 0);
    assert!(img.text_entries.is_none());
    assert!(img.last_changed.is_none());
    assert!(img.gamma.is_none());
}

#[test]
fn missing_ihdr_fails_whatever_else_is_present() {
    let mut buf = SIGNATURE.to_vec();
    buf.extend_from_slice(&chunk(b"gAMA", &[0, 0, 0xC3, 0x50]));
    buf.extend_from_slice(&chunk(b"tIME", &[0x07, 0xE8, 12, 25, 9, 5, 3]));
    assert!(matches!(read_png(&buf), Err(PngError::MissingRequiredChunk)));
    let empty = SIGNATURE.to_vec();
    assert!(matches!(read_png(&empty), Err(PngError::MissingRequiredChunk)));
}

#[test]
fn bad_signature_is_rejected() {
    let mut buf = SIGNATURE.to_vec();
    buf.extend_from_slice(&chunk(b"IHDR", &minimal_ihdr_data()));
    buf[0] = 0x88;
    assert!(matches!(read_png(&buf), Err(PngError::InvalidSignature)));
    assert!(matches!(read_png(&[0x89, 0x50]), Err(PngError::InvalidSignature)));
    assert!(matches!(read_png(&[]), Err(PngError::InvalidSignature)));
}

#[test]
fn decoder_failure_aborts_whole_parse() {
    let mut buf = SIGNATURE.to_vec();
    buf.extend_from_slice(&chunk(b"IHDR", &minimal_ihdr_data()));
    buf.extend_from_slice(&chunk(b"tEXt", b"nozero"));
    assert!(matches!(read_png(&buf), Err(PngError::MalformedChunk)));
}

#[test]
fn parsing_twice_is_identical() {
    let mut buf = SIGNATURE.to_vec();
    buf.extend_from_slice(&chunk(b"IHDR", &minimal_ihdr_data()));
    buf.extend_from_slice(&chunk(b"tEXt", b"Author\0Jane"));
    buf.extend_from_slice(&chunk(b"tIME", &[0x07, 0xE8, 12, 25, 9, 5, 3]));
    buf.extend_from_slice(&chunk(b"gAMA", &[0, 0, 0xC3, 0x50]));
    let a = read_png(&buf).unwrap();
    let b = read_png(&buf).unwrap();
    assert_eq!(a.width, b.width);
    assert_eq!(a.height, b.height);
    assert_eq!(a.bit_depth, b.bit_depth);
    assert_eq!(a.color_type, b.color_type);
    assert_eq!(a.compression_method, b.compression_method);
    assert_eq!(a.filter_method, b.filter_method);
    assert_eq!(a.interlace_method, b.interlace_method);
    assert_eq!(a.text_entries, b.text_entries);
    assert_eq!(a.last_changed, b.last_changed);
    assert_eq!(a.gamma, b.gamma);
    assert_eq!(a.text_entries.unwrap(), vec![("Author".to_string(), "Jane".to_string())]);
    assert_eq!(a.last_changed.unwrap(), "12/25/2024 9:05:03");
    assert_eq!(a.gamma.unwrap(), 50000);
}
