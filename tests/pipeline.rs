use ascii_video::codec::{render_frame, unpack_stream};
use ascii_video::error::PipelineError;
use ascii_video::playback::{frame_offset_ms, viewport_size, Player};
use ascii_video::probe::{parse_dimensions, parse_frame_rate, FrameRate};
use ascii_video::resolve::{get_char_dims, new_target_dimensions, resolve_target, CharDimsError};
use ascii_video::source::{classify_read, finish_production, frame_byte_len, production_step};
use ascii_video::text::{decimal_text, parse_decimal};
use ascii_video::wire::{decode_stream, encode_frame, encode_header, parse_header, read_lines, readable_lines, split_lines, StreamHeader};
use base64::engine::Engine;
use std::io::Write;

fn lines(texts: &[&str]) -> Vec<Vec<u8>> {
    texts.iter().map(|t| t.as_bytes().to_vec()).collect()
}

fn header(rate: &str, size: &str) -> StreamHeader {
    parse_header(rate.as_bytes(), size.as_bytes()).unwrap()
}

#[test]
fn width_only_derives_height() {
    assert_eq!(new_target_dimensions(1920, 1080, 1, 1, Some(80), None), (80, 45));
    assert_eq!(resolve_target(1920, 1080, 1, 1, Some(80), None), Ok((80, 45)));
}

#[test]
fn height_only_derives_width() {
    assert_eq!(resolve_target(1920, 1080, 1, 1, None, Some(45)), Ok((80, 45)));
    // 1920 * 45 * 1 / (1080 * 2) = 40
    assert_eq!(resolve_target(1920, 1080, 1, 2, None, Some(45)), Ok((40, 45)));
}

#[test]
fn char_aspect_corrects_height() {
    // 1080 * 80 * 2 / (1920 * 1) = 90
    assert_eq!(resolve_target(1920, 1080, 1, 2, Some(80), None), Ok((80, 90)));
    // 1080 * 100 * 1 / (1920 * 3) = 18.75, truncated
    assert_eq!(resolve_target(1920, 1080, 3, 1, Some(100), None), Ok((100, 18)));
}

#[test]
fn both_dimensions_used_verbatim() {
    assert_eq!(resolve_target(1920, 1080, 7, 3, Some(33), Some(11)), Ok((33, 11)));
}

#[test]
fn zero_or_absent_targets_rejected() {
    assert_eq!(resolve_target(1920, 1080, 1, 1, None, None), Err(PipelineError::InputValidationError));
    assert_eq!(resolve_target(1920, 1080, 1, 1, Some(0), None), Err(PipelineError::InputValidationError));
    assert_eq!(resolve_target(1920, 1080, 1, 1, None, Some(0)), Err(PipelineError::InputValidationError));
    assert_eq!(resolve_target(1920, 1080, 1, 1, Some(80), Some(0)), Err(PipelineError::InputValidationError));
}

#[test]
fn unrepresentable_targets_rejected() {
    assert_eq!(resolve_target(0, 1080, 1, 1, Some(80), None), Err(PipelineError::InputValidationError));
    assert_eq!(resolve_target(1920, 1080, 1, 0, None, Some(80)), Err(PipelineError::InputValidationError));
    assert_eq!(resolve_target(1, 4_000_000_000, 1, 1, Some(2), None), Err(PipelineError::InputValidationError));
    assert_eq!(resolve_target(1920, 1080, 1, 1, Some(1), None), Err(PipelineError::InputValidationError));
}

#[test]
fn char_dims_parse() {
    assert_eq!(get_char_dims(None), Ok((1, 1)));
    assert_eq!(get_char_dims(Some("2x3")), Ok((2, 3)));
    assert_eq!(get_char_dims(Some("2x3x9")), Ok((2, 3)));
    assert_eq!(get_char_dims(Some("23")), Err(CharDimsError::MissingHeight));
    assert_eq!(get_char_dims(Some("+2x3")), Ok((2, 3)));
    assert_eq!(get_char_dims(Some("abc")), Err(CharDimsError::BadWidth));
    assert_eq!(get_char_dims(Some("ax3")), Err(CharDimsError::BadWidth));
    assert_eq!(get_char_dims(Some("2x")), Err(CharDimsError::BadHeight));
    assert_eq!(get_char_dims(Some("2x99999999999")), Err(CharDimsError::BadHeight));
}

#[test]
fn probe_dimensions_parse() {
    assert_eq!(parse_dimensions(b"1920,1080\n"), Ok((1920, 1080)));
    assert_eq!(parse_dimensions(b"  640,480  "), Ok((640, 480)));
    assert_eq!(parse_dimensions(b"+1,2"), Ok((1, 2)));
    assert_eq!(parse_dimensions(b"\xc2\xa01,2\xc2\xa0"), Ok((1, 2)));
    assert_eq!(parse_dimensions(b"+,2"), Err(PipelineError::MediaProbeError));
}

#[test]
fn probe_malformed_dimensions_rejected() {
    assert_eq!(parse_dimensions(b"abc,def"), Err(PipelineError::MediaProbeError));
    assert_eq!(parse_dimensions(b"1920"), Err(PipelineError::MediaProbeError));
    assert_eq!(parse_dimensions(b"1920,1080,3"), Err(PipelineError::MediaProbeError));
    assert_eq!(parse_dimensions(b"0,1080"), Err(PipelineError::MediaProbeError));
    assert_eq!(parse_dimensions(b""), Err(PipelineError::MediaProbeError));
    assert_eq!(parse_dimensions(&[0xff, 0x2c, 0x31]), Err(PipelineError::MediaProbeError));
}

#[test]
fn probe_frame_rate_parse() {
    assert_eq!(parse_frame_rate(b"30000/1001\n"), Ok(FrameRate { num: 30000, den: 1001 }));
    assert_eq!(parse_frame_rate(b"25/1/7"), Ok(FrameRate { num: 25, den: 1 }));
    assert_eq!(parse_frame_rate(b"29.97/1"), Ok(FrameRate { num: 2997, den: 100 }));
    assert_eq!(parse_frame_rate(b"30/1.5"), Ok(FrameRate { num: 300, den: 15 }));
    assert_eq!(parse_frame_rate(b"4294967296/1"), Ok(FrameRate { num: 4294967296, den: 1 }));
    assert_eq!(parse_frame_rate(b"0/1"), Ok(FrameRate { num: 0, den: 1 }));
    assert_eq!(parse_frame_rate(b"0/0"), Ok(FrameRate { num: 0, den: 0 }));
    assert_eq!(parse_frame_rate(b"\xc2\xa030/1\xe3\x80\x80"), Ok(FrameRate { num: 30, den: 1 }));
    assert_eq!(parse_frame_rate(b"25"), Err(PipelineError::MediaProbeError));
    assert_eq!(parse_frame_rate(b"x/1"), Err(PipelineError::MediaProbeError));
    assert_eq!(parse_frame_rate(b"30/"), Err(PipelineError::MediaProbeError));
    assert_eq!(parse_frame_rate(b"30/1.x"), Err(PipelineError::MediaProbeError));
}

#[test]
fn text_helpers() {
    assert_eq!(decimal_text(0), b"0".to_vec());
    assert_eq!(decimal_text(1080), b"1080".to_vec());
    assert_eq!(parse_decimal(b"4294967295", 4294967295), Some(4294967295));
    assert_eq!(parse_decimal(b"4294967296", 4294967295), None);
}

#[test]
fn header_encoding() {
    let h = encode_header(FrameRate { num: 30000, den: 1001 }, 80, 45);
    assert_eq!(h, Ok(b"29.970029970029970\n80 45\n".to_vec()));
    let h = encode_header(FrameRate { num: 30, den: 1 }, 7, 3);
    assert_eq!(h, Ok(b"30.000000000000000\n7 3\n".to_vec()));
    let h = encode_header(FrameRate { num: 2997, den: 100 }, 1, 1);
    assert_eq!(h, Ok(b"29.970000000000000\n1 1\n".to_vec()));
    assert_eq!(encode_header(FrameRate { num: 1, den: 0 }, 1, 1), Err(PipelineError::MediaProbeError));
}

#[test]
fn header_parsing() {
    let h = header("29.97", "80 45");
    assert_eq!((h.rate_num, h.rate_den, h.width, h.height), (2997, 100, 80, 45));
    let h = header("30", "1 2 3");
    assert_eq!((h.rate_num, h.rate_den, h.width, h.height), (30, 1, 1, 2));
    assert_eq!(parse_header(b"", b"80 45"), Err(PipelineError::StreamFormatError));
    assert_eq!(parse_header(b"30", b"80"), Err(PipelineError::StreamFormatError));
    assert_eq!(parse_header(b"30", b"80 0"), Err(PipelineError::StreamFormatError));
    assert_eq!(parse_header(b"0.0", b"80 45"), Err(PipelineError::StreamFormatError));
}

#[test]
fn round_trip_frames() {
    let frames = vec![
        lines(&["ab", "cd", "ef"]),
        lines(&["\x1b[31mx", "", "yz"]),
        lines(&["1", "2", "3"]),
    ];
    let mut text = encode_header(FrameRate { num: 24, den: 1 }, 2, 3).unwrap();
    for f in &frames {
        text.extend(encode_frame(f));
    }
    let (h, got) = decode_stream(&text).unwrap();
    assert_eq!((h.width, h.height, h.rate_num, h.rate_den), (2, 3, 24_000_000_000_000_000, 1_000_000_000_000_000));
    assert_eq!(got, frames);
}

#[test]
fn partial_trailing_frame_dropped() {
    let mut text = b"30\n4 10\n".to_vec();
    for i in 0..23 {
        text.extend(format!("line {}\n", i).into_bytes());
    }
    let (_, frames) = decode_stream(&text).unwrap();
    assert_eq!(frames.len(), 2);
    assert_eq!(frames[1][9], b"line 19".to_vec());
}

#[test]
fn missing_header_rejected() {
    assert_eq!(decode_stream(b"30\n"), Err(PipelineError::StreamFormatError));
    assert_eq!(decode_stream(b"fast\n4 10\n"), Err(PipelineError::StreamFormatError));
}

#[test]
fn lines_split() {
    assert_eq!(split_lines(b"a\nb\n"), lines(&["a", "b"]));
    assert_eq!(split_lines(b"a\n\nb"), lines(&["a", "", "b"]));
    assert_eq!(split_lines(b""), lines(&[]));
}

#[test]
fn carriage_returns_dropped_before_newlines() {
    assert_eq!(read_lines(b"a\r\nb\r\r\nc\r"), lines(&["a", "b\r", "c\r"]));
    let (h, frames) = decode_stream(b"30\r\n2 1\r\nab\r\n").unwrap();
    assert_eq!((h.width, h.height), (2, 1));
    assert_eq!(frames, vec![lines(&["ab"])]);
}

#[test]
fn invalid_utf8_line_ends_reading() {
    let (ls, failure) = readable_lines(b"30\n1 1\nok\n\xff\xfe\nlater\n");
    assert_eq!(ls, lines(&["30", "1 1", "ok"]));
    assert_eq!(failure, Some(PipelineError::DecodeError));
    let (ls, failure) = readable_lines("30\n1 1\n\u{e9}t\u{e9}\n".as_bytes());
    assert_eq!(ls.len(), 3);
    assert_eq!(failure, None);
}

#[test]
fn player_gathers_frames() {
    let mut p = Player::new(header("30", "4 2"));
    assert_eq!(p.push_line(b"ab".to_vec()), None);
    assert_eq!(p.push_line(b"cd".to_vec()), Some(b"ab\ncd\n".to_vec()));
    assert_eq!(p.push_line(b"ef".to_vec()), None);
    assert_eq!(p.pending.len(), 1);
}

#[test]
fn pacing_has_no_drift() {
    let mut p = Player::new(header("30", "4 1"));
    let anchor: u64 = 5_000;
    let mut clock: u64 = anchor;
    let mut first = None;
    let mut last = 0;
    for i in 0..1000u64 {
        // rendering takes 7 ms per frame before each is scheduled
        if i > 0 {
            clock += 7;
        }
        let wait = p.schedule(clock) as u64;
        clock += wait;
        if first.is_none() {
            first = Some(clock);
        }
        last = clock;
    }
    assert_eq!(last - first.unwrap(), 33_300);
    assert_eq!(p.shown, 1000);
}

#[test]
fn late_frames_shown_at_once() {
    let mut p = Player::new(header("10", "4 1"));
    assert_eq!(p.schedule(1_000), 0);
    assert_eq!(p.schedule(1_050), 50);
    assert_eq!(p.schedule(1_500), 0);
    assert_eq!(p.schedule(1_250), 50);
}

#[test]
fn offsets_round_to_nearest() {
    let h = header("30", "4 1");
    assert_eq!(frame_offset_ms(1, &h), 33);
    assert_eq!(frame_offset_ms(2, &h), 67);
    assert_eq!(frame_offset_ms(999, &h), 33_300);
    assert_eq!(viewport_size(80, 45), (800, 1350));
}

#[test]
fn frame_reads_classified() {
    assert_eq!(frame_byte_len(80, 45), Some(14_400));
    assert_eq!(classify_read(14_400, 14_400), Ok(true));
    assert_eq!(classify_read(0, 14_400), Ok(false));
    assert_eq!(classify_read(100, 14_400), Err(PipelineError::TruncatedFrame));
    assert_eq!(production_step(2, 2, 3, vec![0u8; 16]), Err(PipelineError::TruncatedFrame));
    assert_eq!(production_step(2, 2, 0, vec![0u8; 16]), Ok(None));
}

#[test]
fn exit_status_checked_after_frames() {
    assert_eq!(finish_production(Ok(()), true), Ok(()));
    assert_eq!(finish_production(Ok(()), false), Err(PipelineError::ProcessFailure));
    assert_eq!(finish_production(Err(PipelineError::TruncatedFrame), false), Err(PipelineError::TruncatedFrame));
}

#[test]
fn rendered_frame_has_one_line_per_row() {
    let px: Vec<u8> = (0..3 * 2 * 4).map(|i| (i * 20) as u8).collect();
    let text = render_frame(3, 2, px.clone());
    assert_ne!(text, px);
    assert_eq!(text.iter().filter(|b| **b == b'\n').count(), 2);
    assert_eq!(*text.last().unwrap(), b'\n');
    let stepped = production_step(3, 2, 24, px).unwrap().unwrap();
    assert_eq!(stepped, text);
}

#[test]
fn stored_stream_unpacks() {
    let text = b"30\n2 1\nab\ncd\n".to_vec();
    let mut enc = lz4_flex::frame::FrameEncoder::new(Vec::new());
    enc.write_all(&text).unwrap();
    let packed = base64::engine::general_purpose::STANDARD.encode(enc.finish().unwrap());
    assert_eq!(unpack_stream(packed.as_bytes()), (text, None));
}

#[test]
fn corrupt_stored_stream_rejected() {
    assert_eq!(unpack_stream(b"!!!"), (vec![], Some(PipelineError::DecodeError)));
    let packed = base64::engine::general_purpose::STANDARD.encode(b"not lz4 at all");
    assert_eq!(unpack_stream(packed.as_bytes()), (vec![], Some(PipelineError::DecodeError)));
}

#[test]
fn corrupt_tail_keeps_earlier_lines() {
    // the compressed data is cut inside its last block
    let first = vec![b'a'; 70_000];
    let mut text = b"30\n1 1\nx\n".to_vec();
    text.extend(&first);
    text.extend(b"\nzz\n");
    let mut enc = lz4_flex::frame::FrameEncoder::new(Vec::new());
    enc.write_all(&text).unwrap();
    let mut packed = enc.finish().unwrap();
    let n = packed.len();
    packed.truncate(n - 10);
    let stored = base64::engine::general_purpose::STANDARD.encode(&packed);
    let (got, failure) = unpack_stream(stored.as_bytes());
    assert_eq!(failure, Some(PipelineError::DecodeError));
    assert!(got.len() < text.len());
    assert!(got.is_empty() || *got.last().unwrap() == b'\n');
    assert!(text.starts_with(&got));
}

fn args(w: Option<u32>, h: Option<u32>, cells: Option<&str>) -> ascii_video::resolve::Args {
    ascii_video::resolve::Args {
        video: "clip.mkv".to_string(),
        target_width: w,
        target_height: h,
        char_dims: cells.map(|c| c.to_string()),
    }
}

#[test]
fn args_checked_before_probing() {
    assert_eq!(args(Some(80), None, None).check(), Ok((1, 1)));
    assert_eq!(args(None, Some(20), Some("1x2")).check(), Ok((1, 2)));
    assert_eq!(args(None, None, None).check(), Err(PipelineError::InputValidationError));
    assert_eq!(args(Some(0), Some(5), None).check(), Err(PipelineError::InputValidationError));
    assert_eq!(args(Some(80), None, Some("wide")).check(), Err(PipelineError::InputValidationError));
}
