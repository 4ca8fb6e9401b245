use sonum::transcode::{
    clamp_bitrate, encoder_args, parse_range_start, TranscodeFormat, DEFAULT_BITRATE_KBPS,
    MAX_BITRATE_KBPS, MIN_BITRATE_KBPS,
};

#[test]
fn parses_known_formats_case_insensitively() {
    assert_eq!(TranscodeFormat::parse("mp3"), Some(TranscodeFormat::Mp3));
    assert_eq!(TranscodeFormat::parse("MP3"), Some(TranscodeFormat::Mp3));
    assert_eq!(TranscodeFormat::parse("Opus"), Some(TranscodeFormat::Opus));
    assert_eq!(TranscodeFormat::parse("aac"), Some(TranscodeFormat::Aac));
}

#[test]
fn rejects_unknown_formats() {
    assert_eq!(TranscodeFormat::parse("flac"), None);
    assert_eq!(TranscodeFormat::parse(""), None);
    assert_eq!(TranscodeFormat::parse("mp4"), None);
}

#[test]
fn clamps_bitrate_into_range() {
    assert_eq!(clamp_bitrate(Some(16)), MIN_BITRATE_KBPS);
    assert_eq!(clamp_bitrate(Some(9999)), MAX_BITRATE_KBPS);
    assert_eq!(clamp_bitrate(Some(192)), 192);
    assert_eq!(clamp_bitrate(None), DEFAULT_BITRATE_KBPS);
}

#[test]
fn parses_simple_range_start() {
    assert_eq!(parse_range_start("bytes=1234-"), Some(1234));
    assert_eq!(parse_range_start("bytes=0-999"), Some(0));
}

#[test]
fn parses_first_span_of_multi_range() {
    assert_eq!(parse_range_start("bytes=500-599,700-799"), Some(500));
}

#[test]
fn rejects_malformed_range_headers() {
    assert_eq!(parse_range_start("not-a-range"), None);
    assert_eq!(parse_range_start("bytes=abc-"), None);
    assert_eq!(parse_range_start(""), None);
}

#[test]
fn range_start_allows_blanks_and_a_plus_sign_but_no_overflow() {
    assert_eq!(parse_range_start("  bytes= 7 - 9 , 20-"), Some(7));
    assert_eq!(parse_range_start("bytes=+7-"), Some(7));
    assert_eq!(parse_range_start("bytes=-500"), None);
    assert_eq!(parse_range_start("bytes=500"), None);
    assert_eq!(
        parse_range_start("bytes=18446744073709551615-"),
        Some(u64::MAX)
    );
    assert_eq!(parse_range_start("bytes=18446744073709551616-"), None);
}

#[test]
fn each_format_has_its_container_codec_and_media_type() {
    let all = [
        (TranscodeFormat::Mp3, "mp3", "libmp3lame", "audio/mpeg"),
        (TranscodeFormat::Opus, "ogg", "libopus", "audio/ogg"),
        (TranscodeFormat::Aac, "adts", "aac", "audio/aac"),
    ];
    for (format, container, codec, media) in all {
        assert_eq!(format.container(), container);
        assert_eq!(format.codec(), codec);
        assert_eq!(format.content_type(), media);
    }
}

#[test]
fn encoder_is_asked_for_the_first_audio_stream_at_the_clamped_bitrate() {
    let args = encoder_args(TranscodeFormat::Opus, Some(9999), Some("12.500"));
    assert_eq!(
        args.before_input,
        vec!["-hide_banner", "-loglevel", "error", "-ss", "12.500", "-i"]
    );
    assert_eq!(
        args.after_input,
        vec!["-map", "0:a:0", "-f", "ogg", "-c:a", "libopus", "-b:a", "320k", "-"]
    );
    let plain = encoder_args(TranscodeFormat::Mp3, None, None);
    assert_eq!(
        plain.before_input,
        vec!["-hide_banner", "-loglevel", "error", "-i"]
    );
    assert_eq!(plain.after_input[7], "192k");
}
