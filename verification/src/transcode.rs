//! The formats a track can be transcoded into, and how the encoder is asked for them.
use crate::text::{
    ascii_lowered, chars_of, chars_start_with, decimal, decimal_text, find, find_char, is_space,
    law_numbers_are_read_back, lemma_find, lemma_trim_is_within, lower_char, parse_chars,
    parse_number, same_text, starts_with, texts, trim, trim_chars,
};
use vstd::prelude::*;
use vstd::slice::slice_subrange;

verus! {

/// The formats that a track can be transcoded into on request.
#[derive(Debug, Clone, Copy, PartialEq, Eq, Structural)]
pub enum TranscodeFormat {
    Mp3,
    Opus,
    Aac,
}

pub const MIN_BITRATE_KBPS: u32 = 64;

pub const MAX_BITRATE_KBPS: u32 = 320;

pub const DEFAULT_BITRATE_KBPS: u32 = 192;

/// The format that a request names, whatever the case of its letters.
pub open spec fn format_named(s: Seq<char>) -> Option<TranscodeFormat> {
    let l = ascii_lowered(s);
    if l == "mp3"@ {
        Some(TranscodeFormat::Mp3)
    } else if l == "opus"@ {
        Some(TranscodeFormat::Opus)
    } else if l == "aac"@ {
        Some(TranscodeFormat::Aac)
    } else {
        None
    }
}

fn ascii_lowercase(s: &str) -> (r: String)
    ensures
        r@ == ascii_lowered(s@),
{
    let chars = chars_of(s);
    let mut r = String::new();
    let mut i: usize = 0;
    while i < chars.len()
        invariant
            0 <= i <= chars.len(),
            chars@ == s@,
            r@ == ascii_lowered(s@.take(i as int)),
        decreases chars.len() - i,
    {
        r.push(lower_char(chars[i]));
        i += 1;
        assert(r@ =~= ascii_lowered(s@.take(i as int)));
    }
    assert(s@.take(i as int) =~= s@);
    r
}

impl TranscodeFormat {
    /// The format that a request names, whatever the case of its letters.
    pub fn parse(s: &str) -> (r: Option<Self>)
        ensures
            r == format_named(s@),
    {
        let l = ascii_lowercase(s);
        if same_text(l.as_str(), "mp3") {
            Some(TranscodeFormat::Mp3)
        } else if same_text(l.as_str(), "opus") {
            Some(TranscodeFormat::Opus)
        } else if same_text(l.as_str(), "aac") {
            Some(TranscodeFormat::Aac)
        } else {
            None
        }
    }

    pub open spec fn container_name(self) -> Seq<char> {
        match self {
            TranscodeFormat::Mp3 => "mp3"@,
            TranscodeFormat::Opus => "ogg"@,
            TranscodeFormat::Aac => "adts"@,
        }
    }

    /// The container that the encoder writes.
    pub fn container(self) -> (r: &'static str)
        ensures
            r@ == self.container_name(),
    {
        match self {
            TranscodeFormat::Mp3 => "mp3",
            TranscodeFormat::Opus => "ogg",
            TranscodeFormat::Aac => "adts",
        }
    }

    pub open spec fn codec_name(self) -> Seq<char> {
        match self {
            TranscodeFormat::Mp3 => "libmp3lame"@,
            TranscodeFormat::Opus => "libopus"@,
            TranscodeFormat::Aac => "aac"@,
        }
    }

    /// The codec that the encoder uses.
    pub fn codec(self) -> (r: &'static str)
        ensures
            r@ == self.codec_name(),
    {
        match self {
            TranscodeFormat::Mp3 => "libmp3lame",
            TranscodeFormat::Opus => "libopus",
            TranscodeFormat::Aac => "aac",
        }
    }

    pub open spec fn media_type(self) -> Seq<char> {
        match self {
            TranscodeFormat::Mp3 => "audio/mpeg"@,
            TranscodeFormat::Opus => "audio/ogg"@,
            TranscodeFormat::Aac => "audio/aac"@,
        }
    }

    /// The media type of the transcoded stream.
    pub fn content_type(self) -> (r: &'static str)
        ensures
            r@ == self.media_type(),
    {
        match self {
            TranscodeFormat::Mp3 => "audio/mpeg",
            TranscodeFormat::Opus => "audio/ogg",
            TranscodeFormat::Aac => "audio/aac",
        }
    }
}

/// The bitrate that a request gets: the one it asks for, moved into the allowed range, or the
/// default one.
pub open spec fn clamped_bitrate(requested: Option<u32>) -> u32 {
    match requested {
        None => DEFAULT_BITRATE_KBPS,
        Some(b) => if b < MIN_BITRATE_KBPS {
            MIN_BITRATE_KBPS
        } else if b > MAX_BITRATE_KBPS {
            MAX_BITRATE_KBPS
        } else {
            b
        },
    }
}

/// The bitrate that a request gets.
pub fn clamp_bitrate(requested: Option<u32>) -> (r: u32)
    ensures
        r == clamped_bitrate(requested),
        requested matches Some(b) ==> (64 <= b <= 320 ==> r == b),
        MIN_BITRATE_KBPS <= r <= MAX_BITRATE_KBPS,
{
    match requested {
        None => DEFAULT_BITRATE_KBPS,
        Some(b) => if b < MIN_BITRATE_KBPS {
            MIN_BITRATE_KBPS
        } else if b > MAX_BITRATE_KBPS {
            MAX_BITRATE_KBPS
        } else {
            b
        },
    }
}

/// The first byte that a `Range` header asks for: the number before the dash of its first span.
pub open spec fn range_start(header: Seq<char>) -> Option<nat> {
    let h = trim(header);
    if !starts_with(h, "bytes="@) {
        None
    } else {
        let spans = h.skip("bytes="@.len() as int);
        let first = trim(spans.take(find(spans, ',')));
        let dash = find(first, '-');
        if dash >= first.len() {
            None
        } else {
            parse_number(trim(first.take(dash)), u64::MAX as nat)
        }
    }
}

/// The first byte that a `Range` header asks for.
pub fn parse_range_start(header_value: &str) -> (r: Option<u64>)
    ensures
        match r {
            Some(n) => range_start(header_value@) == Some(n as nat),
            None => range_start(header_value@) is None,
        },
{
    let chars = chars_of(header_value);
    let h = trim_chars(chars.as_slice());
    let unit = chars_of("bytes=");
    if !chars_start_with(h, unit.as_slice()) {
        return None;
    }
    let spans = slice_subrange(h, unit.len(), h.len());
    assert(spans@ =~= h@.skip("bytes="@.len() as int));
    let comma = find_char(spans, ',');
    let head = slice_subrange(spans, 0, comma);
    assert(head@ =~= spans@.take(find(spans@, ',')));
    let first = trim_chars(head);
    let dash = find_char(first, '-');
    if dash >= first.len() {
        return None;
    }
    let digits = slice_subrange(first, 0, dash);
    assert(digits@ =~= first@.take(dash as int));
    parse_chars(trim_chars(digits), u64::MAX)
}

/// The arguments of the encoder, those up to the path of the input and those after it.
pub struct EncoderArgs {
    pub before_input: Vec<String>,
    pub after_input: Vec<String>,
}

/// The arguments that stand before the path of the input.
pub open spec fn args_before(seek: Option<Seq<char>>) -> Seq<Seq<char>> {
    let quiet = seq!["-hide_banner"@, "-loglevel"@, "error"@];
    match seek {
        Some(at) => quiet + seq!["-ss"@, at, "-i"@],
        None => quiet + seq!["-i"@],
    }
}

/// The arguments that stand after the path of the input: the first audio stream only, in the
/// format's container and codec, at the clamped bitrate, to the standard output.
pub open spec fn args_after(format: TranscodeFormat, bitrate: Option<u32>) -> Seq<Seq<char>> {
    seq![
        "-map"@,
        "0:a:0"@,
        "-f"@,
        format.container_name(),
        "-c:a"@,
        format.codec_name(),
        "-b:a"@,
        decimal(clamped_bitrate(bitrate) as nat) + "k"@,
        "-"@,
    ]
}

/// How the encoder is started. `seek` is the time to start from, in seconds as the encoder reads
/// it, and is there only where that time is positive.
pub fn encoder_args(format: TranscodeFormat, bitrate: Option<u32>, seek: Option<&str>) -> (r:
    EncoderArgs)
    ensures
        texts(r.before_input@) == args_before(
            match seek {
                Some(at) => Some(at@),
                None => None,
            },
        ),
        texts(r.after_input@) == args_after(format, bitrate),
{
    let mut before: Vec<String> = Vec::new();
    before.push("-hide_banner".to_owned());
    before.push("-loglevel".to_owned());
    before.push("error".to_owned());
    if let Some(at) = seek {
        before.push("-ss".to_owned());
        before.push(at.to_owned());
    }
    before.push("-i".to_owned());
    let mut rate = decimal_text(clamp_bitrate(bitrate) as u64);
    rate.append("k");
    let mut after: Vec<String> = Vec::new();
    after.push("-map".to_owned());
    after.push("0:a:0".to_owned());
    after.push("-f".to_owned());
    after.push(format.container().to_owned());
    after.push("-c:a".to_owned());
    after.push(format.codec().to_owned());
    after.push("-b:a".to_owned());
    after.push(rate);
    after.push("-".to_owned());
    assert(texts(after@) =~= args_after(format, bitrate));
    EncoderArgs { before_input: before, after_input: after }
}

/// A bitrate from 64 to 320 is kept as it was asked for; a lower one becomes 64 and a higher one
/// 320, and where none is asked for it is 192.
pub proof fn law_bitrate_in_range_is_kept(b: u32)
    ensures
        64 <= b <= 320 ==> clamped_bitrate(Some(b)) == b,
        b <= 64 ==> clamped_bitrate(Some(b)) == 64,
        b >= 320 ==> clamped_bitrate(Some(b)) == 320,
        clamped_bitrate(None) == 192,
{
}

/// The formats are `mp3`, `opus` and `aac`, whatever the case of their letters, and no others.
pub proof fn law_formats_go_by_name(s: Seq<char>)
    ensures
        format_named("mp3"@) == Some(TranscodeFormat::Mp3),
        format_named("opus"@) == Some(TranscodeFormat::Opus),
        format_named("aac"@) == Some(TranscodeFormat::Aac),
        format_named(ascii_lowered(s)) == format_named(s),
        format_named(s) is Some ==> ascii_lowered(s) == "mp3"@ || ascii_lowered(s) == "opus"@
            || ascii_lowered(s) == "aac"@,
{
    reveal_strlit("mp3");
    reveal_strlit("opus");
    reveal_strlit("aac");
    assert(ascii_lowered("mp3"@) =~= "mp3"@);
    assert(ascii_lowered("opus"@) =~= "opus"@);
    assert(ascii_lowered("aac"@) =~= "aac"@);
    assert("opus"@.len() == 4 && "mp3"@.len() == 3 && "aac"@.len() == 3);
    assert("mp3"@[0] != "aac"@[0]);
    assert(ascii_lowered(ascii_lowered(s)) =~= ascii_lowered(s));
}

/// A range that begins at a byte is read as beginning there, wherever it ends and whatever ranges
/// follow it; a header of another unit asks for no byte.
pub proof fn law_range_start_is_read_back(n: nat, end: Seq<char>)
    requires
        n <= u64::MAX,
        end.len() > 0 ==> !is_space(end.last()),
        !end.contains(','),
    ensures
        range_start("bytes="@ + decimal(n) + "-"@ + end) == Some(n),
        range_start("bytes="@ + decimal(n) + "-"@ + end + ", 7-"@) == Some(n),
        range_start(end) is Some ==> end.contains('='),
{
    reveal_strlit("bytes=");
    reveal_strlit("-");
    reveal_strlit(", 7-");
    law_numbers_are_read_back(n, u64::MAX as nat);
    let d = decimal(n);
    assert('0' <= d[0] <= '9' && '0' <= d.last() <= '9');
    assert(trim(d) == d);
    let span = d + "-"@ + end;
    let dash = d.len() as int;
    assert(span[0] == d[0]);
    assert(trim(span) == span);
    assert forall|k: int| 0 <= k < dash implies span[k] != '-' by {
        assert(span[k] == d[k]);
    }
    assert(span[dash] == '-');
    lemma_find(span, '-', dash);
    assert(span.take(dash) =~= d);
    assert forall|k: int| 0 <= k < span.len() implies span[k] != ',' by {
        if k < dash {
            assert(span[k] == d[k]);
        } else if k > dash {
            assert(span[k] == end[k - dash - 1]);
            assert(end.contains(end[k - dash - 1]));
        }
    }
    lemma_find(span, ',', span.len() as int);
    assert(span.take(span.len() as int) =~= span);
    let one = "bytes="@ + d + "-"@ + end;
    assert(one =~= "bytes="@ + span);
    assert(one[0] == 'b');
    assert(trim(one) == one);
    assert(one.take(6) =~= "bytes="@);
    assert(one.skip(6) =~= span);
    let two = "bytes="@ + d + "-"@ + end + ", 7-"@;
    let spans = span + ", 7-"@;
    assert(two =~= "bytes="@ + spans);
    assert(two[0] == 'b' && two.last() == '-');
    assert(trim(two) == two);
    assert(two.take(6) =~= "bytes="@);
    assert(two.skip(6) =~= spans);
    assert forall|k: int| 0 <= k < span.len() implies spans[k] != ',' by {
        assert(spans[k] == span[k]);
    }
    assert(spans[span.len() as int] == ',');
    lemma_find(spans, ',', span.len() as int);
    assert(spans.take(span.len() as int) =~= span);
    if range_start(end) is Some {
        let h = trim(end);
        assert(h.take(6)[5] == '=');
        assert(h[5] == '=');
        lemma_trim_is_within(end);
        let i = choose|i: int| 0 <= i && i + h.len() <= end.len() && #[trigger] end.subrange(
            i,
            i + h.len(),
        ) == h;
        assert(end.subrange(i, i + h.len())[5] == end[i + 5]);
        assert(end[i + 5] == '=');
    }
}

/// Whether one argument directly follows another.
pub open spec fn follows(args: Seq<Seq<char>>, flag: Seq<char>, value: Seq<char>) -> bool {
    exists|i: int| 0 <= i < args.len() - 1 && #[trigger] args[i] == flag && args[i + 1] == value
}

/// The encoder is told the bitrate that was asked for in kilobits, the codec and the container of
/// the format, to start at the given position where one is given, and to write to its output.
pub proof fn law_encoder_is_told_what_is_asked(
    format: TranscodeFormat,
    bitrate: u32,
    at: Seq<char>,
)
    requires
        64 <= bitrate <= 320,
    ensures
        follows(args_after(format, Some(bitrate)), "-b:a"@, decimal(bitrate as nat) + "k"@),
        follows(
            args_after(format, Some(bitrate)),
            "-c:a"@,
            match format {
                TranscodeFormat::Mp3 => "libmp3lame"@,
                TranscodeFormat::Opus => "libopus"@,
                TranscodeFormat::Aac => "aac"@,
            },
        ),
        follows(
            args_after(format, Some(bitrate)),
            "-f"@,
            match format {
                TranscodeFormat::Mp3 => "mp3"@,
                TranscodeFormat::Opus => "ogg"@,
                TranscodeFormat::Aac => "adts"@,
            },
        ),
        follows(args_after(format, Some(bitrate)), "-map"@, "0:a:0"@),
        args_after(format, Some(bitrate)).last() == "-"@,
        args_after(format, None) == args_after(format, Some(192)),
        follows(args_before(Some(at)), "-ss"@, at),
        args_before(Some(at)).last() == "-i"@,
        args_before(None).last() == "-i"@,
        !args_before(None).contains("-ss"@),
{
    let a = args_after(format, Some(bitrate));
    assert(a[0] == "-map"@ && a[1] == "0:a:0"@);
    assert(a[2] == "-f"@ && a[4] == "-c:a"@ && a[6] == "-b:a"@);
    let b = args_before(Some(at));
    assert(b[3] == "-ss"@ && b[4] == at);
    reveal_strlit("-ss");
    reveal_strlit("-hide_banner");
    reveal_strlit("-loglevel");
    reveal_strlit("error");
    reveal_strlit("-i");
    assert("-ss"@.len() == 3 && "-hide_banner"@.len() == 12 && "-loglevel"@.len() == 9
        && "error"@.len() == 5 && "-i"@.len() == 2);
}

/// The media type of a stream is that of its format.
pub proof fn law_media_types(format: TranscodeFormat)
    ensures
        format is Mp3 ==> format.media_type() == "audio/mpeg"@,
        format is Opus ==> format.media_type() == "audio/ogg"@,
        format is Aac ==> format.media_type() == "audio/aac"@,
{
}

} // verus!
