//! Lyrics: their text formats, where they are looked for, and what is answered.
use crate::grouping::{
    lemma_sort_ascends, lemma_sort_members, lemma_sort_of_sorted, lemma_sort_rearranges,
};
use crate::lists::{first_where, lemma_filter_all, lemma_first_where};
use crate::order::{
    as_ints, at_positions, is_order, is_rearrangement, lemma_order_ranks, lemma_stable_sort,
    position_lt, stable_order, stable_sort,
};
use crate::paths::{extension_of, file_extension, file_stem, law_stem_and_extension, stem_of};
use crate::state::{infos, Track, TrackInfo, TrackMap};
use crate::text::{
    ascii_lower, ascii_lowered, chars_of, digits_value, find, find_char, is_ascii_letter,
    is_ascii_text, is_blank, is_digit, is_space, join, join_texts, law_lines_one_by_one,
    law_trim_takes_off_the_ends, law_value_of_digits, lemma_find, lemma_join_front,
    lemma_split_of_joined, lines, lines_of, lowercase, lowered, opt_text, parse_chars,
    parse_number, pieces, same_text, split, text_is_blank, text_of, texts, trim, trim_chars,
};
use crate::util::{law_folder_of_a_path, parent_of, parent_rel};
use vstd::prelude::*;
use vstd::slice::slice_subrange;
use vstd::utf8::{
    decode_utf8, encode_utf8, encode_utf8_decode_utf8, encode_utf8_valid_utf8, valid_utf8,
};

verus! {

/// A line of lyrics with the time at which it is sung.
#[derive(Debug, PartialEq)]
pub struct LyricLine {
    pub time_ms: u64,
    pub text: String,
}

/// The answer to a request for lyrics.
#[derive(Debug, PartialEq)]
pub struct LyricsResponse {
    pub track_id: String,
    pub source: &'static str,
    pub synced: bool,
    pub lines: Option<Vec<LyricLine>>,
    pub text: Option<String>,
}

/// A line of lyrics as plain values.
#[verifier::ext_equal]
pub struct LineInfo {
    pub time_ms: u64,
    pub text: Seq<char>,
}

/// The answer to a request for lyrics, as plain values.
#[verifier::ext_equal]
pub struct LyricsInfo {
    pub track_id: Seq<char>,
    pub source: Seq<char>,
    pub synced: bool,
    pub lines: Option<Seq<LineInfo>>,
    pub text: Option<Seq<char>>,
}

impl View for LyricLine {
    type V = LineInfo;

    open spec fn view(&self) -> LineInfo {
        LineInfo { time_ms: self.time_ms, text: self.text@ }
    }
}

/// Lines as plain values.
pub open spec fn line_infos(v: Seq<LyricLine>) -> Seq<LineInfo> {
    Seq::new(v.len(), |i: int| v[i]@)
}

impl View for LyricsResponse {
    type V = LyricsInfo;

    open spec fn view(&self) -> LyricsInfo {
        LyricsInfo {
            track_id: self.track_id@,
            source: self.source@,
            synced: self.synced,
            lines: match self.lines {
                Some(v) => Some(line_infos(v@)),
                None => None,
            },
            text: opt_text(self.text),
        }
    }
}

/// The position of the first dot or colon, or the length of the text where there is none.
pub open spec fn find_fraction(s: Seq<char>) -> int {
    if find(s, '.') < find(s, ':') {
        find(s, '.')
    } else {
        find(s, ':')
    }
}

/// What follows a dot or colon behind the seconds.
pub open spec fn fraction_part(s: Seq<char>) -> Seq<char> {
    if find_fraction(s) < s.len() {
        s.skip(find_fraction(s) + 1)
    } else {
        Seq::empty()
    }
}

/// The milliseconds that the digits behind the seconds stand for: tenths, hundredths or
/// thousandths by their number; of longer ones the last three digits count.
pub open spec fn fraction_ms(digits: Seq<char>) -> Option<nat> {
    if is_blank(digits) {
        Some(0)
    } else {
        let d = trim(digits);
        match parse_number(d, u64::MAX as nat) {
            Some(v) => Some(
                if d.len() == 1 {
                    v * 100
                } else if d.len() == 2 {
                    v * 10
                } else if d.len() == 3 {
                    v
                } else {
                    v % 1000
                },
            ),
            None => None,
        }
    }
}

/// The time in milliseconds that a tag such as `01:23.45` stands for: minutes, and seconds below
/// sixty with an optional fraction. Times beyond the range of the counter wrap around.
pub open spec fn lrc_time(tag: Seq<char>) -> Option<u64> {
    let c = find(tag, ':');
    if c >= tag.len() {
        None
    } else {
        let rest = tag.skip(c + 1);
        match (
            parse_number(trim(tag.take(c)), u64::MAX as nat),
            parse_number(trim(rest.take(find_fraction(rest))), u64::MAX as nat),
            fraction_ms(fraction_part(rest)),
        ) {
            (Some(minutes), Some(seconds), Some(ms)) => if seconds < 60 {
                Some(((minutes * 60000 + seconds * 1000 + ms) % 0x1_0000_0000_0000_0000) as u64)
            } else {
                None
            },
            _ => None,
        }
    }
}

fn is_blank_chars(s: &[char]) -> (r: bool)
    ensures
        r == is_blank(s@),
{
    let t = text_of(s);
    text_is_blank(t.as_str())
}

fn fraction_ms_of(digits: &[char]) -> (r: Option<u64>)
    ensures
        match r {
            Some(n) => fraction_ms(digits@) == Some(n as nat),
            None => fraction_ms(digits@) is None,
        },
{
    if is_blank_chars(digits) {
        return Some(0);
    }
    let d = trim_chars(digits);
    match parse_chars(d, u64::MAX) {
        Some(v) => {
            proof {
                if d@.len() <= 2 {
                    lemma_short_number(d@, u64::MAX as nat);
                }
            }
            if d.len() == 1 {
                Some(v * 100)
            } else if d.len() == 2 {
                Some(v * 10)
            } else if d.len() == 3 {
                Some(v)
            } else {
                Some(v % 1000)
            }
        },
        None => None,
    }
}

proof fn lemma_short_number(s: Seq<char>, max: nat)
    requires
        s.len() <= 2,
        parse_number(s, max) is Some,
    ensures
        parse_number(s, max)->0 < 100,
{
    reveal_with_fuel(digits_value, 3);
    let d = crate::text::without_plus(s);
    assert(forall|i: int| 0 <= i < d.len() ==> is_digit(#[trigger] d[i]));
    if d.len() == 2 {
        assert(d.drop_last()[0] == d[0]);
        assert(is_digit(d[0]) && is_digit(d[1]));
        assert(digits_value(d.drop_last()) <= 9) by {
            assert(d.drop_last().drop_last() =~= Seq::empty());
        }
    } else {
        assert(is_digit(d[0]));
        assert(d.drop_last() =~= Seq::empty());
    }
}

/// The time that a tag stands for.
pub fn parse_lrc_timestamp(tag: &[char]) -> (r: Option<u64>)
    ensures
        r == lrc_time(tag@),
{
    let c = find_char(tag, ':');
    if c >= tag.len() {
        return None;
    }
    let left = slice_subrange(tag, 0, c);
    let rest = slice_subrange(tag, c + 1, tag.len());
    assert(left@ =~= tag@.take(c as int));
    assert(rest@ =~= tag@.skip(c + 1));
    let minutes = match parse_chars(trim_chars(left), u64::MAX) {
        Some(n) => n,
        None => {
            return None;
        },
    };
    let dot = find_char(rest, '.');
    let colon = find_char(rest, ':');
    let d = if dot < colon {
        dot
    } else {
        colon
    };
    proof {
        crate::text::lemma_find_props(rest@, '.');
        crate::text::lemma_find_props(rest@, ':');
    }
    let sec = slice_subrange(rest, 0, d);
    assert(sec@ =~= rest@.take(d as int));
    let seconds = match parse_chars(trim_chars(sec), u64::MAX) {
        Some(n) => n,
        None => {
            return None;
        },
    };
    if seconds >= 60 {
        return None;
    }
    let frac = if d < rest.len() {
        slice_subrange(rest, d + 1, rest.len())
    } else {
        slice_subrange(rest, 0, 0)
    };
    assert(frac@ =~= fraction_part(rest@));
    let ms = match fraction_ms_of(frac) {
        Some(n) => n,
        None => {
            return None;
        },
    };
    let total: u128 = minutes as u128 * 60000 + seconds as u128 * 1000 + ms as u128;
    Some((total % 0x1_0000_0000_0000_0000) as u64)
}

/// The times in brackets at the start of a line, and what follows them.
pub open spec fn leading_times(rest: Seq<char>) -> (Seq<u64>, Seq<char>)
    decreases rest.len(),
{
    let inner = rest.skip(1);
    let close = find(inner, ']');
    if rest.len() > 0 && rest[0] == '[' && 0 <= close < inner.len() {
        match lrc_time(inner.take(close)) {
            Some(ms) => {
                let (times, text) = leading_times(inner.skip(close + 1));
                (seq![ms] + times, text)
            },
            None => (Seq::empty(), rest),
        }
    } else {
        (Seq::empty(), rest)
    }
}

/// The lyrics that one line of an LRC file gives: its text at each of its times.
pub open spec fn lines_of_line(raw: Seq<char>) -> Seq<LineInfo> {
    let (times, text) = leading_times(trim(raw));
    times.map_values(|ms: u64| LineInfo { time_ms: ms, text: trim(text) })
}

/// The lyrics that some lines of an LRC file give, in the order of the file.
pub open spec fn lines_in_file(raw_lines: Seq<Seq<char>>) -> Seq<LineInfo>
    decreases raw_lines.len(),
{
    if raw_lines.len() == 0 {
        Seq::empty()
    } else {
        lines_in_file(raw_lines.drop_last()) + lines_of_line(raw_lines.last())
    }
}

/// The order of lines by their time.
pub open spec fn by_time() -> spec_fn(LineInfo, LineInfo) -> bool {
    |a: LineInfo, b: LineInfo| a.time_ms < b.time_ms
}

/// The timed lines of a text in the LRC format, in the order of their times.
pub open spec fn lrc_lines(content: Seq<char>) -> Seq<LineInfo> {
    stable_sort(lines_in_file(lines(content)), by_time())
}

fn push_line(out: &mut Vec<LyricLine>, raw: &[char])
    ensures
        line_infos(final(out)@) == line_infos(old(out)@) + lines_of_line(raw@),
{
    let ghost start = line_infos(out@);
    let line = trim_chars(raw);
    let mut rest = line;
    let mut times: Vec<u64> = Vec::new();
    assert(times@ + leading_times(rest@).0 =~= leading_times(line@).0);
    let mut more = true;
    while more
        invariant
            (times@ + leading_times(rest@).0, leading_times(rest@).1) == leading_times(line@),
            !more ==> leading_times(rest@) == (Seq::<u64>::empty(), rest@),
        decreases
            rest@.len() + if more {
                1int
            } else {
                0int
            },
    {
        more = false;
        if rest.len() > 0 && rest[0] == '[' {
            let inner = slice_subrange(rest, 1, rest.len());
            assert(inner@ =~= rest@.skip(1));
            let close = find_char(inner, ']');
            if close < inner.len() {
                let tag = slice_subrange(inner, 0, close);
                assert(tag@ =~= inner@.take(close as int));
                match parse_lrc_timestamp(tag) {
                    Some(ms) => {
                        let ghost before = times@;
                        let after = slice_subrange(inner, close + 1, inner.len());
                        assert(after@ =~= inner@.skip(close + 1));
                        times.push(ms);
                        assert(before + (seq![ms] + leading_times(after@).0) =~= times@
                            + leading_times(after@).0);
                        rest = after;
                        more = true;
                    },
                    None => {},
                }
            }
        }
    }
    assert(times@ + leading_times(rest@).0 =~= times@);
    let text = text_of(trim_chars(rest));
    let ghost want = lines_of_line(raw@);
    let mut i: usize = 0;
    assert(line_infos(out@) =~= start + want.take(0));
    while i < times.len()
        invariant
            0 <= i <= times.len(),
            want == times@.map_values(|ms: u64| LineInfo { time_ms: ms, text: text@ }),
            line_infos(out@) == start + want.take(i as int),
        decreases times.len() - i,
    {
        let ghost before = line_infos(out@);
        out.push(LyricLine { time_ms: times[i], text: text.clone() });
        assert(line_infos(out@) =~= before.push(want[i as int]));
        i += 1;
        assert(line_infos(out@) =~= start + want.take(i as int));
    }
    assert(want.take(i as int) =~= want);
}

fn sorted_by_time(v: Vec<LyricLine>) -> (r: Vec<LyricLine>)
    ensures
        line_infos(r@) == stable_sort(line_infos(v@), by_time()),
{
    let n = v.len();
    let ghost s = line_infos(v@);
    let less = |a: usize, b: usize| -> (r: bool)
        requires
            a < n,
            b < n,
            n == v@.len(),
        ensures
            r == (v@[a as int].time_ms < v@[b as int].time_ms),
        { v[a].time_ms < v[b].time_ms };
    proof {
        assert(is_order(by_time()));
        lemma_order_ranks(s, by_time());
    }
    let order = stable_order(n, &less, Ghost(position_lt(s, by_time())));
    proof {
        lemma_stable_sort(s, by_time(), as_ints(order@));
    }
    let mut r: Vec<LyricLine> = Vec::new();
    let mut i: usize = 0;
    while i < order.len()
        invariant
            0 <= i <= order.len(),
            s == line_infos(v@),
            forall|k: int| 0 <= k < order.len() ==> #[trigger] order@[k] < v.len(),
            r.len() == i,
            forall|k: int| 0 <= k < i ==> (#[trigger] r@[k])@ == s[order@[k] as int],
        decreases order.len() - i,
    {
        let line = &v[order[i]];
        r.push(LyricLine { time_ms: line.time_ms, text: line.text.clone() });
        i += 1;
    }
    assert(line_infos(r@) =~= at_positions(s, as_ints(order@)));
    r
}

/// The timed lines of a text in the LRC format, in the order of their times.
pub fn parse_lrc_lines(content: &str) -> (r: Vec<LyricLine>)
    ensures
        line_infos(r@) == lrc_lines(content@),
{
    let chars = chars_of(content);
    let raw_lines = lines_of(chars.as_slice());
    let ghost all = lines(content@);
    let mut out: Vec<LyricLine> = Vec::new();
    let mut i: usize = 0;
    assert(line_infos(out@) =~= lines_in_file(all.take(0)));
    while i < raw_lines.len()
        invariant
            0 <= i <= raw_lines.len(),
            all == pieces(raw_lines@),
            line_infos(out@) == lines_in_file(all.take(i as int)),
        decreases raw_lines.len() - i,
    {
        push_line(&mut out, raw_lines[i]);
        assert(all.take(i + 1).drop_last() =~= all.take(i as int));
        assert(all.take(i + 1).last() == raw_lines@[i as int]@);
        i += 1;
    }
    assert(all.take(i as int) =~= all);
    sorted_by_time(out)
}

/// Whether a line is a header of an LRC file, such as `[ar:Somebody]`: two letters and a colon
/// behind the bracket.
pub open spec fn is_lrc_header(line: Seq<char>) -> bool {
    line.len() >= 4 && line[0] == '[' && is_ascii_letter(line[1]) && is_ascii_letter(line[2])
        && line[3] == ':' && line.last() == ']'
}

/// Whether a line is a header of an LRC file.
pub fn is_lrc_metadata_header(line: &[char]) -> (r: bool)
    ensures
        r == is_lrc_header(line@),
{
    line.len() >= 4 && line[0] == '[' && ascii_letter(line[1]) && ascii_letter(line[2]) && line[3]
        == ':' && line[line.len() - 1] == ']'
}

fn ascii_letter(c: char) -> (r: bool)
    ensures
        r == is_ascii_letter(c),
{
    ('a' <= c && c <= 'z') || ('A' <= c && c <= 'Z')
}

/// Whether a line without white space around it belongs to lyrics that are not timed.
pub open spec fn is_plain_line(line: Seq<char>) -> bool {
    line.len() > 0 && !is_lrc_header(line)
}

/// The lines of lyrics that are not timed.
pub open spec fn plain_lines(content: Seq<char>) -> Seq<Seq<char>> {
    lines(content).map_values(|l: Seq<char>| trim(l)).filter(|l: Seq<char>| is_plain_line(l))
}

/// The text of lyrics, without their times.
pub open spec fn lyrics_text(content: Seq<char>) -> Seq<char> {
    if lrc_lines(content).len() > 0 {
        join(lrc_lines(content).map_values(|l: LineInfo| l.text), "\n"@)
    } else {
        join(plain_lines(content), "\n"@)
    }
}

/// The answer where there are no lyrics.
pub open spec fn no_lyrics(track_id: Seq<char>) -> LyricsInfo {
    LyricsInfo { track_id, source: "none"@, synced: false, lines: None, text: None }
}

/// The answer where a text was found at a source: its timed lines where it has some, or else its
/// text; none where nothing is left of it.
pub open spec fn lyrics_from(track_id: Seq<char>, source: Seq<char>, content: Seq<char>)
    -> LyricsInfo {
    if is_blank(lyrics_text(content)) {
        no_lyrics(track_id)
    } else if lrc_lines(content).len() > 0 {
        LyricsInfo {
            track_id,
            source,
            synced: true,
            lines: Some(lrc_lines(content)),
            text: None,
        }
    } else {
        LyricsInfo {
            track_id,
            source,
            synced: false,
            lines: Some(Seq::empty()),
            text: Some(lyrics_text(content)),
        }
    }
}

/// What was made of the text of lyrics.
#[derive(Debug, PartialEq)]
pub struct ParsedLyrics {
    pub synced: bool,
    pub lines: Vec<LyricLine>,
    pub text: String,
}

/// Reads the text of lyrics: timed where it has timed lines, and else plain.
pub fn parse_lyrics_content(content: &str) -> (r: ParsedLyrics)
    ensures
        r.synced == (lrc_lines(content@).len() > 0),
        line_infos(r.lines@) == lrc_lines(content@),
        r.text@ == lyrics_text(content@),
{
    let timed = parse_lrc_lines(content);
    if timed.len() > 0 {
        let mut words: Vec<String> = Vec::new();
        let mut i: usize = 0;
        while i < timed.len()
            invariant
                0 <= i <= timed.len(),
                words.len() == i,
                forall|k: int| 0 <= k < i ==> (#[trigger] words@[k])@ == timed@[k].text@,
            decreases timed.len() - i,
        {
            words.push(timed[i].text.clone());
            i += 1;
        }
        assert(texts(words@) =~= lrc_lines(content@).map_values(|l: LineInfo| l.text));
        return ParsedLyrics {
            synced: true,
            lines: timed,
            text: join_texts(words.as_slice(), "\n"),
        };
    }
    let chars = chars_of(content);
    let raw_lines = lines_of(chars.as_slice());
    let ghost all = lines(content@).map_values(|l: Seq<char>| trim(l));
    let ghost p = |l: Seq<char>| is_plain_line(l);
    let mut plain: Vec<String> = Vec::new();
    let mut i: usize = 0;
    assert(texts(plain@) =~= all.take(0).filter(p)) by {
        reveal(Seq::filter);
    }
    while i < raw_lines.len()
        invariant
            0 <= i <= raw_lines.len(),
            p == (|l: Seq<char>| is_plain_line(l)),
            all == pieces(raw_lines@).map_values(|l: Seq<char>| trim(l)),
            texts(plain@) == all.take(i as int).filter(p),
        decreases raw_lines.len() - i,
    {
        let line = trim_chars(raw_lines[i]);
        let ghost before = texts(plain@);
        proof {
            reveal(Seq::filter);
            assert(all.take(i + 1).drop_last() =~= all.take(i as int));
            assert(all.take(i + 1).last() == line@);
        }
        if line.len() > 0 && !is_lrc_metadata_header(line) {
            plain.push(text_of(line));
            assert(texts(plain@) =~= before.push(line@));
        }
        i += 1;
    }
    assert(all.take(i as int) =~= all);
    ParsedLyrics { synced: false, lines: timed, text: join_texts(plain.as_slice(), "\n") }
}

impl LyricsResponse {
    /// The answer where there are no lyrics.
    pub fn none(track_id: &str) -> (r: Self)
        ensures
            r@ == no_lyrics(track_id@),
    {
        LyricsResponse {
            track_id: track_id.to_owned(),
            source: "none",
            synced: false,
            lines: None,
            text: None,
        }
    }

    /// The answer where a text was found at a source; nothing where no lyrics are left of it.
    pub fn from_content(track_id: &str, source: &'static str, content: &str) -> (r: Option<Self>)
        ensures
            match r {
                Some(a) => !is_blank(lyrics_text(content@)) && a@ == lyrics_from(
                    track_id@,
                    source@,
                    content@,
                ),
                None => is_blank(lyrics_text(content@)),
            },
    {
        let parsed = parse_lyrics_content(content);
        if text_is_blank(parsed.text.as_str()) {
            return None;
        }
        let (lines, text) = if parsed.synced {
            (Some(parsed.lines), None)
        } else {
            (Some(Vec::new()), Some(parsed.text))
        };
        let r = LyricsResponse {
            track_id: track_id.to_owned(),
            source,
            synced: parsed.synced,
            lines,
            text,
        };
        assert(r@ =~= lyrics_from(track_id@, source@, content@));
        Some(r)
    }
}

/// Whether some lyrics are left of a text that may have been found.
pub open spec fn has_lyrics(content: Option<Seq<char>>) -> bool {
    content matches Some(c) && !is_blank(lyrics_text(c))
}

/// The answer to a request for lyrics, by what the three places hold: the tags of the file, the
/// file of its own name, and that of the folder, which counts only where the folder has but one
/// audio file.
pub open spec fn lyrics_answer(
    id: Seq<char>,
    embedded: Option<Seq<char>>,
    track_lrc: Option<Seq<char>>,
    shared_lrc: Option<Seq<char>>,
    audio_files: nat,
) -> LyricsInfo {
    if has_lyrics(embedded) {
        lyrics_from(id, "embedded"@, embedded->0)
    } else if has_lyrics(track_lrc) {
        lyrics_from(id, "track_lrc"@, track_lrc->0)
    } else if audio_files == 1 && has_lyrics(shared_lrc) {
        lyrics_from(id, "shared_lrc"@, shared_lrc->0)
    } else {
        no_lyrics(id)
    }
}

/// The answer to a request for lyrics, from the texts that were found.
pub fn resolve_lyrics_texts(
    id: &str,
    embedded: Option<&str>,
    track_lrc: Option<&str>,
    shared_lrc: Option<&str>,
    audio_files: usize,
) -> (r: LyricsResponse)
    ensures
        r@ == lyrics_answer(
            id@,
            crate::page::opt_str(embedded),
            crate::page::opt_str(track_lrc),
            crate::page::opt_str(shared_lrc),
            audio_files as nat,
        ),
{
    if let Some(content) = embedded {
        if let Some(r) = LyricsResponse::from_content(id, "embedded", content) {
            return r;
        }
    }
    if let Some(content) = track_lrc {
        if let Some(r) = LyricsResponse::from_content(id, "track_lrc", content) {
            return r;
        }
    }
    if audio_files == 1 {
        if let Some(content) = shared_lrc {
            if let Some(r) = LyricsResponse::from_content(id, "shared_lrc", content) {
                return r;
            }
        }
    }
    LyricsResponse::none(id)
}

/// The text that `String::from_utf8_lossy` makes of some bytes.
pub uninterp spec fn lossy_text(bytes: Seq<u8>) -> Seq<char>;

/// `String::from_utf8_lossy` reads bytes as UTF-8. Valid UTF-8 gives the text that it encodes. Of
/// other bytes nothing is said but that they alone decide the text.
#[verifier::external_body]
fn text_from_utf8_lossy(bytes: &[u8]) -> (r: String)
    ensures
        r@ == lossy_text(bytes@),
        valid_utf8(bytes@) ==> r@ == decode_utf8(bytes@),
{
    String::from_utf8_lossy(bytes).into_owned()
}

/// The text that the bytes of a file are read as: the one that they encode, where they are valid
/// UTF-8.
pub open spec fn file_text(bytes: Option<&[u8]>) -> Option<Seq<char>> {
    match bytes {
        Some(b) => Some(
            if valid_utf8(b@) {
                decode_utf8(b@)
            } else {
                lossy_text(b@)
            },
        ),
        None => None,
    }
}

fn read_text(bytes: Option<&[u8]>) -> (r: Option<String>)
    ensures
        opt_text(r) == file_text(bytes),
{
    match bytes {
        Some(b) => Some(text_from_utf8_lossy(b)),
        None => None,
    }
}

/// The answer to a request for lyrics, from the tags and the bytes of the files that were found.
pub fn resolve_lyrics(
    id: &str,
    embedded: Option<&str>,
    track_lrc: Option<&[u8]>,
    shared_lrc: Option<&[u8]>,
    audio_files: usize,
) -> (r: LyricsResponse)
    ensures
        r@ == lyrics_answer(
            id@,
            crate::page::opt_str(embedded),
            file_text(track_lrc),
            file_text(shared_lrc),
            audio_files as nat,
        ),
{
    let own = read_text(track_lrc);
    let shared = read_text(shared_lrc);
    let own_text = match &own {
        Some(s) => Some(s.as_str()),
        None => None,
    };
    let shared_text = match &shared {
        Some(s) => Some(s.as_str()),
        None => None,
    };
    resolve_lyrics_texts(id, embedded, own_text, shared_text, audio_files)
}

/// The extension of a file name, nothing where it has none.
pub open spec fn extension_text(name: Seq<char>) -> Seq<char> {
    match extension_of(name) {
        Some(e) => e,
        None => Seq::empty(),
    }
}

/// Whether a file name has the given stem and extension, whatever the case of the letters.
pub open spec fn is_named(name: Seq<char>, stem: Seq<char>, ext: Seq<char>) -> bool {
    lowered(stem_of(name)) == lowered(stem) && lowered(extension_text(name))
        == lowered(ext)
}

fn extension_or_empty(name: &str) -> (r: String)
    ensures
        r@ == extension_text(name@),
{
    match file_extension(name) {
        Some(e) => e,
        None => String::new(),
    }
}

/// Which of the files of a folder has the given stem and extension, whatever the case of the
/// letters: the first that does.
pub fn find_case_insensitive_sibling(names: &[String], stem: &str, ext: &str) -> (r: Option<usize>)
    ensures
        match r {
            Some(i) => i < names.len() && i == first_where(
                texts(names@),
                |n: Seq<char>| is_named(n, stem@, ext@),
            ),
            None => first_where(texts(names@), |n: Seq<char>| is_named(n, stem@, ext@))
                == names@.len(),
        },
{
    let stem_lower = lowercase(stem);
    let ext_lower = lowercase(ext);
    let ghost p = |n: Seq<char>| is_named(n, stem@, ext@);
    let ghost all = texts(names@);
    let mut i: usize = 0;
    while i < names.len()
        invariant
            0 <= i <= names.len(),
            all == texts(names@),
            p == (|n: Seq<char>| is_named(n, stem@, ext@)),
            stem_lower@ == lowered(stem@),
            ext_lower@ == lowered(ext@),
            forall|k: int| 0 <= k < i ==> !p(#[trigger] all[k]),
        decreases names.len() - i,
    {
        let file_stem_lower = lowercase(file_stem(names[i].as_str()).as_str());
        let file_ext_lower = lowercase(extension_or_empty(names[i].as_str()).as_str());
        assert(all[i as int] == names@[i as int]@);
        if same_text(file_stem_lower.as_str(), stem_lower.as_str()) && same_text(
            file_ext_lower.as_str(),
            ext_lower.as_str(),
        ) {
            proof {
                lemma_first_where(all, p, i as int);
            }
            return Some(i);
        }
        i += 1;
    }
    proof {
        lemma_first_where(all, p, i as int);
    }
    None
}

/// Whether a file may hold the lyrics of a whole folder, by the stem and extension of its name and
/// by the name of the folder, all in lower case: it is called as the folder, or `lyrics`.
pub open spec fn is_shared_name(
    stem_lower: Seq<char>,
    ext_lower: Seq<char>,
    folder_lower: Option<Seq<char>>,
) -> bool {
    ext_lower == "lrc"@ && (stem_lower == "lyrics"@ || folder_lower == Some(stem_lower))
}

/// Whether a file may hold the lyrics of a whole folder, by names in lower case.
pub fn is_shared_lrc(stem_lower: &str, ext_lower: &str, folder_lower: Option<&str>) -> (r: bool)
    ensures
        r == is_shared_name(stem_lower@, ext_lower@, crate::page::opt_str(folder_lower)),
{
    if !same_text(ext_lower, "lrc") {
        return false;
    }
    if same_text(stem_lower, "lyrics") {
        return true;
    }
    match folder_lower {
        Some(f) => same_text(f, stem_lower),
        None => false,
    }
}

/// Whether a file may hold the lyrics of a whole folder.
pub open spec fn may_be_shared(name: Seq<char>, folder: Option<Seq<char>>) -> bool {
    extension_of(name) is Some && is_shared_name(
        lowered(stem_of(name)),
        lowered(extension_text(name)),
        match folder {
            Some(f) => Some(lowered(f)),
            None => None,
        },
    )
}

/// Which of the files of a folder may hold the lyrics of the whole folder: the first that may.
pub fn find_shared_lrc_candidate(names: &[String], folder: Option<&str>) -> (r: Option<usize>)
    ensures
        match r {
            Some(i) => i < names.len() && i == first_where(
                texts(names@),
                |n: Seq<char>| may_be_shared(n, crate::page::opt_str(folder)),
            ),
            None => first_where(
                texts(names@),
                |n: Seq<char>| may_be_shared(n, crate::page::opt_str(folder)),
            ) == names@.len(),
        },
{
    let folder_lower = match folder {
        Some(f) => Some(lowercase(f)),
        None => None,
    };
    let folder_text = match &folder_lower {
        Some(f) => Some(f.as_str()),
        None => None,
    };
    let ghost want = crate::page::opt_str(folder);
    let ghost p = |n: Seq<char>| may_be_shared(n, want);
    let ghost all = texts(names@);
    let mut i: usize = 0;
    while i < names.len()
        invariant
            0 <= i <= names.len(),
            all == texts(names@),
            want == crate::page::opt_str(folder),
            p == (|n: Seq<char>| may_be_shared(n, want)),
            crate::page::opt_str(folder_text) == match want {
                Some(f) => Some(lowered(f)),
                None => None,
            },
            forall|k: int| 0 <= k < i ==> !p(#[trigger] all[k]),
        decreases names.len() - i,
    {
        assert(all[i as int] == names@[i as int]@);
        let shared = match file_extension(names[i].as_str()) {
            Some(ext) => {
                let stem_lower = lowercase(file_stem(names[i].as_str()).as_str());
                let ext_lower = lowercase(ext.as_str());
                is_shared_lrc(stem_lower.as_str(), ext_lower.as_str(), folder_text)
            },
            None => false,
        };
        if shared {
            proof {
                lemma_first_where(all, p, i as int);
            }
            return Some(i);
        }
        i += 1;
    }
    proof {
        lemma_first_where(all, p, i as int);
    }
    None
}

/// The tracks in the folder of a track.
pub open spec fn in_folder_of(s: Seq<TrackInfo>, t: TrackInfo) -> Seq<TrackInfo> {
    s.filter(
        |u: TrackInfo|
            u.root == t.root && parent_of(u.relative_path) == parent_of(t.relative_path),
    )
}

/// How many tracks lie in the folder of a track.
pub fn count_in_folder(tracks: &TrackMap, track: &Track) -> (n: usize)
    ensures
        n == in_folder_of(tracks@, track@).len(),
{
    let all = tracks.all();
    let folder = parent_rel(track.relative_path.as_str());
    let ghost p = |u: TrackInfo|
        u.root == track@.root && parent_of(u.relative_path) == parent_of(track@.relative_path);
    let ghost s = tracks@;
    let mut n: usize = 0;
    let mut i: usize = 0;
    assert(s.take(0).filter(p).len() == 0) by {
        reveal(Seq::filter);
    }
    while i < all.len()
        invariant
            0 <= i <= all.len(),
            s == infos(all@),
            folder@ == parent_of(track@.relative_path),
            p == (|u: TrackInfo|
                u.root == track@.root && parent_of(u.relative_path) == parent_of(
                    track@.relative_path,
                )),
            n == s.take(i as int).filter(p).len(),
            n <= i,
        decreases all.len() - i,
    {
        proof {
            reveal(Seq::filter);
            assert(s.take(i + 1).drop_last() =~= s.take(i as int));
            assert(s.take(i + 1).last() == all@[i as int]@);
        }
        if all[i].root == track.root && same_text(
            parent_rel(all[i].relative_path.as_str()),
            folder,
        ) {
            n += 1;
        }
        i += 1;
    }
    assert(s.take(i as int) =~= s);
    n
}

/// What an answer holds: timed lines and no text, or a text and no lines, or neither of them.
pub proof fn law_answers_are_timed_or_plain(
    id: Seq<char>,
    embedded: Option<Seq<char>>,
    track_lrc: Option<Seq<char>>,
    shared_lrc: Option<Seq<char>>,
    audio_files: nat,
)
    ensures
        ({
            let a = lyrics_answer(id, embedded, track_lrc, shared_lrc, audio_files);
            &&& a.track_id == id
            &&& a.synced ==> a.text is None && a.lines is Some && a.lines->0.len() > 0
            &&& !a.synced && a.text is Some ==> a.lines == Some(Seq::<LineInfo>::empty())
                && !is_blank(a.text->0)
            &&& a.text is None && !a.synced ==> a == no_lyrics(id)
        }),
{
}

/// Timed lines come in the order of their times.
pub proof fn law_timed_lines_are_in_order(content: Seq<char>, i: int, j: int)
    requires
        0 <= i < j < lrc_lines(content).len(),
    ensures
        lrc_lines(content)[i].time_ms <= lrc_lines(content)[j].time_ms,
{
    let all = lines_in_file(lines(content));
    assert(is_order(by_time()));
    lemma_sort_members(all, by_time(), all[0]);
    lemma_sort_ascends(all, by_time(), i, j);
}

/// Lyrics in the tags are answered before those in files, and those in the file of the track
/// before those of the folder, which are not answered at all beside other audio files.
pub proof fn law_sources_in_order(
    id: Seq<char>,
    embedded: Option<Seq<char>>,
    track_lrc: Option<Seq<char>>,
    shared_lrc: Option<Seq<char>>,
    audio_files: nat,
)
    ensures
        has_lyrics(embedded) ==> lyrics_answer(
            id,
            embedded,
            track_lrc,
            shared_lrc,
            audio_files,
        ).source == "embedded"@,
        !has_lyrics(embedded) && has_lyrics(track_lrc) ==> lyrics_answer(
            id,
            embedded,
            track_lrc,
            shared_lrc,
            audio_files,
        ).source == "track_lrc"@,
        !has_lyrics(embedded) && !has_lyrics(track_lrc) && audio_files != 1 ==> lyrics_answer(
            id,
            embedded,
            track_lrc,
            shared_lrc,
            audio_files,
        ) == no_lyrics(id),
{
}

/// Whether a text is made of decimal digits.
pub open spec fn is_digits(s: Seq<char>) -> bool {
    s.len() > 0 && forall|i: int| 0 <= i < s.len() ==> is_digit(#[trigger] s[i])
}

proof fn lemma_digits_parse(d: Seq<char>)
    requires
        is_digits(d),
        digits_value(d) <= u64::MAX,
    ensures
        trim(d) == d,
        !is_blank(d),
        parse_number(d, u64::MAX as nat) == Some(digits_value(d)),
        !d.contains(':'),
        !d.contains('.'),
{
    assert(is_digit(d[0]) && is_digit(d[d.len() - 1]));
    assert(!is_space(d[0]) && !is_space(d.last()));
    assert(crate::text::without_plus(d) == d);
}

/// A time that is written as minutes, seconds and hundredths or thousandths of a second is read
/// as just that time.
pub proof fn law_written_times_are_read_back(
    minutes: Seq<char>,
    seconds: Seq<char>,
    fraction: Seq<char>,
)
    requires
        is_digits(minutes),
        is_digits(seconds),
        is_digits(fraction),
        digits_value(minutes) * 60000 + 60000 <= u64::MAX,
        digits_value(seconds) < 60,
        fraction.len() == 2 || fraction.len() == 3,
        digits_value(fraction) < 1000,
    ensures
        lrc_time(minutes + seq![':'] + seconds + seq!['.'] + fraction) == Some(
            (digits_value(minutes) * 60000 + digits_value(seconds) * 1000 + digits_value(fraction)
                * if fraction.len() == 2 {
                10
            } else {
                1int
            }) as u64,
        ),
{
    lemma_digits_parse(minutes);
    lemma_digits_parse(seconds);
    lemma_digits_parse(fraction);
    if fraction.len() == 2 {
        lemma_short_number(fraction, u64::MAX as nat);
    }
    let tag = minutes + seq![':'] + seconds + seq!['.'] + fraction;
    let c = minutes.len() as int;
    assert forall|k: int| 0 <= k < c implies tag[k] != ':' by {
        assert(tag[k] == minutes[k]);
        assert(minutes.contains(minutes[k]));
    }
    lemma_find(tag, ':', c);
    assert(tag.take(c) =~= minutes);
    let rest = tag.skip(c + 1);
    assert(rest =~= seconds + seq!['.'] + fraction);
    let d = seconds.len() as int;
    assert forall|k: int| 0 <= k < d implies rest[k] != '.' && rest[k] != ':' by {
        assert(rest[k] == seconds[k]);
        assert(seconds.contains(seconds[k]));
    }
    lemma_find(rest, '.', d);
    assert forall|k: int| 0 <= k < rest.len() implies rest[k] != ':' by {
        if d < k {
            assert(rest[k] == fraction[k - d - 1]);
            assert(fraction.contains(fraction[k - d - 1]));
        }
    }
    lemma_find(rest, ':', rest.len() as int);
    assert(rest.take(d) =~= seconds);
    assert(rest.skip(d + 1) =~= fraction);
}

/// Whether a text neither begins nor ends with white space.
pub open spec fn is_trimmed(s: Seq<char>) -> bool {
    s.len() > 0 ==> !is_space(s[0]) && !is_space(s.last())
}

/// Behind a time in brackets come the other times of a line and its text.
proof fn lemma_leading_time(tag: Seq<char>, rest: Seq<char>)
    requires
        !tag.contains(']'),
        lrc_time(tag) is Some,
    ensures
        leading_times(seq!['['] + tag + seq![']'] + rest) == (
            seq![lrc_time(tag)->0] + leading_times(rest).0,
            leading_times(rest).1,
        ),
{
    let line = seq!['['] + tag + seq![']'] + rest;
    let inner = line.skip(1);
    assert(inner =~= tag + seq![']'] + rest);
    let n = tag.len() as int;
    assert forall|k: int| 0 <= k < n implies inner[k] != ']' by {
        assert(inner[k] == tag[k]);
        assert(tag.contains(tag[k]));
    }
    assert(inner[n] == ']');
    lemma_find(inner, ']', n);
    assert(inner.take(n) =~= tag);
    assert(inner.skip(n + 1) =~= rest);
}

/// A line that is a time in brackets and a text gives one timed line, with that time and the whole
/// of that text, whatever characters and words the text holds and whatever white space stands
/// around the two.
pub proof fn law_timed_line_keeps_its_text(
    before: Seq<char>,
    tag: Seq<char>,
    gap: Seq<char>,
    text: Seq<char>,
    after: Seq<char>,
)
    requires
        is_blank(before),
        is_blank(gap),
        is_blank(after),
        !tag.contains(']'),
        lrc_time(tag) is Some,
        text.len() > 0,
        is_trimmed(text),
        text[0] != '[',
    ensures
        lines_of_line(before + (seq!['['] + tag + seq![']'] + gap + text) + after) == seq![
            LineInfo { time_ms: lrc_time(tag)->0, text },
        ],
{
    let line = seq!['['] + tag + seq![']'] + gap + text;
    let rest = gap + text;
    assert(line =~= seq!['['] + tag + seq![']'] + rest);
    assert(line[0] == '[' && line.last() == text.last());
    law_trim_takes_off_the_ends(before, line, after);
    lemma_leading_time(tag, rest);
    assert(rest[0] != '[') by {
        if gap.len() > 0 {
            assert(rest[0] == gap[0]);
            assert(is_space(gap[0]));
        } else {
            assert(rest[0] == text[0]);
        }
    }
    assert(leading_times(rest) == (Seq::<u64>::empty(), rest));
    assert(seq![lrc_time(tag)->0] + Seq::<u64>::empty() =~= seq![lrc_time(tag)->0]);
    law_trim_takes_off_the_ends(gap, text, Seq::empty());
    assert(gap + text + Seq::<char>::empty() =~= rest);
    assert(lines_of_line(before + line + after) =~= seq![
        LineInfo { time_ms: lrc_time(tag)->0, text },
    ]);
}

/// One more time in brackets before a line gives its text once more, at that time and before the
/// others.
pub proof fn law_line_with_several_times(tag: Seq<char>, rest: Seq<char>)
    requires
        !tag.contains(']'),
        lrc_time(tag) is Some,
        is_trimmed(rest),
        rest.len() > 0,
        lines_of_line(rest).len() > 0,
    ensures
        lines_of_line(seq!['['] + tag + seq![']'] + rest) == seq![
            LineInfo { time_ms: lrc_time(tag)->0, text: lines_of_line(rest)[0].text },
        ] + lines_of_line(rest),
{
    let line = seq!['['] + tag + seq![']'] + rest;
    let none = Seq::<char>::empty();
    assert(line[0] == '[' && line.last() == rest.last());
    law_trim_takes_off_the_ends(none, line, none);
    law_trim_takes_off_the_ends(none, rest, none);
    assert(none + line + none =~= line);
    assert(none + rest + none =~= rest);
    lemma_leading_time(tag, rest);
    assert(lines_of_line(line) =~= seq![
        LineInfo { time_ms: lrc_time(tag)->0, text: lines_of_line(rest)[0].text },
    ] + lines_of_line(rest));
}

/// A line that does not begin with a time in brackets gives no timed line.
pub proof fn law_line_without_time(line: Seq<char>, tag: Seq<char>, rest: Seq<char>)
    requires
        is_trimmed(line),
        is_trimmed(rest),
        rest.len() > 0,
        !tag.contains(']'),
        lrc_time(tag) is None,
    ensures
        line.len() == 0 || line[0] != '[' ==> lines_of_line(line).len() == 0,
        lines_of_line(seq!['['] + tag + seq![']'] + rest).len() == 0,
{
    let none = Seq::<char>::empty();
    law_trim_takes_off_the_ends(none, line, none);
    assert(none + line + none =~= line);
    let other = seq!['['] + tag + seq![']'] + rest;
    assert(other[0] == '[' && other.last() == rest.last());
    law_trim_takes_off_the_ends(none, other, none);
    assert(none + other + none =~= other);
    let inner = other.skip(1);
    let n = tag.len() as int;
    assert(inner =~= tag + seq![']'] + rest);
    assert forall|k: int| 0 <= k < n implies inner[k] != ']' by {
        assert(inner[k] == tag[k]);
        assert(tag.contains(tag[k]));
    }
    assert(inner[n] == ']');
    lemma_find(inner, ']', n);
    assert(inner.take(n) =~= tag);
}

/// The timed lines of a text are those of its lines, each of them as often as its line gives it,
/// and those of one time stay in the order of the text.
pub proof fn law_timed_lines_are_those_of_the_text(
    a: Seq<Seq<char>>,
    b: Seq<Seq<char>>,
    content: Seq<char>,
)
    ensures
        lines_in_file(Seq::empty()) == Seq::<LineInfo>::empty(),
        forall|l: Seq<char>| lines_in_file(seq![l]) == #[trigger] lines_of_line(l),
        lines_in_file(a + b) == lines_in_file(a) + lines_in_file(b),
        is_rearrangement(lrc_lines(content), lines_in_file(lines(content))),
        (forall|i: int, j: int|
            0 <= i < j < lines_in_file(lines(content)).len() ==> (#[trigger] lines_in_file(
                lines(content),
            )[i]).time_ms <= (#[trigger] lines_in_file(lines(content))[j]).time_ms) ==> lrc_lines(
            content,
        ) == lines_in_file(lines(content)),
    decreases b.len(),
{
    let none = Seq::<Seq<char>>::empty();
    assert forall|l: Seq<char>| lines_in_file(seq![l]) == #[trigger] lines_of_line(l) by {
        assert(seq![l].drop_last() =~= none);
        assert(lines_in_file(none) =~= Seq::empty());
        assert(lines_in_file(seq![l]) =~= lines_of_line(l));
    }
    if b.len() > 0 {
        law_timed_lines_are_those_of_the_text(a, b.drop_last(), content);
        assert((a + b).drop_last() =~= a + b.drop_last());
        assert((a + b).last() == b.last());
        assert(lines_in_file(a + b) =~= lines_in_file(a) + lines_in_file(b));
    } else {
        assert(a + b =~= a);
        assert(lines_in_file(a) + lines_in_file(b) =~= lines_in_file(a));
    }
    let all = lines_in_file(lines(content));
    assert(is_order(by_time()));
    let places = lemma_sort_rearranges(all, by_time());
    if forall|i: int, j: int|
        0 <= i < j < all.len() ==> (#[trigger] all[i]).time_ms <= (#[trigger] all[j]).time_ms {
        lemma_sort_of_sorted(all, by_time());
    }
}

/// Lyrics that are one timed line are answered with that line: its time, the whole of its text and
/// nothing else.
pub proof fn law_answer_has_the_whole_line(
    id: Seq<char>,
    tag: Seq<char>,
    text: Seq<char>,
    track_lrc: Option<Seq<char>>,
    shared_lrc: Option<Seq<char>>,
    audio_files: nat,
)
    requires
        !tag.contains(']'),
        !tag.contains('\n'),
        lrc_time(tag) is Some,
        text.len() > 0,
        is_trimmed(text),
        text[0] != '[',
        !text.contains('\n'),
    ensures
        ({
            let content = seq!['['] + tag + seq![']'] + text;
            &&& lrc_lines(content) == seq![LineInfo { time_ms: lrc_time(tag)->0, text }]
            &&& lyrics_answer(id, Some(content), track_lrc, shared_lrc, audio_files) == (
            LyricsInfo {
                track_id: id,
                source: "embedded"@,
                synced: true,
                lines: Some(seq![LineInfo { time_ms: lrc_time(tag)->0, text }]),
                text: None,
            })
        }),
{
    let content = seq!['['] + tag + seq![']'] + text;
    let none = Seq::<char>::empty();
    let want = seq![LineInfo { time_ms: lrc_time(tag)->0, text }];
    law_timed_line_keeps_its_text(none, tag, none, text, none);
    assert(none + (seq!['['] + tag + seq![']'] + none + text) + none =~= content);
    assert(!content.contains('\n')) by {
        if content.contains('\n') {
            let k = choose|k: int| 0 <= k < content.len() && content[k] == '\n';
            if 0 < k <= tag.len() {
                assert(tag[k - 1] == '\n');
            } else if k > tag.len() + 1 {
                assert(text[k - tag.len() - 2] == '\n');
            }
        }
    }
    assert(content.last() == text.last());
    law_lines_one_by_one(content, none);
    assert(lines(content) == seq![content]);
    law_timed_lines_are_those_of_the_text(seq![content], Seq::empty(), content);
    assert(lines_in_file(seq![content]) == lines_of_line(content));
    assert(lrc_lines(content) == want);
    let texts = want.map_values(|l: LineInfo| l.text);
    assert(texts =~= seq![text]);
    assert(lyrics_text(content) == text);
    assert(!is_blank(text)) by {
        assert(!is_space(text[0]));
    }
}

/// A time without a fraction of a second.
proof fn lemma_time_parts(minutes: Seq<char>, seconds: Seq<char>, end: Seq<char>)
    requires
        is_digits(minutes),
        is_digits(seconds),
        digits_value(minutes) <= u64::MAX,
        digits_value(seconds) <= u64::MAX,
        end.len() > 0 ==> end[0] == '.',
        !end.contains(':'),
    ensures
        ({
            let tag = minutes + seq![':'] + seconds + end;
            let rest = seconds + end;
            &&& find(tag, ':') == minutes.len()
            &&& tag.take(minutes.len() as int) == minutes
            &&& tag.skip(minutes.len() as int + 1) == rest
            &&& find_fraction(rest) == seconds.len()
            &&& rest.take(seconds.len() as int) == seconds
            &&& fraction_part(rest) == if end.len() > 0 {
                end.skip(1)
            } else {
                Seq::empty()
            }
        }),
{
    lemma_digits_parse(minutes);
    lemma_digits_parse(seconds);
    let tag = minutes + seq![':'] + seconds + end;
    let rest = seconds + end;
    let c = minutes.len() as int;
    let d = seconds.len() as int;
    assert forall|k: int| 0 <= k < c implies tag[k] != ':' by {
        assert(tag[k] == minutes[k]);
        assert(minutes.contains(minutes[k]));
    }
    lemma_find(tag, ':', c);
    assert(tag.take(c) =~= minutes);
    assert(tag.skip(c + 1) =~= rest);
    assert forall|k: int| 0 <= k < d implies rest[k] != '.' by {
        assert(rest[k] == seconds[k]);
        assert(seconds.contains(seconds[k]));
    }
    assert forall|k: int| 0 <= k < rest.len() implies rest[k] != ':' by {
        if k < d {
            assert(rest[k] == seconds[k]);
            assert(seconds.contains(seconds[k]));
        } else {
            assert(rest[k] == end[k - d]);
            assert(end.contains(end[k - d]));
        }
    }
    lemma_find(rest, '.', d);
    lemma_find(rest, ':', rest.len() as int);
    assert(rest.take(d) =~= seconds);
    if end.len() > 0 {
        assert(rest.skip(d + 1) =~= end.skip(1));
    }
}

/// A time may be given without a fraction of a second, or with tenths. Sixty seconds or more are no
/// time, and neither is a number without a colon.
pub proof fn law_short_times(minutes: Seq<char>, seconds: Seq<char>, tenth: int)
    requires
        is_digits(minutes),
        is_digits(seconds),
        0 <= tenth < 10,
        digits_value(minutes) * 60000 + 60000 <= u64::MAX,
        digits_value(seconds) <= u64::MAX,
    ensures
        digits_value(seconds) < 60 ==> lrc_time(minutes + seq![':'] + seconds) == Some(
            (digits_value(minutes) * 60000 + digits_value(seconds) * 1000) as u64,
        ),
        digits_value(seconds) < 60 ==> lrc_time(
            minutes + seq![':'] + seconds + seq!['.', ('0' as int + tenth) as char],
        ) == Some(
            (digits_value(minutes) * 60000 + digits_value(seconds) * 1000 + tenth * 100) as u64,
        ),
        digits_value(seconds) >= 60 ==> lrc_time(minutes + seq![':'] + seconds) is None,
        lrc_time(minutes) is None,
{
    let none = Seq::<char>::empty();
    let digit = ('0' as int + tenth) as char;
    let end = seq!['.', digit];
    lemma_digits_parse(minutes);
    lemma_digits_parse(seconds);
    lemma_time_parts(minutes, seconds, none);
    lemma_time_parts(minutes, seconds, end);
    assert(minutes + seq![':'] + seconds + none =~= minutes + seq![':'] + seconds);
    assert(seconds + none =~= seconds);
    let one = end.skip(1);
    assert(one =~= seq![digit]);
    law_value_of_digits(none, tenth);
    assert(none.push(digit) =~= one);
    assert(digits_value(one) == tenth);
    lemma_digits_parse(one);
    assert forall|k: int| 0 <= k < minutes.len() implies minutes[k] != ':' by {
        assert(minutes.contains(minutes[k]));
    }
    lemma_find(minutes, ':', minutes.len() as int);
}

proof fn lemma_lines_of_joined(ls: Seq<Seq<char>>)
    requires
        ls.len() > 0,
        forall|i: int| 0 <= i < ls.len() ==> is_plain_verse(#[trigger] ls[i]),
    ensures
        lines(join(ls, "\n"@)) == ls,
    decreases ls.len(),
{
    reveal_strlit("\n");
    let first = ls[0];
    assert(is_plain_verse(first));
    if ls.len() == 1 {
        law_lines_one_by_one(first, Seq::empty());
        assert(ls =~= seq![first]);
    } else {
        let rest = ls.skip(1);
        assert forall|i: int| 0 <= i < rest.len() implies is_plain_verse(#[trigger] rest[i]) by {
            assert(rest[i] == ls[i + 1]);
        }
        lemma_lines_of_joined(rest);
        lemma_join_front(first, rest, "\n"@);
        assert(seq![first] + rest =~= ls);
        assert("\n"@ =~= seq!['\n']);
        law_lines_one_by_one(first, join(rest, "\n"@));
    }
}

/// Whether a line is a verse without a time: something without white space around it that does not
/// begin with a bracket.
pub open spec fn is_plain_verse(l: Seq<char>) -> bool {
    l.len() > 0 && is_trimmed(l) && l[0] != '[' && !l.contains('\n')
}

proof fn lemma_plain_lines_untimed(ls: Seq<Seq<char>>)
    requires
        forall|i: int| 0 <= i < ls.len() ==> is_plain_verse(#[trigger] ls[i]),
    ensures
        lines_in_file(ls).len() == 0,
    decreases ls.len(),
{
    if ls.len() > 0 {
        let l = ls.last();
        let none = Seq::<char>::empty();
        assert(is_plain_verse(l));
        assert forall|i: int| 0 <= i < ls.drop_last().len() implies is_plain_verse(
            #[trigger] ls.drop_last()[i],
        ) by {
            assert(ls.drop_last()[i] == ls[i]);
        }
        lemma_plain_lines_untimed(ls.drop_last());
        law_trim_takes_off_the_ends(none, l, none);
        assert(none + l + none =~= l);
    }
}

/// Lyrics without times are answered as they are: all their verses, in order, each on its line.
pub proof fn law_plain_lyrics_are_kept(
    id: Seq<char>,
    verses: Seq<Seq<char>>,
    track_lrc: Option<Seq<char>>,
    shared_lrc: Option<Seq<char>>,
    audio_files: nat,
)
    requires
        verses.len() > 0,
        forall|i: int| 0 <= i < verses.len() ==> is_plain_verse(#[trigger] verses[i]),
    ensures
        lyrics_text(join(verses, "\n"@)) == join(verses, "\n"@),
        has_lyrics(Some(join(verses, "\n"@))),
        lyrics_answer(id, Some(join(verses, "\n"@)), track_lrc, shared_lrc, audio_files) == (
        LyricsInfo {
            track_id: id,
            source: "embedded"@,
            synced: false,
            lines: Some(Seq::empty()),
            text: Some(join(verses, "\n"@)),
        }),
{
    let content = join(verses, "\n"@);
    lemma_lines_of_joined(verses);
    lemma_plain_lines_untimed(verses);
    assert(is_order(by_time()));
    let places = lemma_sort_rearranges(lines_in_file(verses), by_time());
    assert(lrc_lines(content).len() == 0);
    let none = Seq::<char>::empty();
    let trimmed = verses.map_values(|l: Seq<char>| trim(l));
    assert forall|i: int| 0 <= i < verses.len() implies #[trigger] trimmed[i] == verses[i] by {
        assert(is_plain_verse(verses[i]));
        law_trim_takes_off_the_ends(none, verses[i], none);
        assert(none + verses[i] + none =~= verses[i]);
    }
    assert(trimmed =~= verses);
    assert forall|i: int| 0 <= i < verses.len() implies is_plain_line(#[trigger] verses[i]) by {
        assert(is_plain_verse(verses[i]));
    }
    lemma_filter_all(verses, |l: Seq<char>| is_plain_line(l));
    assert(plain_lines(content) == verses);
    assert(is_plain_verse(verses[0]));
    lemma_join_begins(verses);
    assert(!is_blank(content)) by {
        assert(content[0] == verses[0][0]);
        assert(!is_space(content[0]));
    }
}

proof fn lemma_join_begins(ls: Seq<Seq<char>>)
    requires
        ls.len() > 0,
        ls[0].len() > 0,
    ensures
        join(ls, "\n"@).len() > 0,
        join(ls, "\n"@)[0] == ls[0][0],
    decreases ls.len(),
{
    if ls.len() > 1 {
        lemma_join_begins(ls.drop_last());
    }
}

/// Headers of an LRC file, such as the artist in `[ar:Somebody]`, are no verses.
pub proof fn law_headers_are_no_verses(a: char, b: char, value: Seq<char>)
    requires
        'a' <= a <= 'z' || 'A' <= a <= 'Z',
        'a' <= b <= 'z' || 'A' <= b <= 'Z',
    ensures
        is_lrc_header(seq!['[', a, b, ':'] + value + seq![']']),
        !is_lrc_header(value + seq!['.']),
        value.len() < 4 || value[0] != '[' || value[3] != ':' ==> !is_lrc_header(value),
        is_lrc_header(value) ==> 'a' <= ascii_lower(value[1]) <= 'z' && 'a' <= ascii_lower(
            value[2],
        ) <= 'z' && value.last() == ']',
{
    let h = seq!['[', a, b, ':'] + value + seq![']'];
    assert(h[0] == '[' && h[1] == a && h[2] == b && h[3] == ':');
    assert((value + seq!['.']).last() == '.');
}

/// The answer comes from the first source that has lyrics and from it alone, whatever the others
/// hold, and says which it was; all sources are read alike.
pub proof fn law_answer_goes_by_the_first_source(
    id: Seq<char>,
    embedded: Option<Seq<char>>,
    track_lrc: Option<Seq<char>>,
    shared_lrc: Option<Seq<char>>,
    audio_files: nat,
)
    ensures
        ({
            let a = lyrics_answer(id, embedded, track_lrc, shared_lrc, audio_files);
            let only_tags = |c: Option<Seq<char>>| lyrics_answer(id, c, None, None, 0);
            &&& has_lyrics(embedded) ==> a == only_tags(embedded) && a.source == "embedded"@
            &&& !has_lyrics(embedded) && has_lyrics(track_lrc) ==> a == (LyricsInfo {
                source: "track_lrc"@,
                ..only_tags(track_lrc)
            })
            &&& !has_lyrics(embedded) && !has_lyrics(track_lrc) && audio_files == 1 && has_lyrics(
                shared_lrc,
            ) ==> a == (LyricsInfo { source: "shared_lrc"@, ..only_tags(shared_lrc) })
            &&& !has_lyrics(embedded) && !has_lyrics(track_lrc) && (audio_files != 1 || !has_lyrics(
                shared_lrc,
            )) ==> a.source == "none"@ && a.lines is None && a.text is None && !a.synced
        }),
{
}

/// The file beside a track is told by its name, whatever the case of the letters: it has the stem
/// of the track and the given extension.
pub proof fn law_file_of_a_track(
    stem: Seq<char>,
    ext: Seq<char>,
    other_stem: Seq<char>,
    other_ext: Seq<char>,
)
    requires
        stem.len() > 0,
        other_stem.len() > 0,
        !ext.contains('.'),
        !other_ext.contains('.'),
        is_ascii_text(stem),
        is_ascii_text(ext),
        is_ascii_text(other_stem),
        is_ascii_text(other_ext),
    ensures
        is_named(other_stem + seq!['.'] + other_ext, stem, ext) <==> ascii_lowered(other_stem)
            == ascii_lowered(stem) && ascii_lowered(other_ext) == ascii_lowered(ext),
{
    law_stem_and_extension(other_stem, other_ext);
}

/// The lyrics of a whole folder are in a file with the extension `lrc` that is called `lyrics` or
/// as the folder, whatever the case of the letters.
pub proof fn law_file_of_a_folder(stem: Seq<char>, ext: Seq<char>, folder: Seq<char>)
    requires
        stem.len() > 0,
        !ext.contains('.'),
        is_ascii_text(stem),
        is_ascii_text(ext),
        is_ascii_text(folder),
    ensures
        may_be_shared(stem + seq!['.'] + ext, Some(folder)) <==> ascii_lowered(ext) == "lrc"@ && (
        ascii_lowered(stem) == "lyrics"@ || ascii_lowered(stem) == ascii_lowered(folder)),
        may_be_shared(stem + seq!['.'] + ext, None) <==> ascii_lowered(ext) == "lrc"@
            && ascii_lowered(stem) == "lyrics"@,
{
    law_stem_and_extension(stem, ext);
}

/// A track more counts in the folder of another just where it is in the same music folder and the
/// same folder of it.
pub proof fn law_tracks_of_a_folder(
    s: Seq<TrackInfo>,
    t: TrackInfo,
    u: TrackInfo,
    folder: Seq<char>,
    name: Seq<char>,
    other_folder: Seq<char>,
    other_name: Seq<char>,
)
    requires
        !name.contains('/'),
        !other_name.contains('/'),
        t.relative_path == folder + seq!['/'] + name,
        u.relative_path == other_folder + seq!['/'] + other_name,
    ensures
        in_folder_of(Seq::empty(), t).len() == 0,
        in_folder_of(s.push(u), t).len() == in_folder_of(s, t).len() + if t.root == u.root && folder
            == other_folder {
            1int
        } else {
            0
        },
{
    reveal(Seq::filter);
    law_folder_of_a_path(folder, name);
    law_folder_of_a_path(other_folder, other_name);
    assert(s.push(u).drop_last() =~= s);
}

/// The value of some digits and of more behind them.
proof fn lemma_value_of_both(a: Seq<char>, b: Seq<char>)
    requires
        b.len() == 3,
        is_digits(b),
    ensures
        digits_value(a + b) == digits_value(a) * 1000 + digits_value(b),
        digits_value(b) < 1000,
{
    reveal_with_fuel(digits_value, 4);
    let whole = a + b;
    let none = Seq::<char>::empty();
    assert(is_digit(b[0]) && is_digit(b[1]) && is_digit(b[2]));
    assert(whole.drop_last().drop_last().drop_last() =~= a);
    assert(b.drop_last().drop_last().drop_last() =~= none);
    assert(whole.last() == b[2]);
    assert(whole.drop_last().last() == b[1]);
    assert(whole.drop_last().drop_last().last() == b[0]);
    assert(b.drop_last().last() == b[1]);
    assert(b.drop_last().drop_last().last() == b[0]);
}

/// Of a fraction of more than three digits the last three count, and a colon may stand before a
/// fraction in the place of the dot.
pub proof fn law_other_fractions(
    minutes: Seq<char>,
    seconds: Seq<char>,
    more: Seq<char>,
    fraction: Seq<char>,
)
    requires
        is_digits(minutes),
        is_digits(seconds),
        is_digits(more),
        is_digits(fraction),
        fraction.len() == 3,
        digits_value(minutes) * 60000 + 60000 <= u64::MAX,
        digits_value(seconds) < 60,
        digits_value(more + fraction) <= u64::MAX,
    ensures
        lrc_time(minutes + seq![':'] + seconds + (seq!['.'] + more + fraction)) == Some(
            (digits_value(minutes) * 60000 + digits_value(seconds) * 1000 + digits_value(
                fraction,
            )) as u64,
        ),
        lrc_time(minutes + seq![':'] + seconds + (seq![':'] + fraction)) == Some(
            (digits_value(minutes) * 60000 + digits_value(seconds) * 1000 + digits_value(
                fraction,
            )) as u64,
        ),
{
    lemma_value_of_both(more, fraction);
    let long = more + fraction;
    assert(is_digits(long)) by {
        assert forall|i: int| 0 <= i < long.len() implies is_digit(#[trigger] long[i]) by {
            if i < more.len() {
                assert(long[i] == more[i]);
            } else {
                assert(long[i] == fraction[i - more.len()]);
            }
        }
    }
    lemma_digits_parse(minutes);
    lemma_digits_parse(seconds);
    lemma_digits_parse(long);
    lemma_digits_parse(fraction);
    let end = seq!['.'] + more + fraction;
    assert(end =~= seq!['.'] + long);
    assert(end.skip(1) =~= long);
    assert(!end.contains(':')) by {
        if end.contains(':') {
            let k = choose|k: int| 0 <= k < end.len() && end[k] == ':';
            assert(long[k - 1] == ':');
        }
    }
    lemma_time_parts(minutes, seconds, end);
    assert((digits_value(more) * 1000 + digits_value(fraction)) % 1000 == digits_value(fraction));
    let tag = minutes + seq![':'] + seconds + (seq![':'] + fraction);
    let rest = seconds + (seq![':'] + fraction);
    let c = minutes.len() as int;
    let d = seconds.len() as int;
    assert forall|k: int| 0 <= k < c implies tag[k] != ':' by {
        assert(tag[k] == minutes[k]);
        assert(minutes.contains(minutes[k]));
    }
    lemma_find(tag, ':', c);
    assert(tag.take(c) =~= minutes);
    assert(tag.skip(c + 1) =~= rest);
    assert forall|k: int| 0 <= k < d implies rest[k] != ':' by {
        assert(rest[k] == seconds[k]);
        assert(seconds.contains(seconds[k]));
    }
    assert forall|k: int| 0 <= k < rest.len() implies rest[k] != '.' by {
        if k < d {
            assert(rest[k] == seconds[k]);
            assert(seconds.contains(seconds[k]));
        } else if k > d {
            assert(rest[k] == fraction[k - d - 1]);
            assert(fraction.contains(fraction[k - d - 1]));
        }
    }
    lemma_find(rest, ':', d);
    lemma_find(rest, '.', rest.len() as int);
    assert(rest.take(d) =~= seconds);
    assert(rest.skip(d + 1) =~= fraction);
}

/// The text of timed lyrics has the text of each line on a line of its own, in the order of their
/// times.
pub proof fn law_text_of_timed_lyrics(content: Seq<char>)
    requires
        lrc_lines(content).len() > 0,
        forall|i: int|
            0 <= i < lrc_lines(content).len() ==> !(#[trigger] lrc_lines(content)[i]).text.contains(
                '\n',
            ),
    ensures
        split(lyrics_text(content), '\n').len() == lrc_lines(content).len(),
        forall|i: int|
            0 <= i < lrc_lines(content).len() ==> split(lyrics_text(content), '\n')[i] == (
            #[trigger] lrc_lines(content)[i]).text,
{
    reveal_strlit("\n");
    assert("\n"@ =~= seq!['\n']);
    let texts = lrc_lines(content).map_values(|l: LineInfo| l.text);
    assert forall|i: int| 0 <= i < texts.len() implies !(#[trigger] texts[i]).contains('\n') by {
        assert(texts[i] == lrc_lines(content)[i].text);
    }
    lemma_split_of_joined(texts, '\n');
}

/// What an answer and its lines stand for are their fields.
pub proof fn law_answers_are_shown(r: LyricsResponse, l: LyricLine)
    ensures
        r@.track_id == r.track_id@,
        r@.source == r.source@,
        r@.synced == r.synced,
        r.lines matches Some(v) ==> r@.lines == Some(line_infos(v@)),
        r.lines is None ==> r@.lines is None,
        r.text matches Some(t) ==> r@.text == Some(t@),
        r.text is None ==> r@.text is None,
        l@.time_ms == l.time_ms,
        l@.text == l.text@,
{
}

/// A file that holds a text in UTF-8 is read as that text, character for character.
pub proof fn law_files_are_read_as_written(s: Seq<char>, bytes: &[u8])
    requires
        bytes@ == encode_utf8(s),
    ensures
        file_text(Some(bytes)) == Some(s),
        file_text(None) is None,
{
    encode_utf8_valid_utf8(s);
    encode_utf8_decode_utf8(s);
}

} // verus!
