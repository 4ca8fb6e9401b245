//! The configuration file: what is written on first run, how it is read, and what follows from
//! the settings it holds.
use crate::paths::{components, join_path, joined, law_path_below_a_folder, same_path};
use crate::text::{
    chars_of, decimal, decimal_text, find, find_char, is_blank, is_space, join,
    law_numbers_are_read_back, law_trim_takes_off_the_ends, lemma_find, lemma_find_props,
    lemma_split_push, lines, lines_of, opt_text, parse_chars, parse_number, pieces, same_text,
    split, split_chars, starts_with, strip_chars, strip_end, strip_start, text_of, texts, trim,
    trim_chars, trim_end, trim_start, without_cr,
};
use vstd::prelude::*;
use vstd::slice::slice_subrange;

verus! {

pub const DEFAULT_RATE_LIMIT_PER_MIN: u32 = 300;

/// The settings that a configuration file gives.
#[derive(Debug, PartialEq)]
pub struct ParsedConfig {
    pub music_dirs: Vec<String>,
    pub bind_addr: String,
    pub api_token: Option<String>,
    pub rate_limit_per_min: u32,
    pub tls_cert_path: Option<String>,
    pub tls_key_path: Option<String>,
}

/// The settings as plain texts and numbers.
#[verifier::ext_equal]
pub struct Settings {
    pub music_dirs: Seq<Seq<char>>,
    pub bind_addr: Seq<char>,
    pub api_token: Option<Seq<char>>,
    pub rate_limit_per_min: u32,
    pub tls_cert_path: Option<Seq<char>>,
    pub tls_key_path: Option<Seq<char>>,
}

impl View for ParsedConfig {
    type V = Settings;

    open spec fn view(&self) -> Settings {
        Settings {
            music_dirs: texts(self.music_dirs@),
            bind_addr: self.bind_addr@,
            api_token: opt_text(self.api_token),
            rate_limit_per_min: self.rate_limit_per_min,
            tls_cert_path: opt_text(self.tls_cert_path),
            tls_key_path: opt_text(self.tls_key_path),
        }
    }
}

/// The settings of an empty file.
pub open spec fn default_settings() -> Settings {
    Settings {
        music_dirs: Seq::empty(),
        bind_addr: "127.0.0.1:8420"@,
        api_token: None,
        rate_limit_per_min: DEFAULT_RATE_LIMIT_PER_MIN,
        tls_cert_path: None,
        tls_key_path: None,
    }
}

impl Default for ParsedConfig {
    fn default() -> (r: Self)
        ensures
            r@ == default_settings(),
    {
        let r = ParsedConfig {
            music_dirs: Vec::new(),
            bind_addr: "127.0.0.1:8420".to_owned(),
            api_token: None,
            rate_limit_per_min: DEFAULT_RATE_LIMIT_PER_MIN,
            tls_cert_path: None,
            tls_key_path: None,
        };
        assert(r@ =~= default_settings());
        r
    }
}

/// The folders that a comma-separated list names.
pub open spec fn listed_dirs(value: Seq<char>) -> Seq<Seq<char>> {
    split(value, ',').map_values(|p: Seq<char>| trim(p)).filter(|p: Seq<char>| p.len() > 0)
}

/// A value, unless it is empty.
pub open spec fn non_empty(value: Seq<char>, otherwise: Option<Seq<char>>) -> Option<Seq<char>> {
    if value.len() > 0 {
        Some(value)
    } else {
        otherwise
    }
}

/// The settings after `key = value`; nothing where the key is unknown or the value is no number
/// where one is due.
pub open spec fn with_setting(c: Settings, key: Seq<char>, value: Seq<char>) -> Option<Settings> {
    if key == "music_dir"@ {
        Some(
            Settings {
                music_dirs: if value.len() > 0 {
                    c.music_dirs.push(value)
                } else {
                    c.music_dirs
                },
                ..c
            },
        )
    } else if key == "music_dirs"@ {
        Some(Settings { music_dirs: c.music_dirs + listed_dirs(value), ..c })
    } else if key == "bind_addr"@ {
        Some(Settings { bind_addr: value, ..c })
    } else if key == "api_token"@ {
        Some(Settings { api_token: non_empty(value, c.api_token), ..c })
    } else if key == "rate_limit_per_min"@ {
        match parse_number(value, u32::MAX as nat) {
            Some(n) => Some(Settings { rate_limit_per_min: n as u32, ..c }),
            None => None,
        }
    } else if key == "tls_cert_path"@ {
        Some(Settings { tls_cert_path: non_empty(value, c.tls_cert_path), ..c })
    } else if key == "tls_key_path"@ {
        Some(Settings { tls_key_path: non_empty(value, c.tls_key_path), ..c })
    } else {
        None
    }
}

/// Whether a line is blank or a comment.
pub open spec fn is_ignored(raw: Seq<char>) -> bool {
    trim(raw).len() == 0 || trim(raw)[0] == '#'
}

/// The key that a line sets.
pub open spec fn key_of(raw: Seq<char>) -> Seq<char> {
    let line = trim(raw);
    trim(line.take(find(line, '=')))
}

/// The value that a line gives its key, without white space and quotes around it.
pub open spec fn value_of(raw: Seq<char>) -> Seq<char> {
    let line = trim(raw);
    strip_end(strip_start(trim(line.skip(find(line, '=') + 1)), '"'), '"')
}

/// The settings after a line that is read; nothing where the line is not understood.
pub open spec fn read_line(c: Settings, raw: Seq<char>) -> Option<Settings> {
    if is_ignored(raw) {
        Some(c)
    } else if find(trim(raw), '=') >= trim(raw).len() {
        None
    } else {
        with_setting(c, key_of(raw), value_of(raw))
    }
}

/// The settings after some lines, each applied to what those before it gave.
pub open spec fn settings_of(ls: Seq<Seq<char>>) -> Settings
    decreases ls.len(),
{
    if ls.len() == 0 {
        default_settings()
    } else {
        let c = settings_of(ls.drop_last());
        match read_line(c, ls.last()) {
            Some(d) => d,
            None => c,
        }
    }
}

/// The lines that are not understood, each with its number counted from one.
pub open spec fn warnings_of(ls: Seq<Seq<char>>) -> Seq<(nat, Seq<char>)>
    decreases ls.len(),
{
    if ls.len() == 0 {
        Seq::empty()
    } else {
        let w = warnings_of(ls.drop_last());
        if read_line(settings_of(ls.drop_last()), ls.last()) is None {
            w.push((ls.len(), ls.last()))
        } else {
            w
        }
    }
}

/// Numbered lines as plain values.
pub open spec fn numbered(v: Seq<(usize, String)>) -> Seq<(nat, Seq<char>)> {
    Seq::new(v.len(), |i: int| (v[i].0 as nat, v[i].1@))
}

fn push_listed_dirs(dirs: &mut Vec<String>, value: &[char])
    ensures
        texts(final(dirs)@) == texts(old(dirs)@) + listed_dirs(value@),
{
    let parts = split_chars(value, ',');
    let ghost start = texts(dirs@);
    let ghost all = split(value@, ',').map_values(|p: Seq<char>| trim(p));
    let ghost keep = |p: Seq<char>| p.len() > 0;
    let mut i: usize = 0;
    assert(start + all.take(0).filter(keep) =~= start) by {
        reveal(Seq::filter);
    }
    while i < parts.len()
        invariant
            0 <= i <= parts.len(),
            keep == (|p: Seq<char>| p.len() > 0),
            all == pieces(parts@).map_values(|p: Seq<char>| trim(p)),
            texts(dirs@) == start + all.take(i as int).filter(keep),
        decreases parts.len() - i,
    {
        let part = trim_chars(parts[i]);
        let ghost before = texts(dirs@);
        proof {
            reveal(Seq::filter);
            assert(all.take(i + 1).drop_last() =~= all.take(i as int));
            assert(all.take(i + 1).last() == part@);
        }
        if part.len() > 0 {
            dirs.push(text_of(part));
            assert(texts(dirs@) =~= before.push(part@));
            assert(before.push(part@) =~= start + all.take(i as int).filter(keep).push(part@));
        }
        i += 1;
    }
    assert(all.take(i as int) =~= all);
}

fn apply_setting(c: &mut ParsedConfig, key: &str, value: &[char]) -> (understood: bool)
    ensures
        match with_setting(old(c)@, key@, value@) {
            Some(d) => understood && final(c)@ == d,
            None => !understood && final(c)@ == old(c)@,
        },
{
    let ghost before = c@;
    if same_text(key, "music_dir") {
        if value.len() > 0 {
            c.music_dirs.push(text_of(value));
            assert(texts(c.music_dirs@) =~= before.music_dirs.push(value@));
        }
        true
    } else if same_text(key, "music_dirs") {
        push_listed_dirs(&mut c.music_dirs, value);
        true
    } else if same_text(key, "bind_addr") {
        c.bind_addr = text_of(value);
        true
    } else if same_text(key, "api_token") {
        if value.len() > 0 {
            c.api_token = Some(text_of(value));
        }
        true
    } else if same_text(key, "rate_limit_per_min") {
        match parse_chars(value, u32::MAX as u64) {
            Some(n) => {
                c.rate_limit_per_min = n as u32;
                true
            },
            None => false,
        }
    } else if same_text(key, "tls_cert_path") {
        if value.len() > 0 {
            c.tls_cert_path = Some(text_of(value));
        }
        true
    } else if same_text(key, "tls_key_path") {
        if value.len() > 0 {
            c.tls_key_path = Some(text_of(value));
        }
        true
    } else {
        false
    }
}

fn apply_line(c: &mut ParsedConfig, raw: &[char]) -> (understood: bool)
    ensures
        match read_line(old(c)@, raw@) {
            Some(d) => understood && final(c)@ == d,
            None => !understood && final(c)@ == old(c)@,
        },
{
    let line = trim_chars(raw);
    if line.len() == 0 || line[0] == '#' {
        return true;
    }
    let eq = find_char(line, '=');
    if eq >= line.len() {
        return false;
    }
    let left = slice_subrange(line, 0, eq);
    let right = slice_subrange(line, eq + 1, line.len());
    assert(left@ =~= line@.take(eq as int));
    assert(right@ =~= line@.skip(eq + 1));
    let key = text_of(trim_chars(left));
    let value = strip_chars(trim_chars(right), '"');
    apply_setting(c, key.as_str(), value)
}

/// The settings that a file gives, and its lines that are not understood, with their numbers.
pub fn parse_config_contents(contents: &str) -> (r: (ParsedConfig, Vec<(usize, String)>))
    ensures
        r.0@ == settings_of(lines(contents@)),
        numbered(r.1@) == warnings_of(lines(contents@)),
{
    let chars = chars_of(contents);
    let raw_lines = lines_of(chars.as_slice());
    let ghost all = lines(contents@);
    let mut parsed = ParsedConfig::default();
    let mut warnings: Vec<(usize, String)> = Vec::new();
    assert(numbered(warnings@) =~= warnings_of(all.take(0)));
    let mut i: usize = 0;
    while i < raw_lines.len()
        invariant
            0 <= i <= raw_lines.len(),
            all == pieces(raw_lines@),
            parsed@ == settings_of(all.take(i as int)),
            numbered(warnings@) == warnings_of(all.take(i as int)),
        decreases raw_lines.len() - i,
    {
        let raw = raw_lines[i];
        let ghost before = numbered(warnings@);
        proof {
            assert(all.take(i + 1).drop_last() =~= all.take(i as int));
            assert(all.take(i + 1).last() == raw@);
        }
        if !apply_line(&mut parsed, raw) {
            warnings.push((i + 1, text_of(raw)));
            assert(numbered(warnings@) =~= before.push(((i + 1) as nat, raw@)));
        }
        i += 1;
    }
    assert(all.take(i as int) =~= all);
    (parsed, warnings)
}

/// Lines with the line end after each of them.
pub open spec fn terminated(ls: Seq<Seq<char>>) -> Seq<char>
    decreases ls.len(),
{
    if ls.len() == 0 {
        Seq::empty()
    } else {
        terminated(ls.drop_last()) + ls.last() + seq!['\n']
    }
}

/// What the first configuration file says before the music folder.
pub open spec fn lines_on_folders() -> Seq<Seq<char>> {
    seq![
        "# sonum config file."@,
        "# Restart the server after changing anything here for it to take effect."@,
        ""@,
        "# Music dir (scanned recursively, subfolders included)."@,
        "# Change to whatever path you want, e.g. /home/yourname/Music"@,
        "# or ~/Music - just restart the server after."@,
        "#"@,
        "# You can point Sonum at more than one folder: either repeat this line"@,
        "#   music_dir = /home/yourname/Music"@,
        "#   music_dir = /mnt/nas/MoreMusic"@,
        "# or use a single comma-separated line:"@,
        "#   music_dirs = /home/yourname/Music, /mnt/nas/MoreMusic"@,
    ]
}

/// What it says between the music folder and the rate limit.
pub open spec fn lines_on_address() -> Seq<Seq<char>> {
    seq![
        ""@,
        "# Address and port the server listens on."@,
        "bind_addr = 127.0.0.1:8420"@,
        ""@,
        "# Optional Bearer token required in the \"Authorization: Bearer <token>\" header."@,
        "# Uncomment and set your own secret to turn on request auth."@,
        "# api_token = your-secret-token"@,
        ""@,
        "# Max requests allowed per client IP per minute, across all endpoints."@,
        "# Set to 0 to disable rate limiting entirely."@,
    ]
}

/// What it says after the rate limit.
pub open spec fn lines_on_https() -> Seq<Seq<char>> {
    seq![
        ""@,
        "# Optional built-in HTTPS. Set BOTH to PEM file paths to serve HTTPS"@,
        "# directly instead of (or in addition to, via a reverse proxy) plain HTTP."@,
        "# tls_cert_path = /path/to/fullchain.pem"@,
        "# tls_key_path = /path/to/privkey.pem"@,
    ]
}

/// The lines of the first configuration file, with the default music folder.
pub open spec fn default_conf_lines(default_music_dir: Seq<char>) -> Seq<Seq<char>> {
    lines_on_folders().push("music_dir = "@ + default_music_dir) + lines_on_address().push(
        "rate_limit_per_min = "@ + decimal(DEFAULT_RATE_LIMIT_PER_MIN as nat),
    ) + lines_on_https()
}

/// The texts that a list of string slices stands for.
spec fn str_texts(v: Seq<&str>) -> Seq<Seq<char>> {
    Seq::new(v.len(), |i: int| v[i]@)
}

proof fn lemma_terminated_add(a: Seq<Seq<char>>, b: Seq<Seq<char>>)
    ensures
        terminated(a + b) == terminated(a) + terminated(b),
    decreases b.len(),
{
    if b.len() == 0 {
        assert(a + b =~= a);
        assert(terminated(a) + terminated(b) =~= terminated(a));
    } else {
        lemma_terminated_add(a, b.drop_last());
        assert((a + b).drop_last() =~= a + b.drop_last());
        assert(terminated(a + b) =~= terminated(a) + terminated(b));
    }
}

fn push_lines(out: &mut String, ls: &[&str])
    ensures
        final(out)@ == old(out)@ + terminated(str_texts(ls@)),
{
    let ghost start = out@;
    let ghost all = str_texts(ls@);
    let mut i: usize = 0;
    assert(start + terminated(all.take(0)) =~= start);
    while i < ls.len()
        invariant
            0 <= i <= ls.len(),
            all == str_texts(ls@),
            out@ == start + terminated(all.take(i as int)),
        decreases ls.len() - i,
    {
        out.append(ls[i]);
        out.push('\n');
        proof {
            assert(all.take(i + 1).drop_last() =~= all.take(i as int));
            assert(out@ =~= start + terminated(all.take(i + 1)));
        }
        i += 1;
    }
    assert(all.take(i as int) =~= all);
}

/// What is written to the configuration file on first run.
pub fn default_conf_contents(default_music_dir: &str) -> (r: String)
    ensures
        r@ == terminated(default_conf_lines(default_music_dir@)),
{
    let on_folders: [&str; 12] = [
        "# sonum config file.",
        "# Restart the server after changing anything here for it to take effect.",
        "",
        "# Music dir (scanned recursively, subfolders included).",
        "# Change to whatever path you want, e.g. /home/yourname/Music",
        "# or ~/Music - just restart the server after.",
        "#",
        "# You can point Sonum at more than one folder: either repeat this line",
        "#   music_dir = /home/yourname/Music",
        "#   music_dir = /mnt/nas/MoreMusic",
        "# or use a single comma-separated line:",
        "#   music_dirs = /home/yourname/Music, /mnt/nas/MoreMusic",
    ];
    let on_address: [&str; 10] = [
        "",
        "# Address and port the server listens on.",
        "bind_addr = 127.0.0.1:8420",
        "",
        "# Optional Bearer token required in the \"Authorization: Bearer <token>\" header.",
        "# Uncomment and set your own secret to turn on request auth.",
        "# api_token = your-secret-token",
        "",
        "# Max requests allowed per client IP per minute, across all endpoints.",
        "# Set to 0 to disable rate limiting entirely.",
    ];
    let on_https: [&str; 5] = [
        "",
        "# Optional built-in HTTPS. Set BOTH to PEM file paths to serve HTTPS",
        "# directly instead of (or in addition to, via a reverse proxy) plain HTTP.",
        "# tls_cert_path = /path/to/fullchain.pem",
        "# tls_key_path = /path/to/privkey.pem",
    ];
    let mut music_dir = "music_dir = ".to_owned();
    music_dir.append(default_music_dir);
    let mut rate_limit = "rate_limit_per_min = ".to_owned();
    rate_limit.append(decimal_text(DEFAULT_RATE_LIMIT_PER_MIN as u64).as_str());
    let ghost dir_line = music_dir@;
    let ghost rate_line = rate_limit@;
    let set_dir: [&str; 1] = [music_dir.as_str()];
    let set_rate: [&str; 1] = [rate_limit.as_str()];
    let mut r = String::new();
    push_lines(&mut r, on_folders.as_slice());
    push_lines(&mut r, set_dir.as_slice());
    push_lines(&mut r, on_address.as_slice());
    push_lines(&mut r, set_rate.as_slice());
    push_lines(&mut r, on_https.as_slice());
    proof {
        assert(str_texts(on_folders@) =~= lines_on_folders());
        assert(str_texts(on_address@) =~= lines_on_address());
        assert(str_texts(on_https@) =~= lines_on_https());
        let dir = lines_on_folders().push(dir_line);
        let rate = lines_on_address().push(rate_line);
        assert(dir =~= lines_on_folders() + str_texts(set_dir@));
        assert(rate =~= lines_on_address() + str_texts(set_rate@));
        lemma_terminated_add(lines_on_folders(), str_texts(set_dir@));
        lemma_terminated_add(lines_on_address(), str_texts(set_rate@));
        lemma_terminated_add(dir, rate);
        lemma_terminated_add(dir + rate, lines_on_https());
        assert(r@ =~= terminated(default_conf_lines(default_music_dir@)));
    }
    r
}

/// A path with a leading `~/` replaced by the home directory, where one is known.
pub open spec fn expanded(path: Seq<char>, home: Option<Seq<char>>) -> Seq<char> {
    match home {
        Some(h) => if starts_with(path, seq!['~', '/']) {
            joined(h, path.skip(2))
        } else {
            path
        },
        None => path,
    }
}

/// A home directory as a plain text.
pub open spec fn home_text(home: Option<&str>) -> Option<Seq<char>> {
    match home {
        Some(h) => Some(h@),
        None => None,
    }
}

/// A path with a leading `~/` replaced by the home directory, where one is known.
pub fn expand_tilde(path: &str, home: Option<&str>) -> (r: String)
    ensures
        r@ == expanded(path@, home_text(home)),
{
    if let Some(h) = home {
        let chars = chars_of(path);
        if chars.len() >= 2 && chars[0] == '~' && chars[1] == '/' {
            assert(path@.take(2) =~= seq!['~', '/']);
            let rest = slice_subrange(chars.as_slice(), 2, chars.len());
            assert(rest@ =~= path@.skip(2));
            return join_path(h, text_of(rest).as_str());
        }
        assert(starts_with(path@, seq!['~', '/']) ==> path@[0] == path@.take(2)[0] && path@[1]
            == path@.take(2)[1]);
    }
    path.to_owned()
}

/// The paths without each one that is the same path as the one before it.
pub open spec fn without_repeats(s: Seq<Seq<char>>) -> Seq<Seq<char>>
    decreases s.len(),
{
    if s.len() <= 1 {
        s
    } else {
        let kept = without_repeats(s.drop_last());
        if components(kept.last()) == components(s.last()) {
            kept
        } else {
            kept.push(s.last())
        }
    }
}

/// The music folders that some settings mean: those that are listed, with `~/` expanded, or the
/// default one where none is, each path once in a row.
pub open spec fn music_dirs_of(
    listed: Seq<Seq<char>>,
    default_dir: Seq<char>,
    home: Option<Seq<char>>,
) -> Seq<Seq<char>> {
    if listed.len() == 0 {
        seq![default_dir]
    } else {
        without_repeats(listed.map_values(|p: Seq<char>| expanded(p, home)))
    }
}

/// The music folders that some settings mean.
pub fn resolve_music_dirs(listed: &[String], default_dir: &str, home: Option<&str>) -> (r: Vec<
    String,
>)
    ensures
        texts(r@) == music_dirs_of(texts(listed@), default_dir@, home_text(home)),
{
    let mut r: Vec<String> = Vec::new();
    if listed.len() == 0 {
        r.push(default_dir.to_owned());
        assert(texts(r@) =~= seq![default_dir@]);
        return r;
    }
    let ghost all = texts(listed@).map_values(|p: Seq<char>| expanded(p, home_text(home)));
    let mut i: usize = 0;
    assert(texts(r@) =~= without_repeats(all.take(0)));
    while i < listed.len()
        invariant
            0 <= i <= listed.len(),
            all == texts(listed@).map_values(|p: Seq<char>| expanded(p, home_text(home))),
            texts(r@) == without_repeats(all.take(i as int)),
            i > 0 ==> r.len() > 0,
        decreases listed.len() - i,
    {
        let dir = expand_tilde(listed[i].as_str(), home);
        let ghost before = texts(r@);
        let ghost next = all.take(i + 1);
        proof {
            assert(next.drop_last() =~= all.take(i as int));
            assert(next.last() == dir@);
            if i > 0 {
                assert(before.last() == r@.last()@);
            }
        }
        if r.len() == 0 || !same_path(r[r.len() - 1].as_str(), dir.as_str()) {
            r.push(dir);
            assert(texts(r@) =~= before.push(dir@));
            assert(i == 0 ==> next =~= seq![dir@] && texts(r@) =~= seq![dir@]);
        }
        i += 1;
    }
    assert(all.take(i as int) =~= all);
    r
}

/// What is wrong with a configuration.
#[derive(Debug, Clone, Copy, PartialEq, Eq, Structural)]
pub enum ConfigError {
    /// Only one of the certificate and the key is set.
    TlsHalfSet,
}

/// The certificate and key paths for HTTPS, where both are set.
pub fn resolve_tls(cert: Option<&str>, key: Option<&str>, home: Option<&str>) -> (r: Result<
    Option<(String, String)>,
    ConfigError,
>)
    ensures
        match (cert, key) {
            (Some(c), Some(k)) => r matches Ok(Some(p)) && p.0@ == expanded(c@, home_text(home))
                && p.1@ == expanded(k@, home_text(home)),
            (None, None) => r matches Ok(p) && p is None,
            _ => r matches Err(e) && e == ConfigError::TlsHalfSet,
        },
{
    match (cert, key) {
        (Some(c), Some(k)) => Ok(Some((expand_tilde(c, home), expand_tilde(k, home)))),
        (None, None) => Ok(None),
        _ => Err(ConfigError::TlsHalfSet),
    }
}

/// Whether a line is understood does not depend on what was read before it.
proof fn lemma_understood_alike(c: Settings, d: Settings, raw: Seq<char>)
    ensures
        read_line(c, raw) is None <==> read_line(d, raw) is None,
{
}

/// A line that is blank, a comment or not understood changes no setting, wherever it stands.
pub proof fn law_unread_line_changes_nothing(
    before: Seq<Seq<char>>,
    line: Seq<char>,
    after: Seq<Seq<char>>,
)
    requires
        is_ignored(line) || read_line(default_settings(), line) is None,
    ensures
        settings_of(before.push(line) + after) == settings_of(before + after),
    decreases after.len(),
{
    if after.len() == 0 {
        assert(before.push(line) + after =~= before.push(line));
        assert(before + after =~= before);
        assert(before.push(line).drop_last() =~= before);
        lemma_understood_alike(default_settings(), settings_of(before), line);
    } else {
        law_unread_line_changes_nothing(before, line, after.drop_last());
        assert((before.push(line) + after).drop_last() =~= before.push(line) + after.drop_last());
        assert((before + after).drop_last() =~= before + after.drop_last());
    }
}

/// A line is reported exactly when it is neither blank, nor a comment, nor understood.
pub proof fn law_warnings_are_the_lines_not_understood(ls: Seq<Seq<char>>, n: nat, raw: Seq<char>)
    ensures
        warnings_of(ls).contains((n, raw)) <==> 1 <= n <= ls.len() && ls[n - 1] == raw
            && read_line(default_settings(), raw) is None,
    decreases ls.len(),
{
    if ls.len() > 0 {
        let front = ls.drop_last();
        law_warnings_are_the_lines_not_understood(front, n, raw);
        lemma_understood_alike(default_settings(), settings_of(front), ls.last());
        let w = warnings_of(front);
        let entry = (ls.len(), ls.last());
        assert(w.push(entry).contains((n, raw)) <==> w.contains((n, raw)) || (n, raw) == entry) by {
            let p = w.push(entry);
            if p.contains((n, raw)) {
                let k = choose|k: int| 0 <= k < p.len() && p[k] == (n, raw);
                assert(k < w.len() ==> w[k] == (n, raw));
            }
            if w.contains((n, raw)) {
                let k = choose|k: int| 0 <= k < w.len() && w[k] == (n, raw);
                assert(p[k] == (n, raw));
            }
            assert(p[w.len() as int] == entry);
        }
    }
}

/// Whether a folder can be written in a comma-separated list.
pub open spec fn is_listable(dir: Seq<char>) -> bool {
    dir.len() > 0 && trim(dir) == dir && !dir.contains(',')
}

proof fn lemma_listed_join(dirs: Seq<Seq<char>>)
    requires
        forall|i: int| 0 <= i < dirs.len() ==> is_listable(#[trigger] dirs[i]),
    ensures
        listed_dirs(join(dirs, ", "@)) == dirs,
    decreases dirs.len(),
{
    reveal_strlit(", ");
    reveal(Seq::filter);
    let tidy = |p: Seq<char>| trim(p);
    let keep = |p: Seq<char>| p.len() > 0;
    let value = join(dirs, ", "@);
    if dirs.len() == 0 {
        assert(split(value, ',') =~= seq![value]);
        let all = split(value, ',').map_values(tidy);
        assert(all.len() == 1 && all[0] == trim(value));
        assert(trim(value).len() == 0);
        assert(all.drop_last().filter(keep) =~= Seq::empty());
        assert(listed_dirs(value) =~= dirs);
    } else if dirs.len() == 1 {
        lemma_find_props(value, ',');
        assert(split(value, ',') =~= seq![value]);
        let all = split(value, ',').map_values(tidy);
        assert(all.len() == 1 && all[0] == value);
        assert(all.drop_last().filter(keep) =~= Seq::empty());
        assert(listed_dirs(value) =~= dirs);
    } else {
        let front = dirs.drop_last();
        let d = dirs.last();
        let t = seq![' '] + d;
        lemma_listed_join(front);
        assert(value =~= join(front, ", "@) + seq![','] + t);
        assert(!t.contains(',')) by {
            if t.contains(',') {
                let k = choose|k: int| 0 <= k < t.len() && t[k] == ',';
                assert(d[k - 1] == ',');
            }
        }
        lemma_split_push(join(front, ", "@), t, ',');
        let before = split(join(front, ", "@), ',').map_values(tidy);
        let all = split(value, ',').map_values(tidy);
        assert(t.skip(1) =~= d);
        assert(trim(t) == trim(d));
        assert(all =~= before.push(d));
        assert(all.drop_last() =~= before);
        assert(listed_dirs(value) =~= front.push(d));
        assert(front.push(d) =~= dirs);
    }
}

/// Whether a text is kept as it is when white space and quotes around it are taken off.
pub open spec fn is_bare(s: Seq<char>) -> bool {
    s.len() > 0 && !is_space(s[0]) && !is_space(s.last()) && s[0] != '"' && s.last() != '"'
}

proof fn lemma_setting_line(c: Settings, key: Seq<char>, value: Seq<char>)
    requires
        key.len() > 0,
        !is_space(key[0]),
        !is_space(key.last()),
        key[0] != '#',
        !key.contains('='),
        is_bare(value),
    ensures
        read_line(c, key + " = "@ + value) == with_setting(c, key, value),
{
    reveal_strlit(" = ");
    let line = key + " = "@ + value;
    assert(trim(line) == line);
    let n = (key.len() + 1) as int;
    assert forall|k: int| 0 <= k < n implies line[k] != '=' by {
        if k < key.len() {
            assert(line[k] == key[k]);
            assert(key.contains(key[k]));
        }
    }
    lemma_find(line, '=', n);
    let left = line.take(n);
    assert(left =~= key.push(' '));
    assert(left.drop_last() =~= key);
    assert(trim_start(left) == left);
    assert(trim_end(left) == trim_end(key));
    let right = line.skip(n + 1);
    assert(right =~= seq![' '] + value);
    assert(right.skip(1) =~= value);
    assert(trim_start(right) == trim_start(value));
    assert(key_of(line) == key);
    assert(value_of(line) == value);
}

/// One `music_dir` line for each of some folders.
pub open spec fn folder_lines(dirs: Seq<Seq<char>>) -> Seq<Seq<char>> {
    dirs.map_values(|d: Seq<char>| "music_dir = "@ + d)
}

proof fn lemma_folder_lines(before: Seq<Seq<char>>, dirs: Seq<Seq<char>>)
    requires
        forall|i: int| 0 <= i < dirs.len() ==> is_bare(#[trigger] dirs[i]),
    ensures
        settings_of(before + folder_lines(dirs)) == (Settings {
            music_dirs: settings_of(before).music_dirs + dirs,
            ..settings_of(before)
        }),
    decreases dirs.len(),
{
    let all = before + folder_lines(dirs);
    if dirs.len() == 0 {
        assert(all =~= before);
    } else {
        let front = dirs.drop_last();
        lemma_folder_lines(before, front);
        assert(all.drop_last() =~= before + folder_lines(front));
        reveal_strlit("music_dir = ");
        reveal_strlit("music_dir");
        reveal_strlit(" = ");
        assert("music_dir = "@ =~= "music_dir"@ + " = "@);
        assert(!"music_dir"@.contains('='));
        lemma_setting_line(settings_of(all.drop_last()), "music_dir"@, dirs.last());
        assert(all.last() == "music_dir"@ + " = "@ + dirs.last());
    }
}

proof fn lemma_join_is_bare(dirs: Seq<Seq<char>>)
    requires
        dirs.len() > 0,
        forall|i: int| 0 <= i < dirs.len() ==> is_bare(#[trigger] dirs[i]),
    ensures
        is_bare(join(dirs, ", "@)),
    decreases dirs.len(),
{
    if dirs.len() > 1 {
        lemma_join_is_bare(dirs.drop_last());
    }
}

/// One comma-separated `music_dirs` line gives the same settings as a `music_dir` line for each
/// of its folders, whatever was read before.
pub proof fn law_folder_lines_agree(before: Seq<Seq<char>>, dirs: Seq<Seq<char>>)
    requires
        dirs.len() > 0,
        forall|i: int|
            0 <= i < dirs.len() ==> is_listable(#[trigger] dirs[i]) && is_bare(dirs[i]),
    ensures
        settings_of(before.push("music_dirs = "@ + join(dirs, ", "@))) == settings_of(
            before + folder_lines(dirs),
        ),
{
    let value = join(dirs, ", "@);
    let line = "music_dirs = "@ + value;
    lemma_listed_join(dirs);
    lemma_join_is_bare(dirs);
    lemma_folder_lines(before, dirs);
    reveal_strlit("music_dirs = ");
    reveal_strlit("music_dirs");
    reveal_strlit("music_dir");
    reveal_strlit(" = ");
    assert("music_dirs = "@ =~= "music_dirs"@ + " = "@);
    assert("music_dirs"@.len() != "music_dir"@.len());
    assert(!"music_dirs"@.contains('='));
    lemma_setting_line(settings_of(before), "music_dirs"@, value);
    assert(line == "music_dirs"@ + " = "@ + value);
    assert(before.push(line).drop_last() =~= before);
}

/// Whether a text is read back as one line when a line end is put after it.
pub open spec fn is_one_line(s: Seq<char>) -> bool {
    &&& forall|i: int| 0 <= i < s.len() ==> #[trigger] s[i] != '\n'
    &&& s.len() > 0 ==> s.last() != '\r'
}

proof fn lemma_lines_after(l: Seq<char>, rest: Seq<char>)
    requires
        is_one_line(l),
    ensures
        lines(l + seq!['\n'] + rest) == seq![l] + lines(rest),
{
    let s = l + seq!['\n'] + rest;
    assert forall|k: int| 0 <= k < l.len() implies s[k] != '\n' by {
        assert(s[k] == l[k]);
    }
    lemma_find(s, '\n', l.len() as int);
    assert(s.take(l.len() as int) =~= l);
    assert(s.skip(l.len() as int + 1) =~= rest);
}

proof fn lemma_terminated_lines(ls: Seq<Seq<char>>)
    requires
        forall|i: int| 0 <= i < ls.len() ==> is_one_line(#[trigger] ls[i]),
    ensures
        lines(terminated(ls)) == ls,
    decreases ls.len(),
{
    if ls.len() > 0 {
        let first = seq![ls[0]];
        let rest = ls.skip(1);
        assert(first + rest =~= ls);
        lemma_terminated_add(first, rest);
        assert(first.drop_last() =~= Seq::empty());
        assert(terminated(first.drop_last()).len() == 0);
        assert(terminated(first) =~= ls[0] + seq!['\n']);
        lemma_lines_after(ls[0], terminated(rest));
        lemma_terminated_lines(rest);
    } else {
        assert(terminated(ls) =~= Seq::empty());
        assert(lines(terminated(ls)) =~= ls);
    }
}

proof fn lemma_trim_end_keeps_first(s: Seq<char>)
    requires
        s.len() > 0,
        !is_space(s[0]),
    ensures
        trim_end(s).len() > 0,
        trim_end(s)[0] == s[0],
    decreases s.len(),
{
    if is_space(s.last()) {
        lemma_trim_end_keeps_first(s.drop_last());
    }
}

proof fn lemma_comment(s: Seq<char>)
    requires
        s.len() > 0,
        s[0] == '#',
    ensures
        is_ignored(s),
{
    lemma_trim_end_keeps_first(s);
}

proof fn lemma_lines_on_folders()
    ensures
        forall|i: int|
            0 <= i < lines_on_folders().len() ==> is_one_line(#[trigger] lines_on_folders()[i])
                && is_ignored(lines_on_folders()[i]),
{
    reveal_strlit("# sonum config file.");
    reveal_strlit("# Restart the server after changing anything here for it to take effect.");
    reveal_strlit("");
    reveal_strlit("# Music dir (scanned recursively, subfolders included).");
    reveal_strlit("# Change to whatever path you want, e.g. /home/yourname/Music");
    reveal_strlit("# or ~/Music - just restart the server after.");
    reveal_strlit("#");
    reveal_strlit("# You can point Sonum at more than one folder: either repeat this line");
    reveal_strlit("#   music_dir = /home/yourname/Music");
    reveal_strlit("#   music_dir = /mnt/nas/MoreMusic");
    reveal_strlit("# or use a single comma-separated line:");
    reveal_strlit("#   music_dirs = /home/yourname/Music, /mnt/nas/MoreMusic");
    assert(is_one_line(lines_on_folders()[0]));
    lemma_comment(lines_on_folders()[0]);
    assert(is_one_line(lines_on_folders()[1]));
    lemma_comment(lines_on_folders()[1]);
    assert(is_one_line(lines_on_folders()[2]));
    assert(is_ignored(lines_on_folders()[2]));
    assert(is_one_line(lines_on_folders()[3]));
    lemma_comment(lines_on_folders()[3]);
    assert(is_one_line(lines_on_folders()[4]));
    lemma_comment(lines_on_folders()[4]);
    assert(is_one_line(lines_on_folders()[5]));
    lemma_comment(lines_on_folders()[5]);
    assert(is_one_line(lines_on_folders()[6]));
    lemma_comment(lines_on_folders()[6]);
    assert(is_one_line(lines_on_folders()[7]));
    lemma_comment(lines_on_folders()[7]);
    assert(is_one_line(lines_on_folders()[8]));
    lemma_comment(lines_on_folders()[8]);
    assert(is_one_line(lines_on_folders()[9]));
    lemma_comment(lines_on_folders()[9]);
    assert(is_one_line(lines_on_folders()[10]));
    lemma_comment(lines_on_folders()[10]);
    assert(is_one_line(lines_on_folders()[11]));
    lemma_comment(lines_on_folders()[11]);
}

proof fn lemma_lines_on_address()
    ensures
        forall|i: int|
            0 <= i < lines_on_address().len() ==> is_one_line(#[trigger] lines_on_address()[i])
                && (i != 2 ==> is_ignored(lines_on_address()[i])),
        lines_on_address().len() > 2,
        lines_on_address()[2] == "bind_addr"@ + " = "@ + "127.0.0.1:8420"@,
{
    reveal_strlit("");
    reveal_strlit("# Address and port the server listens on.");
    reveal_strlit("bind_addr = 127.0.0.1:8420");
    reveal_strlit("# Optional Bearer token required in the \"Authorization: Bearer <token>\" header.");
    reveal_strlit("# Uncomment and set your own secret to turn on request auth.");
    reveal_strlit("# api_token = your-secret-token");
    reveal_strlit("# Max requests allowed per client IP per minute, across all endpoints.");
    reveal_strlit("# Set to 0 to disable rate limiting entirely.");
    reveal_strlit("bind_addr");
    reveal_strlit(" = ");
    reveal_strlit("127.0.0.1:8420");
    assert(is_one_line(lines_on_address()[0]));
    assert(is_ignored(lines_on_address()[0]));
    assert(is_one_line(lines_on_address()[1]));
    lemma_comment(lines_on_address()[1]);
    assert(lines_on_address()[2] =~= "bind_addr"@ + " = "@ + "127.0.0.1:8420"@);
    assert(is_one_line(lines_on_address()[2]));
    assert(is_one_line(lines_on_address()[3]));
    assert(is_ignored(lines_on_address()[3]));
    assert(is_one_line(lines_on_address()[4]));
    lemma_comment(lines_on_address()[4]);
    assert(is_one_line(lines_on_address()[5]));
    lemma_comment(lines_on_address()[5]);
    assert(is_one_line(lines_on_address()[6]));
    lemma_comment(lines_on_address()[6]);
    assert(is_one_line(lines_on_address()[7]));
    assert(is_ignored(lines_on_address()[7]));
    assert(is_one_line(lines_on_address()[8]));
    lemma_comment(lines_on_address()[8]);
    assert(is_one_line(lines_on_address()[9]));
    lemma_comment(lines_on_address()[9]);
}

proof fn lemma_lines_on_https()
    ensures
        forall|i: int|
            0 <= i < lines_on_https().len() ==> is_one_line(#[trigger] lines_on_https()[i])
                && is_ignored(lines_on_https()[i]),
{
    reveal_strlit("");
    reveal_strlit("# Optional built-in HTTPS. Set BOTH to PEM file paths to serve HTTPS");
    reveal_strlit("# directly instead of (or in addition to, via a reverse proxy) plain HTTP.");
    reveal_strlit("# tls_cert_path = /path/to/fullchain.pem");
    reveal_strlit("# tls_key_path = /path/to/privkey.pem");
    assert(is_one_line(lines_on_https()[0]));
    assert(is_ignored(lines_on_https()[0]));
    assert(is_one_line(lines_on_https()[1]));
    lemma_comment(lines_on_https()[1]);
    assert(is_one_line(lines_on_https()[2]));
    lemma_comment(lines_on_https()[2]);
    assert(is_one_line(lines_on_https()[3]));
    lemma_comment(lines_on_https()[3]);
    assert(is_one_line(lines_on_https()[4]));
    lemma_comment(lines_on_https()[4]);
}

proof fn lemma_ignored_lines(before: Seq<Seq<char>>, ls: Seq<Seq<char>>)
    requires
        forall|i: int| 0 <= i < ls.len() ==> is_ignored(#[trigger] ls[i]),
    ensures
        settings_of(before + ls) == settings_of(before),
        warnings_of(before + ls) == warnings_of(before),
    decreases ls.len(),
{
    if ls.len() == 0 {
        assert(before + ls =~= before);
    } else {
        lemma_ignored_lines(before, ls.drop_last());
        assert((before + ls).drop_last() =~= before + ls.drop_last());
        assert(is_ignored(ls[ls.len() - 1]));
    }
}

proof fn lemma_read_one(before: Seq<Seq<char>>, line: Seq<char>)
    requires
        read_line(settings_of(before), line) is Some,
    ensures
        settings_of(before.push(line)) == read_line(settings_of(before), line)->0,
        warnings_of(before.push(line)) == warnings_of(before),
{
    assert(before.push(line).drop_last() =~= before);
}

proof fn lemma_rate_text()
    ensures
        decimal(DEFAULT_RATE_LIMIT_PER_MIN as nat) == seq!['3', '0', '0'],
        parse_number(seq!['3', '0', '0'], u32::MAX as nat) == Some(
            DEFAULT_RATE_LIMIT_PER_MIN as nat,
        ),
{
    reveal_with_fuel(crate::text::number_text, 4);
    reveal_with_fuel(crate::text::digits_value, 4);
    let s = seq!['3', '0', '0'];
    assert(decimal(300) =~= s);
    assert(s.drop_last() =~= seq!['3', '0']);
    assert(s.drop_last().drop_last() =~= seq!['3']);
    assert(s.drop_last().drop_last().drop_last() =~= Seq::empty());
    assert(crate::text::digits_value(s) == 300);
}

/// The configuration file of the first run gives the default settings with its music folder, and
/// every line of it is understood.
pub proof fn law_default_conf_reads_back(dir: Seq<char>)
    requires
        is_bare(dir),
        is_one_line(dir),
    ensures
        settings_of(lines(terminated(default_conf_lines(dir)))) == (Settings {
            music_dirs: seq![dir],
            ..default_settings()
        }),
        warnings_of(lines(terminated(default_conf_lines(dir)))) == Seq::<(nat, Seq<char>)>::empty(),
{
    let all = default_conf_lines(dir);
    let folders = lines_on_folders();
    let address = lines_on_address();
    let https = lines_on_https();
    let dir_line = "music_dir = "@ + dir;
    let rate = decimal(DEFAULT_RATE_LIMIT_PER_MIN as nat);
    let rate_line = "rate_limit_per_min = "@ + rate;
    lemma_lines_on_folders();
    lemma_lines_on_address();
    lemma_lines_on_https();
    lemma_rate_text();
    reveal_strlit("music_dir = ");
    reveal_strlit("rate_limit_per_min = ");
    reveal_strlit("music_dir");
    reveal_strlit("music_dirs");
    reveal_strlit("bind_addr");
    reveal_strlit("api_token");
    reveal_strlit("rate_limit_per_min");
    reveal_strlit("127.0.0.1:8420");
    reveal_strlit(" = ");
    assert(dir_line =~= "music_dir"@ + " = "@ + dir);
    assert(rate_line =~= "rate_limit_per_min"@ + " = "@ + rate);
    assert forall|i: int| 0 <= i < all.len() implies is_one_line(#[trigger] all[i]) by {
        if i < folders.len() {
            assert(all[i] == folders[i]);
        } else if i == folders.len() {
            assert(all[i] == dir_line);
            assert(is_one_line(dir_line));
        } else if i < folders.len() + 1 + address.len() {
            assert(all[i] == address[i - folders.len() - 1]);
        } else if i == folders.len() + 1 + address.len() {
            assert(all[i] == rate_line);
            assert(is_one_line(rate_line));
        } else {
            assert(all[i] == https[i - folders.len() - address.len() - 2]);
        }
    }
    lemma_terminated_lines(all);
    let start = Seq::<Seq<char>>::empty();
    let c0 = default_settings();
    // The lines up to the music folder.
    lemma_ignored_lines(start, folders);
    assert(start + folders =~= folders);
    lemma_setting_line(c0, "music_dir"@, dir);
    let s1 = folders.push(dir_line);
    lemma_read_one(folders, dir_line);
    let c1 = settings_of(s1);
    // The lines up to the address.
    let upto = address.take(2);
    let s2 = s1 + upto;
    lemma_ignored_lines(s1, upto);
    lemma_setting_line(c1, "bind_addr"@, "127.0.0.1:8420"@);
    lemma_read_one(s2, address[2]);
    let s3 = s2.push(address[2]);
    let c3 = settings_of(s3);
    assert("bind_addr"@.len() == "music_dir"@.len() && "bind_addr"@[0] != "music_dir"@[0]);
    assert("bind_addr"@.len() != "music_dirs"@.len());
    assert(c3 =~= c1);
    // The lines up to the rate limit.
    let after = address.skip(3);
    let s4 = s3 + after;
    lemma_ignored_lines(s3, after);
    assert("rate_limit_per_min"@.len() != "music_dir"@.len());
    assert("rate_limit_per_min"@.len() != "music_dirs"@.len());
    assert("rate_limit_per_min"@.len() != "bind_addr"@.len());
    assert("rate_limit_per_min"@.len() != "api_token"@.len());
    lemma_setting_line(c3, "rate_limit_per_min"@, rate);
    lemma_read_one(s4, rate_line);
    let s5 = s4.push(rate_line);
    lemma_ignored_lines(s5, https);
    assert(s5 + https =~= all);
    assert(settings_of(all) =~= (Settings { music_dirs: seq![dir], ..default_settings() }));
}

/// Whether a line sets a key.
pub open spec fn sets_key(raw: Seq<char>, key: Seq<char>) -> bool {
    !is_ignored(raw) && find(trim(raw), '=') < trim(raw).len() && key_of(raw) == key
}

/// Whether one of some lines sets the address to listen on.
pub open spec fn set_bind_addr(ls: Seq<Seq<char>>) -> bool {
    exists|i: int| 0 <= i < ls.len() && sets_key(#[trigger] ls[i], "bind_addr"@)
}

/// Whether a line sets the rate limit, to a number.
pub open spec fn sets_rate_limit(raw: Seq<char>) -> bool {
    sets_key(raw, "rate_limit_per_min"@) && parse_number(value_of(raw), u32::MAX as nat) is Some
}

/// Whether one of some lines sets the rate limit, to a number.
pub open spec fn set_rate_limit(ls: Seq<Seq<char>>) -> bool {
    exists|i: int| 0 <= i < ls.len() && sets_rate_limit(#[trigger] ls[i])
}

/// A setting that came later, or else an earlier one.
pub open spec fn later_or(
    later: Option<Seq<char>>,
    earlier: Option<Seq<char>>,
) -> Option<Seq<char>> {
    match later {
        Some(s) => Some(s),
        None => earlier,
    }
}

/// Some settings with those of more lines put to them: folders are added, and what the lines set
/// takes the place of what was set before.
pub open spec fn with_more(c: Settings, ls: Seq<Seq<char>>) -> Settings {
    let d = settings_of(ls);
    Settings {
        music_dirs: c.music_dirs + d.music_dirs,
        bind_addr: if set_bind_addr(ls) {
            d.bind_addr
        } else {
            c.bind_addr
        },
        api_token: later_or(d.api_token, c.api_token),
        rate_limit_per_min: if set_rate_limit(ls) {
            d.rate_limit_per_min
        } else {
            c.rate_limit_per_min
        },
        tls_cert_path: later_or(d.tls_cert_path, c.tls_cert_path),
        tls_key_path: later_or(d.tls_key_path, c.tls_key_path),
    }
}

proof fn lemma_set_by_last(ls: Seq<Seq<char>>)
    requires
        ls.len() > 0,
    ensures
        set_bind_addr(ls) == (set_bind_addr(ls.drop_last()) || sets_key(
            ls.last(),
            "bind_addr"@,
        )),
        set_rate_limit(ls) == (set_rate_limit(ls.drop_last()) || sets_rate_limit(ls.last())),
{
    let front = ls.drop_last();
    assert(ls[ls.len() - 1] == ls.last());
    if set_bind_addr(front) {
        let i = choose|i: int|
            0 <= i < front.len() && sets_key(#[trigger] front[i], "bind_addr"@);
        assert(ls[i] == front[i]);
    }
    if set_bind_addr(ls) && !sets_key(ls.last(), "bind_addr"@) {
        let i = choose|i: int| 0 <= i < ls.len() && sets_key(#[trigger] ls[i], "bind_addr"@);
        assert(ls[i] == front[i]);
    }
    if set_rate_limit(front) {
        let i = choose|i: int| 0 <= i < front.len() && sets_rate_limit(#[trigger] front[i]);
        assert(ls[i] == front[i]);
    }
    if set_rate_limit(ls) && !sets_rate_limit(ls.last()) {
        let i = choose|i: int| 0 <= i < ls.len() && sets_rate_limit(#[trigger] ls[i]);
        assert(ls[i] == front[i]);
    }
}

proof fn lemma_more_lines(before: Seq<Seq<char>>, ls: Seq<Seq<char>>)
    ensures
        settings_of(before + ls) == with_more(settings_of(before), ls),
    decreases ls.len(),
{
    let all = before + ls;
    if ls.len() == 0 {
        assert(all =~= before);
        assert(settings_of(before).music_dirs + settings_of(ls).music_dirs =~= settings_of(
            before,
        ).music_dirs);
    } else {
        let front = ls.drop_last();
        let raw = ls.last();
        lemma_more_lines(before, front);
        lemma_set_by_last(ls);
        assert(all.drop_last() =~= before + front);
        assert(all.last() == raw);
        let c = settings_of(before + front);
        let d = settings_of(front);
        lemma_understood_alike(c, d, raw);
        assert(settings_of(all).music_dirs =~= settings_of(before).music_dirs + settings_of(
            ls,
        ).music_dirs) by {
            if read_line(d, raw) is Some && !is_ignored(raw) {
                let value = value_of(raw);
                let e = settings_of(before).music_dirs;
                assert((e + d.music_dirs).push(value) =~= e + d.music_dirs.push(value));
                assert((e + d.music_dirs) + listed_dirs(value) =~= e + (d.music_dirs
                    + listed_dirs(value)));
            }
        }
        reveal_strlit("music_dir");
        reveal_strlit("music_dirs");
        reveal_strlit("bind_addr");
        reveal_strlit("api_token");
        reveal_strlit("rate_limit_per_min");
        assert("music_dir"@[0] == 'm' && "bind_addr"@[0] == 'b');
        assert("music_dirs"@[0] == 'm' && "api_token"@[0] == 'a');
        assert("rate_limit_per_min"@[0] == 'r');
    }
}

proof fn lemma_trim_drops_space(s: Seq<char>)
    requires
        s.len() > 0,
        is_space(s.last()),
    ensures
        trim(s) == trim(s.drop_last()),
    decreases s.len(),
{
    if s.len() == 1 {
        assert(s.skip(1) =~= s.drop_last());
    } else if is_space(s[0]) {
        assert(s.skip(1).drop_last() =~= s.drop_last().skip(1));
        lemma_trim_drops_space(s.skip(1));
    }
}

proof fn lemma_same_start(a: Seq<Seq<char>>, b: Seq<Seq<char>>, ls: Seq<Seq<char>>)
    requires
        settings_of(a) == settings_of(b),
    ensures
        settings_of(a + ls) == settings_of(b + ls),
{
    lemma_more_lines(a, ls);
    lemma_more_lines(b, ls);
}

proof fn lemma_joined_texts(before: Seq<Seq<char>>, a: Seq<char>, b: Seq<char>)
    ensures
        settings_of(before + lines(a + seq!['\n'] + b)) == settings_of(
            before + lines(a) + lines(b),
        ),
    decreases a.len(),
{
    let whole = a + seq!['\n'] + b;
    lemma_find_props(a, '\n');
    let i = find(a, '\n');
    assert forall|k: int| 0 <= k < i implies whole[k] != '\n' by {
        assert(whole[k] == a[k]);
    }
    assert(whole[i] == '\n');
    lemma_find(whole, '\n', i);
    assert(whole.take(i) =~= a.take(i));
    let first = without_cr(a.take(i));
    if i < a.len() {
        let rest = a.skip(i + 1);
        assert(whole.skip(i + 1) =~= rest + seq!['\n'] + b);
        lemma_joined_texts(before.push(first), rest, b);
        assert(before + (seq![first] + lines(rest + seq!['\n'] + b)) =~= before.push(first)
            + lines(rest + seq!['\n'] + b));
        assert(before + (seq![first] + lines(rest)) + lines(b) =~= before.push(first) + lines(rest)
            + lines(b));
    } else {
        assert(whole.skip(i + 1) =~= b);
        assert(a.take(i) =~= a);
        assert(before + (seq![first] + lines(b)) =~= before.push(first) + lines(b));
        if a.len() == 0 {
            assert(before + lines(a) + lines(b) =~= before + lines(b));
            assert(trim(first).len() == 0);
            law_unread_line_changes_nothing(before, first, lines(b));
        } else {
            if a.last() == '\r' {
                lemma_trim_drops_space(a);
            }
            assert(trim(first) == trim(a));
            assert(before.push(first).drop_last() =~= before);
            assert(before.push(a).drop_last() =~= before);
            assert(settings_of(before.push(first)) == settings_of(before.push(a)));
            lemma_same_start(before.push(first), before.push(a), lines(b));
            assert(before + lines(a) + lines(b) =~= before.push(a) + lines(b));
        }
    }
}

/// Two texts with a line break between them give the settings of both put together: the folders of
/// the one and then of the other, and of each other setting what the second text says, or else the
/// first.
pub proof fn law_joined_texts_combine(a: Seq<char>, b: Seq<char>)
    ensures
        settings_of(lines(a + seq!['\n'] + b)) == with_more(settings_of(lines(a)), lines(b)),
{
    let none = Seq::<Seq<char>>::empty();
    lemma_joined_texts(none, a, b);
    lemma_more_lines(lines(a), lines(b));
    assert(none + lines(a + seq!['\n'] + b) =~= lines(a + seq!['\n'] + b));
    assert(none + lines(a) + lines(b) =~= lines(a) + lines(b));
}

/// Whether a text can be the key of a line.
spec fn is_key(key: Seq<char>) -> bool {
    key.len() > 0 && !is_space(key[0]) && !is_space(key.last()) && key[0] != '#' && !key.contains(
        '=',
    )
}

proof fn lemma_keys_are_keys()
    ensures
        is_key("music_dir"@),
        is_key("bind_addr"@),
        is_key("api_token"@),
        is_key("rate_limit_per_min"@),
        is_key("tls_cert_path"@),
        is_key("tls_key_path"@),
        "music_dir"@ != "bind_addr"@,
        "music_dir"@ != "api_token"@,
        "bind_addr"@ != "api_token"@,
        "music_dirs"@.len() == 10,
        "music_dir"@.len() == 9,
        "bind_addr"@.len() == 9,
        "api_token"@.len() == 9,
        "rate_limit_per_min"@.len() == 18,
        "tls_cert_path"@.len() == 13,
        "tls_key_path"@.len() == 12,
{
    reveal_strlit("music_dir");
    reveal_strlit("music_dirs");
    reveal_strlit("bind_addr");
    reveal_strlit("api_token");
    reveal_strlit("rate_limit_per_min");
    reveal_strlit("tls_cert_path");
    reveal_strlit("tls_key_path");
    assert("music_dir"@[0] == 'm' && "bind_addr"@[0] == 'b' && "api_token"@[0] == 'a');
    assert(!"music_dir"@.contains('='));
    assert(!"bind_addr"@.contains('='));
    assert(!"api_token"@.contains('='));
    assert(!"rate_limit_per_min"@.contains('='));
    assert(!"tls_cert_path"@.contains('='));
    assert(!"tls_key_path"@.contains('='));
}

/// A line with a key and a value sets just what the key stands for, to just that value; a music
/// folder is added to those that were named before.
pub proof fn law_lines_set_what_they_name(before: Seq<Seq<char>>, value: Seq<char>)
    requires
        is_bare(value),
    ensures
        settings_of(before.push("music_dir"@ + " = "@ + value)) == (Settings {
            music_dirs: settings_of(before).music_dirs.push(value),
            ..settings_of(before)
        }),
        settings_of(before.push("bind_addr"@ + " = "@ + value)) == (Settings {
            bind_addr: value,
            ..settings_of(before)
        }),
        settings_of(before.push("api_token"@ + " = "@ + value)) == (Settings {
            api_token: Some(value),
            ..settings_of(before)
        }),
        settings_of(before.push("tls_cert_path"@ + " = "@ + value)) == (Settings {
            tls_cert_path: Some(value),
            ..settings_of(before)
        }),
        settings_of(before.push("tls_key_path"@ + " = "@ + value)) == (Settings {
            tls_key_path: Some(value),
            ..settings_of(before)
        }),
{
    lemma_keys_are_keys();
    let c = settings_of(before);
    lemma_setting_line(c, "music_dir"@, value);
    lemma_read_one(before, "music_dir"@ + " = "@ + value);
    lemma_setting_line(c, "bind_addr"@, value);
    lemma_read_one(before, "bind_addr"@ + " = "@ + value);
    lemma_setting_line(c, "api_token"@, value);
    lemma_read_one(before, "api_token"@ + " = "@ + value);
    lemma_setting_line(c, "tls_cert_path"@, value);
    lemma_read_one(before, "tls_cert_path"@ + " = "@ + value);
    lemma_setting_line(c, "tls_key_path"@, value);
    lemma_read_one(before, "tls_key_path"@ + " = "@ + value);
}

/// A line that gives the rate limit as a number sets it to that number; one whose number is too
/// large is not understood.
pub proof fn law_rate_limit_is_read(before: Seq<Seq<char>>, n: nat)
    ensures
        n <= u32::MAX ==> settings_of(before.push("rate_limit_per_min"@ + " = "@ + decimal(n))) == (
        Settings { rate_limit_per_min: n as u32, ..settings_of(before) }),
        n > u32::MAX ==> settings_of(before.push("rate_limit_per_min"@ + " = "@ + decimal(n)))
            == settings_of(before),
{
    lemma_keys_are_keys();
    law_numbers_are_read_back(n, u32::MAX as nat);
    let value = decimal(n);
    assert('0' <= value[0] <= '9' && '0' <= value.last() <= '9');
    assert(is_bare(value));
    let c = settings_of(before);
    let line = "rate_limit_per_min"@ + " = "@ + value;
    lemma_setting_line(c, "rate_limit_per_min"@, value);
    assert(before.push(line).drop_last() =~= before);
}

/// A value may stand in quotes, which are not part of it.
pub proof fn law_quotes_are_taken_off(before: Seq<Seq<char>>, key: Seq<char>, value: Seq<char>)
    requires
        key.len() > 0,
        !is_space(key[0]),
        !is_space(key.last()),
        key[0] != '#',
        !key.contains('='),
        is_bare(value),
    ensures
        settings_of(before.push(key + " = "@ + seq!['"'] + value + seq!['"'])) == settings_of(
            before.push(key + " = "@ + value),
        ),
{
    reveal_strlit(" = ");
    let c = settings_of(before);
    lemma_setting_line(c, key, value);
    let plain = key + " = "@ + value;
    let line = key + " = "@ + seq!['"'] + value + seq!['"'];
    assert(before.push(plain).drop_last() =~= before);
    assert(before.push(line).drop_last() =~= before);
    assert(line[0] == key[0] && line.last() == '"');
    assert(trim(line) == line);
    let n = (key.len() + 1) as int;
    assert forall|k: int| 0 <= k < n implies line[k] != '=' by {
        if k < key.len() {
            assert(line[k] == key[k]);
            assert(key.contains(key[k]));
        }
    }
    lemma_find(line, '=', n);
    let left = line.take(n);
    assert(left =~= key.push(' '));
    assert(left.drop_last() =~= key);
    assert(trim_start(left) == left);
    assert(trim_end(left) == trim_end(key));
    assert(key_of(line) == key);
    let quoted = seq!['"'] + value + seq!['"'];
    let right = line.skip(n + 1);
    assert(right =~= seq![' '] + quoted);
    assert(right.skip(1) =~= quoted);
    assert(quoted[0] == '"' && quoted.last() == '"');
    assert(trim_start(right) == trim_start(quoted));
    assert(trim(right) == quoted);
    let inner = value + seq!['"'];
    assert(quoted.skip(1) =~= inner);
    assert(inner[0] == value[0]);
    assert(strip_start(inner, '"') == inner);
    assert(strip_start(quoted, '"') == inner);
    assert(inner.drop_last() =~= value);
    assert(strip_end(value, '"') == value);
    assert(strip_end(inner, '"') == value);
    assert(value_of(line) == value);
}

/// Comments and blank lines set nothing and are not reported.
pub proof fn law_comments_and_blanks(before: Seq<Seq<char>>, text: Seq<char>, blank: Seq<char>)
    requires
        is_blank(blank),
    ensures
        settings_of(before.push(seq!['#'] + text)) == settings_of(before),
        settings_of(before.push(blank)) == settings_of(before),
        warnings_of(before.push(seq!['#'] + text)) == warnings_of(before),
        warnings_of(before.push(blank)) == warnings_of(before),
{
    let comment = seq!['#'] + text;
    let none = Seq::<char>::empty();
    lemma_comment(comment);
    law_trim_takes_off_the_ends(blank, none, none);
    assert(blank + none + none =~= blank);
    lemma_read_one(before, comment);
    lemma_read_one(before, blank);
}

/// Without a configuration the server listens on port 8420 of the machine itself, lets each client
/// make 300 requests a minute, and has no folders, no token and no certificate.
pub proof fn law_defaults()
    ensures
        settings_of(Seq::empty()).music_dirs.len() == 0,
        settings_of(Seq::empty()).bind_addr == "127.0.0.1:8420"@,
        settings_of(Seq::empty()).api_token is None,
        settings_of(Seq::empty()).rate_limit_per_min == 300,
        settings_of(Seq::empty()).tls_cert_path is None,
        settings_of(Seq::empty()).tls_key_path is None,
{
}

/// A path that begins with a tilde and a slash lies below the home directory, where one is known;
/// every other path is as it is written.
pub proof fn law_home_directory(home: Seq<char>, rest: Seq<char>, path: Seq<char>)
    requires
        home.len() > 0,
        home.last() != '/',
        rest.len() > 0 ==> rest[0] != '/',
        path.len() < 2 || path[0] != '~' || path[1] != '/',
    ensures
        expanded(seq!['~', '/'] + rest, Some(home)) == home + seq!['/'] + rest,
        expanded(path, Some(home)) == path,
        expanded(path, None) == path,
        expanded(seq!['~', '/'] + rest, None) == seq!['~', '/'] + rest,
{
    let whole = seq!['~', '/'] + rest;
    assert(whole.take(2) =~= seq!['~', '/']);
    assert(whole.skip(2) =~= rest);
    law_path_below_a_folder(home, rest);
    if starts_with(path, seq!['~', '/']) {
        assert(path.take(2)[0] == path[0] && path.take(2)[1] == path[1]);
    }
}

/// The music folders are those that are listed, in their order and with the home directory put in,
/// each once where it is listed several times in a row; where none is listed it is the default one.
pub proof fn law_music_folders(
    listed: Seq<Seq<char>>,
    default_dir: Seq<char>,
    home: Option<Seq<char>>,
    dir: Seq<char>,
)
    ensures
        music_dirs_of(Seq::empty(), default_dir, home) == seq![default_dir],
        music_dirs_of(seq![dir], default_dir, home) == seq![expanded(dir, home)],
        listed.len() > 0 ==> music_dirs_of(listed, default_dir, home).len() > 0,
        listed.len() > 0 ==> music_dirs_of(listed.push(dir), default_dir, home) == if components(
            expanded(dir, home),
        ) == components(music_dirs_of(listed, default_dir, home).last()) {
            music_dirs_of(listed, default_dir, home)
        } else {
            music_dirs_of(listed, default_dir, home).push(expanded(dir, home))
        },
{
    let f = |p: Seq<char>| expanded(p, home);
    assert(seq![dir].map_values(f) =~= seq![expanded(dir, home)]);
    let all = listed.map_values(f);
    let more = listed.push(dir).map_values(f);
    assert(more =~= all.push(expanded(dir, home)));
    assert(more.drop_last() =~= all);
    if listed.len() > 0 {
        lemma_repeats_nonempty(all);
    }
}

proof fn lemma_repeats_nonempty(s: Seq<Seq<char>>)
    requires
        s.len() > 0,
    ensures
        without_repeats(s).len() > 0,
    decreases s.len(),
{
    if s.len() > 1 {
        lemma_repeats_nonempty(s.drop_last());
    }
}

/// What a configuration stands for are its fields.
pub proof fn law_configurations_are_shown(c: ParsedConfig)
    ensures
        c@.music_dirs == texts(c.music_dirs@),
        c@.bind_addr == c.bind_addr@,
        c.api_token matches Some(t) ==> c@.api_token == Some(t@),
        c.api_token is None ==> c@.api_token is None,
        c@.rate_limit_per_min == c.rate_limit_per_min,
        c.tls_cert_path matches Some(p) ==> c@.tls_cert_path == Some(p@),
        c.tls_cert_path is None ==> c@.tls_cert_path is None,
        c.tls_key_path matches Some(p) ==> c@.tls_key_path == Some(p@),
        c.tls_key_path is None ==> c@.tls_key_path is None,
{
}

proof fn lemma_empty_line(c: Settings, key: Seq<char>)
    requires
        is_key(key),
    ensures
        read_line(c, key + " ="@) == with_setting(c, key, Seq::empty()),
{
    reveal_strlit(" =");
    let line = key + " ="@;
    let none = Seq::<char>::empty();
    assert(line[0] == key[0] && line.last() == '=');
    assert(trim(line) == line);
    let n = (key.len() + 1) as int;
    assert forall|k: int| 0 <= k < n implies line[k] != '=' by {
        if k < key.len() {
            assert(line[k] == key[k]);
            assert(key.contains(key[k]));
        }
    }
    lemma_find(line, '=', n);
    let left = line.take(n);
    assert(left =~= key.push(' '));
    assert(left.drop_last() =~= key);
    assert(trim_start(left) == left);
    assert(trim_end(left) == trim_end(key));
    assert(key_of(line) == key);
    assert(line.skip(n + 1) =~= none);
    assert(trim(none) =~= none);
    assert(strip_end(strip_start(none, '"'), '"') =~= none);
    assert(value_of(line) =~= none);
}

/// A line that gives a key no value adds no folder and leaves the token and the paths of the
/// certificate and its key as they were.
pub proof fn law_empty_values(before: Seq<Seq<char>>)
    ensures
        settings_of(before.push("music_dir"@ + " ="@)) == settings_of(before),
        settings_of(before.push("api_token"@ + " ="@)) == settings_of(before),
        settings_of(before.push("tls_cert_path"@ + " ="@)) == settings_of(before),
        settings_of(before.push("tls_key_path"@ + " ="@)) == settings_of(before),
{
    lemma_keys_are_keys();
    let c = settings_of(before);
    lemma_empty_line(c, "music_dir"@);
    lemma_read_one(before, "music_dir"@ + " ="@);
    lemma_empty_line(c, "api_token"@);
    lemma_read_one(before, "api_token"@ + " ="@);
    lemma_empty_line(c, "tls_cert_path"@);
    lemma_read_one(before, "tls_cert_path"@ + " ="@);
    lemma_empty_line(c, "tls_key_path"@);
    lemma_read_one(before, "tls_key_path"@ + " ="@);
}

} // verus!
