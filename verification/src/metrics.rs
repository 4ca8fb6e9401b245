//! The metrics of the server, in the text format of Prometheus.
use crate::config::terminated;
use crate::text::{
    chars_of, chars_start_with, decimal, decimal_text, is_blank, law_numbers_are_read_back,
    law_trim_takes_off_the_ends, lines, lines_of, parse_chars, parse_number, pieces, starts_with,
    texts, trim, trim_chars,
};
use vstd::prelude::*;
use vstd::slice::slice_subrange;

verus! {

/// The lines that describe one metric.
pub open spec fn metric_lines(help: Seq<char>, kind: Seq<char>, name: Seq<char>, value: nat) -> Seq<
    Seq<char>,
> {
    seq![
        "# HELP "@ + name + " "@ + help,
        "# TYPE "@ + name + " "@ + kind,
        name + " "@ + decimal(value),
    ]
}

/// The metrics of the server.
pub open spec fn metrics_lines(
    uptime: nat,
    tracks: nat,
    requests: nat,
    rss_bytes: nat,
    scan_ms: nat,
) -> Seq<Seq<char>> {
    metric_lines("Server uptime in seconds"@, "counter"@, "sonum_uptime_seconds"@, uptime).push(
        ""@,
    ) + metric_lines(
        "Number of currently indexed tracks"@,
        "gauge"@,
        "sonum_tracks_indexed"@,
        tracks,
    ).push(""@) + metric_lines(
        "Total HTTP requests handled"@,
        "counter"@,
        "sonum_requests_total"@,
        requests,
    ).push(""@) + metric_lines(
        "RSS memory usage in bytes"@,
        "gauge"@,
        "sonum_memory_rss_bytes"@,
        rss_bytes,
    ).push(""@) + metric_lines(
        "Duration of the last library scan in ms"@,
        "gauge"@,
        "sonum_last_scan_duration_ms"@,
        scan_ms,
    )
}

fn push_metric(out: &mut Vec<String>, help: &str, kind: &str, name: &str, value: u64)
    ensures
        texts(final(out)@) == texts(old(out)@) + metric_lines(help@, kind@, name@, value as nat),
{
    let ghost start = texts(out@);
    let mut first = "# HELP ".to_owned();
    first.append(name);
    first.append(" ");
    first.append(help);
    let mut second = "# TYPE ".to_owned();
    second.append(name);
    second.append(" ");
    second.append(kind);
    let mut third = name.to_owned();
    third.append(" ");
    third.append(decimal_text(value).as_str());
    out.push(first);
    out.push(second);
    out.push(third);
    assert(texts(out@) =~= start + metric_lines(help@, kind@, name@, value as nat));
}

fn push_blank(out: &mut Vec<String>)
    ensures
        texts(final(out)@) == texts(old(out)@).push(""@),
{
    let ghost start = texts(out@);
    out.push("".to_owned());
    assert(texts(out@) =~= start.push(""@));
}

/// The metrics of the server, one line after the other.
pub fn metrics_body(uptime: u64, tracks: usize, requests: u64, rss_bytes: u64, scan_ms: u64) -> (r:
    String)
    ensures
        r@ == terminated(
            metrics_lines(
                uptime as nat,
                tracks as nat,
                requests as nat,
                rss_bytes as nat,
                scan_ms as nat,
            ),
        ),
{
    let mut out: Vec<String> = Vec::new();
    push_metric(
        &mut out,
        "Server uptime in seconds",
        "counter",
        "sonum_uptime_seconds",
        uptime,
    );
    push_blank(&mut out);
    push_metric(
        &mut out,
        "Number of currently indexed tracks",
        "gauge",
        "sonum_tracks_indexed",
        tracks as u64,
    );
    push_blank(&mut out);
    push_metric(
        &mut out,
        "Total HTTP requests handled",
        "counter",
        "sonum_requests_total",
        requests,
    );
    push_blank(&mut out);
    push_metric(
        &mut out,
        "RSS memory usage in bytes",
        "gauge",
        "sonum_memory_rss_bytes",
        rss_bytes,
    );
    push_blank(&mut out);
    push_metric(
        &mut out,
        "Duration of the last library scan in ms",
        "gauge",
        "sonum_last_scan_duration_ms",
        scan_ms,
    );
    let ghost all = texts(out@);
    assert(all =~= metrics_lines(
        uptime as nat,
        tracks as nat,
        requests as nat,
        rss_bytes as nat,
        scan_ms as nat,
    ));
    let mut r = String::new();
    let mut i: usize = 0;
    assert(r@ =~= terminated(all.take(0)));
    while i < out.len()
        invariant
            0 <= i <= out.len(),
            all == texts(out@),
            r@ == terminated(all.take(i as int)),
        decreases out.len() - i,
    {
        r.append(out[i].as_str());
        r.push('\n');
        assert(all.take(i + 1).drop_last() =~= all.take(i as int));
        i += 1;
        assert(r@ =~= terminated(all.take(i as int)));
    }
    assert(all.take(i as int) =~= all);
    r
}

/// A text without the unit, however often it stands at its end.
pub open spec fn without_unit(s: Seq<char>) -> Seq<char>
    decreases s.len(),
{
    if s.len() >= 3 && s.skip(s.len() - 3) == seq![' ', 'k', 'B'] {
        without_unit(s.take(s.len() - 3))
    } else {
        s
    }
}

/// The bytes that a line on resident memory gives in kilobytes.
pub open spec fn rss_of_line(line: Seq<char>) -> Option<u64> {
    match parse_number(trim(without_unit(trim(line.skip(6)))), u64::MAX as nat) {
        Some(kb) => Some(((kb * 1024) % 0x1_0000_0000_0000_0000) as u64),
        None => None,
    }
}

/// The resident memory in bytes that the first line on it gives, among those from a position on.
pub open spec fn rss_from(ls: Seq<Seq<char>>, i: int) -> Option<u64>
    decreases ls.len() - i,
{
    if i >= ls.len() {
        None
    } else if starts_with(ls[i], "VmRSS:"@) {
        rss_of_line(ls[i])
    } else {
        rss_from(ls, i + 1)
    }
}

fn without_unit_of(s: &[char]) -> (r: &[char])
    ensures
        r@ == without_unit(s@),
{
    let mut r = s;
    while r.len() >= 3 && r[r.len() - 3] == ' ' && r[r.len() - 2] == 'k' && r[r.len() - 1] == 'B'
        invariant
            without_unit(r@) == without_unit(s@),
        decreases r.len(),
    {
        let shorter = slice_subrange(r, 0, r.len() - 3);
        assert(shorter@ =~= r@.take(r@.len() - 3));
        assert(r@.skip(r@.len() - 3) =~= seq![' ', 'k', 'B']);
        r = shorter;
    }
    proof {
        if r@.len() >= 3 && r@.skip(r@.len() - 3) == seq![' ', 'k', 'B'] {
            let tail = r@.skip(r@.len() - 3);
            assert(tail[0] == r@[r@.len() - 3] && tail[1] == r@[r@.len() - 2] && tail[2]
                == r@[r@.len() - 1]);
        }
    }
    r
}

/// The resident memory in bytes that the status of a process gives, where it gives one.
pub fn rss_bytes(status: &str) -> (r: Option<u64>)
    ensures
        r == rss_from(lines(status@), 0),
{
    let chars = chars_of(status);
    let ls = lines_of(chars.as_slice());
    let prefix = chars_of("VmRSS:");
    let ghost all = lines(status@);
    proof {
        reveal_strlit("VmRSS:");
    }
    let mut i: usize = 0;
    while i < ls.len()
        invariant
            0 <= i <= ls.len(),
            all == pieces(ls@),
            all == lines(status@),
            prefix@ == "VmRSS:"@,
            prefix@.len() == 6,
            rss_from(all, 0) == rss_from(all, i as int),
        decreases ls.len() - i,
    {
        let line = ls[i];
        assert(all[i as int] == line@);
        if chars_start_with(line, prefix.as_slice()) {
            let rest = slice_subrange(line, 6, line.len());
            assert(rest@ =~= line@.skip(6));
            let number = trim_chars(without_unit_of(trim_chars(rest)));
            assert(rss_from(all, i as int) == rss_of_line(line@));
            return match parse_chars(number, u64::MAX) {
                Some(kb) => {
                    let total: u128 = kb as u128 * 1024;
                    Some((total % 0x1_0000_0000_0000_0000) as u64)
                },
                None => None,
            };
        }
        i += 1;
    }
    None
}

/// Whether one of some lines gives a metric its value.
pub open spec fn gives(ls: Seq<Seq<char>>, name: Seq<char>, value: nat) -> bool {
    ls.contains(name + " "@ + decimal(value))
}

/// Whether a metric is said to be of a type.
pub open spec fn is_of_type(ls: Seq<Seq<char>>, name: Seq<char>, kind: Seq<char>) -> bool {
    ls.contains("# TYPE "@ + name + " "@ + kind)
}

/// The metrics give each of the five values under its own name, as a number in decimal digits, and
/// say whether it counts up or goes up and down.
pub proof fn law_metrics_give_their_values(
    uptime: nat,
    tracks: nat,
    requests: nat,
    rss_bytes: nat,
    scan_ms: nat,
)
    ensures
        ({
            let ls = metrics_lines(uptime, tracks, requests, rss_bytes, scan_ms);
            &&& gives(ls, "sonum_uptime_seconds"@, uptime)
            &&& gives(ls, "sonum_tracks_indexed"@, tracks)
            &&& gives(ls, "sonum_requests_total"@, requests)
            &&& gives(ls, "sonum_memory_rss_bytes"@, rss_bytes)
            &&& gives(ls, "sonum_last_scan_duration_ms"@, scan_ms)
            &&& is_of_type(ls, "sonum_uptime_seconds"@, "counter"@)
            &&& is_of_type(ls, "sonum_tracks_indexed"@, "gauge"@)
            &&& is_of_type(ls, "sonum_requests_total"@, "counter"@)
            &&& is_of_type(ls, "sonum_memory_rss_bytes"@, "gauge"@)
            &&& is_of_type(ls, "sonum_last_scan_duration_ms"@, "gauge"@)
            &&& ls.len() == 19
        }),
{
    let ls = metrics_lines(uptime, tracks, requests, rss_bytes, scan_ms);
    assert(ls.len() == 19);
    assert(ls[1] == "# TYPE "@ + "sonum_uptime_seconds"@ + " "@ + "counter"@);
    assert(ls[2] == "sonum_uptime_seconds"@ + " "@ + decimal(uptime));
    assert(ls[5] == "# TYPE "@ + "sonum_tracks_indexed"@ + " "@ + "gauge"@);
    assert(ls[6] == "sonum_tracks_indexed"@ + " "@ + decimal(tracks));
    assert(ls[9] == "# TYPE "@ + "sonum_requests_total"@ + " "@ + "counter"@);
    assert(ls[10] == "sonum_requests_total"@ + " "@ + decimal(requests));
    assert(ls[13] == "# TYPE "@ + "sonum_memory_rss_bytes"@ + " "@ + "gauge"@);
    assert(ls[14] == "sonum_memory_rss_bytes"@ + " "@ + decimal(rss_bytes));
    assert(ls[17] == "# TYPE "@ + "sonum_last_scan_duration_ms"@ + " "@ + "gauge"@);
    assert(ls[18] == "sonum_last_scan_duration_ms"@ + " "@ + decimal(scan_ms));
}

/// The memory in use is read from the line that gives it in kilobytes of 1024 bytes, whatever white
/// space stands before the number.
pub proof fn law_memory_is_read_in_kilobytes(
    before: Seq<Seq<char>>,
    gap: Seq<char>,
    kb: nat,
    after: Seq<Seq<char>>,
)
    requires
        forall|i: int| 0 <= i < before.len() ==> !starts_with(#[trigger] before[i], "VmRSS:"@),
        is_blank(gap),
        kb * 1024 <= u64::MAX,
    ensures
        rss_from(before.push("VmRSS:"@ + gap + decimal(kb) + " kB"@) + after, 0) == Some(
            (kb * 1024) as u64,
        ),
        rss_from(before, 0) is None,
{
    reveal_strlit("VmRSS:");
    reveal_strlit(" kB");
    let none = Seq::<char>::empty();
    let d = decimal(kb);
    law_numbers_are_read_back(kb, u64::MAX as nat);
    assert('0' <= d[0] <= '9' && '0' <= d.last() <= '9');
    let line = "VmRSS:"@ + gap + d + " kB"@;
    assert(line.take(6) =~= "VmRSS:"@);
    let rest = line.skip(6);
    assert(rest =~= gap + (d + " kB"@) + none);
    let amount = d + " kB"@;
    assert(amount[0] == d[0] && amount.last() == 'B');
    law_trim_takes_off_the_ends(gap, amount, none);
    assert(trim(rest) == amount);
    let n = amount.len() as int;
    assert(amount.skip(n - 3) =~= seq![' ', 'k', 'B']);
    assert(amount.take(n - 3) =~= d);
    if d.len() >= 3 {
        assert(d.skip(d.len() - 3)[2] == d.last());
    }
    assert(without_unit(d) == d);
    assert(without_unit(amount) == d);
    law_trim_takes_off_the_ends(none, d, none);
    assert(none + d + none =~= d);
    assert(trim(d) == d);
    let ls = before.push(line) + after;
    assert forall|i: int| 0 <= i < before.len() implies #[trigger] ls[i] == before[i] by {}
    assert(ls[before.len() as int] == line);
    lemma_rss_from(ls, before.len() as int, 0);
    lemma_rss_none(before, 0);
}

proof fn lemma_rss_from(ls: Seq<Seq<char>>, n: int, i: int)
    requires
        0 <= i <= n < ls.len(),
        forall|k: int| 0 <= k < n ==> !starts_with(#[trigger] ls[k], "VmRSS:"@),
        starts_with(ls[n], "VmRSS:"@),
    ensures
        rss_from(ls, i) == rss_of_line(ls[n]),
    decreases n - i,
{
    if i < n {
        lemma_rss_from(ls, n, i + 1);
    }
}

proof fn lemma_rss_none(ls: Seq<Seq<char>>, i: int)
    requires
        0 <= i <= ls.len(),
        forall|k: int| 0 <= k < ls.len() ==> !starts_with(#[trigger] ls[k], "VmRSS:"@),
    ensures
        rss_from(ls, i) is None,
    decreases ls.len() - i,
{
    if i < ls.len() {
        lemma_rss_none(ls, i + 1);
    }
}

} // verus!
