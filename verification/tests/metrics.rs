use sonum::metrics::{metrics_body, rss_bytes};

#[test]
fn metrics_are_written_one_after_the_other() {
    assert_eq!(
        metrics_body(1, 2, 3, 4, 5),
        "# HELP sonum_uptime_seconds Server uptime in seconds\n\
         # TYPE sonum_uptime_seconds counter\n\
         sonum_uptime_seconds 1\n\
         \n\
         # HELP sonum_tracks_indexed Number of currently indexed tracks\n\
         # TYPE sonum_tracks_indexed gauge\n\
         sonum_tracks_indexed 2\n\
         \n\
         # HELP sonum_requests_total Total HTTP requests handled\n\
         # TYPE sonum_requests_total counter\n\
         sonum_requests_total 3\n\
         \n\
         # HELP sonum_memory_rss_bytes RSS memory usage in bytes\n\
         # TYPE sonum_memory_rss_bytes gauge\n\
         sonum_memory_rss_bytes 4\n\
         \n\
         # HELP sonum_last_scan_duration_ms Duration of the last library scan in ms\n\
         # TYPE sonum_last_scan_duration_ms gauge\n\
         sonum_last_scan_duration_ms 5\n"
    );
}

#[test]
fn resident_memory_is_given_in_kilobytes() {
    assert_eq!(rss_bytes("Name:\tsonum\nVmRSS:\t    1234 kB\nVmRSS: 9 kB\n"), Some(1_263_616));
    assert_eq!(rss_bytes("VmRSS: 1 kB kB"), Some(1024));
    assert_eq!(rss_bytes("VmRSS: lots\nVmRSS: 9 kB\n"), None);
    assert_eq!(rss_bytes("VmSize: 9 kB\n"), None);
    assert_eq!(rss_bytes("VmRSS: 18446744073709551615 kB"), Some(u64::MAX - 1023));
}
