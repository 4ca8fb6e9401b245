use sonum::config::{
    default_conf_contents, expand_tilde, parse_config_contents, resolve_music_dirs, resolve_tls,
    ConfigError, ParsedConfig, DEFAULT_RATE_LIMIT_PER_MIN,
};

fn parse_quietly(contents: &str) -> ParsedConfig {
    let (parsed, warnings) = parse_config_contents(contents);
    assert_eq!(warnings, vec![], "unexpected warning");
    parsed
}

#[test]
fn parses_all_known_keys() {
    let contents = r#"
            music_dir = /home/user/Music
            bind_addr = 0.0.0.0:9000
            api_token = "secret123"
            rate_limit_per_min = 60
        "#;
    let parsed = parse_quietly(contents);
    assert_eq!(parsed.music_dirs, vec!["/home/user/Music".to_string()]);
    assert_eq!(parsed.bind_addr, "0.0.0.0:9000");
    assert_eq!(parsed.api_token.as_deref(), Some("secret123"));
    assert_eq!(parsed.rate_limit_per_min, 60);
}

#[test]
fn repeated_music_dir_lines_all_accumulate() {
    let contents = "music_dir = /a\nmusic_dir = /b\nmusic_dir = /c";
    let parsed = parse_quietly(contents);
    assert_eq!(
        parsed.music_dirs,
        vec!["/a".to_string(), "/b".to_string(), "/c".to_string()]
    );
}

#[test]
fn comma_separated_music_dirs_line_splits_into_parts() {
    let contents = "music_dirs = /a, /b ,  /c";
    let parsed = parse_quietly(contents);
    assert_eq!(
        parsed.music_dirs,
        vec!["/a".to_string(), "/b".to_string(), "/c".to_string()]
    );
}

#[test]
fn music_dir_and_music_dirs_can_combine() {
    let contents = "music_dir = /a\nmusic_dirs = /b, /c";
    let parsed = parse_quietly(contents);
    assert_eq!(
        parsed.music_dirs,
        vec!["/a".to_string(), "/b".to_string(), "/c".to_string()]
    );
}

#[test]
fn defaults_when_file_is_empty() {
    let parsed = parse_quietly("");
    assert_eq!(parsed, ParsedConfig::default());
}

#[test]
fn ignores_comments_and_blank_lines() {
    let contents = "\n# a comment\n   \n# music_dir = /nope\n";
    let parsed = parse_quietly(contents);
    assert!(parsed.music_dirs.is_empty());
}

#[test]
fn empty_api_token_is_treated_as_unset() {
    let parsed = parse_quietly("api_token = ");
    assert_eq!(parsed.api_token, None);
}

#[test]
fn warns_on_unknown_key_but_keeps_parsing_the_rest() {
    let contents = "totally_unknown = yes\nbind_addr = 127.0.0.1:1234";
    let (parsed, warnings) = parse_config_contents(contents);
    assert_eq!(warnings.len(), 1);
    assert_eq!(warnings[0].0, 1);
    assert_eq!(parsed.bind_addr, "127.0.0.1:1234");
}

#[test]
fn warns_on_line_without_equals_sign() {
    let contents = "this line has no equals sign";
    let (parsed, warnings) = parse_config_contents(contents);
    assert_eq!(warnings, vec![(1, contents.to_string())]);
    assert_eq!(parsed, ParsedConfig::default());
}

#[test]
fn invalid_rate_limit_falls_back_to_default_and_warns() {
    let contents = "rate_limit_per_min = not_a_number";
    let (parsed, warnings) = parse_config_contents(contents);
    assert_eq!(warnings.len(), 1);
    assert_eq!(parsed.rate_limit_per_min, DEFAULT_RATE_LIMIT_PER_MIN);
}

#[test]
fn parses_tls_paths() {
    let contents = "tls_cert_path = /etc/sonum/cert.pem\ntls_key_path = /etc/sonum/key.pem";
    let parsed = parse_quietly(contents);
    assert_eq!(parsed.tls_cert_path.as_deref(), Some("/etc/sonum/cert.pem"));
    assert_eq!(parsed.tls_key_path.as_deref(), Some("/etc/sonum/key.pem"));
}

#[test]
fn warning_keeps_the_raw_line_and_its_number() {
    let (_, warnings) = parse_config_contents("# ok\r\n\n  odd line  \nrate_limit_per_min = -1\n");
    assert_eq!(
        warnings,
        vec![
            (3, "  odd line  ".to_string()),
            (4, "rate_limit_per_min = -1".to_string())
        ]
    );
}

#[test]
fn later_settings_replace_earlier_ones_and_values_may_hold_equals_signs() {
    let parsed = parse_quietly("api_token = a=b\nbind_addr = x\nbind_addr = \"y\"\nrate_limit_per_min = 0");
    assert_eq!(parsed.api_token.as_deref(), Some("a=b"));
    assert_eq!(parsed.bind_addr, "y");
    assert_eq!(parsed.rate_limit_per_min, 0);
}

#[test]
fn the_first_configuration_file_reads_back() {
    let contents = default_conf_contents("/home/me/.config/sonum/music");
    assert!(contents.starts_with("# sonum config file.\n"));
    assert!(contents.contains("\nmusic_dir = /home/me/.config/sonum/music\n"));
    assert!(contents.contains("\nrate_limit_per_min = 300\n"));
    assert!(contents.ends_with("\n# tls_key_path = /path/to/privkey.pem\n"));
    let parsed = parse_quietly(&contents);
    assert_eq!(
        parsed,
        ParsedConfig {
            music_dirs: vec!["/home/me/.config/sonum/music".to_string()],
            ..ParsedConfig::default()
        }
    );
}

#[test]
fn tilde_expands_to_the_home_directory() {
    assert_eq!(expand_tilde("~/Music", Some("/home/me")), "/home/me/Music");
    assert_eq!(expand_tilde("~/Music", None), "~/Music");
    assert_eq!(expand_tilde("~other/Music", Some("/home/me")), "~other/Music");
    assert_eq!(expand_tilde("/srv", Some("/home/me")), "/srv");
}

#[test]
fn music_dirs_fall_back_to_the_default_and_drop_neighbouring_repeats() {
    assert_eq!(resolve_music_dirs(&[], "/d", None), vec!["/d".to_string()]);
    let listed = vec![
        "~/m".to_string(),
        "/h/m/".to_string(),
        "/x".to_string(),
        "/h/m".to_string(),
    ];
    assert_eq!(
        resolve_music_dirs(&listed, "/d", Some("/h")),
        vec!["/h/m".to_string(), "/x".to_string(), "/h/m".to_string()]
    );
}

#[test]
fn https_needs_both_paths() {
    assert_eq!(resolve_tls(None, None, None), Ok(None));
    assert_eq!(
        resolve_tls(Some("~/c"), Some("/k"), Some("/h")),
        Ok(Some(("/h/c".to_string(), "/k".to_string())))
    );
    assert_eq!(resolve_tls(Some("/c"), None, None), Err(ConfigError::TlsHalfSet));
    assert_eq!(resolve_tls(None, Some("/k"), None), Err(ConfigError::TlsHalfSet));
}

#[test]
fn one_line_of_folders_means_a_line_for_each() {
    assert_eq!(
        parse_quietly("bind_addr = 0.0.0.0:1\nmusic_dirs = /a, /b c, /d\n"),
        parse_quietly("bind_addr = 0.0.0.0:1\nmusic_dir = /a\nmusic_dir = /b c\nmusic_dir = /d\n")
    );
}

#[test]
fn a_later_text_adds_folders_and_overrides_the_rest() {
    let first = "music_dir = /a\nbind_addr = 0.0.0.0:1\napi_token = one";
    let second = "music_dir = /b\napi_token = two\n";
    assert_eq!(
        parse_quietly(&format!("{first}\n{second}")),
        parse_quietly("music_dirs = /a, /b\nbind_addr = 0.0.0.0:1\napi_token = two\n")
    );
}
