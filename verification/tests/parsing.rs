use uhpm::config::Config;
use uhpm::manifest::{meta_parser, serialize_package_string, Package, Source};
use uhpm::paths::{expand_vars, parse_target, sanitize_file_path, Env};
use uhpm::symlist::parse_symlist;
use uhpm::symlist::parse_symlist_line;
use uhpm::version::{parse_version_str, version_to_string, Version};

fn test_env() -> Env {
    Env::new(
        "/home/u".to_string(),
        "/home/u/.local/share".to_string(),
        "/home/u/.config".to_string(),
        "/home/u/.local/bin".to_string(),
    )
}

#[test]
fn test_config_creation() {
    let config = Config::new();
    assert!(config.update_source.is_empty());
}

#[test]
fn test_config_roundtrip() {
    let mut config = Config::new();
    config.update_source = "https://example.com/updates".to_string();
    let text = config.save();
    let loaded = Config::load(&text).unwrap();
    assert_eq!(loaded.update_source, "https://example.com/updates");
}

#[test]
fn test_parse_symlist_line() {
    let line = "/package/bin/foo $HOME/.local/bin/foo";
    let entry = parse_symlist_line(line).unwrap();
    assert_eq!(entry.source, "/package/bin/foo");
    assert_eq!(entry.target, "$HOME/.local/bin/foo");

    let line = "/package/bin/foo    $HOME/.local/bin/foo";
    let entry = parse_symlist_line(line).unwrap();
    assert_eq!(entry.source, "/package/bin/foo");
    assert_eq!(entry.target, "$HOME/.local/bin/foo");
}

#[test]
fn test_parse_symlist_line_invalid() {
    let line = "/package/bin/foo";
    assert!(parse_symlist_line(line).is_err());

    let line = "";
    assert!(parse_symlist_line(line).is_err());

    let line = "# This is a comment";
    assert!(parse_symlist_line(line).is_err());
}

#[test]
fn test_load_symlist_parsing() {
    let content = "# This is a comment line\n\nbin/foo $HOME/.local/bin/foo\nconfig/bar $XDG_CONFIG_HOME/bar\n\n# Another comment\nshare/data $XDG_DATA_HOME/app_data\n";
    let symlinks = parse_symlist(content).unwrap();
    assert_eq!(symlinks.len(), 3);
    assert_eq!(symlinks[0].source, "bin/foo");
    assert_eq!(symlinks[1].source, "config/bar");
    assert_eq!(symlinks[2].source, "share/data");

    let env = test_env();
    let t0 = expand_vars(&symlinks[0].target, &env).unwrap();
    let t1 = expand_vars(&symlinks[1].target, &env).unwrap();
    let t2 = expand_vars(&symlinks[2].target, &env).unwrap();
    assert!(t0.ends_with(".local/bin/foo"));
    assert!(t1.ends_with("bar"));
    assert!(t2.ends_with("app_data"));
}

#[test]
fn test_expand_vars_home() {
    let env = test_env();
    let expanded = expand_vars("$HOME/test_folder", &env).unwrap();
    assert_eq!(expanded, "/home/u/test_folder");
}

#[test]
fn test_expand_vars_xdg() {
    let env = test_env();
    let expanded = expand_vars("$XDG_DATA_HOME/some_dir", &env).unwrap();
    assert_eq!(expanded, "/home/u/.local/share/some_dir");
    let expanded = expand_vars("$XDG_CONFIG_HOME/app", &env).unwrap();
    assert_eq!(expanded, "/home/u/.config/app");
    let expanded = expand_vars("$XDG_BIN_HOME/tool", &env).unwrap();
    assert_eq!(expanded, "/home/u/.local/bin/tool");
}

#[test]
fn test_expand_vars_rejects_relative() {
    let env = test_env();
    assert!(expand_vars("relative/path", &env).is_err());
}

#[test]
fn test_sanitize_file_path() {
    assert_eq!(sanitize_file_path("/tmp/a/b").unwrap(), "/tmp/a/b");
    assert!(sanitize_file_path("/tmp/../etc/passwd").is_err());
    assert!(sanitize_file_path("../up").is_err());
    assert_eq!(sanitize_file_path("a..b/c").unwrap(), "a..b/c");
}

#[test]
fn test_parse_target() {
    let (name, version) = parse_target("hello@1.0.0").unwrap();
    assert_eq!(name, "hello");
    assert_eq!(version, "1.0.0");
    assert!(parse_target("hello").is_none());
}

#[test]
fn test_version_parse_and_render() {
    let v = parse_version_str("1.2.3").unwrap();
    assert_eq!(v.major, 1);
    assert_eq!(v.minor, 2);
    assert_eq!(v.patch, 3);
    assert_eq!(version_to_string(&v), "1.2.3");

    let v = parse_version_str("1.0.0-alpha.1+build.5").unwrap();
    assert_eq!(version_to_string(&v), "1.0.0-alpha.1+build.5");

    assert!(parse_version_str("1.2").is_none());
    assert!(parse_version_str("01.2.3").is_none());
    assert!(parse_version_str("1.2.3.4").is_none());
    assert!(parse_version_str("").is_none());
}

#[test]
fn test_version_precedence() {
    let parse = |s: &str| parse_version_str(s).unwrap();
    assert!(parse("1.0.0").lt(&parse("2.0.0")));
    assert!(parse("2.0.0").lt(&parse("2.1.0")));
    assert!(parse("2.1.0").lt(&parse("2.1.1")));
    // A pre-release ranks below its release.
    assert!(parse("1.0.0-alpha").lt(&parse("1.0.0")));
    assert!(!parse("1.0.0").lt(&parse("1.0.0-alpha")));
    // Numeric identifiers compare numerically, and rank below alphanumeric.
    assert!(parse("1.0.0-2").lt(&parse("1.0.0-10")));
    assert!(parse("1.0.0-1").lt(&parse("1.0.0-alpha")));
    // Identifier by identifier, a prefix ranks lower.
    assert!(parse("1.0.0-alpha").lt(&parse("1.0.0-alpha.1")));
    assert!(parse("1.0.0-alpha.1").lt(&parse("1.0.0-beta")));
    // Build metadata takes no part in precedence.
    assert!(!parse("1.0.0+a").lt(&parse("1.0.0+b")));
    assert!(!parse("1.0.0+b").lt(&parse("1.0.0+a")));
}

#[test]
fn test_meta_parser() {
    let pkg = Package::new(
        "test_pkg".to_string(),
        parse_version_str("0.1.0").unwrap(),
        "Tester".to_string(),
        Source::Raw("some content".to_string()),
        "abc123".to_string(),
        vec![("dep_pkg".to_string(), parse_version_str("1.0.0").unwrap())],
    );
    let text = serialize_package_string(&pkg);
    let parsed = meta_parser(&text).unwrap();
    assert_eq!(parsed.name(), "test_pkg");
    assert_eq!(parsed.author(), "Tester");
    assert_eq!(version_to_string(parsed.version()), "0.1.0");
    assert_eq!(parsed.src().as_str(), "some content");
    assert_eq!(parsed.checksum(), "abc123");
    let deps = parsed.dependencies();
    assert_eq!(deps.len(), 1);
    assert_eq!(deps[0].0, "dep_pkg");
    assert_eq!(version_to_string(&deps[0].1), "1.0.0");
}

#[test]
fn test_manifest_roundtrip_awkward_strings() {
    // Escaping lets any author or checksum text round-trip.
    let pkg = Package::new(
        "pkg".to_string(),
        Version::new(1, 2, 3),
        "line one\nline two\\with backslash".to_string(),
        Source::Url("https://example.com/pkg.uhp".to_string()),
        "sum=with=equals and spaces".to_string(),
        vec![
            ("dep one".to_string(), Version::new(1, 0, 0)),
            ("dep-two".to_string(), parse_version_str("2.0.0-rc.1").unwrap()),
        ],
    );
    let text = serialize_package_string(&pkg);
    let parsed = meta_parser(&text).unwrap();
    assert_eq!(parsed.author(), "line one\nline two\\with backslash");
    assert_eq!(parsed.checksum(), "sum=with=equals and spaces");
    match parsed.src() {
        Source::Url(u) => assert_eq!(u, "https://example.com/pkg.uhp"),
        _ => panic!("wrong source tag"),
    }
    let deps = parsed.dependencies();
    assert_eq!(deps.len(), 2);
    assert_eq!(deps[0].0, "dep one");
    assert_eq!(version_to_string(&deps[1].1), "2.0.0-rc.1");
}

#[test]
fn test_meta_parser_rejects_garbage() {
    assert!(meta_parser("not a manifest").is_err());
    assert!(meta_parser("").is_err());
    assert!(meta_parser("name=x\nversion=oops\nauthor=a\nsrc=raw:r\nchecksum=c\n").is_err());
}

#[test]
fn test_format_ordered() {
    let msg = uhpm::locale::format_ordered(
        "installing {} at version {}",
        &vec!["hello".to_string(), "1.0.0".to_string()],
    );
    assert_eq!(msg, "installing hello at version 1.0.0");
    // Missing arguments leave their holes' text out; surplus ones are dropped.
    assert_eq!(uhpm::locale::format_ordered("a {} b {}", &vec!["x".to_string()]), "a x b ");
    assert_eq!(
        uhpm::locale::format_ordered("plain", &vec!["x".to_string()]),
        "plain"
    );
}

#[test]
fn test_locale_msg() {
    let locale = uhpm::locale::Locale::new(
        "en".to_string(),
        vec![("greet".to_string(), "hello {}".to_string())],
    );
    assert_eq!(locale.msg("greet"), "hello {}");
    assert_eq!(locale.msg("absent.key"), "absent.key");
}

#[test]
fn test_parse_repos() {
    let text = "# repositories\nmain file:///srv/repo\nextra https://example.com/repo\n";
    let repos = uhpm::repo::parse_repos(text).unwrap();
    assert_eq!(repos.len(), 2);
    assert_eq!(repos[0].0, "main");
    assert_eq!(repos[0].1, "file:///srv/repo");
    assert_eq!(repos[1].0, "extra");
    assert!(uhpm::repo::parse_repos("just-one-field\n").is_err());
}

#[test]
fn test_search_packages() {
    let index = vec![
        ("hello".to_string(), "1.0.0".to_string(), "u1".to_string()),
        ("shell-tools".to_string(), "2.0.0".to_string(), "u2".to_string()),
        ("other".to_string(), "3.0.0".to_string(), "u3".to_string()),
    ];
    let hits = uhpm::repo::search_packages(&index, &"hell".to_string());
    assert_eq!(hits.len(), 2);
    assert_eq!(hits[0].0, "hello");
    assert_eq!(hits[1].0, "shell-tools");
    let all = uhpm::repo::search_packages(&index, &"".to_string());
    assert_eq!(all.len(), 3);
}

#[test]
fn test_symlist_error_names_the_line() {
    // Line 4 is the first malformed one: blank, comment and entry lines
    // come before it.
    let text = "# map\n\nbin/a $XDG_BIN_HOME/a\nonly-one-field\nbin/b $XDG_BIN_HOME/b\n";
    match parse_symlist(text) {
        Err(uhpm::symlist::SymlistError::Parse(msg)) => {
            assert_eq!(msg, "malformed activation-map line 4");
        }
        other => panic!("expected a parse failure, got {:?}", other),
    }
}
