//! The normal form of a table's location.

use comet_delta::delta::location::{
    is_store_url, normalize_directory, normalize_url, LocationError, TableUrl,
};

#[test]
fn test_normalize_url_trailing_slash() {
    let url = normalize_url("file:///tmp/my_table").unwrap();
    assert!(url.path().ends_with('/'), "URL should end with /: {}", url.as_str());
    assert_eq!(url.as_str(), "file:///tmp/my_table/");

    let url = normalize_url("file:///tmp/my_table/").unwrap();
    assert_eq!(url.as_str(), "file:///tmp/my_table/");

    let url = normalize_url("s3://bucket/path/to/table").unwrap();
    assert!(url.path().ends_with('/'), "URL should end with /: {}", url.as_str());
}

#[test]
fn test_normalize_url_join_behavior() {
    let url = normalize_url("file:///tmp/my_table").unwrap();
    let log_url = url.join("_delta_log/").unwrap();
    assert_eq!(log_url.as_str(), "file:///tmp/my_table/_delta_log/");
}

#[test]
fn joining_appends_for_every_store() {
    for root in [
        "s3://bucket/a/b",
        "s3a://bucket",
        "az://container/t",
        "azure://container/t/",
        "abfs://c@acct.dfs.core.windows.net/t",
        "abfss://c@acct.dfs.core.windows.net/a%20b",
        "file:///tmp/t",
    ] {
        let u = normalize_url(root).unwrap();
        let log = u.join("_delta_log/").unwrap();
        assert_eq!(log.as_str(), format!("{}_delta_log/", u.as_str()));
        assert_eq!(log.path(), format!("{}_delta_log/", u.path()));
        assert_eq!(log.host, u.host);
        assert_eq!(url::Url::parse(u.as_str()).unwrap().join("_delta_log/").unwrap().as_str(), log.as_str());
    }
    // Without the slash the last part would be replaced, and a query goes.
    let t = TableUrl::parse("s3://bucket/a/b").unwrap();
    assert_eq!(t.join("_delta_log/").unwrap().as_str(), "s3://bucket/a/_delta_log/");
    let q = normalize_url("s3://bucket/a/?x=1").unwrap();
    assert_eq!(q.join("_delta_log/").unwrap().as_str(), "s3://bucket/a/_delta_log/");
    assert_eq!(t.join("//[").unwrap_err(), "invalid IPv6 address");
}

#[test]
fn drive_letters_are_not_plain() {
    // A drive letter takes the place of the host where the text has it right behind the host.
    let u = normalize_url("file://h//C:/x/").unwrap();
    let again = normalize_url(u.as_str()).unwrap();
    assert_eq!((u.host.as_deref(), u.path()), (Some("h"), "/C:/x/"));
    assert_eq!((again.host.as_deref(), again.path()), (None, "/C:/x/"));
}

#[test]
fn bare_paths_are_refused() {
    match normalize_url("/tmp/table") {
        Err(LocationError::BarePath { path }) => assert_eq!(path, "/tmp/table"),
        other => panic!("expected BarePath, got {other:?}"),
    }
    assert!(!is_store_url("gs://bucket/t"));
    assert!(is_store_url("s3://bucket/t"));
}

#[test]
fn broken_urls_are_errors() {
    match normalize_url("s3://bad host/t") {
        Err(LocationError::InvalidUrl { url, reason }) => {
            assert_eq!(url, "s3://bad host/t");
            assert!(!reason.is_empty());
        }
        other => panic!("expected InvalidUrl, got {other:?}"),
    }
}

#[test]
fn directories_become_urls() {
    let u = normalize_directory("/tmp/my table").unwrap();
    assert_eq!(u.as_str(), "file:///tmp/my%20table/");
    assert_eq!(normalize_url(u.as_str()).unwrap(), u);
    assert_eq!(u.join("_delta_log/").unwrap().path(), "/tmp/my%20table/_delta_log/");
    match normalize_directory("relative") {
        Err(LocationError::PathToUrl { path }) => assert_eq!(path, "relative"),
        other => panic!("expected PathToUrl, got {other:?}"),
    }
}

#[test]
fn urls_are_taken_apart() {
    let u = TableUrl::parse("abfss://data@acct.dfs.core.windows.net:8443/a/b?q=1").unwrap();
    assert_eq!(u.scheme, "abfss");
    assert_eq!(u.username, "data");
    assert_eq!(u.host.as_deref(), Some("acct.dfs.core.windows.net"));
    assert_eq!(u.port, Some(8443));
    assert_eq!(u.path(), "/a/b");
    assert_eq!(u.as_str(), "abfss://data@acct.dfs.core.windows.net:8443/a/b?q=1");
    assert!(TableUrl::parse("relative/path").is_err());
}

#[test]
fn the_normal_form_is_normal() {
    for root in [
        "s3://bucket/a/b",
        "s3a://bucket",
        "s3:///x//y?q#f",
        "s3://b/a/../b/./c",
        "az://u:p@[::1]:0080/ü \t x",
        "file:///tmp/../a//b",
        "file://localhost/t",
        "abfss://c@acct.dfs.core.windows.net/a%20b",
    ] {
        let u = normalize_url(root).unwrap();
        let again = normalize_url(u.as_str()).unwrap();
        assert_eq!(again, u);
        let parsed = TableUrl::parse(root).unwrap();
        assert_eq!(
            (&u.scheme, &u.username, &u.host, u.port),
            (&parsed.scheme, &parsed.username, &parsed.host, parsed.port)
        );
        let kept = parsed.path().strip_suffix('/').unwrap_or(parsed.path());
        assert_eq!(u.path(), format!("{kept}/"));
    }
}

/// Every text of at most `n` of the letters.
fn texts(letters: &[char], n: usize) -> Vec<String> {
    let mut all = vec![String::new()];
    let mut from = 0;
    for _ in 0..n {
        let to = all.len();
        for i in from..to {
            for c in letters {
                let mut s = all[i].clone();
                s.push(*c);
                all.push(s);
            }
        }
        from = to;
    }
    all
}

fn plain(u: &TableUrl) -> bool {
    u.scheme != "file" || (u.host.is_none() && !u.path.contains(':') && !u.path.contains('|'))
}

fn place(u: &TableUrl) -> (&str, &str, Option<&str>, Option<u16>) {
    (&u.scheme, &u.username, u.host.as_deref(), u.port)
}

fn check_tidy(u: &TableUrl) {
    assert!(!u.username.contains('@'), "{u:?}");
    match &u.host {
        Some(h) => {
            assert!(!h.is_empty() && !h.contains('@'), "{u:?}");
            assert!(!h.contains(':') || h.ends_with(']'), "{u:?}");
        }
        None => assert!(u.port.is_none(), "{u:?}"),
    }
}

fn check_location(text: &str) {
    let u = match TableUrl::parse(text) {
        Ok(u) => u,
        Err(_) => return,
    };
    check_tidy(&u);
    assert!(is_store_url(u.as_str()), "{text:?}");
    assert!(u.path.is_empty() || u.path.starts_with('/'), "{text:?}");
    if plain(&u) {
        assert_eq!(TableUrl::parse(u.as_str()).as_ref(), Ok(&u), "{text:?}");
    }
    let n = normalize_url(text).unwrap();
    check_tidy(&n);
    assert!(is_store_url(n.as_str()), "{text:?}");
    assert!(n.path.ends_with('/'), "{text:?}");
    assert_eq!(place(&n), place(&u), "{text:?}");
    if plain(&n) {
        assert_eq!(TableUrl::parse(n.as_str()).as_ref(), Ok(&n), "{text:?}");
    }
    if plain(&u) {
        let slash = if u.path.ends_with('/') { "" } else { "/" };
        assert_eq!(n.path, format!("{}{slash}", u.path), "{text:?}");
        assert_eq!(normalize_url(n.as_str()).unwrap(), n, "{text:?}");
    }
    for base in [&u, &n] {
        let reads_back = TableUrl::parse(base.as_str()).as_ref() == Ok(base);
        if reads_back && base.path.ends_with('/') {
            let log = base.join("_delta_log/").unwrap();
            assert_eq!(log.path, format!("{}_delta_log/", base.path), "{text:?}");
            assert_eq!(place(&log), place(base), "{text:?}");
        }
    }
}

#[test]
fn what_holds_of_every_location_holds_of_short_ones() {
    let letters = ['/', '.', ':', '|', '?', '#', '@', '\\', ' ', '\t', 'C', '%', '[', 'é', '2', 'e'];
    for rest in texts(&letters, 4) {
        check_location(&format!("s3://{rest}"));
        check_location(&format!("file://{rest}"));
    }
    for rest in texts(&letters, 3) {
        for prefix in ["", "x:", "x://u", "http:", "http://u"] {
            if let Ok(u) = TableUrl::parse(&format!("{prefix}{rest}")) {
                check_tidy(&u);
            }
        }
    }
}

#[test]
fn what_holds_of_every_new_path_holds_of_short_ones() {
    let letters = ['/', '.', ':', '|', '?', '#', '\\', ' ', '\t', 'C', '%', '2', 'e'];
    for base in ["s3://b/x?q#f", "s3://", "file:///x#f", "file://h/x", "abfs://u@h:1"] {
        let parsed = url::Url::parse(base).unwrap();
        for rest in texts(&letters, 4) {
            let mut u = parsed.clone();
            let path = format!("/{rest}");
            u.set_path(&path);
            assert!(!path.ends_with('/') || u.path().ends_with('/'), "{base} {path:?}");
            assert!(is_store_url(u.as_str()), "{base} {path:?}");
            assert_eq!(
                (u.scheme(), u.username(), u.host_str(), u.port()),
                (parsed.scheme(), parsed.username(), parsed.host_str(), parsed.port())
            );
            let again = TableUrl::parse(u.as_str()).unwrap();
            let kept = u.scheme() != "file"
                || (u.host().is_none() && !u.path().contains(':') && !u.path().contains('|'));
            if kept {
                assert_eq!(again.as_str(), u.as_str(), "{base} {path:?}");
                assert_eq!(again.path(), u.path(), "{base} {path:?}");
                assert_eq!(again.host.as_deref(), u.host_str(), "{base} {path:?}");
                assert_eq!(again.username, u.username(), "{base} {path:?}");
                assert_eq!(again.port, u.port(), "{base} {path:?}");
            }
        }
    }
}
