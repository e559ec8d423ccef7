use theme_loader::identity::{
    canonical_id, normalize, origin_length, remote, resolve_locator, source_of, ThemeSource,
};
use theme_loader::scan::ImportTarget;

#[test]
fn tells_urls_from_paths() {
    assert!(remote(b"http://example.com/a.css"));
    assert!(remote(b"https://example.com/a.css"));
    assert!(remote(b"HTTPS://EXAMPLE.COM"));
    assert!(!remote(b"/themes/a.css"));
    assert!(!remote(b"ftp://example.com/a.css"));
    assert!(!remote(b"http:/example.com"));
    assert!(!remote(b""));
}

#[test]
fn a_source_is_remote_or_local() {
    assert_eq!(source_of(b"https://h/a.css"), ThemeSource::Remote(b"https://h/a.css".to_vec()));
    assert_eq!(source_of(b"/themes/a.css"), ThemeSource::Local(b"/themes/a.css".to_vec()));
}

#[test]
fn the_origin_ends_at_the_first_slash_behind_the_scheme() {
    assert_eq!(origin_length(b"http://host/a/b.css"), 11);
    assert_eq!(origin_length(b"https://host:8080/a"), 17);
    assert_eq!(origin_length(b"http://host"), 11);
    assert_eq!(origin_length(b"/themes/a.css"), 0);
    assert_eq!(origin_length(b""), 0);
}

#[test]
fn normalizing_cleans_paths() {
    assert_eq!(normalize(b"/themes/./a/../b.css"), b"/themes/b.css".to_vec());
    assert_eq!(normalize(b"/themes//a.css"), b"/themes/a.css".to_vec());
    assert_eq!(normalize(b"/themes/a/"), b"/themes/a".to_vec());
    assert_eq!(normalize(b"/.."), b"/".to_vec());
    assert_eq!(normalize(b"/a/../../b"), b"/b".to_vec());
    assert_eq!(normalize(b""), b"/".to_vec());
    assert_eq!(normalize(b"a/b"), b"/a/b".to_vec());
    assert_eq!(normalize(b"/a/.../b"), b"/a/.../b".to_vec());
}

#[test]
fn normalizing_folds_the_origin_only() {
    assert_eq!(normalize(b"HTTP://Example.COM/A//b/../C.css"), b"http://example.com/A/C.css".to_vec());
    assert_eq!(normalize(b"http://host"), b"http://host/".to_vec());
    assert_eq!(normalize(b"https://h/x/../../y"), b"https://h/y".to_vec());
    assert_eq!(normalize(b"/Themes/A.css"), b"/Themes/A.css".to_vec());
}

#[test]
fn normalizing_twice_changes_nothing() {
    for id in [&b"HTTP://Example.COM/a//b/../c.css"[..], b"/a/./b/..", b"", b"x", b"http://h"] {
        let once = normalize(id);
        assert_eq!(normalize(&once), once);
    }
}

#[test]
fn a_path_is_resolved_beside_its_document() {
    assert_eq!(resolve_locator(b"/themes/main.css", b"a.css"), b"/themes//a.css".to_vec());
    assert_eq!(resolve_locator(b"/themes/main.css", b"/abs.css"), b"/abs.css".to_vec());
    assert_eq!(resolve_locator(b"https://h/dir/main.css", b"/top.css"), b"https://h/top.css".to_vec());
    assert_eq!(resolve_locator(b"https://h", b"a.css"), b"https://h/a.css".to_vec());
}

#[test]
fn canonical_id_of_a_relative_target() {
    let target = ImportTarget::Relative(b"a.css".to_vec());
    assert_eq!(canonical_id(b"/themes/main.css", &target), Some(b"/themes/a.css".to_vec()));
    let target = ImportTarget::Relative(b"../x/./a.css".to_vec());
    assert_eq!(canonical_id(b"/themes/main.css", &target), Some(b"/x/a.css".to_vec()));
    let target = ImportTarget::Relative(b"sub/a.css".to_vec());
    assert_eq!(
        canonical_id(b"https://h/dir/main.css", &target),
        Some(b"https://h/dir/sub/a.css".to_vec())
    );
    let target = ImportTarget::Relative(b"/top.css".to_vec());
    assert_eq!(canonical_id(b"https://h/dir/main.css", &target), Some(b"https://h/top.css".to_vec()));
    let target = ImportTarget::Relative(b"a.css".to_vec());
    assert_eq!(canonical_id(b"main.css", &target), Some(b"/a.css".to_vec()));
}

#[test]
fn canonical_id_of_a_remote_target() {
    let target = ImportTarget::Remote(b"HTTPS://CDN.example.com/./x.css".to_vec());
    assert_eq!(
        canonical_id(b"/themes/main.css", &target),
        Some(b"https://cdn.example.com/x.css".to_vec())
    );
}

#[test]
fn a_malformed_target_has_no_identity() {
    assert_eq!(canonical_id(b"/themes/main.css", &ImportTarget::Malformed), None);
}
