use theme_loader::cache::CachedAsset;
use theme_loader::error::ErrorKind;
use theme_loader::localize::{is_localized, localize, Failure, LocalizationResult};
use theme_loader::scan::{ImportReference, ImportTarget};
use theme_loader::sources::{Fetched, Sources};

const ROOT: &[u8] = b"/themes/main.css";
const CACHE: &[u8] = b"/themes/cache";

fn bytes(s: &str) -> Vec<u8> {
    s.as_bytes().to_vec()
}

fn content(sources: &mut Sources, id: &str, css: &str) {
    sources.record(bytes(id), Fetched::Content(bytes(css)));
}

fn failed(sources: &mut Sources, id: &str, kind: ErrorKind, detail: &str) {
    sources.record(bytes(id), Fetched::Failed { kind, detail: bytes(detail) });
}

fn asset(id: &str, path: &str, css: &str) -> CachedAsset {
    CachedAsset {
        canonical_id: bytes(id),
        local_cache_path: bytes(path),
        length: css.len(),
        content: bytes(css),
    }
}

fn relative(path: &str, start: usize, end: usize) -> ImportReference {
    ImportReference { target: ImportTarget::Relative(bytes(path)), start, end }
}

#[test]
fn a_document_without_imports_is_unchanged() {
    let css = b"body{color:red} /* @import 'x.css'; */";
    let result = localize(css, ROOT, CACHE, &Sources::new());
    assert_eq!(
        result,
        LocalizationResult {
            rewritten_css: css.to_vec(),
            assets: Vec::new(),
            failures: Vec::new(),
            pending: Vec::new(),
        }
    );
    assert!(result.is_final());
}

#[test]
fn an_empty_document_is_unchanged() {
    let mut sources = Sources::new();
    content(&mut sources, "/themes/a.css", "p{}");
    let result = localize(b"", ROOT, CACHE, &sources);
    assert_eq!(result.rewritten_css, Vec::<u8>::new());
    assert!(result.assets.is_empty() && result.failures.is_empty() && result.pending.is_empty());
}

#[test]
fn one_import_gives_one_asset_and_a_rewritten_root() {
    let css = b"@import url(\"a.css\"); body{color:red}";
    let mut sources = Sources::new();
    content(&mut sources, "/themes/a.css", "p{color:blue}");
    let result = localize(css, ROOT, CACHE, &sources);
    assert_eq!(
        result,
        LocalizationResult {
            rewritten_css: bytes("@import url(\"_2fthemes_2fa.css.css\"); body{color:red}"),
            assets: vec![asset(
                "/themes/a.css",
                "/themes/cache/_2fthemes_2fa.css.css",
                "p{color:blue}"
            )],
            failures: Vec::new(),
            pending: Vec::new(),
        }
    );
    assert_eq!(
        result.document(ROOT, CACHE),
        asset(
            "/themes/main.css",
            "/themes/cache/_2fthemes_2fmain.css.css",
            "@import url(\"_2fthemes_2fa.css.css\"); body{color:red}"
        )
    );
}

#[test]
fn an_unknown_import_is_pending_and_left_alone() {
    let css = b"@import url(\"a.css\"); body{color:red}";
    let result = localize(css, ROOT, CACHE, &Sources::new());
    assert_eq!(
        result,
        LocalizationResult {
            rewritten_css: css.to_vec(),
            assets: Vec::new(),
            failures: Vec::new(),
            pending: vec![bytes("/themes/a.css")],
        }
    );
    assert!(!result.is_final());
}

#[test]
fn pending_names_each_identity_once() {
    let css = b"@import 'a.css'; @import './a.css'; @import 'b.css'; @import 'x/../a.css';";
    let result = localize(css, ROOT, CACHE, &Sources::new());
    assert_eq!(result.pending, vec![bytes("/themes/a.css"), bytes("/themes/b.css")]);
}

#[test]
fn pending_is_found_level_by_level() {
    let css = b"@import 'a.css';";
    let mut sources = Sources::new();
    assert_eq!(localize(css, ROOT, CACHE, &sources).pending, vec![bytes("/themes/a.css")]);
    content(&mut sources, "/themes/a.css", "@import 'sub/b.css';");
    assert_eq!(localize(css, ROOT, CACHE, &sources).pending, vec![bytes("/themes/sub/b.css")]);
    content(&mut sources, "/themes/sub/b.css", "b{}");
    let result = localize(css, ROOT, CACHE, &sources);
    assert!(result.is_final());
    assert_eq!(
        result.assets,
        vec![
            asset("/themes/sub/b.css", "/themes/cache/_2fthemes_2fsub_2fb.css.css", "b{}"),
            asset(
                "/themes/a.css",
                "/themes/cache/_2fthemes_2fa.css.css",
                "@import url(\"_2fthemes_2fsub_2fb.css.css\");"
            ),
        ]
    );
    assert_eq!(result.rewritten_css, bytes("@import url(\"_2fthemes_2fa.css.css\");"));
}

#[test]
fn a_localized_document_is_left_as_it_is() {
    let css = b"@import url(\"a.css\"); body{color:red}";
    let mut sources = Sources::new();
    content(&mut sources, "/themes/a.css", "p{color:blue}");
    let first = localize(css, ROOT, CACHE, &sources);
    let stored = first.document(ROOT, CACHE);
    let second = localize(&first.rewritten_css, &stored.local_cache_path, CACHE, &Sources::new());
    assert_eq!(
        second,
        LocalizationResult {
            rewritten_css: first.rewritten_css.clone(),
            assets: Vec::new(),
            failures: Vec::new(),
            pending: Vec::new(),
        }
    );
    let third = localize(&first.rewritten_css, &stored.local_cache_path, CACHE, &sources);
    assert_eq!(third, second);
}

#[test]
fn a_cycle_of_two_documents_ends() {
    let a = b"@import \"b.css\";";
    let mut sources = Sources::new();
    content(&mut sources, "/t/b.css", "@import \"a.css\"; b{}");
    content(&mut sources, "/t/a.css", "@import \"b.css\";");
    let result = localize(a, b"/t/a.css", b"/t/cache", &sources);
    assert_eq!(
        result,
        LocalizationResult {
            rewritten_css: bytes("@import url(\"_2ft_2fb.css.css\");"),
            assets: vec![asset(
                "/t/b.css",
                "/t/cache/_2ft_2fb.css.css",
                "@import \"a.css\"; b{}"
            )],
            failures: vec![Failure {
                document: bytes("/t/b.css"),
                reference: relative("a.css", 0, 15),
                resource: bytes("/t/a.css"),
                kind: ErrorKind::CyclicImport,
                detail: Vec::new(),
            }],
            pending: Vec::new(),
        }
    );
}

#[test]
fn a_document_that_imports_itself_is_a_cycle() {
    let css = b"@import './main.css'; a{}";
    let mut sources = Sources::new();
    content(&mut sources, "/themes/main.css", "@import './main.css'; a{}");
    let result = localize(css, ROOT, CACHE, &sources);
    assert_eq!(result.rewritten_css, css.to_vec());
    assert!(result.assets.is_empty());
    assert_eq!(result.failures.len(), 1);
    assert_eq!(result.failures[0].kind, ErrorKind::CyclicImport);
    assert_eq!(result.failures[0].document, ROOT.to_vec());
    assert_eq!(result.failures[0].resource, ROOT.to_vec());
}

#[test]
fn a_longer_cycle_ends_too() {
    let mut sources = Sources::new();
    content(&mut sources, "/t/b.css", "@import 'c.css';");
    content(&mut sources, "/t/c.css", "@import 'd.css';");
    content(&mut sources, "/t/d.css", "@import 'b.css'; @import 'a.css';");
    let result = localize(b"@import 'b.css';", b"/t/a.css", b"/t/cache", &sources);
    let ids: Vec<Vec<u8>> = result.assets.iter().map(|a| a.canonical_id.clone()).collect();
    assert_eq!(ids, vec![bytes("/t/d.css"), bytes("/t/c.css"), bytes("/t/b.css")]);
    let kinds: Vec<ErrorKind> = result.failures.iter().map(|f| f.kind).collect();
    assert_eq!(kinds, vec![ErrorKind::CyclicImport, ErrorKind::CyclicImport]);
    let targets: Vec<Vec<u8>> = result.failures.iter().map(|f| f.resource.clone()).collect();
    assert_eq!(targets, vec![bytes("/t/b.css"), bytes("/t/a.css")]);
    assert_eq!(result.assets[0].content, bytes("@import 'b.css'; @import 'a.css';"));
}

#[test]
fn the_same_url_twice_is_one_asset() {
    let css = b"@import url(\"https://cdn.example.com/x.css\");\n@import url(\"HTTPS://CDN.example.com/./x.css\");";
    let unknown = localize(css, ROOT, CACHE, &Sources::new());
    assert_eq!(unknown.pending, vec![bytes("https://cdn.example.com/x.css")]);
    let mut sources = Sources::new();
    content(&mut sources, "https://cdn.example.com/x.css", "x{}");
    let result = localize(css, ROOT, CACHE, &sources);
    assert_eq!(
        result.assets,
        vec![asset(
            "https://cdn.example.com/x.css",
            "/themes/cache/https_3a_2f_2fcdn.example.com_2fx.css.css",
            "x{}"
        )]
    );
    assert_eq!(
        result.rewritten_css,
        bytes("@import url(\"https_3a_2f_2fcdn.example.com_2fx.css.css\");\n@import url(\"https_3a_2f_2fcdn.example.com_2fx.css.css\");")
    );
    assert!(result.failures.is_empty());
}

#[test]
fn a_shared_import_is_cached_once() {
    let css = b"@import 'b.css'; @import 'c.css';";
    let mut sources = Sources::new();
    content(&mut sources, "/themes/b.css", "@import 'd.css'; b{}");
    content(&mut sources, "/themes/c.css", "@import 'd.css'; c{}");
    content(&mut sources, "/themes/d.css", "d{}");
    let result = localize(css, ROOT, CACHE, &sources);
    assert_eq!(
        result.assets,
        vec![
            asset("/themes/d.css", "/themes/cache/_2fthemes_2fd.css.css", "d{}"),
            asset(
                "/themes/b.css",
                "/themes/cache/_2fthemes_2fb.css.css",
                "@import url(\"_2fthemes_2fd.css.css\"); b{}"
            ),
            asset(
                "/themes/c.css",
                "/themes/cache/_2fthemes_2fc.css.css",
                "@import url(\"_2fthemes_2fd.css.css\"); c{}"
            ),
        ]
    );
    assert_eq!(
        result.rewritten_css,
        bytes("@import url(\"_2fthemes_2fb.css.css\"); @import url(\"_2fthemes_2fc.css.css\");")
    );
}

#[test]
fn the_same_input_gives_the_same_output() {
    let css = b"@import 'b.css'; @import url(https://h/c.css); @import 'gone.css';";
    let mut sources = Sources::new();
    content(&mut sources, "/themes/b.css", "@import 'd.css'; b{}");
    content(&mut sources, "https://h/c.css", "@import 'e.css'; c{}");
    content(&mut sources, "https://h/e.css", "e{}");
    failed(&mut sources, "/themes/gone.css", ErrorKind::Io, "not found");
    let first = localize(css, ROOT, CACHE, &sources);
    let second = localize(css, ROOT, CACHE, &sources.clone());
    assert_eq!(first, second);
    assert_eq!(first.pending, vec![bytes("/themes/d.css")]);
}

#[test]
fn one_failed_import_leaves_the_others_rewritten() {
    let css = b"@import 'a.css';\n@import url(\"https://h/b.css\") screen;\n@import 'c.css';\nbody{}";
    let mut sources = Sources::new();
    content(&mut sources, "/themes/a.css", "a{}");
    failed(&mut sources, "https://h/b.css", ErrorKind::Network, "404");
    content(&mut sources, "/themes/c.css", "c{}");
    let result = localize(css, ROOT, CACHE, &sources);
    assert_eq!(
        result.rewritten_css,
        bytes("@import url(\"_2fthemes_2fa.css.css\");\n@import url(\"https://h/b.css\") screen;\n@import url(\"_2fthemes_2fc.css.css\");\nbody{}")
    );
    assert_eq!(
        result.assets,
        vec![
            asset("/themes/a.css", "/themes/cache/_2fthemes_2fa.css.css", "a{}"),
            asset("/themes/c.css", "/themes/cache/_2fthemes_2fc.css.css", "c{}"),
        ]
    );
    assert_eq!(
        result.failures,
        vec![Failure {
            document: ROOT.to_vec(),
            reference: ImportReference {
                target: ImportTarget::Remote(bytes("https://h/b.css")),
                start: 17,
                end: 47,
            },
            resource: bytes("https://h/b.css"),
            kind: ErrorKind::Network,
            detail: bytes("404"),
        }]
    );
    assert!(result.is_final());
}

#[test]
fn a_failure_is_noted_at_each_directive_that_meets_it() {
    let css = b"@import 'gone.css'; @import 'gone.css';";
    let mut sources = Sources::new();
    failed(&mut sources, "/themes/gone.css", ErrorKind::Io, "denied");
    let result = localize(css, ROOT, CACHE, &sources);
    assert_eq!(result.rewritten_css, css.to_vec());
    assert_eq!(result.failures.len(), 2);
    assert_eq!(result.failures[0].reference, relative("gone.css", 0, 18));
    assert_eq!(result.failures[1].reference, relative("gone.css", 20, 38));
    assert_eq!(result.failures[1].kind, ErrorKind::Io);
    assert_eq!(result.failures[1].detail, bytes("denied"));
}

#[test]
fn an_asset_that_could_not_be_stored_is_not_presented() {
    let css = b"@import 'a.css'; @import 'b.css';";
    let mut sources = Sources::new();
    content(&mut sources, "/themes/a.css", "a{}");
    content(&mut sources, "/themes/b.css", "b{}");
    assert_eq!(localize(css, ROOT, CACHE, &sources).assets.len(), 2);
    failed(&mut sources, "/themes/a.css", ErrorKind::Io, "disk full");
    let result = localize(css, ROOT, CACHE, &sources);
    assert_eq!(result.rewritten_css, bytes("@import 'a.css'; @import url(\"_2fthemes_2fb.css.css\");"));
    assert_eq!(result.assets, vec![asset("/themes/b.css", "/themes/cache/_2fthemes_2fb.css.css", "b{}")]);
    assert_eq!(result.failures.len(), 1);
    assert_eq!(result.failures[0].kind, ErrorKind::Io);
    assert_eq!(result.failures[0].resource, bytes("/themes/a.css"));
}

#[test]
fn a_malformed_directive_is_a_failure_and_stays() {
    let css = b"@import ; @import 'a.css';";
    let mut sources = Sources::new();
    content(&mut sources, "/themes/a.css", "a{}");
    let result = localize(css, ROOT, CACHE, &sources);
    assert_eq!(result.rewritten_css, bytes("@import ; @import url(\"_2fthemes_2fa.css.css\");"));
    assert_eq!(
        result.failures,
        vec![Failure {
            document: ROOT.to_vec(),
            reference: ImportReference { target: ImportTarget::Malformed, start: 0, end: 7 },
            resource: Vec::new(),
            kind: ErrorKind::MalformedImport,
            detail: Vec::new(),
        }]
    );
}

#[test]
fn a_failure_below_is_noted_with_its_document() {
    let css = b"@import 'a.css';";
    let mut sources = Sources::new();
    content(&mut sources, "https://h/x/b.css", "unused{}");
    content(&mut sources, "/themes/a.css", "@import url(https://h/x/gone.css); a{}");
    failed(&mut sources, "https://h/x/gone.css", ErrorKind::Network, "timeout");
    let result = localize(css, ROOT, CACHE, &sources);
    assert_eq!(
        result.assets,
        vec![asset(
            "/themes/a.css",
            "/themes/cache/_2fthemes_2fa.css.css",
            "@import url(https://h/x/gone.css); a{}"
        )]
    );
    assert_eq!(result.failures.len(), 1);
    assert_eq!(result.failures[0].document, bytes("/themes/a.css"));
    assert_eq!(result.failures[0].kind, ErrorKind::Network);
}

#[test]
fn imports_of_a_remote_document_are_remote() {
    let css = b"@import 'parts/a.css'; @import '/base.css';";
    let mut sources = Sources::new();
    content(&mut sources, "https://h/themes/parts/a.css", "a{}");
    content(&mut sources, "https://h/base.css", "base{}");
    let result = localize(css, b"https://H/themes/nord.css", CACHE, &sources);
    let ids: Vec<Vec<u8>> = result.assets.iter().map(|a| a.canonical_id.clone()).collect();
    assert_eq!(ids, vec![bytes("https://h/themes/parts/a.css"), bytes("https://h/base.css")]);
    assert!(result.is_final());
}

#[test]
fn the_later_record_counts() {
    let mut sources = Sources::new();
    failed(&mut sources, "/themes/a.css", ErrorKind::Io, "first");
    content(&mut sources, "/themes/a.css", "a{}");
    assert_eq!(sources.lookup(b"/themes/a.css"), Some(&Fetched::Content(bytes("a{}"))));
    assert_eq!(sources.lookup(b"/themes/b.css"), None);
    assert!(sources.knows(b"/themes/a.css"));
    assert!(!sources.knows(b"/themes/A.css"));
    let result = localize(b"@import 'a.css';", ROOT, CACHE, &sources);
    assert_eq!(result.assets.len(), 1);
}

#[test]
fn a_localized_document_is_known_as_such() {
    let css = b"@import url(\"a.css\"); body{color:red}";
    assert!(!is_localized(css, ROOT, CACHE));
    let mut sources = Sources::new();
    content(&mut sources, "/themes/a.css", "p{color:blue}");
    let first = localize(css, ROOT, CACHE, &sources);
    let stored = first.document(ROOT, CACHE);
    assert!(is_localized(&first.rewritten_css, &stored.local_cache_path, CACHE));
    assert!(!is_localized(&first.rewritten_css, ROOT, CACHE));
    assert!(is_localized(b"body{}", ROOT, CACHE));
    assert!(!is_localized(b"@import;", &stored.local_cache_path, CACHE));
    assert!(!is_localized(b"@import 'sub/x.css';", &stored.local_cache_path, CACHE));
}
