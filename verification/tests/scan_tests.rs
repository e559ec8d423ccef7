use theme_loader::scan::{classify, next_import, scan, ImportReference, ImportTarget};

fn relative(path: &str, start: usize, end: usize) -> ImportReference {
    ImportReference { target: ImportTarget::Relative(path.as_bytes().to_vec()), start, end }
}

fn remote(url: &str, start: usize, end: usize) -> ImportReference {
    ImportReference { target: ImportTarget::Remote(url.as_bytes().to_vec()), start, end }
}

fn malformed(start: usize) -> ImportReference {
    ImportReference { target: ImportTarget::Malformed, start, end: start + 7 }
}

#[test]
fn scans_a_quoted_url() {
    let css = b"@import url(\"a.css\"); body{color:red}";
    assert_eq!(scan(css), vec![relative("a.css", 0, 20)]);
    assert_eq!(&css[0..20], b"@import url(\"a.css\")");
}

#[test]
fn scans_a_bare_string() {
    assert_eq!(scan(b"@import \"b.css\";"), vec![relative("b.css", 0, 15)]);
    assert_eq!(scan(b"@import 'b.css';"), vec![relative("b.css", 0, 15)]);
    assert_eq!(scan(b"@import\"b.css\";"), vec![relative("b.css", 0, 14)]);
}

#[test]
fn scans_an_unquoted_url() {
    assert_eq!(scan(b"@import url(c.css);"), vec![relative("c.css", 0, 18)]);
    assert_eq!(scan(b"@import url(  c.css  );"), vec![relative("c.css", 0, 22)]);
}

#[test]
fn scans_a_url_with_space_inside() {
    assert_eq!(scan(b"@import url( 'd.css' ) screen;"), vec![relative("d.css", 0, 22)]);
}

#[test]
fn keyword_and_url_in_any_case() {
    assert_eq!(scan(b"@IMPORT URL(e.css);"), vec![relative("e.css", 0, 18)]);
    assert_eq!(scan(b"@ImPoRt \"e.css\";"), vec![relative("e.css", 0, 15)]);
}

#[test]
fn remote_targets_are_told_apart() {
    let css = b"@import url(\"https://cdn.example.com/x.css\");";
    assert_eq!(scan(css), vec![remote("https://cdn.example.com/x.css", 0, 44)]);
    assert_eq!(scan(b"@import 'HTTP://h/y.css';"), vec![remote("HTTP://h/y.css", 0, 24)]);
    assert_eq!(scan(b"@import 'ftp://h/y.css';"), vec![relative("ftp://h/y.css", 0, 23)]);
}

#[test]
fn directives_come_in_document_order() {
    let css = b"@import 'a.css';\n@import url(b.css);\nbody{}\n@import \"c.css\";";
    assert_eq!(
        scan(css),
        vec![relative("a.css", 0, 15), relative("b.css", 17, 35), relative("c.css", 44, 59)]
    );
}

#[test]
fn nothing_is_found_in_a_comment() {
    assert_eq!(scan(b"/* @import \"x.css\"; */ body{}"), Vec::new());
    assert_eq!(scan(b"/* unterminated @import 'x.css';"), Vec::new());
    assert_eq!(scan(b"/**/@import 'x.css';"), vec![relative("x.css", 4, 19)]);
    assert_eq!(scan(b"/*/ @import 'x.css'; */"), Vec::new());
}

#[test]
fn nothing_is_found_in_a_string() {
    assert_eq!(scan(b"a{content:\"@import 'x.css'\"}"), Vec::new());
    assert_eq!(scan(b"a{content:'@import \"x.css\"'}"), Vec::new());
    assert_eq!(scan(b"a{content:\"\\\"@import 'x.css'\"}"), Vec::new());
}

#[test]
fn a_string_ends_with_its_line() {
    let css = b"a{content:\"open\n@import 'x.css';";
    assert_eq!(scan(css), vec![relative("x.css", 16, 31)]);
}

#[test]
fn a_directive_without_target_is_malformed() {
    assert_eq!(scan(b"@import;"), vec![malformed(0)]);
    assert_eq!(scan(b"@import"), vec![malformed(0)]);
    assert_eq!(scan(b"@import screen;"), vec![malformed(0)]);
    assert_eq!(scan(b"@import \"\";"), vec![malformed(0)]);
    assert_eq!(scan(b"@import url();"), vec![malformed(0)]);
    assert_eq!(scan(b"@import url(a.css"), vec![malformed(0)]);
    assert_eq!(scan(b"@import \"open"), vec![malformed(0)]);
    assert_eq!(scan(b"@import url(\"a.css\";"), vec![malformed(0)]);
}

#[test]
fn a_malformed_directive_does_not_hide_the_next() {
    let css = b"@import ;@import 'a.css';";
    assert_eq!(scan(css), vec![malformed(0), relative("a.css", 9, 24)]);
}

#[test]
fn a_longer_keyword_is_no_import() {
    assert_eq!(scan(b"@imports \"x.css\";"), Vec::new());
    assert_eq!(scan(b"@import-x \"x.css\";"), Vec::new());
    assert_eq!(scan(b"@importurl(x.css);"), Vec::new());
    assert_eq!(scan(b"@media screen { a{} }"), Vec::new());
}

#[test]
fn text_without_directives_has_none() {
    assert_eq!(scan(b""), Vec::new());
    assert_eq!(scan(b"body{color:red}"), Vec::new());
}

#[test]
fn scanning_again_gives_the_same() {
    let css = b"@import 'a.css'; /* c */ @import url(b.css); x{}";
    assert_eq!(scan(css), scan(css));
}

#[test]
fn byte_range_is_start_and_end() {
    let refs = scan(b"  @import 'a.css';");
    assert_eq!(refs.len(), 1);
    assert_eq!(refs[0].byte_range(), (2, 17));
}

#[test]
fn classifies_targets() {
    assert_eq!(classify(b""), ImportTarget::Malformed);
    assert_eq!(classify(b"a.css"), ImportTarget::Relative(b"a.css".to_vec()));
    assert_eq!(classify(b"http://h/a.css"), ImportTarget::Remote(b"http://h/a.css".to_vec()));
    assert_eq!(classify(b"https://h/a.css"), ImportTarget::Remote(b"https://h/a.css".to_vec()));
    assert_eq!(classify(b"http:/h"), ImportTarget::Relative(b"http:/h".to_vec()));
}

#[test]
fn directives_are_found_one_by_one() {
    let css = b"a{} @import 'a.css'; /* @import 'no.css'; */ @import url(b.css); b{}";
    let first = next_import(css, 0);
    assert_eq!(first, Some(relative("a.css", 4, 19)));
    let second = next_import(css, 19);
    assert_eq!(second, Some(relative("b.css", 45, 63)));
    assert_eq!(next_import(css, 63), None);
    assert_eq!(next_import(css, 4), first);
    assert_eq!(next_import(css, css.len()), None);
    assert_eq!(next_import(css, css.len() + 10), None);
}
