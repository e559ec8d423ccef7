use theme_loader::error::ErrorKind;
use theme_loader::theme::{
    file_name, first_stylesheet, is_reserved_name, is_stylesheet, is_theme_entry, join_path,
    list_themes, plan_download, resolve, theme_name, Download, Probe, ResolvedTheme, ThemeError,
};

fn names(list: &[&str]) -> Vec<Vec<u8>> {
    list.iter().map(|s| s.as_bytes().to_vec()).collect()
}

fn strings(list: &[&str]) -> Vec<String> {
    list.iter().map(|s| s.to_string()).collect()
}

#[test]
fn theme_name_is_what_follows_the_last_slash() {
    assert_eq!(theme_name(b"https://example.com/themes/dark.css"), b"dark.css".to_vec());
    assert_eq!(theme_name(b"dark"), b"dark".to_vec());
    assert_eq!(theme_name(b"a/b/"), Vec::<u8>::new());
    assert_eq!(theme_name(b""), Vec::<u8>::new());
    assert_eq!(theme_name(b"/"), Vec::<u8>::new());
}

#[test]
fn file_name_gets_the_suffix_once() {
    assert_eq!(file_name(b"dark"), b"dark.css".to_vec());
    assert_eq!(file_name(b"dark.css"), b"dark.css".to_vec());
    assert_eq!(file_name(b"dark.CSS"), b"dark.CSS.css".to_vec());
    assert_eq!(file_name(b"css"), b"css.css".to_vec());
    assert_eq!(file_name(b".css"), b".css".to_vec());
}

#[test]
fn a_link_without_a_name_is_not_downloaded() {
    assert_eq!(plan_download(b"https://example.com/themes/"), None);
    assert_eq!(plan_download(b""), None);
}

#[test]
fn a_link_with_a_name_is_downloaded_under_it() {
    assert_eq!(
        plan_download(b"https://example.com/themes/nord"),
        Some(Download { theme_name: b"nord".to_vec(), file_name: b"nord.css".to_vec() })
    );
    assert_eq!(
        plan_download(b"https://example.com/nord.css"),
        Some(Download { theme_name: b"nord.css".to_vec(), file_name: b"nord.css".to_vec() })
    );
}

#[test]
fn stylesheet_names_end_in_css() {
    assert!(is_stylesheet(b"a.css"));
    assert!(is_stylesheet(b".css"));
    assert!(!is_stylesheet(b"a.CSS"));
    assert!(!is_stylesheet(b"css"));
    assert!(!is_stylesheet(b"a.css.bak"));
}

#[test]
fn paths_are_joined_with_one_slash() {
    assert_eq!(join_path(b"/themes", b"dark"), b"/themes/dark".to_vec());
    assert_eq!(join_path(b"/themes/", b"dark"), b"/themes/dark".to_vec());
    assert_eq!(join_path(b"", b"dark"), b"dark".to_vec());
}

#[test]
fn first_stylesheet_is_first_by_name() {
    let entries = names(&["z.css", "readme.md", "b.css", "a.txt", "m.css"]);
    assert_eq!(first_stylesheet(&entries), Some(2));
    let entries = names(&["b.css", "B.css", "a.CSS"]);
    assert_eq!(first_stylesheet(&entries), Some(1));
    let entries = names(&["ab.css", "a.css"]);
    assert_eq!(first_stylesheet(&entries), Some(1));
}

#[test]
fn first_stylesheet_of_equal_names_is_the_earliest() {
    let entries = names(&["x.css", "a.css", "a.css"]);
    assert_eq!(first_stylesheet(&entries), Some(1));
}

#[test]
fn no_stylesheet_among_other_files() {
    assert_eq!(first_stylesheet(&names(&["readme.md", "logo.png"])), None);
    assert_eq!(first_stylesheet(&names(&[])), None);
}

#[test]
fn a_file_resolves_to_itself() {
    assert_eq!(
        resolve(b"/themes", b"dark.css", &Probe::File),
        Ok(ResolvedTheme::File(b"/themes/dark.css".to_vec()))
    );
}

#[test]
fn a_directory_resolves_to_its_first_stylesheet() {
    let probe = Probe::Directory(names(&["notes.txt", "style.css", "extra.css"]));
    assert_eq!(
        resolve(b"/themes", b"dark", &probe),
        Ok(ResolvedTheme::File(b"/themes/dark/extra.css".to_vec()))
    );
}

#[test]
fn a_directory_without_stylesheets_is_an_empty_theme() {
    let probe = Probe::Directory(names(&["notes.txt", "logo.png"]));
    assert_eq!(resolve(b"/themes", b"dark", &probe), Ok(ResolvedTheme::Empty));
    let probe = Probe::Directory(Vec::new());
    assert_eq!(resolve(b"/themes", b"anything", &probe), Ok(ResolvedTheme::Empty));
}

#[test]
fn an_unreadable_place_is_an_io_error_with_its_path() {
    assert_eq!(
        resolve(b"/themes", b"gone", &Probe::Unreadable),
        Err(ThemeError { kind: ErrorKind::Io, location: b"/themes/gone".to_vec() })
    );
}

#[test]
fn reserved_names_are_the_two_lower_case_ones() {
    assert!(is_reserved_name("cache"));
    assert!(is_reserved_name(".ds_store"));
    assert!(!is_reserved_name("Cache"));
    assert!(!is_reserved_name("cache2"));
    assert!(!is_reserved_name(""));
}

#[test]
fn entries_are_compared_in_lower_case() {
    assert!(!is_theme_entry("Cache"));
    assert!(!is_theme_entry("CACHE"));
    assert!(!is_theme_entry(".DS_Store"));
    assert!(is_theme_entry("dark"));
    assert!(is_theme_entry("cache.css"));
}

#[test]
fn themes_are_all_entries_but_the_reserved() {
    let entries = strings(&["Dark", "cache", "notes.txt", ".DS_Store", "CACHE", "light.css"]);
    assert_eq!(list_themes(&entries), strings(&["Dark", "notes.txt", "light.css"]));
    assert_eq!(list_themes(&Vec::new()), Vec::<String>::new());
}
