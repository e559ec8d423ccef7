use theme_loader::cache::{
    cache_asset, cache_name, cache_prefix, import_directive, in_directory, plan_write,
    CachedAsset, WritePlan,
};

#[test]
fn cache_names_escape_all_but_plain_bytes() {
    assert_eq!(cache_name(b"/themes/a.css"), b"_2fthemes_2fa.css.css".to_vec());
    assert_eq!(
        cache_name(b"https://cdn.example.com/x.css"),
        b"https_3a_2f_2fcdn.example.com_2fx.css.css".to_vec()
    );
    assert_eq!(cache_name(b"A_b-c.0"), b"_41_5fb-c.0.css".to_vec());
    assert_eq!(cache_name(b""), b".css".to_vec());
    assert_eq!(cache_name(&[0u8, 255u8, 0x7f]), b"_00_ff_7f.css".to_vec());
}

#[test]
fn names_that_look_alike_differ() {
    assert_ne!(cache_name(b"/"), cache_name(b"_2f"));
    assert_ne!(cache_name(b"a"), cache_name(b"A"));
    assert_ne!(cache_name(b"a/b"), cache_name(b"a_b"));
    assert_ne!(cache_name(b"x"), cache_name(b"x.css"));
}

#[test]
fn cache_names_hold_no_slash_and_no_upper_case() {
    let name = cache_name(b"HTTPS://Example.com/../A B?c=d&e#f/_");
    assert!(name.iter().all(|b| b.is_ascii_digit() || b.is_ascii_lowercase() || b"._-".contains(b)));
    assert!(name.ends_with(b".css"));
}

#[test]
fn the_cache_prefix_ends_in_a_slash() {
    assert_eq!(cache_prefix(b"/themes/cache"), b"/themes/cache/".to_vec());
    assert_eq!(cache_prefix(b"/themes/./cache/"), b"/themes/cache/".to_vec());
    assert_eq!(cache_prefix(b"/"), b"/".to_vec());
    assert_eq!(cache_prefix(b""), b"/".to_vec());
}

#[test]
fn files_directly_in_a_directory() {
    assert!(in_directory(b"/themes/cache/", b"/themes/cache/x.css"));
    assert!(!in_directory(b"/themes/cache/", b"/themes/cache/sub/x.css"));
    assert!(!in_directory(b"/themes/cache/", b"/themes/cache/"));
    assert!(!in_directory(b"/themes/cache/", b"/themes/cache"));
    assert!(!in_directory(b"/themes/cache/", b"/themes/other/x.css"));
    assert!(!in_directory(b"/themes/cache/", b"/themes/cachex.css"));
    assert!(in_directory(b"/", b"/x.css"));
}

#[test]
fn the_directive_for_a_cache_file() {
    assert_eq!(import_directive(b"_2fa.css.css"), b"@import url(\"_2fa.css.css\")".to_vec());
}

#[test]
fn an_asset_knows_its_place_and_length() {
    let asset = cache_asset(b"/themes/cache/", b"/themes/a.css".to_vec(), b"p{color:blue}".to_vec());
    assert_eq!(
        asset,
        CachedAsset {
            canonical_id: b"/themes/a.css".to_vec(),
            local_cache_path: b"/themes/cache/_2fthemes_2fa.css.css".to_vec(),
            length: 13,
            content: b"p{color:blue}".to_vec(),
        }
    );
}

#[test]
fn a_new_asset_is_written_through_a_temporary_file() {
    let asset = cache_asset(b"/c/", b"/a.css".to_vec(), b"p{}".to_vec());
    assert_eq!(
        plan_write(&asset, None),
        WritePlan::Write {
            temporary: b"/c/_2fa.css.css.tmp".to_vec(),
            target: b"/c/_2fa.css.css".to_vec(),
        }
    );
}

#[test]
fn a_changed_asset_is_written_again() {
    let asset = cache_asset(b"/c/", b"/a.css".to_vec(), b"p{}".to_vec());
    assert_eq!(
        plan_write(&asset, Some(b"q{}")),
        WritePlan::Write {
            temporary: b"/c/_2fa.css.css.tmp".to_vec(),
            target: b"/c/_2fa.css.css".to_vec(),
        }
    );
    assert!(matches!(plan_write(&asset, Some(b"")), WritePlan::Write { .. }));
}

#[test]
fn an_unchanged_asset_is_not_written() {
    let asset = cache_asset(b"/c/", b"/a.css".to_vec(), b"p{}".to_vec());
    assert_eq!(plan_write(&asset, Some(b"p{}")), WritePlan::Keep);
}
