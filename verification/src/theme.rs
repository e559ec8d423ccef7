//! Themes on disk: which file holds a theme's stylesheet, which directory
//! entries are themes, and under which name a downloaded theme is stored.

use vstd::prelude::*;
use vstd::string::StringExecFns;
use crate::error::ErrorKind;
use crate::text::{copy_of, copy_range, css_suffix, css_suffix_bytes, ends_with,
    find_segment_start, lemma_lex_le_antisymmetric, lemma_lex_le_total, lemma_lex_le_transitive,
    lemma_views_push, lex_le, lex_no_later, push_all, segment_start, views, SLASH};

verus! {

/// Whether a file name is that of a stylesheet.
pub open spec fn is_stylesheet_name(name: Seq<u8>) -> bool {
    css_suffix().is_suffix_of(name)
}

/// What follows the last slash of `link`.
pub open spec fn last_segment(link: Seq<u8>) -> Seq<u8> {
    link.subrange(segment_start(link), link.len() as int)
}

/// The file name under which a theme of this name is stored: the name itself
/// where it already ends in `.css`, else the name with `.css` added.
pub open spec fn stored_name(theme_name: Seq<u8>) -> Seq<u8> {
    if is_stylesheet_name(theme_name) {
        theme_name
    } else {
        theme_name + css_suffix()
    }
}

/// `root` and `name` as one path, with one slash between them unless `root`
/// is empty or brings its own.
pub open spec fn joined_path(root: Seq<u8>, name: Seq<u8>) -> Seq<u8> {
    if root.len() == 0 {
        name
    } else if root.last() == SLASH {
        root + name
    } else {
        root + seq![SLASH] + name
    }
}

/// Whether some entry is a stylesheet.
pub open spec fn has_stylesheet(names: Seq<Seq<u8>>) -> bool {
    exists|k: int| 0 <= k < names.len() && is_stylesheet_name(#[trigger] names[k])
}

/// Whether entry `k` is the stylesheet that stands first when the entries are
/// put in lexicographic order; among equal names, the earliest entry.
pub open spec fn is_first_stylesheet(names: Seq<Seq<u8>>, k: int) -> bool {
    &&& 0 <= k < names.len()
    &&& is_stylesheet_name(names[k])
    &&& forall|j: int|
        0 <= j < names.len() && is_stylesheet_name(#[trigger] names[j]) ==> lex_le(
            names[k],
            names[j],
        )
    &&& forall|j: int|
        0 <= j < k && is_stylesheet_name(#[trigger] names[j]) ==> names[j] != names[k]
}

/// A directory holds at most one first stylesheet.
pub proof fn lemma_first_stylesheet_unique(names: Seq<Seq<u8>>, k: int, m: int)
    requires
        is_first_stylesheet(names, k),
        is_first_stylesheet(names, m),
    ensures
        k == m,
{
    lemma_lex_le_antisymmetric(names[k], names[m]);
}

/// What a caller found at the place where a theme should be.
#[derive(Clone, Debug, PartialEq, Eq)]
pub enum Probe {
    /// Nothing that could be read.
    Unreadable,
    /// A regular file.
    File,
    /// A directory, with the names of its entries in any order.
    Directory(Vec<Vec<u8>>),
}

/// Where the stylesheet of a theme is.
#[derive(Clone, Debug, PartialEq, Eq)]
pub enum ResolvedTheme {
    /// In the file at this path.
    File(Vec<u8>),
    /// Nowhere yet: the theme is an empty document.
    Empty,
}

/// A failure, with the path or URL that it concerns.
#[derive(Clone, Debug, PartialEq, Eq)]
pub struct ThemeError {
    pub kind: ErrorKind,
    pub location: Vec<u8>,
}

/// What `resolve` owes for a theme at `path`.
pub open spec fn resolves_to(
    path: Seq<u8>,
    probe: Probe,
    outcome: Result<ResolvedTheme, ThemeError>,
) -> bool {
    match probe {
        Probe::Unreadable => match outcome {
            Err(e) => e.kind == ErrorKind::Io && e.location@ == path,
            Ok(_) => false,
        },
        Probe::File => match outcome {
            Ok(ResolvedTheme::File(p)) => p@ == path,
            _ => false,
        },
        Probe::Directory(entries) => match outcome {
            Ok(ResolvedTheme::File(p)) => exists|k: int|
                is_first_stylesheet(views(entries@), k) && p@ == joined_path(
                    path,
                    #[trigger] views(entries@)[k],
                ),
            Ok(ResolvedTheme::Empty) => !has_stylesheet(views(entries@)),
            Err(_) => false,
        },
    }
}

/// The name under which a theme is downloaded and the file it is stored in.
#[derive(Clone, Debug, PartialEq, Eq)]
pub struct Download {
    pub theme_name: Vec<u8>,
    pub file_name: Vec<u8>,
}

/// What `str::to_lowercase` returns for a string.
pub uninterp spec fn lowercase_of(name: Seq<char>) -> Seq<char>;

/// Whether a lower-cased entry name is one of the two that are never themes.
pub open spec fn is_reserved(lowered: Seq<char>) -> bool {
    lowered == "cache"@ || lowered == ".ds_store"@
}

/// Whether an entry of the themes directory is listed as a theme.
pub open spec fn is_listed(name: Seq<char>) -> bool {
    !is_reserved(lowercase_of(name))
}

/// The listed names among `names`, in their order.
pub open spec fn listed(names: Seq<Seq<char>>) -> Seq<Seq<char>>
    decreases names.len(),
{
    if names.len() == 0 {
        names
    } else if is_listed(names.last()) {
        listed(names.drop_last()).push(names.last())
    } else {
        listed(names.drop_last())
    }
}

/// Calls `str::to_lowercase`, which maps every character to its lower-case
/// form by the Unicode tables that std was built with. The result is not
/// described here, only named.
#[verifier::external_body]
fn lowercase(name: &str) -> (r: String)
    ensures
        r@ == lowercase_of(name@),
{
    name.to_lowercase()
}

/// Whether a file name ends in `.css`.
pub fn is_stylesheet(name: &[u8]) -> (r: bool)
    ensures
        r == is_stylesheet_name(name@),
{
    let suffix = css_suffix_bytes();
    ends_with(name, suffix.as_slice())
}

/// The name of the theme that a link leads to: what follows its last slash.
pub fn theme_name(link: &[u8]) -> (name: Vec<u8>)
    ensures
        name@ == last_segment(link@),
{
    let start = find_segment_start(link);
    copy_range(link, start, link.len())
}

/// The file name under which a theme is stored.
pub fn file_name(theme_name: &[u8]) -> (name: Vec<u8>)
    ensures
        name@ == stored_name(theme_name@),
{
    let mut name = copy_of(theme_name);
    if !is_stylesheet(theme_name) {
        let suffix = css_suffix_bytes();
        push_all(&mut name, suffix.as_slice());
    }
    name
}

/// What to download for a link: nothing where the link names no theme, which
/// is when nothing follows its last slash.
pub fn plan_download(link: &[u8]) -> (plan: Option<Download>)
    ensures
        plan is None <==> last_segment(link@).len() == 0,
        plan matches Some(d) ==> d.theme_name@ == last_segment(link@) && d.file_name@
            == stored_name(last_segment(link@)),
{
    let theme_name = theme_name(link);
    if theme_name.len() == 0 {
        return None;
    }
    let file_name = file_name(theme_name.as_slice());
    Some(Download { theme_name, file_name })
}

/// `root` and `name` as one path.
pub fn join_path(root: &[u8], name: &[u8]) -> (path: Vec<u8>)
    ensures
        path@ == joined_path(root@, name@),
{
    let mut path = copy_of(root);
    if root.len() > 0 && root[root.len() - 1] != SLASH {
        path.push(SLASH);
        assert(path@ =~= root@ + seq![SLASH]);
    }
    push_all(&mut path, name);
    assert(root@.len() == 0 ==> path@ =~= name@);
    path
}

/// The entry that holds a directory theme's stylesheet.
pub fn first_stylesheet(entries: &Vec<Vec<u8>>) -> (found: Option<usize>)
    ensures
        match found {
            Some(k) => is_first_stylesheet(views(entries@), k as int),
            None => !has_stylesheet(views(entries@)),
        },
{
    let ghost names = views(entries@);
    let mut best: Option<usize> = None;
    let mut i: usize = 0;
    while i < entries.len()
        invariant
            i <= entries.len(),
            names == views(entries@),
            match best {
                Some(k) => is_first_stylesheet(names.take(i as int), k as int),
                None => !has_stylesheet(names.take(i as int)),
            },
        decreases entries.len() - i,
    {
        let ghost before = names.take(i as int);
        let ghost after = names.take(i + 1);
        assert(forall|j: int| 0 <= j < i ==> before[j] == #[trigger] after[j]);
        assert(after[i as int] == entries@[i as int]@);
        let candidate = is_stylesheet(entries[i].as_slice());
        match best {
            None => {
                if candidate {
                    best = Some(i);
                    assert forall|j: int|
                        0 <= j < after.len() && is_stylesheet_name(
                            #[trigger] after[j],
                        ) implies lex_le(after[i as int], after[j]) by {
                        if j < i {
                            assert(is_stylesheet_name(before[j]));
                        }
                        lemma_lex_le_total(after[i as int], after[i as int]);
                    }
                    assert forall|j: int|
                        0 <= j < i && is_stylesheet_name(
                            #[trigger] after[j],
                        ) implies after[j] != after[i as int] by {
                        assert(is_stylesheet_name(before[j]));
                    }
                } else {
                    assert forall|j: int| 0 <= j < after.len() implies !is_stylesheet_name(
                        #[trigger] after[j],
                    ) by {
                        if j < i {
                            assert(!is_stylesheet_name(before[j]));
                        }
                    }
                }
            },
            Some(k) => {
                assert(before[k as int] == after[k as int]);
                if candidate && !lex_no_later(entries[k].as_slice(), entries[i].as_slice()) {
                    best = Some(i);
                    proof {
                        lemma_lex_le_total(after[k as int], after[i as int]);
                        lemma_lex_le_total(after[i as int], after[i as int]);
                    }
                    assert forall|j: int|
                        0 <= j < after.len() && is_stylesheet_name(
                            #[trigger] after[j],
                        ) implies lex_le(after[i as int], after[j]) by {
                        if j < i {
                            assert(is_stylesheet_name(before[j]));
                            lemma_lex_le_transitive(after[i as int], after[k as int], after[j]);
                        }
                    }
                    assert forall|j: int|
                        0 <= j < i && is_stylesheet_name(
                            #[trigger] after[j],
                        ) implies after[j] != after[i as int] by {
                        assert(is_stylesheet_name(before[j]));
                        assert(lex_le(before[k as int], before[j]));
                    }
                } else {
                    assert forall|j: int|
                        0 <= j < after.len() && is_stylesheet_name(
                            #[trigger] after[j],
                        ) implies lex_le(after[k as int], after[j]) by {
                        if j < i {
                            assert(is_stylesheet_name(before[j]));
                        }
                    }
                    assert forall|j: int|
                        0 <= j < k && is_stylesheet_name(
                            #[trigger] after[j],
                        ) implies after[j] != after[k as int] by {
                        assert(is_stylesheet_name(before[j]));
                    }
                }
            },
        }
        i += 1;
    }
    assert(names.take(i as int) =~= names);
    best
}

/// Where the stylesheet of the theme `identifier` under `themes_root` is,
/// given what was found at that place. A file is the stylesheet itself. A
/// directory holds it in its first `.css` entry by name, and a directory
/// without one is an empty theme, not a failure. Only a place that cannot be
/// read is an error, and it names the place.
pub fn resolve(themes_root: &[u8], identifier: &[u8], probe: &Probe) -> (outcome: Result<
    ResolvedTheme,
    ThemeError,
>)
    ensures
        resolves_to(joined_path(themes_root@, identifier@), *probe, outcome),
{
    let path = join_path(themes_root, identifier);
    match probe {
        Probe::Unreadable => Err(ThemeError { kind: ErrorKind::Io, location: path }),
        Probe::File => Ok(ResolvedTheme::File(path)),
        Probe::Directory(entries) => {
            match first_stylesheet(entries) {
                Some(k) => {
                    let file = join_path(path.as_slice(), entries[k].as_slice());
                    assert(views(entries@)[k as int] == entries@[k as int]@);
                    Ok(ResolvedTheme::File(file))
                },
                None => Ok(ResolvedTheme::Empty),
            }
        },
    }
}

/// Whether a lower-cased entry name is reserved.
pub fn is_reserved_name(lowered: &str) -> (r: bool)
    ensures
        r == is_reserved(lowered@),
{
    let name = String::from_str(lowered);
    let cache = String::from_str("cache");
    let store = String::from_str(".ds_store");
    name == cache || name == store
}

/// Whether a directory entry is listed as a theme: every entry is, files
/// too, but the two whose lower-cased name is reserved.
pub fn is_theme_entry(name: &str) -> (r: bool)
    ensures
        r == is_listed(name@),
{
    let lowered = lowercase(name);
    !is_reserved_name(lowered.as_str())
}

/// The names of the themes among the entries of the themes directory.
pub fn list_themes(entries: &Vec<String>) -> (names: Vec<String>)
    ensures
        views(names@) == listed(views(entries@)),
{
    let mut names: Vec<String> = Vec::new();
    let mut i: usize = 0;
    assert(views(entries@).take(0) =~= Seq::<Seq<char>>::empty());
    assert(views(names@) =~= Seq::<Seq<char>>::empty());
    while i < entries.len()
        invariant
            i <= entries.len(),
            views(names@) == listed(views(entries@).take(i as int)),
        decreases entries.len() - i,
    {
        let ghost all = views(entries@);
        assert(all.take(i + 1).drop_last() =~= all.take(i as int));
        assert(all.take(i + 1).last() == entries@[i as int]@);
        if is_theme_entry(entries[i].as_str()) {
            let name = entries[i].clone();
            proof {
                lemma_views_push(names@, name);
            }
            names.push(name);
        }
        i += 1;
    }
    assert(views(entries@).take(i as int) =~= views(entries@));
    names
}

} // verus!
