//! The import scanner: finds the `@import` directives of a stylesheet.
//!
//! The scanner knows three things about CSS: comments, strings, and the
//! import directive. A directive is the keyword `@import`, in any case,
//! followed after optional space by a quoted string or by `url(..)` around a
//! quoted or a bare target. Whatever stands in a comment or in a string is
//! passed over, so text there that looks like a directive is none.

use vstd::prelude::*;
use crate::identity::{is_remote, remote};
use crate::text::{copy_of, copy_range, folded, has_word_at, lemma_views_push, views, word_at,
    APOSTROPHE, AT_SIGN, BACKSLASH, CARRIAGE_RETURN, CLOSE_PAREN, FORM_FEED, HYPHEN, LINE_FEED,
    OPEN_PAREN, QUOTE, SLASH, SPACE, STAR, TAB, UNDERSCORE};

verus! {

/// What an import directive points at.
#[derive(Clone, Debug, PartialEq, Eq)]
pub enum ImportTarget {
    /// An absolute `http://` or `https://` URL.
    Remote(Vec<u8>),
    /// A path, relative to the document that holds the directive.
    Relative(Vec<u8>),
    /// Nothing that could be read as a target.
    Malformed,
}

/// The model of an `ImportTarget`.
pub enum Target {
    Remote(Seq<u8>),
    Relative(Seq<u8>),
    Malformed,
}

impl View for ImportTarget {
    type V = Target;

    open spec fn view(&self) -> Target {
        match self {
            ImportTarget::Remote(url) => Target::Remote(url@),
            ImportTarget::Relative(path) => Target::Relative(path@),
            ImportTarget::Malformed => Target::Malformed,
        }
    }
}

/// One import directive of a document: its target and the bytes
/// `start..end` that it takes up there. The range begins at the `@` and ends
/// behind the target; for a malformed directive it holds the keyword alone.
#[derive(Clone, Debug, PartialEq, Eq)]
pub struct ImportReference {
    pub target: ImportTarget,
    pub start: usize,
    pub end: usize,
}

/// The model of an `ImportReference`.
pub struct Reference {
    pub target: Target,
    pub start: int,
    pub end: int,
}

impl View for ImportReference {
    type V = Reference;

    open spec fn view(&self) -> Reference {
        Reference { target: self.target@, start: self.start as int, end: self.end as int }
    }
}

impl ImportReference {
    /// The bytes of the document that the directive takes up.
    pub fn byte_range(&self) -> (range: (usize, usize))
        ensures
            range == (self.start, self.end),
    {
        (self.start, self.end)
    }
}

/// The bytes of `@import`.
pub open spec fn import_word() -> Seq<u8> {
    seq![AT_SIGN, 105u8, 109u8, 112u8, 111u8, 114u8, 116u8]
}

/// The bytes of `url(`.
pub open spec fn url_word() -> Seq<u8> {
    seq![117u8, 114u8, 108u8, OPEN_PAREN]
}

/// CSS white space.
pub open spec fn is_space(b: u8) -> bool {
    b == SPACE || b == TAB || b == LINE_FEED || b == CARRIAGE_RETURN || b == FORM_FEED
}

/// Either of the two quotation marks.
pub open spec fn is_quote(b: u8) -> bool {
    b == QUOTE || b == APOSTROPHE
}

/// A byte that can continue a CSS name, so that `@import` followed by it is
/// another keyword.
pub open spec fn is_name_byte(b: u8) -> bool {
    ||| 48 <= b <= 57
    ||| 65 <= b <= 90
    ||| 97 <= b <= 122
    ||| b == HYPHEN
    ||| b == UNDERSCORE
    ||| b == BACKSLASH
    ||| b >= 128
}

/// A byte that can stand in a target written without quotes.
pub open spec fn is_bare_byte(b: u8) -> bool {
    !is_space(b) && !is_quote(b) && b != OPEN_PAREN && b != CLOSE_PAREN
}

/// Where a comment whose inside begins at `i` ends: behind the first `*/`,
/// or with the text where there is none.
pub open spec fn comment_end(s: Seq<u8>, i: int) -> int
    decreases s.len() - i,
{
    if i + 1 >= s.len() {
        s.len() as int
    } else if s[i] == STAR && s[i + 1] == SLASH {
        i + 2
    } else {
        comment_end(s, i + 1)
    }
}

/// Where a string whose inside begins at `i` stops: at its closing quote, at
/// a line feed, or with the text. A backslash takes the next byte with it.
pub open spec fn string_stop(s: Seq<u8>, i: int, quote: u8) -> int
    decreases s.len() - i,
{
    if i >= s.len() {
        s.len() as int
    } else if s[i] == quote || s[i] == LINE_FEED {
        i
    } else if s[i] == BACKSLASH && i + 1 < s.len() {
        string_stop(s, i + 2, quote)
    } else {
        string_stop(s, i + 1, quote)
    }
}

/// Where the run of white space at `i` ends.
pub open spec fn spaces_end(s: Seq<u8>, i: int) -> int
    decreases s.len() - i,
{
    if 0 <= i < s.len() && is_space(s[i]) {
        spaces_end(s, i + 1)
    } else {
        i
    }
}

/// Where the run of bare target bytes at `i` ends.
pub open spec fn bare_end(s: Seq<u8>, i: int) -> int
    decreases s.len() - i,
{
    if 0 <= i < s.len() && is_bare_byte(s[i]) {
        bare_end(s, i + 1)
    } else {
        i
    }
}

/// A target as it stands in the text: its bytes are `from..to`, and what
/// names it ends at `end`.
pub struct Span {
    pub from: int,
    pub to: int,
    pub end: int,
}

/// The target that is written at `j`, if one is.
pub open spec fn target_span(s: Seq<u8>, j: int) -> Option<Span> {
    if j < 0 || j >= s.len() {
        None
    } else if is_quote(s[j]) {
        let close = string_stop(s, j + 1, s[j]);
        if close < s.len() && s[close] == s[j] {
            Some(Span { from: j + 1, to: close, end: close + 1 })
        } else {
            None
        }
    } else if word_at(s, j, url_word()) {
        let k = spaces_end(s, j + 4);
        if k < s.len() && is_quote(s[k]) {
            let close = string_stop(s, k + 1, s[k]);
            let paren = spaces_end(s, close + 1);
            if close < s.len() && s[close] == s[k] && paren < s.len() && s[paren]
                == CLOSE_PAREN {
                Some(Span { from: k + 1, to: close, end: paren + 1 })
            } else {
                None
            }
        } else {
            let stop = bare_end(s, k);
            let paren = spaces_end(s, stop);
            if paren < s.len() && s[paren] == CLOSE_PAREN {
                Some(Span { from: k, to: stop, end: paren + 1 })
            } else {
                None
            }
        }
    } else {
        None
    }
}

/// What the bytes of a target point at.
pub open spec fn target_of(raw: Seq<u8>) -> Target {
    if raw.len() == 0 {
        Target::Malformed
    } else if is_remote(raw) {
        Target::Remote(raw)
    } else {
        Target::Relative(raw)
    }
}

/// Whether an import directive begins at `i`.
pub open spec fn directive_at(s: Seq<u8>, i: int) -> bool {
    word_at(s, i, import_word()) && (i + 7 >= s.len() || !is_name_byte(s[i + 7]))
}

/// The directive that begins at `i`.
pub open spec fn reference_at(s: Seq<u8>, i: int) -> Reference {
    match target_span(s, spaces_end(s, i + 7)) {
        Some(span) => if span.from < span.to {
            Reference {
                target: target_of(s.subrange(span.from, span.to)),
                start: i,
                end: span.end,
            }
        } else {
            Reference { target: Target::Malformed, start: i, end: i + 7 }
        },
        None => Reference { target: Target::Malformed, start: i, end: i + 7 },
    }
}

/// Where what begins at `i` ends: a comment, a string, a directive, or one
/// byte of anything else.
pub open spec fn token_end(s: Seq<u8>, i: int) -> int {
    if s[i] == SLASH && i + 1 < s.len() && s[i + 1] == STAR {
        comment_end(s, i + 2)
    } else if is_quote(s[i]) {
        let stop = string_stop(s, i + 1, s[i]);
        if stop < s.len() {
            stop + 1
        } else {
            stop
        }
    } else if directive_at(s, i) {
        reference_at(s, i).end
    } else {
        i + 1
    }
}

/// The directives of `s` from `i` on, where `i` is outside comments and
/// strings.
pub open spec fn scan_from(s: Seq<u8>, i: int) -> Seq<Reference>
    decreases s.len() - i,
    via scan_from_advances
{
    if i < 0 || i >= s.len() {
        Seq::empty()
    } else if directive_at(s, i) {
        seq![reference_at(s, i)] + scan_from(s, token_end(s, i))
    } else {
        scan_from(s, token_end(s, i))
    }
}

#[via_fn]
proof fn scan_from_advances(s: Seq<u8>, i: int) {
    if 0 <= i < s.len() {
        lemma_token_end(s, i);
    }
}

/// The import directives of a stylesheet, in the order in which they stand.
pub open spec fn imports(s: Seq<u8>) -> Seq<Reference> {
    scan_from(s, 0)
}

/// Directives that follow one another in a text of `len` bytes: each takes up
/// at least its keyword, lies inside the text, and ends before the next
/// begins.
pub open spec fn in_order(refs: Seq<Reference>, len: int) -> bool {
    &&& forall|k: int|
        0 <= k < refs.len() ==> 0 <= (#[trigger] refs[k]).start && refs[k].start + 7
            <= refs[k].end <= len
    &&& forall|k: int, m: int|
        0 <= k < m < refs.len() ==> (#[trigger] refs[k]).end <= (#[trigger] refs[m]).start
}

/// A comment ends behind the place where its inside begins, inside the text.
pub proof fn lemma_comment_end(s: Seq<u8>, i: int)
    requires
        0 <= i <= s.len(),
    ensures
        i <= comment_end(s, i) <= s.len(),
    decreases s.len() - i,
{
    if i + 1 < s.len() && !(s[i] == STAR && s[i + 1] == SLASH) {
        lemma_comment_end(s, i + 1);
    }
}

/// A string stops at or behind the place where its inside begins, inside
/// the text.
pub proof fn lemma_string_stop(s: Seq<u8>, i: int, quote: u8)
    requires
        0 <= i <= s.len(),
    ensures
        i <= string_stop(s, i, quote) <= s.len(),
    decreases s.len() - i,
{
    if i < s.len() && !(s[i] == quote || s[i] == LINE_FEED) {
        if s[i] == BACKSLASH && i + 1 < s.len() {
            lemma_string_stop(s, i + 2, quote);
        } else {
            lemma_string_stop(s, i + 1, quote);
        }
    }
}

/// A run of white space ends at or behind its beginning, inside the text.
pub proof fn lemma_spaces_end(s: Seq<u8>, i: int)
    requires
        0 <= i <= s.len(),
    ensures
        i <= spaces_end(s, i) <= s.len(),
    decreases s.len() - i,
{
    if i < s.len() && is_space(s[i]) {
        lemma_spaces_end(s, i + 1);
    }
}

/// A run of bare target bytes ends at or behind its beginning, inside the
/// text.
pub proof fn lemma_bare_end(s: Seq<u8>, i: int)
    requires
        0 <= i <= s.len(),
    ensures
        i <= bare_end(s, i) <= s.len(),
    decreases s.len() - i,
{
    if i < s.len() && is_bare_byte(s[i]) {
        lemma_bare_end(s, i + 1);
    }
}

/// A target lies behind the place where it was looked for, inside the text.
pub proof fn lemma_target_span(s: Seq<u8>, j: int)
    requires
        0 <= j <= s.len(),
    ensures
        target_span(s, j) matches Some(span) ==> j <= span.from <= span.to < span.end
            <= s.len(),
{
    if j < s.len() {
        if is_quote(s[j]) {
            lemma_string_stop(s, j + 1, s[j]);
        } else if word_at(s, j, url_word()) {
            lemma_spaces_end(s, j + 4);
            let k = spaces_end(s, j + 4);
            if k < s.len() && is_quote(s[k]) {
                lemma_string_stop(s, k + 1, s[k]);
                let close = string_stop(s, k + 1, s[k]);
                if close < s.len() {
                    lemma_spaces_end(s, close + 1);
                }
            } else {
                lemma_bare_end(s, k);
                lemma_spaces_end(s, bare_end(s, k));
            }
        }
    }
}

/// A directive begins with an `@` and has its whole keyword inside the text.
pub proof fn lemma_directive_begins(s: Seq<u8>, i: int)
    requires
        directive_at(s, i),
    ensures
        0 <= i,
        i + 7 <= s.len(),
        s[i] == AT_SIGN,
{
    assert(import_word().len() == 7);
    assert(folded(s[i + 0]) == import_word()[0]);
}

/// A directive takes up its keyword at least and ends inside the text.
pub proof fn lemma_reference_at(s: Seq<u8>, i: int)
    requires
        directive_at(s, i),
    ensures
        reference_at(s, i).start == i,
        i + 7 <= reference_at(s, i).end <= s.len(),
        token_end(s, i) == reference_at(s, i).end,
{
    lemma_directive_begins(s, i);
    lemma_spaces_end(s, i + 7);
    lemma_target_span(s, spaces_end(s, i + 7));
}

/// Every token is at least one byte long and ends inside the text.
pub proof fn lemma_token_end(s: Seq<u8>, i: int)
    requires
        0 <= i < s.len(),
    ensures
        i < token_end(s, i) <= s.len(),
{
    if s[i] == SLASH && i + 1 < s.len() && s[i + 1] == STAR {
        lemma_comment_end(s, i + 2);
    } else if is_quote(s[i]) {
        lemma_string_stop(s, i + 1, s[i]);
    } else if directive_at(s, i) {
        lemma_reference_at(s, i);
    }
}

/// The directives found from `i` on begin at or behind `i`, and follow one
/// another.
pub proof fn lemma_scan_from_in_order(s: Seq<u8>, i: int)
    requires
        0 <= i,
    ensures
        in_order(scan_from(s, i), s.len() as int),
        forall|k: int| 0 <= k < scan_from(s, i).len() ==> i <= (#[trigger] scan_from(s, i)[k]).start,
        forall|k: int|
            0 <= k < scan_from(s, i).len() ==> directive_at(
                s,
                (#[trigger] scan_from(s, i)[k]).start,
            ) && scan_from(s, i)[k] == reference_at(s, scan_from(s, i)[k].start),
    decreases s.len() - i,
{
    if i < s.len() {
        lemma_token_end(s, i);
        let next = token_end(s, i);
        lemma_scan_from_in_order(s, next);
        let rest = scan_from(s, next);
        if directive_at(s, i) {
            lemma_reference_at(s, i);
            let all = scan_from(s, i);
            assert(all == seq![reference_at(s, i)] + rest);
            assert(all[0] == reference_at(s, i));
            assert(all[0].end == next);
            assert forall|k: int| 1 <= k < all.len() implies all[k] == rest[k - 1] by {}
            assert forall|k: int| 0 <= k < all.len() implies 0 <= (#[trigger] all[k]).start
                && all[k].start + 7 <= all[k].end <= s.len() && i <= all[k].start
                && directive_at(s, all[k].start) && all[k] == reference_at(s, all[k].start) by {
                if k > 0 {
                    assert(all[k] == rest[k - 1]);
                }
            }
            assert forall|k: int, m: int| 0 <= k < m < all.len() implies (#[trigger] all[k]).end
                <= (#[trigger] all[m]).start by {
                assert(all[m] == rest[m - 1]);
                assert(next <= rest[m - 1].start);
                if k > 0 {
                    assert(all[k] == rest[k - 1]);
                }
            }
        }
    }
}

/// The directives of a stylesheet follow one another inside it, each is
/// what stands at its own beginning, and each begins with the keyword.
pub proof fn lemma_imports_in_order(s: Seq<u8>)
    ensures
        in_order(imports(s), s.len() as int),
        forall|k: int|
            0 <= k < imports(s).len() ==> directive_at(s, (#[trigger] imports(s)[k]).start)
                && imports(s)[k] == reference_at(s, imports(s)[k].start),
{
    lemma_scan_from_in_order(s, 0);
}

/// A text without an `@` holds no directive, whatever else it holds.
pub proof fn lemma_no_at_sign_no_imports(s: Seq<u8>)
    requires
        forall|k: int| 0 <= k < s.len() ==> s[k] != AT_SIGN,
    ensures
        imports(s).len() == 0,
{
    lemma_scan_from_in_order(s, 0);
    if imports(s).len() > 0 {
        let at = imports(s)[0].start;
        assert(directive_at(s, at));
        assert(import_word()[0] == AT_SIGN);
        assert(folded(s[at + 0]) == import_word()[0]);
    }
}

pub fn import_word_bytes() -> (r: [u8; 7])
    ensures
        r@ == import_word(),
{
    let r: [u8; 7] = [AT_SIGN, 105, 109, 112, 111, 114, 116];
    assert(r@ =~= import_word());
    r
}

pub fn url_word_bytes() -> (r: [u8; 4])
    ensures
        r@ == url_word(),
{
    let r: [u8; 4] = [117, 114, 108, OPEN_PAREN];
    assert(r@ =~= url_word());
    r
}

fn space(b: u8) -> (r: bool)
    ensures
        r == is_space(b),
{
    b == SPACE || b == TAB || b == LINE_FEED || b == CARRIAGE_RETURN || b == FORM_FEED
}

fn quote(b: u8) -> (r: bool)
    ensures
        r == is_quote(b),
{
    b == QUOTE || b == APOSTROPHE
}

fn name_byte(b: u8) -> (r: bool)
    ensures
        r == is_name_byte(b),
{
    (48 <= b && b <= 57) || (65 <= b && b <= 90) || (97 <= b && b <= 122) || b == HYPHEN || b
        == UNDERSCORE || b == BACKSLASH || b >= 128
}

fn bare_byte(b: u8) -> (r: bool)
    ensures
        r == is_bare_byte(b),
{
    !space(b) && !quote(b) && b != OPEN_PAREN && b != CLOSE_PAREN
}

fn find_comment_end(s: &[u8], from: usize) -> (r: usize)
    requires
        from <= s@.len(),
    ensures
        r == comment_end(s@, from as int),
        from <= r <= s@.len(),
{
    proof {
        lemma_comment_end(s@, from as int);
    }
    let mut i: usize = from;
    while i < s.len() && s.len() - i >= 2
        invariant
            from <= i <= s@.len(),
            comment_end(s@, from as int) == comment_end(s@, i as int),
        decreases s@.len() - i,
    {
        if s[i] == STAR && s[i + 1] == SLASH {
            return i + 2;
        }
        i += 1;
    }
    s.len()
}

fn find_string_stop(s: &[u8], from: usize, mark: u8) -> (r: usize)
    requires
        from <= s@.len(),
    ensures
        r == string_stop(s@, from as int, mark),
        from <= r <= s@.len(),
{
    proof {
        lemma_string_stop(s@, from as int, mark);
    }
    let mut i: usize = from;
    while i < s.len()
        invariant
            from <= i <= s@.len(),
            string_stop(s@, from as int, mark) == string_stop(s@, i as int, mark),
        decreases s@.len() - i,
    {
        let b = s[i];
        if b == mark || b == LINE_FEED {
            return i;
        }
        if b == BACKSLASH && s.len() - i >= 2 {
            i += 2;
        } else {
            i += 1;
        }
    }
    s.len()
}

fn find_spaces_end(s: &[u8], from: usize) -> (r: usize)
    requires
        from <= s@.len(),
    ensures
        r == spaces_end(s@, from as int),
        from <= r <= s@.len(),
{
    let mut i: usize = from;
    while i < s.len() && space(s[i])
        invariant
            from <= i <= s@.len(),
            spaces_end(s@, from as int) == spaces_end(s@, i as int),
        decreases s@.len() - i,
    {
        i += 1;
    }
    i
}

fn find_bare_end(s: &[u8], from: usize) -> (r: usize)
    requires
        from <= s@.len(),
    ensures
        r == bare_end(s@, from as int),
        from <= r <= s@.len(),
{
    let mut i: usize = from;
    while i < s.len() && bare_byte(s[i])
        invariant
            from <= i <= s@.len(),
            bare_end(s@, from as int) == bare_end(s@, i as int),
        decreases s@.len() - i,
    {
        i += 1;
    }
    i
}

/// The target written at `j` as `(from, to, end)`, if one is.
fn find_target(s: &[u8], j: usize) -> (found: Option<(usize, usize, usize)>)
    requires
        j <= s@.len(),
    ensures
        match found {
            Some((from, to, end)) => target_span(s@, j as int) == Some(
                Span { from: from as int, to: to as int, end: end as int },
            ) && j <= from <= to < end <= s@.len(),
            None => target_span(s@, j as int) is None,
        },
{
    proof {
        lemma_target_span(s@, j as int);
    }
    if j >= s.len() {
        return None;
    }
    if quote(s[j]) {
        let close = find_string_stop(s, j + 1, s[j]);
        if close < s.len() && s[close] == s[j] {
            return Some((j + 1, close, close + 1));
        }
        return None;
    }
    let word = url_word_bytes();
    if !has_word_at(s, j, word.as_slice()) {
        return None;
    }
    let k = find_spaces_end(s, j + 4);
    if k < s.len() && quote(s[k]) {
        let close = find_string_stop(s, k + 1, s[k]);
        if close >= s.len() || s[close] != s[k] {
            return None;
        }
        let paren = find_spaces_end(s, close + 1);
        if paren < s.len() && s[paren] == CLOSE_PAREN {
            return Some((k + 1, close, paren + 1));
        }
        return None;
    }
    let stop = find_bare_end(s, k);
    let paren = find_spaces_end(s, stop);
    if paren < s.len() && s[paren] == CLOSE_PAREN {
        return Some((k, stop, paren + 1));
    }
    None
}

/// What the bytes of a target point at: nothing where there are none, a
/// remote stylesheet where they begin with `http://` or `https://`, else a
/// stylesheet beside the document.
pub fn classify(raw: &[u8]) -> (target: ImportTarget)
    ensures
        target@ == target_of(raw@),
{
    if raw.len() == 0 {
        ImportTarget::Malformed
    } else if remote(raw) {
        ImportTarget::Remote(copy_of(raw))
    } else {
        ImportTarget::Relative(copy_of(raw))
    }
}

fn is_directive_at(s: &[u8], i: usize) -> (r: bool)
    requires
        i < s@.len(),
    ensures
        r == directive_at(s@, i as int),
{
    let word = import_word_bytes();
    has_word_at(s, i, word.as_slice()) && (s.len() - i <= 7 || !name_byte(s[i + 7]))
}

fn read_reference(s: &[u8], i: usize) -> (r: ImportReference)
    requires
        directive_at(s@, i as int),
    ensures
        r@ == reference_at(s@, i as int),
        r.start == i,
        i + 7 <= r.end <= s@.len(),
{
    proof {
        lemma_reference_at(s@, i as int);
    }
    let n = s.len();
    assert(i + 7 <= n);
    let j = find_spaces_end(s, i + 7);
    match find_target(s, j) {
        Some((from, to, end)) => {
            if from < to {
                let raw = copy_range(s, from, to);
                let target = classify(raw.as_slice());
                ImportReference { target, start: i, end }
            } else {
                ImportReference { target: ImportTarget::Malformed, start: i, end: i + 7 }
            }
        },
        None => ImportReference { target: ImportTarget::Malformed, start: i, end: i + 7 },
    }
}

/// Finds the first import directive at or behind `from`, a place outside
/// comments and strings: the beginning of the text, or the end of a
/// directive found before. Going on from the end of what was found finds the
/// directives one by one, and going back to an earlier place finds the same
/// again.
pub fn next_import(css: &[u8], from: usize) -> (found: Option<ImportReference>)
    ensures
        match found {
            Some(r) => {
                &&& scan_from(css@, from as int) == seq![r@] + scan_from(css@, r.end as int)
                &&& from <= r.start
                &&& r.start + 7 <= r.end <= css@.len()
            },
            None => scan_from(css@, from as int).len() == 0,
        },
{
    let mut i: usize = from;
    while i < css.len()
        invariant
            from <= i,
            scan_from(css@, i as int) == scan_from(css@, from as int),
        decreases css@.len() - i,
    {
        proof {
            lemma_token_end(css@, i as int);
            if directive_at(css@, i as int) {
                lemma_directive_begins(css@, i as int);
                lemma_reference_at(css@, i as int);
            }
        }
        let ghost here = i as int;
        let b = css[i];
        if b == SLASH && css.len() - i >= 2 && css[i + 1] == STAR {
            i = find_comment_end(css, i + 2);
        } else if quote(b) {
            let stop = find_string_stop(css, i + 1, b);
            i = if stop < css.len() {
                stop + 1
            } else {
                stop
            };
        } else if is_directive_at(css, i) {
            return Some(read_reference(css, i));
        } else {
            i += 1;
        }
        assert(i == token_end(css@, here));
    }
    None
}

/// Finds the import directives of a stylesheet, in the order in which they
/// stand. They follow one another without overlap, and scanning the same
/// text again gives the same directives.
pub fn scan(css: &[u8]) -> (refs: Vec<ImportReference>)
    ensures
        views(refs@) == imports(css@),
        in_order(imports(css@), css@.len() as int),
{
    proof {
        lemma_imports_in_order(css@);
    }
    let mut refs: Vec<ImportReference> = Vec::new();
    let mut i: usize = 0;
    assert(views(refs@) =~= Seq::<Reference>::empty());
    assert(views(refs@) + scan_from(css@, 0) =~= imports(css@));
    loop
        invariant
            i <= css@.len(),
            views(refs@) + scan_from(css@, i as int) == imports(css@),
        ensures
            views(refs@) == imports(css@),
        decreases css@.len() - i,
    {
        match next_import(css, i) {
            Some(r) => {
                let ghost before = views(refs@);
                let ghost rest = scan_from(css@, r.end as int);
                proof {
                    lemma_views_push(refs@, r);
                    assert(before.push(r@) + rest =~= before + (seq![r@] + rest));
                }
                i = r.end;
                refs.push(r);
            },
            None => {
                assert(views(refs@) + scan_from(css@, i as int) =~= views(refs@));
                break ;
            },
        }
    }
    refs
}

} // verus!
