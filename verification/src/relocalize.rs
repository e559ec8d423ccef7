//! Localizing again what a run has localized.
//!
//! A run that rewrote every import of a document leaves a document whose
//! imports all point into the cache directory. Stored there, it is localized:
//! another run finds nothing to do. The way to that statement leads through
//! the scanner: what it finds in a text does not depend on how a directive
//! further on is spelled, as long as one stands there.

use vstd::prelude::*;
use crate::cache::{cache_name_of, cache_prefix_of, import_text, is_name_byte,
    lemma_cache_name_bytes, lies_in};
use crate::guarantees::{is_rewritten, lemma_localized_document_unchanged,
    lemma_rewritten_document, rewrites};
use crate::identity::{canonical, cleaned, directory_len, dot, dot_dot, http_word, https_word,
    is_clean, is_remote, joined, lemma_cleaned_keeps_clean, lemma_cleaned_skips_empty_front,
    lemma_normalized_behind_origin, lemma_normalized_parts, lemma_origin_kept, lemma_origin_len,
    lemma_path_of_clean, lemma_segments_append, lemma_segments_of_joined, lowered, normalized,
    origin_len, path_of, resolved_locator, segments};
use crate::localize::{localized, points_into_cache, Localized};
use crate::rewrite::{edits_fit, lemma_edit_applied, lemma_shift_across, lemma_shift_same,
    lemma_spliced_len, lemma_untouched_range_kept, shift, spliced, Edit};
use crate::scan::{comment_end, directive_at, import_word, imports, in_order, is_quote,
    lemma_comment_end, lemma_imports_in_order, lemma_reference_at, lemma_string_stop,
    lemma_token_end, reference_at, scan_from, spaces_end, string_stop, target_of, target_span,
    token_end, url_word, Reference, Span, Target};
use crate::sources::Outcome;
use crate::text::{folded, segment_start, word_at, AT_SIGN, BACKSLASH, CLOSE_PAREN, LINE_FEED,
    QUOTE, SLASH, SPACE, STAR};

verus! {

/// Whether `right` holds, `by` bytes further on, what `left` holds from
/// `from` up to `to`.
pub open spec fn agree(left: Seq<u8>, right: Seq<u8>, from: int, to: int, by: int) -> bool {
    &&& 0 <= from <= to <= left.len()
    &&& 0 <= from + by
    &&& to + by <= right.len()
    &&& forall|i: int| from <= i < to ==> right[i + by] == #[trigger] left[i]
}

/// Whether the two texts go on alike behind what they share: both end, or
/// both have the import keyword there.
pub open spec fn same_end(left: Seq<u8>, right: Seq<u8>, to: int, by: int) -> bool {
    ||| to == left.len() && to + by == right.len()
    ||| word_at(left, to, import_word()) && word_at(right, to + by, import_word())
}

/// The keyword begins with an `@` and lies inside the text.
pub proof fn lemma_keyword(x: Seq<u8>, at: int)
    requires
        word_at(x, at, import_word()),
    ensures
        0 <= at,
        at + 7 <= x.len(),
        x[at] == AT_SIGN,
{
    assert(import_word().len() == 7);
    assert(folded(x[at + 0]) == import_word()[0]);
}

/// Two keywords do not overlap.
pub proof fn lemma_keywords_apart(x: Seq<u8>, first: int, second: int)
    requires
        word_at(x, first, import_word()),
        word_at(x, second, import_word()),
        first < second,
    ensures
        first + 7 <= second,
{
    lemma_keyword(x, second);
    if second < first + 7 {
        let n = second - first;
        assert(folded(x[first + n]) == import_word()[n]);
    }
}

/// A comment that ends inside the shared range ends at the same place in
/// both texts.
pub proof fn lemma_comment_end_same(left: Seq<u8>, right: Seq<u8>, j: int, to: int, by: int)
    requires
        agree(left, right, j, to, by),
        same_end(left, right, to, by),
        comment_end(left, j) <= to,
    ensures
        comment_end(right, j + by) == comment_end(left, j) + by,
    decreases left.len() - j,
{
    lemma_comment_end(left, j);
    if to < left.len() {
        lemma_keyword(left, to);
        lemma_keyword(right, to + by);
    }
    if j + 1 >= left.len() {
    } else if left[j] == STAR && left[j + 1] == SLASH {
        assert(right[j + by] == left[j]);
        assert(right[j + 1 + by] == left[j + 1]);
    } else {
        lemma_comment_end(left, j + 1);
        assert(j < to);
        assert(right[j + by] == left[j]);
        if j + 1 < to {
            assert(right[j + 1 + by] == left[j + 1]);
        }
        lemma_comment_end_same(left, right, j + 1, to, by);
    }
}

/// A string that stops inside the shared range stops at the same place in
/// both texts.
pub proof fn lemma_string_stop_same(
    left: Seq<u8>,
    right: Seq<u8>,
    j: int,
    to: int,
    by: int,
    quote: u8,
)
    requires
        agree(left, right, j, to, by),
        same_end(left, right, to, by),
        string_stop(left, j, quote) < to || to == left.len(),
    ensures
        string_stop(right, j + by, quote) == string_stop(left, j, quote) + by,
    decreases left.len() - j,
{
    lemma_string_stop(left, j, quote);
    if to < left.len() {
        lemma_keyword(left, to);
        lemma_keyword(right, to + by);
    }
    if j >= left.len() {
    } else {
        assert(j < to);
        assert(right[j + by] == left[j]);
        if left[j] == quote || left[j] == LINE_FEED {
        } else if left[j] == BACKSLASH && j + 1 < left.len() {
            lemma_string_stop(left, j + 2, quote);
            lemma_string_stop_same(left, right, j + 2, to, by, quote);
        } else {
            lemma_string_stop(left, j + 1, quote);
            lemma_string_stop_same(left, right, j + 1, to, by, quote);
        }
    }
}

/// Inside the shared range, a directive begins in one text where one begins
/// in the other.
pub proof fn lemma_directive_at_same(left: Seq<u8>, right: Seq<u8>, i: int, to: int, by: int)
    requires
        agree(left, right, i, to, by),
        same_end(left, right, to, by),
        i < to,
    ensures
        directive_at(right, i + by) == directive_at(left, i),
{
    let word = import_word();
    assert(word.len() == 7);
    if to < left.len() || to + by < right.len() {
        lemma_keyword(left, to);
        lemma_keyword(right, to + by);
    }
    if word_at(left, i, word) {
        if to < left.len() {
            lemma_keywords_apart(left, i, to);
        }
        assert(i + 7 <= to);
        assert forall|k: int| 0 <= k < 7 implies folded(#[trigger] right[i + by + k]) == word[k] by {
            assert(right[(i + k) + by] == left[i + k]);
        }
        assert(word_at(right, i + by, word));
        if i + 7 < to {
            assert(right[(i + 7) + by] == left[i + 7]);
        }
    }
    if word_at(right, i + by, word) {
        if to + by < right.len() {
            lemma_keywords_apart(right, i + by, to + by);
        }
        assert(i + 7 <= to);
        assert forall|k: int| 0 <= k < 7 implies folded(#[trigger] left[i + k]) == word[k] by {
            assert(right[(i + k) + by] == left[i + k]);
            assert(folded(right[i + by + k]) == word[k]);
        }
        assert(word_at(left, i, word));
        if i + 7 < to {
            assert(right[(i + 7) + by] == left[i + 7]);
        }
    }
}

/// Inside the shared range, what is no directive in one text is none in the
/// other, and ends at the same place.
pub proof fn lemma_token_same(left: Seq<u8>, right: Seq<u8>, i: int, to: int, by: int)
    requires
        agree(left, right, i, to, by),
        same_end(left, right, to, by),
        i < to,
        !directive_at(left, i),
        token_end(left, i) <= to,
    ensures
        !directive_at(right, i + by),
        token_end(right, i + by) == token_end(left, i) + by,
{
    lemma_directive_at_same(left, right, i, to, by);
    if to < left.len() || to + by < right.len() {
        lemma_keyword(left, to);
        lemma_keyword(right, to + by);
    }
    assert(right[i + by] == left[i]);
    if i + 1 < to {
        assert(right[(i + 1) + by] == left[i + 1]);
    }
    if left[i] == SLASH && i + 1 < left.len() && left[i + 1] == STAR {
        lemma_comment_end(left, i + 2);
        lemma_comment_end_same(left, right, i + 2, to, by);
    } else if is_quote(left[i]) {
        lemma_string_stop(left, i + 1, left[i]);
        lemma_string_stop_same(left, right, i + 1, to, by, left[i]);
    }
}

/// Whether nothing but comments, strings and other bytes stands from `i` up
/// to `to`, and one of them ends at `to`.
pub open spec fn quiet(x: Seq<u8>, i: int, to: int) -> bool
    decreases to - i,
{
    if i == to {
        true
    } else if 0 <= i < to && i < x.len() && !directive_at(x, i) && i < token_end(x, i) <= to {
        quiet(x, token_end(x, i), to)
    } else {
        false
    }
}

/// Where nothing stands up to `to`, the scanner finds from `i` on what it
/// finds from `to` on.
pub proof fn lemma_quiet_scan(x: Seq<u8>, i: int, to: int)
    requires
        quiet(x, i, to),
    ensures
        scan_from(x, i) == scan_from(x, to),
    decreases to - i,
{
    if i != to {
        lemma_quiet_scan(x, token_end(x, i), to);
    }
}

/// What is quiet in one text is quiet in the other.
pub proof fn lemma_quiet_same(left: Seq<u8>, right: Seq<u8>, i: int, to: int, by: int)
    requires
        agree(left, right, i, to, by),
        same_end(left, right, to, by),
        quiet(left, i, to),
    ensures
        quiet(right, i + by, to + by),
    decreases to - i,
{
    if i != to {
        lemma_token_same(left, right, i, to, by);
        lemma_quiet_same(left, right, token_end(left, i), to, by);
    }
}

/// Up to the first directive that the scanner finds, the text is quiet; and
/// up to its end where the scanner finds none.
pub proof fn lemma_quiet_before_first(x: Seq<u8>, i: int)
    requires
        0 <= i <= x.len(),
    ensures
        scan_from(x, i).len() == 0 ==> quiet(x, i, x.len() as int),
        scan_from(x, i).len() > 0 ==> {
            let first = scan_from(x, i).first();
            &&& i <= first.start < x.len()
            &&& quiet(x, i, first.start)
            &&& directive_at(x, first.start)
            &&& first == reference_at(x, first.start)
            &&& scan_from(x, i) == seq![first] + scan_from(x, first.end)
            &&& first.start + 7 <= first.end <= x.len()
        },
    decreases x.len() - i,
{
    if i < x.len() {
        lemma_token_end(x, i);
        if directive_at(x, i) {
            lemma_reference_at(x, i);
            assert(scan_from(x, i).first() == reference_at(x, i));
        } else {
            lemma_quiet_before_first(x, token_end(x, i));
            let next = token_end(x, i);
            if scan_from(x, i).len() > 0 {
                let first = scan_from(x, i).first();
                assert(quiet(x, next, first.start));
                assert(next <= first.start);
            }
        }
    }
}

/// Whether `part` stands in `x` at `at`.
pub open spec fn stands_at(x: Seq<u8>, at: int, part: Seq<u8>) -> bool {
    &&& 0 <= at
    &&& at + part.len() <= x.len()
    &&& forall|k: int| 0 <= k < part.len() ==> x[at + k] == #[trigger] part[k]
}

/// Whether every byte of `name` is one that a cache name can hold.
pub open spec fn is_cache_name(name: Seq<u8>) -> bool {
    &&& name.len() > 0
    &&& forall|k: int| 0 <= k < name.len() ==> is_name_byte(#[trigger] name[k])
}

/// The bytes of the directive that imports a cache file, one by one.
pub proof fn lemma_import_text_bytes(name: Seq<u8>)
    ensures
        import_text(name).len() == name.len() + 15,
        forall|k: int| 0 <= k < 7 ==> import_text(name)[k] == #[trigger] import_word()[k],
        import_text(name)[7] == SPACE,
        forall|k: int| 0 <= k < 4 ==> import_text(name)[8 + k] == #[trigger] url_word()[k],
        import_text(name)[12] == QUOTE,
        forall|k: int| 0 <= k < name.len() ==> import_text(name)[13 + k] == #[trigger] name[k],
        import_text(name)[13 + name.len() as int] == QUOTE,
        import_text(name)[14 + name.len() as int] == CLOSE_PAREN,
{
    let a = import_word() + seq![SPACE];
    let b = a + url_word();
    let c = b + seq![QUOTE];
    let d = c + name;
    let e = d + seq![QUOTE, CLOSE_PAREN];
    assert(import_text(name) == e);
    assert(import_word().len() == 7);
    assert(url_word().len() == 4);
    assert(a.len() == 8 && b.len() == 12 && c.len() == 13 && d.len() == 13 + name.len());
    assert forall|k: int| 0 <= k < 7 implies e[k] == #[trigger] import_word()[k] by {
        assert(e[k] == d[k] && d[k] == c[k] && c[k] == b[k] && b[k] == a[k]);
    }
    assert(e[7] == d[7] && d[7] == c[7] && c[7] == b[7] && b[7] == a[7]);
    assert forall|k: int| 0 <= k < 4 implies e[8 + k] == #[trigger] url_word()[k] by {
        assert(e[8 + k] == d[8 + k] && d[8 + k] == c[8 + k] && c[8 + k] == b[8 + k]);
    }
    assert(e[12] == d[12] && d[12] == c[12]);
    assert forall|k: int| 0 <= k < name.len() implies e[13 + k] == #[trigger] name[k] by {
        assert(e[13 + k] == d[13 + k]);
    }
}

/// A string that holds a cache name stops behind the name.
proof fn lemma_string_over_name(x: Seq<u8>, base: int, name: Seq<u8>, k: int)
    requires
        stands_at(x, base, name),
        is_cache_name(name),
        base + name.len() < x.len(),
        x[base + name.len()] == QUOTE,
        0 <= k <= name.len(),
    ensures
        string_stop(x, base + k, QUOTE) == base + name.len(),
    decreases name.len() - k,
{
    if k < name.len() {
        assert(x[base + k] == name[k]);
        assert(is_name_byte(name[k]));
        lemma_string_over_name(x, base, name, k + 1);
    }
}

/// The directive that imports a cache file is read by the scanner as what
/// it is: a directive whose target is the name of the file, taking up the
/// bytes of the directive and no more.
pub proof fn lemma_directive_scanned(x: Seq<u8>, at: int, name: Seq<u8>)
    requires
        stands_at(x, at, import_text(name)),
        is_cache_name(name),
    ensures
        directive_at(x, at),
        reference_at(x, at) == (Reference {
            target: Target::Relative(name),
            start: at,
            end: at + name.len() + 15,
        }),
{
    let text = import_text(name);
    let n = name.len() as int;
    lemma_import_text_bytes(name);
    assert(import_word().len() == 7);
    assert(url_word().len() == 4);
    assert forall|k: int| 0 <= k < 7 implies folded(#[trigger] x[at + k]) == import_word()[k] by {
        assert(text[k] == import_word()[k]);
        assert(x[at + k] == text[k]);
    }
    assert(word_at(x, at, import_word()));
    assert(x[at + 7] == text[7]);
    assert(directive_at(x, at));
    assert(x[at + 8] == text[8int + 0] && text[8int + 0] == url_word()[0]);
    assert(spaces_end(x, at + 8) == at + 8);
    assert(spaces_end(x, at + 7) == at + 8);
    let j = at + 8;
    assert forall|k: int| 0 <= k < 4 implies folded(#[trigger] x[j + k]) == url_word()[k] by {
        assert(text[8 + k] == url_word()[k]);
        assert(x[at + (8 + k)] == text[8 + k]);
    }
    assert(word_at(x, j, url_word()));
    assert(x[at + 12] == text[12]);
    assert(spaces_end(x, j + 4) == j + 4);
    let open = at + 12;
    assert(is_quote(x[open]));
    assert forall|k: int| 0 <= k < n implies x[(at + 13) + k] == #[trigger] name[k] by {
        assert(text[13 + k] == name[k]);
        assert(x[at + (13 + k)] == text[13 + k]);
    }
    assert(stands_at(x, at + 13, name));
    assert(x[at + (13 + n)] == text[13 + n]);
    assert(x[at + (14 + n)] == text[14 + n]);
    lemma_string_over_name(x, at + 13, name, 0);
    let close = at + 13 + n;
    assert(string_stop(x, open + 1, x[open]) == close);
    assert(spaces_end(x, close + 1) == close + 1);
    assert(target_span(x, j) == Some(Span { from: at + 13, to: close, end: close + 2 }));
    assert(x.subrange(at + 13, close) =~= name);
    assert(!is_remote(name)) by {
        assert(http_word().len() == 7);
        assert(https_word().len() == 8);
        if word_at(name, 0, http_word()) {
            assert(folded(name[0int + 4]) == http_word()[4]);
        }
        if word_at(name, 0, https_word()) {
            assert(folded(name[0int + 5]) == https_word()[5]);
        }
    }
    assert(target_of(name) == Target::Relative(name));
}

/// Whether `right` is `left` from `i` on, `by` bytes further on, with each
/// of the directives `refs` replaced by the directive that imports the cache
/// file of that name.
pub open spec fn rewritten_from(
    left: Seq<u8>,
    right: Seq<u8>,
    refs: Seq<Reference>,
    names: Seq<Seq<u8>>,
    i: int,
    by: int,
) -> bool
    decreases refs.len(),
{
    if refs.len() == 0 {
        agree(left, right, i, left.len() as int, by) && left.len() + by == right.len()
    } else {
        let r = refs.first();
        let name = names.first();
        &&& names.len() == refs.len()
        &&& is_cache_name(name)
        &&& agree(left, right, i, r.start, by)
        &&& stands_at(right, r.start + by, import_text(name))
        &&& rewritten_from(
            left,
            right,
            refs.drop_first(),
            names.drop_first(),
            r.end,
            r.start + by + name.len() + 15 - r.end,
        )
    }
}

/// The directives `refs` as they stand in the rewritten text: each with the
/// name of its cache file for a target, and at its new place.
pub open spec fn rewritten_refs(refs: Seq<Reference>, names: Seq<Seq<u8>>, by: int) -> Seq<
    Reference,
>
    decreases refs.len(),
{
    if refs.len() == 0 {
        Seq::empty()
    } else {
        let r = refs.first();
        let name = names.first();
        seq![
            Reference {
                target: Target::Relative(name),
                start: r.start + by,
                end: r.start + by + name.len() + 15,
            },
        ] + rewritten_refs(
            refs.drop_first(),
            names.drop_first(),
            r.start + by + name.len() + 15 - r.end,
        )
    }
}

/// In a rewritten text the scanner finds the rewritten directives, and
/// nothing else.
pub proof fn lemma_scan_rewritten(
    left: Seq<u8>,
    right: Seq<u8>,
    refs: Seq<Reference>,
    names: Seq<Seq<u8>>,
    i: int,
    by: int,
)
    requires
        0 <= i <= left.len(),
        scan_from(left, i) == refs,
        rewritten_from(left, right, refs, names, i, by),
    ensures
        scan_from(right, i + by) == rewritten_refs(refs, names, by),
    decreases refs.len(),
{
    lemma_quiet_before_first(left, i);
    if refs.len() == 0 {
        lemma_quiet_same(left, right, i, left.len() as int, by);
        lemma_quiet_scan(right, i + by, right.len() as int);
    } else {
        let r = refs.first();
        let name = names.first();
        let at = r.start + by;
        lemma_directive_scanned(right, at, name);
        lemma_import_text_bytes(name);
        lemma_reference_at(right, at);
        lemma_quiet_same(left, right, i, r.start, by);
        lemma_quiet_scan(right, i + by, at);
        assert(scan_from(left, r.end) =~= refs.drop_first());
        lemma_scan_rewritten(
            left,
            right,
            refs.drop_first(),
            names.drop_first(),
            r.end,
            at + name.len() + 15 - r.end,
        );
        assert(scan_from(right, at) == seq![reference_at(right, at)] + scan_from(
            right,
            token_end(right, at),
        ));
    }
}

/// The edits that replace each of the directives `refs` by the directive
/// that imports the cache file of that name.
pub open spec fn edits_of(refs: Seq<Reference>, names: Seq<Seq<u8>>) -> Seq<Edit> {
    Seq::new(
        refs.len(),
        |k: int| Edit { start: refs[k].start, end: refs[k].end, text: import_text(names[k]) },
    )
}

/// Edits at directives that follow one another can be applied.
pub proof fn lemma_edits_of_fit(refs: Seq<Reference>, names: Seq<Seq<u8>>, len: int)
    requires
        in_order(refs, len),
    ensures
        edits_fit(edits_of(refs, names), len),
{
    let edits = edits_of(refs, names);
    assert forall|k: int| 0 <= k < edits.len() implies 0 <= (#[trigger] edits[k]).start
        <= edits[k].end <= len by {
        assert(refs[k].start + 7 <= refs[k].end);
    }
    assert forall|k: int, m: int| 0 <= k < m < edits.len() implies (#[trigger] edits[k]).end <= (
    #[trigger] edits[m]).start by {
        assert(refs[k].end <= refs[m].start);
    }
}

/// A range that no edit touches stands in the result as it stood, moved by
/// what the edits before it add.
proof fn lemma_gap_agrees(s: Seq<u8>, edits: Seq<Edit>, from: int, to: int)
    requires
        edits_fit(edits, s.len() as int),
        0 <= from <= to <= s.len(),
        forall|k: int|
            0 <= k < edits.len() ==> (#[trigger] edits[k]).end <= from || to <= edits[k].start,
    ensures
        agree(s, spliced(s, edits), from, to, shift(edits, from)),
{
    let t = spliced(s, edits);
    let by = shift(edits, from);
    lemma_untouched_range_kept(s, edits, from, to);
    assert forall|i: int| from <= i < to implies t[i + by] == #[trigger] s[i] by {
        assert(t.subrange(from + by, to + by)[i - from] == s.subrange(from, to)[i - from]);
    }
}

/// The text of an edit stands in the result at the place of its range,
/// moved by what the edits before it add.
proof fn lemma_edit_stands(s: Seq<u8>, edits: Seq<Edit>, k: int)
    requires
        edits_fit(edits, s.len() as int),
        0 <= k < edits.len(),
        edits[k].start < edits[k].end,
    ensures
        stands_at(spliced(s, edits), edits[k].start + shift(edits, edits[k].start), edits[k].text),
{
    let t = spliced(s, edits);
    let text = edits[k].text;
    let at = edits[k].start + shift(edits, edits[k].start);
    lemma_edit_applied(s, edits, k);
    assert forall|i: int| 0 <= i < text.len() implies t[at + i] == #[trigger] text[i] by {
        assert(t.subrange(at, at + text.len())[i] == text[i]);
    }
}

/// Where the text behind directive `k - 1` begins: at the end of that
/// directive, or at 0 where `k` is the first.
pub open spec fn gap_start(refs: Seq<Reference>, k: int) -> int {
    if k == 0 {
        0
    } else {
        refs[k - 1].end
    }
}

/// The edits before directive `k` end where the text before it begins, or
/// earlier.
proof fn lemma_edits_before(refs: Seq<Reference>, names: Seq<Seq<u8>>, len: int, k: int, j: int)
    requires
        in_order(refs, len),
        0 <= j < k <= refs.len(),
    ensures
        edits_of(refs, names)[j].end <= gap_start(refs, k),
        0 <= gap_start(refs, k) <= len,
{
    assert(0 <= refs[k - 1].start && refs[k - 1].start + 7 <= refs[k - 1].end <= len);
    if j < k - 1 {
        assert(refs[j].end <= refs[k - 1].start);
    }
}

/// The edits from directive `k` on begin where the text before it begins,
/// or later, and behind the end of `k` where they are not `k` itself.
proof fn lemma_edits_behind(refs: Seq<Reference>, names: Seq<Seq<u8>>, len: int, k: int, j: int)
    requires
        in_order(refs, len),
        0 <= k <= j < refs.len(),
    ensures
        gap_start(refs, k) <= refs[k].start,
        refs[k].start <= edits_of(refs, names)[j].start,
        edits_of(refs, names)[j].start + 7 <= edits_of(refs, names)[j].end <= len,
        k < j ==> refs[k].end <= edits_of(refs, names)[j].start,
        0 <= refs[k].start,
        refs[k].start + 7 <= refs[k].end <= len,
{
    assert(0 <= refs[j].start && refs[j].start + 7 <= refs[j].end <= len);
    assert(0 <= refs[k].start && refs[k].start + 7 <= refs[k].end <= len);
    if k > 0 {
        assert(refs[k - 1].end <= refs[k].start);
    }
    if k < j {
        assert(refs[k].end <= refs[j].start);
    }
}

/// Behind the last directive the rewritten text holds what the text held,
/// and ends where it should.
proof fn lemma_last_gap(s: Seq<u8>, refs: Seq<Reference>, names: Seq<Seq<u8>>)
    requires
        in_order(refs, s.len() as int),
    ensures
        ({
            let edits = edits_of(refs, names);
            let from = gap_start(refs, refs.len() as int);
            &&& agree(s, spliced(s, edits), from, s.len() as int, shift(edits, from))
            &&& s.len() + shift(edits, from) == spliced(s, edits).len()
        }),
{
    let edits = edits_of(refs, names);
    let len = s.len() as int;
    let n = refs.len() as int;
    let from = gap_start(refs, n);
    lemma_edits_of_fit(refs, names, len);
    assert(0 <= from <= len) by {
        if n > 0 {
            lemma_edits_before(refs, names, len, n, 0);
        }
    }
    assert forall|j: int| 0 <= j < edits.len() implies (#[trigger] edits[j]).end <= from by {
        lemma_edits_before(refs, names, len, n, j);
    }
    lemma_gap_agrees(s, edits, from, len);
    lemma_spliced_len(s, edits);
    lemma_shift_same(edits, from, len);
}

/// Before directive `k` the rewritten text holds what the text held; at the
/// place of the directive it holds the import of the cache file; and behind
/// it, it goes on as much further on as the new directive is longer.
proof fn lemma_one_gap(s: Seq<u8>, refs: Seq<Reference>, names: Seq<Seq<u8>>, k: int)
    requires
        in_order(refs, s.len() as int),
        names.len() == refs.len(),
        0 <= k < refs.len(),
    ensures
        ({
            let edits = edits_of(refs, names);
            let t = spliced(s, edits);
            let from = gap_start(refs, k);
            let by = shift(edits, from);
            &&& agree(s, t, from, refs[k].start, by)
            &&& stands_at(t, refs[k].start + by, import_text(names[k]))
            &&& shift(edits, refs[k].end) == refs[k].start + by + names[k].len() + 15 - refs[k].end
        }),
{
    let edits = edits_of(refs, names);
    let len = s.len() as int;
    let from = gap_start(refs, k);
    let r = refs[k];
    lemma_edits_of_fit(refs, names, len);
    lemma_import_text_bytes(names[k]);
    lemma_edits_behind(refs, names, len, k, k);
    assert(0 <= from) by {
        if k > 0 {
            lemma_edits_before(refs, names, len, k, 0);
        }
    }
    assert forall|j: int| 0 <= j < edits.len() implies ((#[trigger] edits[j]).end <= from
        || r.start <= edits[j].start) && (edits[j].end <= from || r.start < edits[j].end) && (j
        != k ==> edits[j].end <= r.start || r.end < edits[j].end) by {
        if j < k {
            lemma_edits_before(refs, names, len, k, j);
        } else {
            lemma_edits_behind(refs, names, len, k, j);
        }
    }
    lemma_gap_agrees(s, edits, from, r.start);
    lemma_shift_same(edits, from, r.start);
    lemma_edit_stands(s, edits, k);
    lemma_shift_across(edits, k, r.start, r.end);
}

/// The text with every directive replaced is the rewritten text, from each
/// directive on.
proof fn lemma_spliced_rewritten_from(
    s: Seq<u8>,
    refs: Seq<Reference>,
    names: Seq<Seq<u8>>,
    k: int,
)
    requires
        in_order(refs, s.len() as int),
        names.len() == refs.len(),
        forall|j: int| 0 <= j < names.len() ==> is_cache_name(#[trigger] names[j]),
        0 <= k <= refs.len(),
    ensures
        rewritten_from(
            s,
            spliced(s, edits_of(refs, names)),
            refs.skip(k),
            names.skip(k),
            gap_start(refs, k),
            shift(edits_of(refs, names), gap_start(refs, k)),
        ),
    decreases refs.len() - k,
{
    if k == refs.len() {
        lemma_last_gap(s, refs, names);
        assert(refs.skip(k).len() == 0);
    } else {
        lemma_one_gap(s, refs, names, k);
        lemma_spliced_rewritten_from(s, refs, names, k + 1);
        assert(refs.skip(k).first() == refs[k]);
        assert(names.skip(k).first() == names[k]);
        assert(refs.skip(k).drop_first() =~= refs.skip(k + 1));
        assert(names.skip(k).drop_first() =~= names.skip(k + 1));
        assert(gap_start(refs, k + 1) == refs[k].end);
    }
}

/// The rewritten directives are as many as the directives were, and each
/// names its cache file.
pub proof fn lemma_rewritten_refs(refs: Seq<Reference>, names: Seq<Seq<u8>>, by: int)
    requires
        names.len() == refs.len(),
    ensures
        rewritten_refs(refs, names, by).len() == refs.len(),
        forall|k: int|
            0 <= k < refs.len() ==> (#[trigger] rewritten_refs(refs, names, by)[k]).target
                == Target::Relative(names[k]),
    decreases refs.len(),
{
    if refs.len() > 0 {
        let r = refs.first();
        let name = names.first();
        let next = r.start + by + name.len() + 15 - r.end;
        lemma_rewritten_refs(refs.drop_first(), names.drop_first(), next);
        let all = rewritten_refs(refs, names, by);
        let rest = rewritten_refs(refs.drop_first(), names.drop_first(), next);
        assert forall|k: int| 0 <= k < refs.len() implies (#[trigger] all[k]).target
            == Target::Relative(names[k]) by {
            if k > 0 {
                assert(all[k] == rest[k - 1]);
                assert(names.drop_first()[k - 1] == names[k]);
            }
        }
    }
}

/// What the scanner finds in a text whose directives were all replaced by
/// imports of cache files: as many directives as before, each with the name
/// of its cache file for a target.
pub proof fn lemma_imports_of_rewritten(s: Seq<u8>, names: Seq<Seq<u8>>)
    requires
        names.len() == imports(s).len(),
        forall|j: int| 0 <= j < names.len() ==> is_cache_name(#[trigger] names[j]),
    ensures
        imports(spliced(s, edits_of(imports(s), names))).len() == imports(s).len(),
        forall|k: int|
            0 <= k < imports(s).len() ==> (#[trigger] imports(
                spliced(s, edits_of(imports(s), names)),
            )[k]).target == Target::Relative(names[k]),
{
    let refs = imports(s);
    let edits = edits_of(refs, names);
    let t = spliced(s, edits);
    lemma_imports_in_order(s);
    lemma_spliced_rewritten_from(s, refs, names, 0);
    assert(refs.skip(0) =~= refs);
    assert(names.skip(0) =~= names);
    assert forall|j: int| 0 <= j < edits.len() implies 0 < (#[trigger] edits[j]).end by {
        assert(0 <= refs[j].start && refs[j].start + 7 <= refs[j].end);
    }
    lemma_shift_none(edits, 0);
    lemma_scan_rewritten(s, t, refs, names, 0, 0);
    lemma_rewritten_refs(refs, names, 0);
}

/// Before the first edit nothing is moved.
proof fn lemma_shift_none(edits: Seq<Edit>, pos: int)
    requires
        forall|k: int| 0 <= k < edits.len() ==> pos < (#[trigger] edits[k]).end,
    ensures
        shift(edits, pos) == 0,
    decreases edits.len(),
{
    if edits.len() > 0 {
        let front = edits.drop_last();
        assert(edits[edits.len() - 1] == edits.last());
        assert forall|k: int| 0 <= k < front.len() implies pos < (#[trigger] front[k]).end by {
            assert(front[k] == edits[k]);
        }
        lemma_shift_none(front, pos);
    }
}

/// Whether `name` can be the name of a cache file: bytes of cache names,
/// and long enough to be neither `.` nor `..`.
pub open spec fn is_file_name(name: Seq<u8>) -> bool {
    is_cache_name(name) && name.len() >= 3
}

/// The name of a cache file is a clean path segment.
proof fn lemma_file_name_is_segment(name: Seq<u8>)
    requires
        is_file_name(name),
    ensures
        !name.contains(SLASH),
        name != dot(),
        name != dot_dot(),
        name[0] != SLASH,
{
    if name.contains(SLASH) {
        let k = choose|k: int| 0 <= k < name.len() && name[k] == SLASH;
        assert(is_name_byte(name[k]));
    }
    assert(is_name_byte(name[0]));
    assert(dot().len() == 1);
    assert(dot_dot().len() == 2);
}

/// Behind a directory, a name without slashes is the last segment.
proof fn lemma_segment_start_behind(dir: Seq<u8>, name: Seq<u8>)
    requires
        dir.len() > 0,
        dir.last() == SLASH,
        !name.contains(SLASH),
    ensures
        segment_start(dir + name) == dir.len(),
    decreases name.len(),
{
    if name.len() == 0 {
        assert(dir + name =~= dir);
    } else {
        let shorter = name.drop_last();
        assert(name[name.len() - 1] == name.last());
        assert(!shorter.contains(SLASH)) by {
            if shorter.contains(SLASH) {
                let k = choose|k: int| 0 <= k < shorter.len() && shorter[k] == SLASH;
                assert(name[k] == SLASH);
            }
        }
        lemma_segment_start_behind(dir, shorter);
        assert((dir + name).drop_last() =~= dir + shorter);
        assert((dir + name).last() == name.last());
    }
}

/// Clean segments with one more clean segment are clean.
proof fn lemma_clean_push(kept: Seq<Seq<u8>>, name: Seq<u8>)
    requires
        is_clean(kept),
        is_file_name(name),
    ensures
        is_clean(kept.push(name)),
        joined(kept.push(name)) == joined(kept) + seq![SLASH] + name,
        path_of(kept.push(name)) == joined(kept) + seq![SLASH] + name,
{
    lemma_file_name_is_segment(name);
    let more = kept.push(name);
    assert forall|k: int| 0 <= k < more.len() implies (#[trigger] more[k]).len() > 0 && more[k]
        != dot() && more[k] != dot_dot() && !more[k].contains(SLASH) by {
        if k < kept.len() {
            assert(more[k] == kept[k]);
        }
    }
    assert(more.drop_last() =~= kept);
    assert(more.last() == name);
}

/// The cache directory in canonical spelling with a slash at its end: its
/// folded origin, its clean segments each behind a slash, and the slash.
proof fn lemma_cache_prefix_parts(cache_dir: Seq<u8>)
    ensures
        ({
            let origin = origin_len(cache_dir);
            let head = lowered(cache_dir.subrange(0, origin));
            let kept = cleaned(segments(cache_dir.subrange(origin, cache_dir.len() as int)));
            &&& is_clean(kept)
            &&& head.len() == origin
            &&& cache_prefix_of(cache_dir) == head + (joined(kept) + seq![SLASH])
        }),
{
    let origin = origin_len(cache_dir);
    lemma_origin_len(cache_dir);
    let head = lowered(cache_dir.subrange(0, origin));
    let kept = cleaned(segments(cache_dir.subrange(origin, cache_dir.len() as int)));
    lemma_normalized_parts(cache_dir);
    let dir = normalized(cache_dir);
    assert(dir == head + path_of(kept));
    if kept.len() == 0 {
        assert(joined(kept) =~= Seq::<u8>::empty());
        assert(dir.last() == SLASH);
        assert(dir =~= head + (joined(kept) + seq![SLASH]));
    } else {
        let last = kept.last();
        assert(kept[kept.len() - 1] == last);
        assert(last.len() > 0 && !last.contains(SLASH));
        let path = joined(kept);
        assert(path == joined(kept.drop_last()) + seq![SLASH] + last);
        assert(path.last() == last.last());
        assert(last[last.len() - 1] == last.last());
        assert(dir.last() == path.last());
        assert(dir + seq![SLASH] =~= head + (path + seq![SLASH]));
    }
}

/// The path of a directory followed by a slash is split into the segments
/// of the directory and an empty one behind them, and cleaning leaves the
/// segments of the directory.
proof fn lemma_directory_path(kept: Seq<Seq<u8>>)
    requires
        is_clean(kept),
    ensures
        (joined(kept) + seq![SLASH]).len() > 0,
        (joined(kept) + seq![SLASH])[0] == SLASH,
        segments(joined(kept) + seq![SLASH]).len() > 0,
        segments(joined(kept) + seq![SLASH]).last().len() == 0,
        cleaned(segments(joined(kept) + seq![SLASH])) == kept,
{
    let dir_path = joined(kept) + seq![SLASH];
    let lead = seq![Seq::<u8>::empty()];
    lemma_segments_of_joined(kept);
    assert(dir_path.drop_last() =~= joined(kept));
    assert(dir_path.last() == SLASH);
    assert(segments(dir_path) == (lead + kept).push(Seq::<u8>::empty()));
    assert(segments(dir_path).drop_last() =~= lead + kept);
    lemma_cleaned_skips_empty_front(kept);
    lemma_cleaned_keeps_clean(kept);
    if kept.len() > 0 {
        assert(dir_path[0] == joined(kept)[0]);
    }
}

/// A name behind a directory path with one more slash: cleaning leaves the
/// segments of the directory and the name.
proof fn lemma_locator_path(kept: Seq<Seq<u8>>, name: Seq<u8>)
    requires
        is_clean(kept),
        is_file_name(name),
    ensures
        ({
            let path = joined(kept) + seq![SLASH] + seq![SLASH] + name;
            &&& path.len() > 0
            &&& path[0] == SLASH
            &&& path_of(cleaned(segments(path))) == joined(kept) + seq![SLASH] + name
        }),
{
    let slash = seq![SLASH];
    let dir_path = joined(kept) + slash;
    let doubled = dir_path + slash;
    let path = doubled + name;
    lemma_file_name_is_segment(name);
    lemma_directory_path(kept);
    assert(doubled.drop_last() =~= dir_path);
    assert(doubled.last() == SLASH);
    assert(segments(doubled) == segments(dir_path).push(Seq::<u8>::empty()));
    lemma_segments_append(doubled, name);
    assert(Seq::<u8>::empty() + name =~= name);
    assert(segments(doubled).drop_last() =~= segments(dir_path));
    let split = segments(path);
    assert(split == segments(dir_path).push(name));
    assert(split.last() == name);
    assert(split.drop_last() =~= segments(dir_path));
    let front = segments(dir_path);
    assert(front.drop_last().push(front.last()) =~= front);
    assert(cleaned(front) == cleaned(front.drop_last()));
    assert(cleaned(split) == kept.push(name));
    lemma_clean_push(kept, name);
    assert(path[0] == dir_path[0]);
}

/// A document stored in the cache directory under the name of a cache file
/// has a canonical identity already.
pub proof fn lemma_stored_is_canonical(cache_dir: Seq<u8>, stored_name: Seq<u8>)
    requires
        is_file_name(stored_name),
    ensures
        ({
            let prefix = cache_prefix_of(cache_dir);
            let stored = prefix + stored_name;
            &&& normalized(stored) == stored
            &&& origin_len(stored) == origin_len(cache_dir)
            &&& directory_len(stored) == prefix.len()
            &&& prefix.len() > 0
            &&& prefix.last() == SLASH
        }),
{
    let origin = origin_len(cache_dir);
    let head = lowered(cache_dir.subrange(0, origin));
    let kept = cleaned(segments(cache_dir.subrange(origin, cache_dir.len() as int)));
    let prefix = cache_prefix_of(cache_dir);
    let stored = prefix + stored_name;
    let dir_path = joined(kept) + seq![SLASH];
    lemma_cache_prefix_parts(cache_dir);
    lemma_file_name_is_segment(stored_name);
    assert(prefix.last() == SLASH);
    let stored_path = dir_path + stored_name;
    lemma_clean_push(kept, stored_name);
    lemma_path_of_clean(kept.push(stored_name));
    assert(stored =~= head + stored_path);
    lemma_normalized_behind_origin(cache_dir, stored_path);
    lemma_origin_kept(cache_dir, stored_path);
    lemma_segment_start_behind(prefix, stored_name);
}

/// What a document stored in the cache directory imports by the name of a
/// cache file lies beside it in the cache directory.
pub proof fn lemma_import_beside_stored(cache_dir: Seq<u8>, stored_name: Seq<u8>, name: Seq<u8>)
    requires
        is_file_name(stored_name),
        is_file_name(name),
    ensures
        ({
            let prefix = cache_prefix_of(cache_dir);
            let stored = prefix + stored_name;
            &&& normalized(stored) == stored
            &&& canonical(stored, Target::Relative(name)) == Some(prefix + name)
            &&& lies_in(prefix, prefix + name)
        }),
{
    let origin = origin_len(cache_dir);
    let head = lowered(cache_dir.subrange(0, origin));
    let kept = cleaned(segments(cache_dir.subrange(origin, cache_dir.len() as int)));
    let prefix = cache_prefix_of(cache_dir);
    let stored = prefix + stored_name;
    let slash = seq![SLASH];
    lemma_cache_prefix_parts(cache_dir);
    lemma_stored_is_canonical(cache_dir, stored_name);
    lemma_file_name_is_segment(name);
    let locator = resolved_locator(stored, name);
    assert(stored.subrange(0, prefix.len() as int) =~= prefix);
    let locator_path = joined(kept) + slash + slash + name;
    assert(locator =~= head + locator_path);
    lemma_locator_path(kept, name);
    lemma_normalized_behind_origin(cache_dir, locator_path);
    assert(head + (joined(kept) + slash + name) =~= prefix + name);
    lemma_segment_start_behind(prefix, name);
}

/// Where every directive of a document is rewritten, the edits to it are
/// those that replace each directive by the import of its cache file.
pub proof fn lemma_rewrites_all(
    prefix: Seq<u8>,
    sources: Map<Seq<u8>, Outcome>,
    doc: Seq<u8>,
    refs: Seq<Reference>,
    visiting: Seq<Seq<u8>>,
)
    requires
        forall|k: int|
            0 <= k < refs.len() ==> is_rewritten(prefix, sources, doc, visiting, #[trigger] refs[k]),
    ensures
        rewrites(prefix, sources, doc, refs, visiting) == edits_of(refs, cache_names(doc, refs)),
    decreases refs.len(),
{
    let all = rewrites(prefix, sources, doc, refs, visiting);
    let wanted = edits_of(refs, cache_names(doc, refs));
    if refs.len() == 0 {
        assert(all =~= wanted);
    } else {
        let rest = refs.drop_first();
        assert(refs[0] == refs.first());
        assert forall|k: int| 0 <= k < rest.len() implies is_rewritten(
            prefix,
            sources,
            doc,
            visiting,
            #[trigger] rest[k],
        ) by {
            assert(rest[k] == refs[k + 1]);
        }
        lemma_rewrites_all(prefix, sources, doc, rest, visiting);
        let later = rewrites(prefix, sources, doc, rest, visiting);
        assert(all.len() == wanted.len());
        assert forall|k: int| 0 <= k < all.len() implies all[k] == wanted[k] by {
            if k > 0 {
                assert(all[k] == later[k - 1]);
                assert(rest[k - 1] == refs[k]);
            }
        }
        assert(all =~= wanted);
    }
}

/// The names of the cache files of the targets of the directives `refs` of
/// the document `doc`.
pub open spec fn cache_names(doc: Seq<u8>, refs: Seq<Reference>) -> Seq<Seq<u8>> {
    Seq::new(refs.len(), |k: int| cache_name_of(canonical(doc, refs[k].target).unwrap()))
}

/// Localizing again what was localized changes nothing. Where a run has
/// rewritten every import of a document, the rewritten document, stored in
/// the cache directory under its cache name, is localized: a second run on
/// it gives the same bytes back, with no assets, no failures and nothing
/// pending, whatever the sources of the second run hold.
pub proof fn lemma_localized_stays_localized(
    css: Seq<u8>,
    root_identity: Seq<u8>,
    cache_dir: Seq<u8>,
    sources: Map<Seq<u8>, Outcome>,
    later: Map<Seq<u8>, Outcome>,
)
    requires
        sources.dom().finite(),
        later.dom().finite(),
        forall|k: int|
            0 <= k < imports(css).len() ==> is_rewritten(
                cache_prefix_of(cache_dir),
                sources,
                normalized(root_identity),
                seq![normalized(root_identity)],
                #[trigger] imports(css)[k],
            ),
    ensures
        ({
            let first = localized(css, root_identity, cache_dir, sources);
            let stored = cache_prefix_of(cache_dir) + cache_name_of(normalized(root_identity));
            &&& points_into_cache(cache_prefix_of(cache_dir), normalized(stored), imports(first.css))
            &&& localized(first.css, stored, cache_dir, later) == (Localized {
                css: first.css,
                assets: Seq::empty(),
                failures: Seq::empty(),
                pending: Seq::empty(),
            })
        }),
{
    let prefix = cache_prefix_of(cache_dir);
    let root = normalized(root_identity);
    let refs = imports(css);
    let names = cache_names(root, refs);
    let first = localized(css, root_identity, cache_dir, sources);
    let stored_name = cache_name_of(root);
    let stored = prefix + stored_name;
    lemma_rewritten_document(css, root_identity, cache_dir, sources);
    lemma_rewrites_all(prefix, sources, root, refs, seq![root]);
    lemma_cache_name_bytes(root);
    assert forall|j: int| 0 <= j < names.len() implies is_cache_name(#[trigger] names[j])
        && is_file_name(names[j]) by {
        lemma_cache_name_bytes(canonical(root, refs[j].target).unwrap());
    }
    lemma_imports_of_rewritten(css, names);
    let again = imports(first.css);
    assert forall|k: int| 0 <= k < again.len() implies (canonical(
        normalized(stored),
        (#[trigger] again[k]).target,
    ) matches Some(id) && lies_in(prefix, id)) by {
        lemma_import_beside_stored(cache_dir, stored_name, names[k]);
    }
    lemma_localized_document_unchanged(first.css, stored, cache_dir, later);
}

} // verus!
