//! Canonical identities: one spelling for each stylesheet, whether it is
//! named by a URL or by a path.
//!
//! An identity is an origin followed by an absolute path. The origin of an
//! `http://` or `https://` URL is everything up to the first slash behind
//! the scheme; a file path has an empty origin. Normalizing folds the origin
//! to lower case and cleans the path: empty and `.` segments go, and `..`
//! takes the segment before it along.

use vstd::prelude::*;
use crate::scan::{ImportTarget, Target};
use crate::text::{copy_of, find_segment_start, fold, folded, has_word_at, lemma_views_push,
    push_all, push_range, segment_start, views, word_at, COLON, DOT, SLASH};

verus! {

/// Where a theme comes from.
#[derive(Clone, Debug, PartialEq, Eq)]
pub enum ThemeSource {
    /// A file at this path.
    Local(Vec<u8>),
    /// A stylesheet at this URL.
    Remote(Vec<u8>),
}

/// The bytes of `http://`.
pub open spec fn http_word() -> Seq<u8> {
    seq![104u8, 116u8, 116u8, 112u8, COLON, SLASH, SLASH]
}

/// The bytes of `https://`.
pub open spec fn https_word() -> Seq<u8> {
    seq![104u8, 116u8, 116u8, 112u8, 115u8, COLON, SLASH, SLASH]
}

/// Whether a locator is an absolute `http://` or `https://` URL.
pub open spec fn is_remote(locator: Seq<u8>) -> bool {
    word_at(locator, 0, http_word()) || word_at(locator, 0, https_word())
}

/// Where the first slash at or behind `i` stands; the length of `s` where
/// there is none.
pub open spec fn slash_from(s: Seq<u8>, i: int) -> int
    decreases s.len() - i,
{
    if i >= s.len() {
        s.len() as int
    } else if s[i] == SLASH {
        i
    } else {
        slash_from(s, i + 1)
    }
}

/// How many bytes of an identity make up its origin.
pub open spec fn origin_len(id: Seq<u8>) -> int {
    if word_at(id, 0, http_word()) {
        slash_from(id, 7)
    } else if word_at(id, 0, https_word()) {
        slash_from(id, 8)
    } else {
        0
    }
}

/// The segments of a path: what stands between its slashes, and before the
/// first and behind the last.
pub open spec fn segments(path: Seq<u8>) -> Seq<Seq<u8>>
    decreases path.len(),
{
    if path.len() == 0 {
        seq![Seq::<u8>::empty()]
    } else if path.last() == SLASH {
        segments(path.drop_last()).push(Seq::<u8>::empty())
    } else {
        let before = segments(path.drop_last());
        before.drop_last().push(before.last().push(path.last()))
    }
}

/// The segment `.`.
pub open spec fn dot() -> Seq<u8> {
    seq![DOT]
}

/// The segment `..`.
pub open spec fn dot_dot() -> Seq<u8> {
    seq![DOT, DOT]
}

/// The segments that remain when a path is cleaned.
pub open spec fn cleaned(segs: Seq<Seq<u8>>) -> Seq<Seq<u8>>
    decreases segs.len(),
{
    if segs.len() == 0 {
        segs
    } else {
        let before = cleaned(segs.drop_last());
        let seg = segs.last();
        if seg.len() == 0 || seg == dot() {
            before
        } else if seg == dot_dot() {
            if before.len() > 0 {
                before.drop_last()
            } else {
                before
            }
        } else {
            before.push(seg)
        }
    }
}

/// The segments, each behind a slash.
pub open spec fn joined(segs: Seq<Seq<u8>>) -> Seq<u8>
    decreases segs.len(),
{
    if segs.len() == 0 {
        Seq::<u8>::empty()
    } else {
        joined(segs.drop_last()) + seq![SLASH] + segs.last()
    }
}

/// The absolute path made of the segments; the root where there are none.
pub open spec fn path_of(segs: Seq<Seq<u8>>) -> Seq<u8> {
    if segs.len() == 0 {
        seq![SLASH]
    } else {
        joined(segs)
    }
}

/// Every byte folded to lower case.
pub open spec fn lowered(s: Seq<u8>) -> Seq<u8> {
    Seq::new(s.len(), |k: int| folded(s[k]))
}

/// The canonical spelling of an identity.
pub open spec fn normalized(id: Seq<u8>) -> Seq<u8> {
    let origin = origin_len(id);
    lowered(id.subrange(0, origin)) + path_of(
        cleaned(segments(id.subrange(origin, id.len() as int))),
    )
}

/// How many bytes of a document's identity name the place it lies in: all
/// up to its last slash, but its origin at least.
pub open spec fn directory_len(doc: Seq<u8>) -> int {
    if segment_start(doc) > origin_len(doc) {
        segment_start(doc)
    } else {
        origin_len(doc)
    }
}

/// A path as it is written in the document `doc`, made a locator of its own:
/// behind the document's origin where the path begins with a slash, else
/// behind the place where the document lies.
pub open spec fn resolved_locator(doc: Seq<u8>, path: Seq<u8>) -> Seq<u8> {
    if path.len() > 0 && path[0] == SLASH {
        doc.subrange(0, origin_len(doc)) + path
    } else {
        doc.subrange(0, directory_len(doc)) + seq![SLASH] + path
    }
}

/// The canonical identity of what a directive in the document `doc` points
/// at. A malformed directive points at nothing.
pub open spec fn canonical(doc: Seq<u8>, target: Target) -> Option<Seq<u8>> {
    match target {
        Target::Remote(url) => Some(normalized(url)),
        Target::Relative(path) => Some(normalized(resolved_locator(doc, path))),
        Target::Malformed => None,
    }
}

/// The origin lies inside the identity.
pub proof fn lemma_origin_len(id: Seq<u8>)
    ensures
        0 <= origin_len(id) <= id.len(),
{
    assert(http_word().len() == 7);
    assert(https_word().len() == 8);
    if word_at(id, 0, http_word()) {
        lemma_slash_from_first(id, 7);
    } else if word_at(id, 0, https_word()) {
        lemma_slash_from_first(id, 8);
    }
}

/// Segments as cleaning leaves them: none is empty, `.` or `..`, and none
/// holds a slash.
pub open spec fn is_clean(segs: Seq<Seq<u8>>) -> bool {
    forall|k: int|
        0 <= k < segs.len() ==> (#[trigger] segs[k]).len() > 0 && segs[k] != dot() && segs[k]
            != dot_dot() && !segs[k].contains(SLASH)
}

/// No segment of a path holds a slash.
pub proof fn lemma_segments_hold_no_slash(path: Seq<u8>)
    ensures
        segments(path).len() > 0,
        forall|k: int| 0 <= k < segments(path).len() ==> !(#[trigger] segments(path)[k]).contains(SLASH),
    decreases path.len(),
{
    if path.len() > 0 {
        let shorter = segments(path.drop_last());
        lemma_segments_hold_no_slash(path.drop_last());
        let all = segments(path);
        assert forall|k: int| 0 <= k < all.len() implies !(#[trigger] all[k]).contains(SLASH) by {
            if path.last() == SLASH {
                if k < shorter.len() {
                    assert(all[k] == shorter[k]);
                }
            } else if k < shorter.len() - 1 {
                assert(all[k] == shorter[k]);
            } else {
                assert(all[k] == shorter.last().push(path.last()));
                vstd::seq_lib::lemma_seq_contains_after_push(shorter.last(), path.last(), SLASH);
            }
        }
    }
}

/// Cleaning leaves clean segments.
pub proof fn lemma_cleaned_is_clean(segs: Seq<Seq<u8>>)
    requires
        forall|k: int| 0 <= k < segs.len() ==> !(#[trigger] segs[k]).contains(SLASH),
    ensures
        is_clean(cleaned(segs)),
    decreases segs.len(),
{
    if segs.len() > 0 {
        let front = segs.drop_last();
        assert forall|k: int| 0 <= k < front.len() implies !(#[trigger] front[k]).contains(SLASH) by {
            assert(front[k] == segs[k]);
        }
        lemma_cleaned_is_clean(front);
        let before = cleaned(front);
        let all = cleaned(segs);
        assert(segs[segs.len() - 1] == segs.last());
        assert forall|k: int| 0 <= k < all.len() implies (#[trigger] all[k]).len() > 0 && all[k]
            != dot() && all[k] != dot_dot() && !all[k].contains(SLASH) by {
            if k < before.len() {
                assert(all[k] == before[k]);
            }
        }
    }
}

/// Cleaning changes nothing of clean segments.
pub proof fn lemma_cleaned_keeps_clean(segs: Seq<Seq<u8>>)
    requires
        is_clean(segs),
    ensures
        cleaned(segs) == segs,
    decreases segs.len(),
{
    if segs.len() > 0 {
        let front = segs.drop_last();
        assert forall|k: int| 0 <= k < front.len() implies (#[trigger] front[k]).len() > 0
            && front[k] != dot() && front[k] != dot_dot() && !front[k].contains(SLASH) by {
            assert(front[k] == segs[k]);
        }
        lemma_cleaned_keeps_clean(front);
        assert(segs[segs.len() - 1] == segs.last());
        assert(front.push(segs.last()) =~= segs);
    }
}

/// An empty segment in front makes no difference to cleaning.
pub proof fn lemma_cleaned_skips_empty_front(segs: Seq<Seq<u8>>)
    ensures
        cleaned(seq![Seq::<u8>::empty()] + segs) == cleaned(segs),
    decreases segs.len(),
{
    let front = seq![Seq::<u8>::empty()];
    if segs.len() == 0 {
        assert(front + segs =~= front);
        assert(front.drop_last() =~= Seq::<Seq<u8>>::empty());
        assert(cleaned(front.drop_last()) =~= Seq::<Seq<u8>>::empty());
        assert(front.last().len() == 0);
        assert(cleaned(segs) =~= Seq::<Seq<u8>>::empty());
    } else {
        lemma_cleaned_skips_empty_front(segs.drop_last());
        assert((front + segs).drop_last() =~= front + segs.drop_last());
        assert((front + segs).last() == segs.last());
    }
}

/// Bytes without a slash, added to a path, lengthen its last segment.
pub proof fn lemma_segments_append(path: Seq<u8>, more: Seq<u8>)
    requires
        !more.contains(SLASH),
    ensures
        segments(path + more) == segments(path).drop_last().push(segments(path).last() + more),
    decreases more.len(),
{
    lemma_segments_hold_no_slash(path);
    let before = segments(path);
    if more.len() == 0 {
        assert(path + more =~= path);
        assert(before.last() + more =~= before.last());
        assert(before.drop_last().push(before.last()) =~= before);
    } else {
        let shorter = more.drop_last();
        assert(more[more.len() - 1] == more.last());
        assert(more.last() != SLASH);
        assert(!shorter.contains(SLASH)) by {
            if shorter.contains(SLASH) {
                let k = choose|k: int| 0 <= k < shorter.len() && shorter[k] == SLASH;
                assert(more[k] == SLASH);
            }
        }
        lemma_segments_append(path, shorter);
        assert((path + more).drop_last() =~= path + shorter);
        assert((path + more).last() == more.last());
        let mid = segments(path + shorter);
        assert(mid.last() == before.last() + shorter);
        assert(mid.drop_last() =~= before.drop_last());
        assert((before.last() + shorter).push(more.last()) =~= before.last() + more);
    }
}

/// Joined segments without slashes are split again where they were joined.
pub proof fn lemma_segments_of_joined(segs: Seq<Seq<u8>>)
    requires
        forall|k: int| 0 <= k < segs.len() ==> !(#[trigger] segs[k]).contains(SLASH),
    ensures
        segments(joined(segs)) == seq![Seq::<u8>::empty()] + segs,
        segs.len() > 0 ==> joined(segs).len() > 0 && joined(segs)[0] == SLASH,
    decreases segs.len(),
{
    let lead = seq![Seq::<u8>::empty()];
    if segs.len() == 0 {
        assert(lead + segs =~= lead);
    } else {
        let front = segs.drop_last();
        let last = segs.last();
        assert(segs[segs.len() - 1] == last);
        assert forall|k: int| 0 <= k < front.len() implies !(#[trigger] front[k]).contains(SLASH) by {
            assert(front[k] == segs[k]);
        }
        lemma_segments_of_joined(front);
        let opened = joined(front) + seq![SLASH];
        assert(opened.drop_last() =~= joined(front));
        assert(opened.last() == SLASH);
        assert(segments(opened) == (lead + front).push(Seq::<u8>::empty()));
        lemma_segments_append(opened, last);
        assert(segments(opened).drop_last() =~= lead + front);
        assert(Seq::<u8>::empty() + last =~= last);
        assert((lead + front).push(last) =~= lead + segs);
        if front.len() == 0 {
            assert(joined(segs)[0] == SLASH);
        } else {
            assert(joined(segs)[0] == joined(front)[0]);
        }
    }
}

/// Where the first slash at or behind `i` stands, said directly.
pub proof fn lemma_slash_from_is(s: Seq<u8>, i: int, at: int)
    requires
        0 <= i <= at <= s.len(),
        forall|k: int| i <= k < at ==> s[k] != SLASH,
        at < s.len() ==> s[at] == SLASH,
    ensures
        slash_from(s, i) == at,
    decreases at - i,
{
    if i < at {
        lemma_slash_from_is(s, i + 1, at);
    }
}

/// No slash stands between `i` and the first slash at or behind it.
pub proof fn lemma_slash_from_first(s: Seq<u8>, i: int)
    requires
        0 <= i <= s.len(),
    ensures
        i <= slash_from(s, i) <= s.len(),
        forall|k: int| i <= k < slash_from(s, i) ==> s[k] != SLASH,
        slash_from(s, i) < s.len() ==> s[slash_from(s, i)] == SLASH,
    decreases s.len() - i,
{
    if i < s.len() && s[i] != SLASH {
        lemma_slash_from_first(s, i + 1);
    }
}

/// The origin of an identity, folded and followed by a path, is the origin
/// of the whole.
pub proof fn lemma_origin_kept(id: Seq<u8>, path: Seq<u8>)
    requires
        path.len() > 0,
        path[0] == SLASH,
    ensures
        origin_len(lowered(id.subrange(0, origin_len(id))) + path) == origin_len(id),
{
    let origin = origin_len(id);
    lemma_origin_len(id);
    let head = lowered(id.subrange(0, origin));
    let once = head + path;
    assert(http_word().len() == 7);
    assert(https_word().len() == 8);
    assert(once[origin] == path[0]);
    assert forall|k: int| 0 <= k < origin implies once[k] == folded(id[k]) by {
        assert(once[k] == head[k]);
    }
    if word_at(id, 0, http_word()) {
        lemma_slash_from_first(id, 7);
        assert forall|k: int| 0 <= k < 7 implies folded(#[trigger] once[0 + k]) == http_word()[k] by {
            assert(folded(id[0 + k]) == http_word()[k]);
        }
        assert(word_at(once, 0, http_word()));
        lemma_slash_from_is(once, 7, origin);
    } else if word_at(id, 0, https_word()) {
        lemma_slash_from_first(id, 8);
        assert forall|k: int| 0 <= k < 8 implies folded(#[trigger] once[0 + k]) == https_word()[k] by {
            assert(folded(id[0 + k]) == https_word()[k]);
        }
        assert(word_at(once, 0, https_word()));
        assert(!word_at(once, 0, http_word())) by {
            assert(folded(id[0int + 4]) == https_word()[4]);
            if word_at(once, 0, http_word()) {
                assert(folded(once[0int + 4]) == http_word()[4]);
            }
        }
        lemma_slash_from_is(once, 8, origin);
    } else {
        assert(!word_at(once, 0, http_word())) by {
            if word_at(once, 0, http_word()) {
                assert(folded(once[0int + 0]) == http_word()[0]);
            }
        }
        assert(!word_at(once, 0, https_word())) by {
            if word_at(once, 0, https_word()) {
                assert(folded(once[0int + 0]) == https_word()[0]);
            }
        }
    }
}

/// The canonical spelling of the folded origin of an identity followed by
/// a path: that origin, followed by the path cleaned.
pub proof fn lemma_normalized_behind_origin(id: Seq<u8>, path: Seq<u8>)
    requires
        path.len() > 0,
        path[0] == SLASH,
    ensures
        normalized(lowered(id.subrange(0, origin_len(id))) + path) == lowered(
            id.subrange(0, origin_len(id)),
        ) + path_of(cleaned(segments(path))),
{
    let origin = origin_len(id);
    lemma_origin_len(id);
    let head = lowered(id.subrange(0, origin));
    let whole = head + path;
    lemma_origin_kept(id, path);
    assert(whole.subrange(0, origin) =~= head);
    assert(whole.subrange(origin, whole.len() as int) =~= path);
    assert(lowered(head) =~= head);
}

/// The path of clean segments is clean already.
pub proof fn lemma_path_of_clean(kept: Seq<Seq<u8>>)
    requires
        is_clean(kept),
    ensures
        path_of(kept).len() > 0,
        path_of(kept)[0] == SLASH,
        cleaned(segments(path_of(kept))) == kept,
{
    lemma_segments_of_joined(kept);
    if kept.len() == 0 {
        let root = seq![SLASH];
        assert(root.drop_last() =~= Seq::<u8>::empty());
        assert(segments(root) == segments(Seq::<u8>::empty()).push(Seq::<u8>::empty()));
        let two = segments(root);
        assert(two.len() == 2 && two[0].len() == 0 && two[1].len() == 0);
        assert(two.drop_last().drop_last() =~= Seq::<Seq<u8>>::empty());
        assert(cleaned(two.drop_last().drop_last()) =~= Seq::<Seq<u8>>::empty());
        assert(two.drop_last().last().len() == 0);
        assert(cleaned(two.drop_last()) =~= Seq::<Seq<u8>>::empty());
        assert(cleaned(two) =~= Seq::<Seq<u8>>::empty());
    } else {
        lemma_cleaned_skips_empty_front(kept);
        lemma_cleaned_keeps_clean(kept);
    }
}

/// The canonical spelling of an identity is its folded origin followed by
/// the path of clean segments.
pub proof fn lemma_normalized_parts(id: Seq<u8>)
    ensures
        is_clean(cleaned(segments(id.subrange(origin_len(id), id.len() as int)))),
{
    lemma_segments_hold_no_slash(id.subrange(origin_len(id), id.len() as int));
    lemma_cleaned_is_clean(segments(id.subrange(origin_len(id), id.len() as int)));
}

/// A canonical spelling is its own canonical spelling: normalizing twice
/// gives what normalizing once gives.
pub proof fn lemma_normalized_is_canonical(id: Seq<u8>)
    ensures
        normalized(normalized(id)) == normalized(id),
{
    let kept = cleaned(segments(id.subrange(origin_len(id), id.len() as int)));
    lemma_normalized_parts(id);
    lemma_path_of_clean(kept);
    lemma_normalized_behind_origin(id, path_of(kept));
}

/// The bytes of `http://`.
pub fn http_word_bytes() -> (r: [u8; 7])
    ensures
        r@ == http_word(),
{
    let r: [u8; 7] = [104, 116, 116, 112, COLON, SLASH, SLASH];
    assert(r@ =~= http_word());
    r
}

/// The bytes of `https://`.
pub fn https_word_bytes() -> (r: [u8; 8])
    ensures
        r@ == https_word(),
{
    let r: [u8; 8] = [104, 116, 116, 112, 115, COLON, SLASH, SLASH];
    assert(r@ =~= https_word());
    r
}

/// Whether a locator is an absolute `http://` or `https://` URL.
pub fn remote(locator: &[u8]) -> (r: bool)
    ensures
        r == is_remote(locator@),
{
    let http = http_word_bytes();
    let https = https_word_bytes();
    has_word_at(locator, 0, http.as_slice()) || has_word_at(locator, 0, https.as_slice())
}

/// Where a locator leads: to a URL where it is one, else to a file.
pub fn source_of(locator: &[u8]) -> (source: ThemeSource)
    ensures
        match source {
            ThemeSource::Remote(url) => is_remote(locator@) && url@ == locator@,
            ThemeSource::Local(path) => !is_remote(locator@) && path@ == locator@,
        },
{
    if remote(locator) {
        ThemeSource::Remote(copy_of(locator))
    } else {
        ThemeSource::Local(copy_of(locator))
    }
}

fn find_slash(s: &[u8], from: usize) -> (r: usize)
    requires
        from <= s@.len(),
    ensures
        r == slash_from(s@, from as int),
        from <= r <= s@.len(),
{
    let mut i: usize = from;
    while i < s.len() && s[i] != SLASH
        invariant
            from <= i <= s@.len(),
            slash_from(s@, from as int) == slash_from(s@, i as int),
        decreases s@.len() - i,
    {
        i += 1;
    }
    i
}

/// How many bytes of an identity make up its origin.
pub fn origin_length(id: &[u8]) -> (r: usize)
    ensures
        r == origin_len(id@),
        r <= id@.len(),
{
    let http = http_word_bytes();
    let https = https_word_bytes();
    if has_word_at(id, 0, http.as_slice()) {
        find_slash(id, 7)
    } else if has_word_at(id, 0, https.as_slice()) {
        find_slash(id, 8)
    } else {
        0
    }
}

fn split_segments(path: &[u8], from: usize) -> (segs: Vec<Vec<u8>>)
    requires
        from <= path@.len(),
    ensures
        views(segs@) == segments(path@.subrange(from as int, path@.len() as int)),
{
    let mut segs: Vec<Vec<u8>> = Vec::new();
    let mut current: Vec<u8> = Vec::new();
    let mut i: usize = from;
    assert(views(segs@).push(current@) =~= segments(path@.subrange(from as int, from as int)));
    while i < path.len()
        invariant
            from <= i <= path@.len(),
            views(segs@).push(current@) == segments(path@.subrange(from as int, i as int)),
        decreases path@.len() - i,
    {
        let ghost before = path@.subrange(from as int, i as int);
        let ghost after = path@.subrange(from as int, i + 1);
        assert(after.drop_last() =~= before);
        assert(after.last() == path@[i as int]);
        let b = path[i];
        if b == SLASH {
            proof {
                lemma_views_push(segs@, current);
            }
            segs.push(current);
            current = Vec::new();
        } else {
            assert(views(segs@).push(current@).drop_last() =~= views(segs@));
            current.push(b);
        }
        i += 1;
    }
    assert(path@.subrange(from as int, i as int) =~= path@.subrange(
        from as int,
        path@.len() as int,
    ));
    proof {
        lemma_views_push(segs@, current);
    }
    segs.push(current);
    segs
}

fn clean_segments(segs: &Vec<Vec<u8>>) -> (kept: Vec<Vec<u8>>)
    ensures
        views(kept@) == cleaned(views(segs@)),
{
    let mut kept: Vec<Vec<u8>> = Vec::new();
    let mut i: usize = 0;
    assert(views(segs@).take(0) =~= Seq::<Seq<u8>>::empty());
    assert(views(kept@) =~= Seq::<Seq<u8>>::empty());
    while i < segs.len()
        invariant
            i <= segs.len(),
            views(kept@) == cleaned(views(segs@).take(i as int)),
        decreases segs.len() - i,
    {
        let ghost all = views(segs@);
        assert(all.take(i + 1).drop_last() =~= all.take(i as int));
        assert(all.take(i + 1).last() == segs@[i as int]@);
        let seg = &segs[i];
        if seg.len() == 0 {
        } else if seg.len() == 1 && seg[0] == DOT {
            assert(seg@ =~= dot());
        } else if seg.len() == 2 && seg[0] == DOT && seg[1] == DOT {
            assert(seg@ =~= dot_dot());
            assert(seg@ != dot());
            if kept.len() > 0 {
                let ghost before = views(kept@);
                kept.pop();
                assert(views(kept@) =~= before.drop_last());
            }
        } else {
            assert(seg@ != dot()) by {
                if seg@ == dot() {
                    assert(seg@.len() == 1 && seg@[0] == DOT);
                }
            }
            assert(seg@ != dot_dot()) by {
                if seg@ == dot_dot() {
                    assert(seg@.len() == 2 && seg@[0] == DOT && seg@[1] == DOT);
                }
            }
            let copy = copy_of(seg.as_slice());
            proof {
                lemma_views_push(kept@, copy);
            }
            kept.push(copy);
        }
        i += 1;
    }
    assert(views(segs@).take(i as int) =~= views(segs@));
    kept
}

fn push_path(out: &mut Vec<u8>, segs: &Vec<Vec<u8>>)
    ensures
        final(out)@ == old(out)@ + path_of(views(segs@)),
{
    if segs.len() == 0 {
        out.push(SLASH);
        assert(out@ =~= old(out)@ + seq![SLASH]);
        return ;
    }
    let mut i: usize = 0;
    assert(views(segs@).take(0) =~= Seq::<Seq<u8>>::empty());
    assert(out@ =~= old(out)@ + joined(views(segs@).take(0)));
    while i < segs.len()
        invariant
            i <= segs.len(),
            out@ == old(out)@ + joined(views(segs@).take(i as int)),
        decreases segs.len() - i,
    {
        let ghost all = views(segs@);
        let ghost before = out@;
        assert(all.take(i + 1).drop_last() =~= all.take(i as int));
        assert(all.take(i + 1).last() == segs@[i as int]@);
        out.push(SLASH);
        push_all(out, segs[i].as_slice());
        assert(out@ =~= old(out)@ + (joined(all.take(i as int)) + seq![SLASH] + segs@[i as int]@));
        i += 1;
    }
    assert(views(segs@).take(i as int) =~= views(segs@));
}

/// The canonical spelling of an identity.
pub fn normalize(id: &[u8]) -> (out: Vec<u8>)
    ensures
        out@ == normalized(id@),
{
    let origin = origin_length(id);
    let mut out: Vec<u8> = Vec::new();
    let mut i: usize = 0;
    assert(out@ =~= lowered(id@.subrange(0, 0)));
    while i < origin
        invariant
            i <= origin <= id@.len(),
            out@ == lowered(id@.subrange(0, i as int)),
        decreases origin - i,
    {
        out.push(fold(id[i]));
        i += 1;
        assert(out@ =~= lowered(id@.subrange(0, i as int)));
    }
    let segs = split_segments(id, origin);
    let kept = clean_segments(&segs);
    push_path(&mut out, &kept);
    out
}

/// A path as it is written in the document `doc`, made a locator of its own.
pub fn resolve_locator(doc: &[u8], path: &[u8]) -> (out: Vec<u8>)
    ensures
        out@ == resolved_locator(doc@, path@),
{
    let origin = origin_length(doc);
    let mut out: Vec<u8> = Vec::new();
    if path.len() > 0 && path[0] == SLASH {
        push_range(&mut out, doc, 0, origin);
        push_all(&mut out, path);
        assert(out@ =~= doc@.subrange(0, origin as int) + path@);
    } else {
        let cut = find_segment_start(doc);
        let directory = if cut > origin {
            cut
        } else {
            origin
        };
        push_range(&mut out, doc, 0, directory);
        out.push(SLASH);
        push_all(&mut out, path);
        assert(out@ =~= doc@.subrange(0, directory as int) + seq![SLASH] + path@);
    }
    out
}

/// The canonical identity of what a directive in the document `doc` points
/// at: the normalized URL of a remote target, the normalized place of a
/// relative one, seen from the document. A malformed directive has none.
pub fn canonical_id(doc: &[u8], target: &ImportTarget) -> (id: Option<Vec<u8>>)
    ensures
        match id {
            Some(bytes) => canonical(doc@, target@) == Some(bytes@),
            None => canonical(doc@, target@) is None,
        },
{
    match target {
        ImportTarget::Remote(url) => Some(normalize(url.as_slice())),
        ImportTarget::Relative(path) => {
            let locator = resolve_locator(doc, path.as_slice());
            Some(normalize(locator.as_slice()))
        },
        ImportTarget::Malformed => None,
    }
}

} // verus!
