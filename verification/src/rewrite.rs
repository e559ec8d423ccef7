//! Replacing byte ranges of a text, leaving every other byte where it was
//! relative to its neighbours.

use vstd::prelude::*;
use crate::text::{push_all, push_range, views};

verus! {

/// One replacement: the bytes `start..end` of a text give way to `text`.
#[derive(Clone, Debug, PartialEq, Eq)]
pub struct Replacement {
    pub start: usize,
    pub end: usize,
    pub text: Vec<u8>,
}

/// The model of a `Replacement`.
pub struct Edit {
    pub start: int,
    pub end: int,
    pub text: Seq<u8>,
}

impl View for Replacement {
    type V = Edit;

    open spec fn view(&self) -> Edit {
        Edit { start: self.start as int, end: self.end as int, text: self.text@ }
    }
}

/// Edits that can be applied to a text of `len` bytes: each lies inside the
/// text, and each ends before the next begins.
pub open spec fn edits_fit(edits: Seq<Edit>, len: int) -> bool {
    &&& forall|k: int|
        0 <= k < edits.len() ==> 0 <= (#[trigger] edits[k]).start <= edits[k].end <= len
    &&& forall|k: int, m: int|
        0 <= k < m < edits.len() ==> (#[trigger] edits[k]).end <= (#[trigger] edits[m]).start
}

/// The text with the edits applied: what stands before the last edit, with
/// the edits before it applied; the last edit's text; what stands behind it.
pub open spec fn spliced(text: Seq<u8>, edits: Seq<Edit>) -> Seq<u8>
    decreases edits.len(),
{
    if edits.len() == 0 {
        text
    } else {
        let last = edits.last();
        spliced(text.subrange(0, last.start), edits.drop_last()) + last.text + text.subrange(
            last.end,
            text.len() as int,
        )
    }
}

/// By how much the edits that end at or before `pos` move what stands at
/// `pos`.
pub open spec fn shift(edits: Seq<Edit>, pos: int) -> int
    decreases edits.len(),
{
    if edits.len() == 0 {
        0
    } else {
        let last = edits.last();
        shift(edits.drop_last(), pos) + if last.end <= pos {
            last.text.len() - (last.end - last.start)
        } else {
            0
        }
    }
}

/// Edits that fit a text fit all but the last of them in front of the last.
proof fn lemma_fit_front(edits: Seq<Edit>, len: int)
    requires
        edits_fit(edits, len),
        edits.len() > 0,
    ensures
        edits_fit(edits.drop_last(), edits.last().start),
        0 <= edits.last().start <= edits.last().end <= len,
{
    let front = edits.drop_last();
    let last = edits.last();
    assert(edits[edits.len() - 1] == last);
    assert forall|k: int| 0 <= k < front.len() implies 0 <= (#[trigger] front[k]).start
        <= front[k].end <= last.start by {
        assert(front[k] == edits[k]);
    }
    assert forall|k: int, m: int| 0 <= k < m < front.len() implies (#[trigger] front[k]).end <= (
    #[trigger] front[m]).start by {
        assert(front[k] == edits[k]);
        assert(front[m] == edits[m]);
    }
}

/// What is added behind the last edit stays behind the result.
pub proof fn lemma_spliced_append(text: Seq<u8>, more: Seq<u8>, edits: Seq<Edit>)
    requires
        edits_fit(edits, text.len() as int),
    ensures
        spliced(text + more, edits) == spliced(text, edits) + more,
{
    if edits.len() == 0 {
    } else {
        lemma_fit_front(edits, text.len() as int);
        let last = edits.last();
        let whole = text + more;
        assert(whole.subrange(0, last.start) =~= text.subrange(0, last.start));
        assert(whole.subrange(last.end, whole.len() as int) =~= text.subrange(
            last.end,
            text.len() as int,
        ) + more);
        assert(spliced(whole, edits) =~= spliced(text, edits) + more);
    }
}

/// Past the last edit, every position is moved by the same amount.
pub proof fn lemma_shift_settles(edits: Seq<Edit>, len: int, pos: int)
    requires
        edits_fit(edits, len),
        len <= pos,
    ensures
        shift(edits, pos) == shift(edits, len),
    decreases edits.len(),
{
    if edits.len() > 0 {
        lemma_fit_front(edits, len);
        let front = edits.drop_last();
        let last = edits.last();
        lemma_shift_settles(front, last.start, len);
        lemma_shift_settles(front, last.start, pos);
    }
}

/// The result is as long as the text and what the edits add to it.
pub proof fn lemma_spliced_len(text: Seq<u8>, edits: Seq<Edit>)
    requires
        edits_fit(edits, text.len() as int),
    ensures
        spliced(text, edits).len() == text.len() + shift(edits, text.len() as int),
    decreases edits.len(),
{
    if edits.len() > 0 {
        lemma_fit_front(edits, text.len() as int);
        let front = edits.drop_last();
        let last = edits.last();
        lemma_spliced_len(text.subrange(0, last.start), front);
        lemma_shift_settles(front, last.start, text.len() as int);
    }
}

/// A range of the text that no edit touches stands in the result unchanged,
/// moved by what the edits before it add.
pub proof fn lemma_untouched_range_kept(text: Seq<u8>, edits: Seq<Edit>, from: int, to: int)
    requires
        edits_fit(edits, text.len() as int),
        0 <= from <= to <= text.len(),
        forall|k: int|
            0 <= k < edits.len() ==> (#[trigger] edits[k]).end <= from || to <= edits[k].start,
    ensures
        0 <= from + shift(edits, from),
        to + shift(edits, from) <= spliced(text, edits).len(),
        spliced(text, edits).subrange(from + shift(edits, from), to + shift(edits, from))
            == text.subrange(from, to),
    decreases edits.len(),
{
    if edits.len() == 0 {
    } else {
        lemma_fit_front(edits, text.len() as int);
        let front = edits.drop_last();
        let last = edits.last();
        let head = text.subrange(0, last.start);
        let tail = text.subrange(last.end, text.len() as int);
        let before = spliced(head, front);
        assert(edits[edits.len() - 1] == last);
        assert(spliced(text, edits) == before + last.text + tail);
        if last.end <= from {
            lemma_spliced_len(head, front);
            lemma_shift_settles(front, last.start, from);
            let moved = from + shift(edits, from);
            assert(moved == before.len() + last.text.len() + (from - last.end));
            assert(spliced(text, edits).subrange(moved, moved + (to - from)) =~= text.subrange(
                from,
                to,
            ));
        } else {
            assert(to <= last.start);
            assert forall|k: int| 0 <= k < front.len() implies (#[trigger] front[k]).end <= from
                || to <= front[k].start by {
                assert(front[k] == edits[k]);
            }
            lemma_untouched_range_kept(head, front, from, to);
            let moved = from + shift(front, from);
            assert(shift(edits, from) == shift(front, from));
            assert(head.subrange(from, to) =~= text.subrange(from, to));
            assert(spliced(text, edits).subrange(moved, moved + (to - from)) =~= before.subrange(
                moved,
                moved + (to - from),
            ));
        }
    }
}

/// The text of an edit stands in the result, at the place of the range that
/// it replaces, moved by what the edits before it add.
pub proof fn lemma_edit_applied(text: Seq<u8>, edits: Seq<Edit>, i: int)
    requires
        edits_fit(edits, text.len() as int),
        0 <= i < edits.len(),
        edits[i].start < edits[i].end,
    ensures
        0 <= edits[i].start + shift(edits, edits[i].start),
        edits[i].start + shift(edits, edits[i].start) + edits[i].text.len() <= spliced(
            text,
            edits,
        ).len(),
        spliced(text, edits).subrange(
            edits[i].start + shift(edits, edits[i].start),
            edits[i].start + shift(edits, edits[i].start) + edits[i].text.len(),
        ) == edits[i].text,
    decreases edits.len(),
{
    lemma_fit_front(edits, text.len() as int);
    let front = edits.drop_last();
    let last = edits.last();
    let head = text.subrange(0, last.start);
    let tail = text.subrange(last.end, text.len() as int);
    let before = spliced(head, front);
    let e = edits[i];
    assert(edits[edits.len() - 1] == last);
    assert(spliced(text, edits) == before + last.text + tail);
    if i == edits.len() - 1 {
        lemma_spliced_len(head, front);
        let at = e.start + shift(edits, e.start);
        assert(at == before.len());
        assert(spliced(text, edits).subrange(at, at + e.text.len()) =~= e.text);
    } else {
        assert(front[i] == e);
        assert(e.end <= last.start);
        lemma_edit_applied(head, front, i);
        let at = e.start + shift(front, e.start);
        assert(shift(edits, e.start) == shift(front, e.start));
        assert(spliced(text, edits).subrange(at, at + e.text.len()) =~= before.subrange(
            at,
            at + e.text.len(),
        ));
    }
}

/// Two places with no edit ending between them are moved by the same
/// amount.
pub proof fn lemma_shift_same(edits: Seq<Edit>, from: int, to: int)
    requires
        from <= to,
        forall|k: int| 0 <= k < edits.len() ==> (#[trigger] edits[k]).end <= from || to < edits[k].end,
    ensures
        shift(edits, from) == shift(edits, to),
    decreases edits.len(),
{
    if edits.len() > 0 {
        let front = edits.drop_last();
        assert(edits[edits.len() - 1] == edits.last());
        assert forall|k: int| 0 <= k < front.len() implies (#[trigger] front[k]).end <= from || to
            < front[k].end by {
            assert(front[k] == edits[k]);
        }
        lemma_shift_same(front, from, to);
    }
}

/// Two places with one edit ending between them are moved by amounts that
/// differ by what that edit adds.
pub proof fn lemma_shift_across(edits: Seq<Edit>, k: int, from: int, to: int)
    requires
        0 <= k < edits.len(),
        from < edits[k].end <= to,
        forall|j: int|
            0 <= j < edits.len() && j != k ==> (#[trigger] edits[j]).end <= from || to
                < edits[j].end,
    ensures
        shift(edits, to) == shift(edits, from) + edits[k].text.len() - (edits[k].end
            - edits[k].start),
    decreases edits.len(),
{
    let front = edits.drop_last();
    assert(edits[edits.len() - 1] == edits.last());
    assert forall|j: int| 0 <= j < front.len() && j != k implies (#[trigger] front[j]).end <= from
        || to < front[j].end by {
        assert(front[j] == edits[j]);
    }
    if k == edits.len() - 1 {
        lemma_shift_same(front, from, to);
    } else {
        assert(front[k] == edits[k]);
        lemma_shift_across(front, k, from, to);
    }
}

/// Applies the replacements to `text`. They must lie inside the text, in
/// order and without overlap; otherwise there is no result.
pub fn splice(text: &[u8], edits: &Vec<Replacement>) -> (out: Option<Vec<u8>>)
    ensures
        out is Some <==> edits_fit(views(edits@), text@.len() as int),
        out matches Some(bytes) ==> bytes@ == spliced(text@, views(edits@)),
{
    let ghost all = views(edits@);
    let mut out: Vec<u8> = Vec::new();
    let mut cursor: usize = 0;
    let mut k: usize = 0;
    assert(text@.subrange(0, 0) =~= out@);
    while k < edits.len()
        invariant
            k <= edits.len(),
            cursor <= text@.len(),
            all == views(edits@),
            k == 0 ==> cursor == 0,
            k > 0 ==> cursor == all[k - 1].end,
            edits_fit(all.take(k as int), cursor as int),
            out@ == spliced(text@.subrange(0, cursor as int), all.take(k as int)),
        decreases edits.len() - k,
    {
        let e = &edits[k];
        let ghost done = all.take(k as int);
        let ghost next = all.take(k + 1);
        assert(all[k as int] == e@);
        if e.start < cursor || e.end < e.start || e.end > text.len() {
            proof {
                if edits_fit(all, text@.len() as int) {
                    if k > 0 {
                        assert(all[k - 1].end <= all[k as int].start);
                    }
                }
            }
            return None;
        }
        proof {
            assert(next.last() == e@);
            assert(next.drop_last() =~= done);
            assert forall|j: int| 0 <= j < next.len() implies 0 <= (#[trigger] next[j]).start
                <= next[j].end <= e.end by {
                if j < k {
                    assert(next[j] == done[j]);
                }
            }
            assert forall|j: int, m: int| 0 <= j < m < next.len() implies (#[trigger] next[j]).end
                <= (#[trigger] next[m]).start by {
                assert(next[j] == done[j]);
                if m < k {
                    assert(next[m] == done[m]);
                }
            }
            let head = text@.subrange(0, cursor as int);
            let gap = text@.subrange(cursor as int, e.start as int);
            let upto = text@.subrange(0, e.end as int);
            lemma_spliced_append(head, gap, done);
            assert(upto.subrange(0, e.start as int) =~= head + gap);
            assert(upto.subrange(e.end as int, upto.len() as int) =~= Seq::<u8>::empty());
            assert(spliced(upto, next) =~= spliced(head, done) + gap + e.text@);
        }
        push_range(&mut out, text, cursor, e.start);
        push_all(&mut out, e.text.as_slice());
        cursor = e.end;
        k += 1;
    }
    proof {
        assert(all.take(k as int) =~= all);
        let head = text@.subrange(0, cursor as int);
        let rest = text@.subrange(cursor as int, text@.len() as int);
        lemma_spliced_append(head, rest, all);
        assert(head + rest =~= text@);
    }
    push_range(&mut out, text, cursor, text.len());
    Some(out)
}

} // verus!
