//! What a localization run guarantees, whatever the document and whatever
//! the sources hold.
//!
//! The engine is defined by the walk that it makes. The statements here say
//! what that walk comes to: which directives are rewritten and which stay,
//! that no stylesheet is cached twice, that a cycle is reported and not
//! followed, and that a document whose imports are local already is left
//! as it is.

use vstd::prelude::*;
use crate::cache::{asset_of, cache_name_of, cache_prefix_of, import_text,
    lemma_cache_name_injective, lies_in, Asset};
use crate::error::ErrorKind;
use crate::identity::{canonical, normalized};
use crate::localize::{after, edit_for, has_asset, lemma_entering, lemma_in_order_rest, localized,
    points_into_cache, verdict_on, walk, Fault, Localized, Progress, Verdict, Walked};
use crate::rewrite::{edits_fit, lemma_edit_applied, lemma_untouched_range_kept, shift, spliced,
    Edit};
use crate::scan::{imports, in_order, lemma_imports_in_order, Reference};
use crate::sources::Outcome;

verus! {

/// Whether `longer` begins with all of `shorter`.
pub open spec fn extends<T>(longer: Seq<T>, shorter: Seq<T>) -> bool {
    &&& shorter.len() <= longer.len()
    &&& forall|k: int| 0 <= k < shorter.len() ==> longer[k] == #[trigger] shorter[k]
}

/// Whether a target is cached and its directive rewritten, in a document
/// that is walked while the documents `visiting` are: the target lies
/// outside the cache directory, is none of those documents, and the sources
/// hold its bytes.
pub open spec fn is_cacheable(
    prefix: Seq<u8>,
    sources: Map<Seq<u8>, Outcome>,
    visiting: Seq<Seq<u8>>,
    id: Seq<u8>,
) -> bool {
    &&& !lies_in(prefix, id)
    &&& !visiting.contains(id)
    &&& sources.dom().contains(id)
    &&& sources[id] is Content
}

/// Whether the directive `r` of the document `doc` is rewritten.
pub open spec fn is_rewritten(
    prefix: Seq<u8>,
    sources: Map<Seq<u8>, Outcome>,
    doc: Seq<u8>,
    visiting: Seq<Seq<u8>>,
    r: Reference,
) -> bool {
    match canonical(doc, r.target) {
        Some(id) => is_cacheable(prefix, sources, visiting, id),
        None => false,
    }
}

/// The edits to a document: one for each directive that is rewritten, in
/// their order, each pointing at the cache file of its target.
pub open spec fn rewrites(
    prefix: Seq<u8>,
    sources: Map<Seq<u8>, Outcome>,
    doc: Seq<u8>,
    refs: Seq<Reference>,
    visiting: Seq<Seq<u8>>,
) -> Seq<Edit>
    decreases refs.len(),
{
    if refs.len() == 0 {
        Seq::empty()
    } else {
        let rest = rewrites(prefix, sources, doc, refs.drop_first(), visiting);
        if is_rewritten(prefix, sources, doc, visiting, refs.first()) {
            seq![edit_for(refs.first(), canonical(doc, refs.first().target).unwrap())] + rest
        } else {
            rest
        }
    }
}

/// What holds of the assets and pending identities at every moment of a
/// run: every asset is the cached form of a stylesheet that the sources
/// hold, lies outside the cache directory and is none of the documents being
/// walked; no two assets share an identity; nothing known is pending, and
/// nothing is pending twice.
pub open spec fn sound(
    prefix: Seq<u8>,
    sources: Map<Seq<u8>, Outcome>,
    visiting: Seq<Seq<u8>>,
    p: Progress,
) -> bool {
    &&& forall|k: int|
        0 <= k < p.assets.len() ==> is_cacheable(
            prefix,
            sources,
            visiting,
            (#[trigger] p.assets[k]).id,
        ) && p.assets[k] == asset_of(prefix, p.assets[k].id, p.assets[k].content)
    &&& forall|j: int, k: int|
        0 <= j < k < p.assets.len() ==> (#[trigger] p.assets[j]).id != (#[trigger] p.assets[k]).id
    &&& forall|k: int| 0 <= k < p.pending.len() ==> !sources.dom().contains(#[trigger] p.pending[k])
    &&& forall|j: int, k: int|
        0 <= j < k < p.pending.len() ==> (#[trigger] p.pending[j]) != (#[trigger] p.pending[k])
}

proof fn lemma_extends_transitive<T>(a: Seq<T>, b: Seq<T>, c: Seq<T>)
    requires
        extends(a, b),
        extends(b, c),
    ensures
        extends(a, c),
{
    assert forall|k: int| 0 <= k < c.len() implies a[k] == #[trigger] c[k] by {
        assert(b[k] == c[k]);
    }
}

proof fn lemma_extends_push<T>(a: Seq<T>, item: T)
    ensures
        extends(a.push(item), a),
        extends(a, a),
{
}

/// An asset with the identity is found again after more assets were added.
proof fn lemma_has_asset_extends(longer: Seq<Asset>, shorter: Seq<Asset>, id: Seq<u8>)
    requires
        extends(longer, shorter),
        has_asset(shorter, id),
    ensures
        has_asset(longer, id),
{
    let k = choose|k: int| 0 <= k < shorter.len() && (#[trigger] shorter[k]).id == id;
    assert(longer[k] == shorter[k]);
}

proof fn lemma_contains_extends<T>(longer: Seq<T>, shorter: Seq<T>, item: T)
    requires
        extends(longer, shorter),
        shorter.contains(item),
    ensures
        longer.contains(item),
{
    let k = choose|k: int| 0 <= k < shorter.len() && shorter[k] == item;
    assert(longer[k] == shorter[k]);
}

/// While a document is entered, what was sound outside stays sound inside,
/// as long as the document is no asset yet.
proof fn lemma_sound_entering(
    prefix: Seq<u8>,
    sources: Map<Seq<u8>, Outcome>,
    visiting: Seq<Seq<u8>>,
    p: Progress,
    id: Seq<u8>,
)
    requires
        sound(prefix, sources, visiting, p),
        !has_asset(p.assets, id),
    ensures
        sound(prefix, sources, visiting.push(id), p),
{
    assert forall|k: int| 0 <= k < p.assets.len() implies is_cacheable(
        prefix,
        sources,
        visiting.push(id),
        (#[trigger] p.assets[k]).id,
    ) by {
        vstd::seq_lib::lemma_seq_contains_after_push(visiting, id, p.assets[k].id);
    }
}

/// When a document has been walked, storing it keeps the state sound for
/// the documents outside it.
proof fn lemma_sound_storing(
    prefix: Seq<u8>,
    sources: Map<Seq<u8>, Outcome>,
    visiting: Seq<Seq<u8>>,
    p: Progress,
    id: Seq<u8>,
    content: Seq<u8>,
)
    requires
        sound(prefix, sources, visiting.push(id), p),
        is_cacheable(prefix, sources, visiting, id),
    ensures
        sound(prefix, sources, visiting, p.storing(asset_of(prefix, id, content))),
{
    let q = p.storing(asset_of(prefix, id, content));
    assert forall|k: int| 0 <= k < q.assets.len() implies is_cacheable(
        prefix,
        sources,
        visiting,
        (#[trigger] q.assets[k]).id,
    ) && q.assets[k] == asset_of(prefix, q.assets[k].id, q.assets[k].content) by {
        if k < p.assets.len() {
            assert(q.assets[k] == p.assets[k]);
            vstd::seq_lib::lemma_seq_contains_after_push(visiting, id, p.assets[k].id);
        }
    }
    assert forall|j: int, k: int| 0 <= j < k < q.assets.len() implies (#[trigger] q.assets[j]).id
        != (#[trigger] q.assets[k]).id by {
        assert(q.assets[j] == p.assets[j]);
        if k < p.assets.len() {
            assert(q.assets[k] == p.assets[k]);
        } else {
            vstd::seq_lib::lemma_seq_contains_after_push(visiting, id, p.assets[j].id);
        }
    }
}

/// Noting an unknown identity as pending keeps the state sound.
proof fn lemma_sound_awaiting(
    prefix: Seq<u8>,
    sources: Map<Seq<u8>, Outcome>,
    visiting: Seq<Seq<u8>>,
    p: Progress,
    id: Seq<u8>,
)
    requires
        sound(prefix, sources, visiting, p),
        !sources.dom().contains(id),
    ensures
        sound(prefix, sources, visiting, p.awaiting(id)),
        extends(p.awaiting(id).pending, p.pending),
{
    let q = p.awaiting(id);
    if !p.pending.contains(id) {
        assert forall|k: int| 0 <= k < q.pending.len() implies !sources.dom().contains(
            #[trigger] q.pending[k],
        ) by {
            if k < p.pending.len() {
                assert(q.pending[k] == p.pending[k]);
            }
        }
        assert forall|j: int, k: int| 0 <= j < k < q.pending.len() implies (#[trigger] q.pending[j])
            != (#[trigger] q.pending[k]) by {
            assert(q.pending[j] == p.pending[j]);
            if k < p.pending.len() {
                assert(q.pending[k] == p.pending[k]);
            }
        }
    }
}

/// What a walk comes to. From a sound state it leads to a sound state; it
/// only adds to the assets, the failures and the pending identities; and the
/// edits that it makes are those of the directives whose targets the
/// sources hold, and no others.
pub proof fn lemma_walk(
    prefix: Seq<u8>,
    sources: Map<Seq<u8>, Outcome>,
    doc: Seq<u8>,
    refs: Seq<Reference>,
    visiting: Seq<Seq<u8>>,
    acc: Progress,
    edits: Seq<Edit>,
)
    requires
        sources.dom().finite(),
        sound(prefix, sources, visiting, acc),
    ensures
        ({
            let walked = walk(prefix, sources, doc, refs, visiting, acc, edits);
            &&& sound(prefix, sources, visiting, walked.progress)
            &&& extends(walked.progress.assets, acc.assets)
            &&& extends(walked.progress.failures, acc.failures)
            &&& extends(walked.progress.pending, acc.pending)
            &&& walked.edits == edits + rewrites(prefix, sources, doc, refs, visiting)
        }),
    decreases sources.dom().difference(visiting.to_set()).len(), refs.len(),
{
    if refs.len() == 0 {
        assert(edits + Seq::<Edit>::empty() =~= edits);
    } else {
        let r = refs.first();
        let rest = refs.drop_first();
        let verdict = verdict_on(prefix, sources, doc, visiting, acc.assets, r);
        let inner = match verdict {
            Verdict::Enter { id, content } => walk(
                prefix,
                sources,
                id,
                imports(content),
                visiting.push(id),
                acc,
                Seq::empty(),
            ),
            _ => Walked { progress: acc, edits: Seq::empty() },
        };
        let next = after(prefix, doc, r, verdict, acc, edits, inner);
        let own = rewrites(prefix, sources, doc, seq![r], visiting);
        assert(seq![r].drop_first() =~= Seq::<Reference>::empty());
        assert(seq![r].first() == r);
        assert(rewrites(prefix, sources, doc, Seq::<Reference>::empty(), visiting)
            =~= Seq::<Edit>::empty());
        assert(own =~= if is_rewritten(prefix, sources, doc, visiting, r) {
            seq![edit_for(r, canonical(doc, r.target).unwrap())]
        } else {
            Seq::<Edit>::empty()
        });
        match verdict {
            Verdict::Malformed => {
                assert(next.edits =~= edits + own);
            },
            Verdict::Keep => {
                assert(next.edits =~= edits + own);
            },
            Verdict::Rewrite { id } => {
                let k = choose|k: int| 0 <= k < acc.assets.len() && (#[trigger] acc.assets[k]).id == id;
                assert(is_cacheable(prefix, sources, visiting, acc.assets[k].id));
                assert(next.edits =~= edits + own);
            },
            Verdict::Fail { id, kind, detail } => {
                assert(next.edits =~= edits + own);
            },
            Verdict::Wait { id } => {
                lemma_sound_awaiting(prefix, sources, visiting, acc, id);
                assert(next.edits =~= edits + own);
            },
            Verdict::Enter { id, content } => {
                lemma_entering(sources.dom(), visiting, id);
                lemma_sound_entering(prefix, sources, visiting, acc, id);
                lemma_walk(
                    prefix,
                    sources,
                    id,
                    imports(content),
                    visiting.push(id),
                    acc,
                    Seq::empty(),
                );
                lemma_sound_storing(
                    prefix,
                    sources,
                    visiting,
                    inner.progress,
                    id,
                    spliced(content, inner.edits),
                );
                lemma_extends_push(
                    inner.progress.assets,
                    asset_of(prefix, id, spliced(content, inner.edits)),
                );
                lemma_extends_transitive(next.progress.assets, inner.progress.assets, acc.assets);
                assert(next.edits =~= edits + own);
            },
        }
        assert(sound(prefix, sources, visiting, next.progress));
        assert(extends(next.progress.assets, acc.assets));
        assert(extends(next.progress.failures, acc.failures));
        assert(extends(next.progress.pending, acc.pending));
        lemma_walk(prefix, sources, doc, rest, visiting, next.progress, next.edits);
        let walked = walk(prefix, sources, doc, refs, visiting, acc, edits);
        assert(walked == walk(prefix, sources, doc, rest, visiting, next.progress, next.edits));
        lemma_extends_transitive(walked.progress.assets, next.progress.assets, acc.assets);
        lemma_extends_transitive(walked.progress.failures, next.progress.failures, acc.failures);
        lemma_extends_transitive(walked.progress.pending, next.progress.pending, acc.pending);
        let later = rewrites(prefix, sources, doc, rest, visiting);
        assert(rewrites(prefix, sources, doc, refs, visiting) =~= own + later);
        assert((edits + own) + later =~= edits + (own + later));
    }
}

/// Nothing gathered is sound.
proof fn lemma_sound_empty(prefix: Seq<u8>, sources: Map<Seq<u8>, Outcome>, visiting: Seq<Seq<u8>>)
    ensures
        sound(prefix, sources, visiting, Progress::empty()),
{
}

/// The rewritten document, said directly: the document with each directive
/// replaced whose target lies outside the cache directory, is not the
/// document itself, and is held by the sources. Every other byte of the
/// document is kept.
pub proof fn lemma_rewritten_document(
    css: Seq<u8>,
    root_identity: Seq<u8>,
    cache_dir: Seq<u8>,
    sources: Map<Seq<u8>, Outcome>,
)
    requires
        sources.dom().finite(),
    ensures
        localized(css, root_identity, cache_dir, sources).css == spliced(
            css,
            rewrites(
                cache_prefix_of(cache_dir),
                sources,
                normalized(root_identity),
                imports(css),
                seq![normalized(root_identity)],
            ),
        ),
{
    let prefix = cache_prefix_of(cache_dir);
    let root = normalized(root_identity);
    lemma_sound_empty(prefix, sources, seq![root]);
    lemma_walk(prefix, sources, root, imports(css), seq![root], Progress::empty(), Seq::empty());
    let own = rewrites(prefix, sources, root, imports(css), seq![root]);
    assert(Seq::<Edit>::empty() + own =~= own);
}

/// No stylesheet is cached twice, and none is asked for twice: the assets
/// of a run have different identities and different cache files, each is
/// the cached form of a stylesheet that the sources hold, and the pending
/// identities are different from one another and unknown to the sources.
pub proof fn lemma_nothing_twice(
    css: Seq<u8>,
    root_identity: Seq<u8>,
    cache_dir: Seq<u8>,
    sources: Map<Seq<u8>, Outcome>,
)
    requires
        sources.dom().finite(),
    ensures
        ({
            let result = localized(css, root_identity, cache_dir, sources);
            let prefix = cache_prefix_of(cache_dir);
            &&& forall|j: int, k: int|
                0 <= j < k < result.assets.len() ==> (#[trigger] result.assets[j]).id != (
                #[trigger] result.assets[k]).id && result.assets[j].path != result.assets[k].path
            &&& forall|k: int|
                0 <= k < result.assets.len() ==> sources.dom().contains(
                    (#[trigger] result.assets[k]).id,
                ) && sources[result.assets[k].id] is Content && result.assets[k].id != normalized(
                    root_identity,
                ) && result.assets[k] == asset_of(
                    prefix,
                    result.assets[k].id,
                    result.assets[k].content,
                )
            &&& forall|j: int, k: int|
                0 <= j < k < result.pending.len() ==> (#[trigger] result.pending[j]) != (
                #[trigger] result.pending[k])
            &&& forall|k: int|
                0 <= k < result.pending.len() ==> !sources.dom().contains(
                    #[trigger] result.pending[k],
                )
        }),
{
    let prefix = cache_prefix_of(cache_dir);
    let root = normalized(root_identity);
    let result = localized(css, root_identity, cache_dir, sources);
    lemma_sound_empty(prefix, sources, seq![root]);
    lemma_walk(prefix, sources, root, imports(css), seq![root], Progress::empty(), Seq::empty());
    assert forall|j: int, k: int| 0 <= j < k < result.assets.len() implies (
    #[trigger] result.assets[j]).id != (#[trigger] result.assets[k]).id && result.assets[j].path
        != result.assets[k].path by {
        let a = result.assets[j];
        let b = result.assets[k];
        if a.path == b.path {
            let left = cache_name_of(a.id);
            let right = cache_name_of(b.id);
            assert(a.path == prefix + left);
            assert(b.path == prefix + right);
            assert(left =~= (prefix + left).subrange(prefix.len() as int, a.path.len() as int));
            assert(right =~= (prefix + right).subrange(prefix.len() as int, b.path.len() as int));
            lemma_cache_name_injective(a.id, b.id);
        }
    }
    assert forall|k: int| 0 <= k < result.assets.len() implies (#[trigger] result.assets[k]).id
        != root by {
        assert(is_cacheable(prefix, sources, seq![root], result.assets[k].id));
        assert(seq![root][0] == root);
    }
}

/// A document without import directives comes back unchanged, with no
/// assets, no failures and nothing pending.
pub proof fn lemma_no_imports_unchanged(
    css: Seq<u8>,
    root_identity: Seq<u8>,
    cache_dir: Seq<u8>,
    sources: Map<Seq<u8>, Outcome>,
)
    requires
        sources.dom().finite(),
        imports(css).len() == 0,
    ensures
        localized(css, root_identity, cache_dir, sources) == (Localized {
            css,
            assets: Seq::empty(),
            failures: Seq::empty(),
            pending: Seq::empty(),
        }),
{
}

/// A walk over directives that all point into the cache directory changes
/// nothing.
proof fn lemma_walk_of_local_imports(
    prefix: Seq<u8>,
    sources: Map<Seq<u8>, Outcome>,
    doc: Seq<u8>,
    refs: Seq<Reference>,
    visiting: Seq<Seq<u8>>,
    acc: Progress,
    edits: Seq<Edit>,
)
    requires
        sources.dom().finite(),
        forall|k: int|
            0 <= k < refs.len() ==> (canonical(doc, (#[trigger] refs[k]).target) matches Some(id)
                && lies_in(prefix, id)),
    ensures
        walk(prefix, sources, doc, refs, visiting, acc, edits) == (Walked { progress: acc, edits }),
    decreases refs.len(),
{
    if refs.len() > 0 {
        let rest = refs.drop_first();
        assert(refs[0] == refs.first());
        assert forall|k: int| 0 <= k < rest.len() implies (canonical(
            doc,
            (#[trigger] rest[k]).target,
        ) matches Some(id) && lies_in(prefix, id)) by {
            assert(rest[k] == refs[k + 1]);
        }
        lemma_walk_of_local_imports(prefix, sources, doc, rest, visiting, acc, edits);
    }
}

/// Localizing a document that is localized already changes nothing: where
/// every import points at a file in the cache directory, the document comes
/// back as it is, with no assets, no failures and nothing pending, whatever
/// the sources hold.
pub proof fn lemma_localized_document_unchanged(
    css: Seq<u8>,
    root_identity: Seq<u8>,
    cache_dir: Seq<u8>,
    sources: Map<Seq<u8>, Outcome>,
)
    requires
        sources.dom().finite(),
        points_into_cache(cache_prefix_of(cache_dir), normalized(root_identity), imports(css)),
    ensures
        localized(css, root_identity, cache_dir, sources) == (Localized {
            css,
            assets: Seq::empty(),
            failures: Seq::empty(),
            pending: Seq::empty(),
        }),
{
    let root = normalized(root_identity);
    lemma_walk_of_local_imports(
        cache_prefix_of(cache_dir),
        sources,
        root,
        imports(css),
        seq![root],
        Progress::empty(),
        Seq::empty(),
    );
}

/// The result depends on nothing but the bytes handed in: equal documents,
/// identities, cache directories and sources give equal results, down to
/// the bytes of every asset.
pub proof fn lemma_same_input_same_output(
    css: Seq<u8>,
    root_identity: Seq<u8>,
    cache_dir: Seq<u8>,
    sources: Map<Seq<u8>, Outcome>,
    other_css: Seq<u8>,
    other_identity: Seq<u8>,
    other_dir: Seq<u8>,
    other_sources: Map<Seq<u8>, Outcome>,
)
    requires
        css =~= other_css,
        root_identity =~= other_identity,
        cache_dir =~= other_dir,
        sources =~= other_sources,
    ensures
        localized(css, root_identity, cache_dir, sources) == localized(
            other_css,
            other_identity,
            other_dir,
            other_sources,
        ),
{
}

/// A walk is the walk of its first directive, followed by the walk of the
/// others.
pub proof fn lemma_walk_first(
    prefix: Seq<u8>,
    sources: Map<Seq<u8>, Outcome>,
    doc: Seq<u8>,
    refs: Seq<Reference>,
    visiting: Seq<Seq<u8>>,
    acc: Progress,
    edits: Seq<Edit>,
)
    requires
        sources.dom().finite(),
        refs.len() > 0,
    ensures
        ({
            let next = walk(prefix, sources, doc, seq![refs.first()], visiting, acc, edits);
            walk(prefix, sources, doc, refs, visiting, acc, edits) == walk(
                prefix,
                sources,
                doc,
                refs.drop_first(),
                visiting,
                next.progress,
                next.edits,
            )
        }),
{
    let r = refs.first();
    let one = seq![r];
    assert(one.first() == r);
    assert(one.drop_first() =~= Seq::<Reference>::empty());
    let verdict = verdict_on(prefix, sources, doc, visiting, acc.assets, r);
    let inner = match verdict {
        Verdict::Enter { id, content } => walk(
            prefix,
            sources,
            id,
            imports(content),
            visiting.push(id),
            acc,
            Seq::empty(),
        ),
        _ => Walked { progress: acc, edits: Seq::empty() },
    };
    let next = after(prefix, doc, r, verdict, acc, edits, inner);
    assert(walk(
        prefix,
        sources,
        doc,
        Seq::<Reference>::empty(),
        visiting,
        next.progress,
        next.edits,
    ) == next);
    assert(walk(prefix, sources, doc, one, visiting, acc, edits) == next);
}

/// Whether `e` is the edit of one of the directives `refs` that is
/// rewritten.
pub open spec fn rewrites_one_of(
    prefix: Seq<u8>,
    sources: Map<Seq<u8>, Outcome>,
    doc: Seq<u8>,
    visiting: Seq<Seq<u8>>,
    refs: Seq<Reference>,
    e: Edit,
) -> bool {
    exists|j: int|
        0 <= j < refs.len() && is_rewritten(prefix, sources, doc, visiting, #[trigger] refs[j])
            && e == edit_for(refs[j], canonical(doc, refs[j].target).unwrap())
}

proof fn lemma_rewrites_one_of_rest(
    prefix: Seq<u8>,
    sources: Map<Seq<u8>, Outcome>,
    doc: Seq<u8>,
    visiting: Seq<Seq<u8>>,
    refs: Seq<Reference>,
    e: Edit,
    len: int,
)
    requires
        refs.len() > 0,
        in_order(refs, len),
        rewrites_one_of(prefix, sources, doc, visiting, refs.drop_first(), e),
    ensures
        rewrites_one_of(prefix, sources, doc, visiting, refs, e),
        refs.first().end <= e.start,
{
    let rest = refs.drop_first();
    let j = choose|j: int|
        0 <= j < rest.len() && is_rewritten(prefix, sources, doc, visiting, #[trigger] rest[j]) && e
            == edit_for(rest[j], canonical(doc, rest[j].target).unwrap());
    assert(rest[j] == refs[j + 1]);
    assert(refs[0].end <= refs[j + 1].start);
}

/// Every edit to a document is the edit of one of its directives that is
/// rewritten.
pub proof fn lemma_rewrites_members(
    prefix: Seq<u8>,
    sources: Map<Seq<u8>, Outcome>,
    doc: Seq<u8>,
    refs: Seq<Reference>,
    visiting: Seq<Seq<u8>>,
    len: int,
)
    requires
        in_order(refs, len),
    ensures
        forall|i: int|
            0 <= i < rewrites(prefix, sources, doc, refs, visiting).len() ==> rewrites_one_of(
                prefix,
                sources,
                doc,
                visiting,
                refs,
                #[trigger] rewrites(prefix, sources, doc, refs, visiting)[i],
            ),
    decreases refs.len(),
{
    if refs.len() > 0 {
        let r = refs.first();
        let rest = refs.drop_first();
        lemma_in_order_rest(refs, len);
        lemma_rewrites_members(prefix, sources, doc, rest, visiting, len);
        let all = rewrites(prefix, sources, doc, refs, visiting);
        let later = rewrites(prefix, sources, doc, rest, visiting);
        let offset: int = if is_rewritten(prefix, sources, doc, visiting, r) {
            1
        } else {
            0
        };
        assert(refs[0] == r);
        assert forall|i: int| 0 <= i < all.len() implies rewrites_one_of(
            prefix,
            sources,
            doc,
            visiting,
            refs,
            #[trigger] all[i],
        ) by {
            if i < offset {
                assert(all[i] == edit_for(refs[0], canonical(doc, refs[0].target).unwrap()));
            } else {
                assert(all[i] == later[i - offset]);
                lemma_rewrites_one_of_rest(prefix, sources, doc, visiting, refs, later[i - offset], len);
            }
        }
    }
}

/// The edits to a document follow one another inside it, so they can be
/// applied.
pub proof fn lemma_rewrites_fit(
    prefix: Seq<u8>,
    sources: Map<Seq<u8>, Outcome>,
    doc: Seq<u8>,
    refs: Seq<Reference>,
    visiting: Seq<Seq<u8>>,
    len: int,
)
    requires
        in_order(refs, len),
    ensures
        edits_fit(rewrites(prefix, sources, doc, refs, visiting), len),
    decreases refs.len(),
{
    if refs.len() > 0 {
        let r = refs.first();
        let rest = refs.drop_first();
        lemma_in_order_rest(refs, len);
        lemma_rewrites_fit(prefix, sources, doc, rest, visiting, len);
        lemma_rewrites_members(prefix, sources, doc, rest, visiting, len);
        let all = rewrites(prefix, sources, doc, refs, visiting);
        let later = rewrites(prefix, sources, doc, rest, visiting);
        if is_rewritten(prefix, sources, doc, visiting, r) {
            let e = edit_for(r, canonical(doc, r.target).unwrap());
            assert(all == seq![e] + later);
            assert forall|i: int| 0 <= i < all.len() implies 0 <= (#[trigger] all[i]).start
                <= all[i].end <= len by {
                if i > 0 {
                    assert(all[i] == later[i - 1]);
                }
            }
            assert forall|i: int, m: int| 0 <= i < m < all.len() implies (#[trigger] all[i]).end
                <= (#[trigger] all[m]).start by {
                assert(all[m] == later[m - 1]);
                if i > 0 {
                    assert(all[i] == later[i - 1]);
                } else {
                    lemma_rewrites_one_of_rest(prefix, sources, doc, visiting, refs, later[m - 1], len);
                }
            }
        }
    }
}

/// A directive that is not rewritten stays in the document byte for byte:
/// where it failed, was malformed, closed a cycle, is pending or was local
/// already, its text stands in the result unchanged, moved only by what the
/// rewritten directives before it add.
pub proof fn lemma_unrewritten_import_stays(
    css: Seq<u8>,
    root_identity: Seq<u8>,
    cache_dir: Seq<u8>,
    sources: Map<Seq<u8>, Outcome>,
    k: int,
)
    requires
        sources.dom().finite(),
        0 <= k < imports(css).len(),
        !is_rewritten(
            cache_prefix_of(cache_dir),
            sources,
            normalized(root_identity),
            seq![normalized(root_identity)],
            imports(css)[k],
        ),
    ensures
        ({
            let r = imports(css)[k];
            let edits = rewrites(
                cache_prefix_of(cache_dir),
                sources,
                normalized(root_identity),
                imports(css),
                seq![normalized(root_identity)],
            );
            let out = localized(css, root_identity, cache_dir, sources).css;
            let at = r.start + shift(edits, r.start);
            &&& 0 <= at
            &&& at + (r.end - r.start) <= out.len()
            &&& out.subrange(at, at + (r.end - r.start)) == css.subrange(r.start, r.end)
        }),
{
    let prefix = cache_prefix_of(cache_dir);
    let root = normalized(root_identity);
    let refs = imports(css);
    let r = refs[k];
    let edits = rewrites(prefix, sources, root, refs, seq![root]);
    lemma_rewritten_document(css, root_identity, cache_dir, sources);
    lemma_imports_in_order(css);
    lemma_rewrites_fit(prefix, sources, root, refs, seq![root], css.len() as int);
    lemma_rewrites_members(prefix, sources, root, refs, seq![root], css.len() as int);
    assert forall|i: int| 0 <= i < edits.len() implies (#[trigger] edits[i]).end <= r.start
        || r.end <= edits[i].start by {
        assert(rewrites_one_of(prefix, sources, root, seq![root], refs, edits[i]));
        let j = choose|j: int|
            0 <= j < refs.len() && is_rewritten(prefix, sources, root, seq![root], #[trigger] refs[j])
                && edits[i] == edit_for(refs[j], canonical(root, refs[j].target).unwrap());
        if j < k {
            assert(refs[j].end <= refs[k].start);
        } else {
            assert(j > k);
            assert(refs[k].end <= refs[j].start);
        }
    }
    lemma_untouched_range_kept(css, edits, r.start, r.end);
}

/// The failure that a directive leads to, whatever was gathered before it:
/// a malformed directive, a target that is being walked, and a target that
/// the sources hold as failed. Every other directive leads to none.
pub open spec fn reported(
    prefix: Seq<u8>,
    sources: Map<Seq<u8>, Outcome>,
    doc: Seq<u8>,
    visiting: Seq<Seq<u8>>,
    r: Reference,
) -> Option<Fault> {
    match canonical(doc, r.target) {
        None => Some(
            Fault {
                document: doc,
                reference: r,
                resource: Seq::empty(),
                kind: ErrorKind::MalformedImport,
                detail: Seq::empty(),
            },
        ),
        Some(id) => if lies_in(prefix, id) {
            None
        } else if visiting.contains(id) {
            Some(
                Fault {
                    document: doc,
                    reference: r,
                    resource: id,
                    kind: ErrorKind::CyclicImport,
                    detail: Seq::empty(),
                },
            )
        } else if sources.dom().contains(id) {
            match sources[id] {
                Outcome::Failed { kind, detail } => Some(
                    Fault { document: doc, reference: r, resource: id, kind, detail },
                ),
                Outcome::Content(_) => None,
            }
        } else {
            None
        },
    }
}

/// A walk reports the failure of each of its directives that leads to one:
/// among them every directive that points back at a document being walked,
/// which is reported as a cycle and not followed.
pub proof fn lemma_walk_reports(
    prefix: Seq<u8>,
    sources: Map<Seq<u8>, Outcome>,
    doc: Seq<u8>,
    refs: Seq<Reference>,
    visiting: Seq<Seq<u8>>,
    acc: Progress,
    edits: Seq<Edit>,
    k: int,
)
    requires
        sources.dom().finite(),
        sound(prefix, sources, visiting, acc),
        0 <= k < refs.len(),
        reported(prefix, sources, doc, visiting, refs[k]) is Some,
    ensures
        walk(prefix, sources, doc, refs, visiting, acc, edits).progress.failures.contains(
            reported(prefix, sources, doc, visiting, refs[k]).unwrap(),
        ),
    decreases refs.len(),
{
    let r = refs.first();
    let rest = refs.drop_first();
    let next = walk(prefix, sources, doc, seq![r], visiting, acc, edits);
    let last = walk(prefix, sources, doc, refs, visiting, acc, edits);
    let fault = reported(prefix, sources, doc, visiting, refs[k]).unwrap();
    lemma_walk_first(prefix, sources, doc, refs, visiting, acc, edits);
    lemma_walk(prefix, sources, doc, seq![r], visiting, acc, edits);
    lemma_walk(prefix, sources, doc, rest, visiting, next.progress, next.edits);
    if k == 0 {
        assert(refs[0] == r);
        let verdict = verdict_on(prefix, sources, doc, visiting, acc.assets, r);
        if let Some(id) = canonical(doc, r.target) {
            if has_asset(acc.assets, id) {
                let m = choose|m: int| 0 <= m < acc.assets.len() && (#[trigger] acc.assets[m]).id == id;
                assert(is_cacheable(prefix, sources, visiting, acc.assets[m].id));
            }
        }
        let stepped = after(
            prefix,
            doc,
            r,
            verdict,
            acc,
            edits,
            Walked { progress: acc, edits: Seq::empty() },
        );
        assert(seq![r].first() == r);
        assert(seq![r].drop_first() =~= Seq::<Reference>::empty());
        assert(walk(
            prefix,
            sources,
            doc,
            Seq::<Reference>::empty(),
            visiting,
            stepped.progress,
            stepped.edits,
        ) == stepped);
        assert(next == stepped);
        assert(next.progress.failures == acc.failures.push(fault));
        assert(next.progress.failures[acc.failures.len() as int] == fault);
        assert(next.progress.failures.contains(fault));
        lemma_contains_extends(last.progress.failures, next.progress.failures, fault);
    } else {
        assert(rest[k - 1] == refs[k]);
        lemma_walk_reports(
            prefix,
            sources,
            doc,
            rest,
            visiting,
            next.progress,
            next.edits,
            k - 1,
        );
    }
}

/// A walk caches the target of each of its directives that is rewritten.
pub proof fn lemma_walk_caches(
    prefix: Seq<u8>,
    sources: Map<Seq<u8>, Outcome>,
    doc: Seq<u8>,
    refs: Seq<Reference>,
    visiting: Seq<Seq<u8>>,
    acc: Progress,
    edits: Seq<Edit>,
    k: int,
)
    requires
        sources.dom().finite(),
        sound(prefix, sources, visiting, acc),
        0 <= k < refs.len(),
        is_rewritten(prefix, sources, doc, visiting, refs[k]),
    ensures
        has_asset(
            walk(prefix, sources, doc, refs, visiting, acc, edits).progress.assets,
            canonical(doc, refs[k].target).unwrap(),
        ),
    decreases refs.len(),
{
    let r = refs.first();
    let rest = refs.drop_first();
    let next = walk(prefix, sources, doc, seq![r], visiting, acc, edits);
    let last = walk(prefix, sources, doc, refs, visiting, acc, edits);
    lemma_walk_first(prefix, sources, doc, refs, visiting, acc, edits);
    lemma_walk(prefix, sources, doc, seq![r], visiting, acc, edits);
    lemma_walk(prefix, sources, doc, rest, visiting, next.progress, next.edits);
    if k == 0 {
        assert(refs[0] == r);
        let id = canonical(doc, r.target).unwrap();
        let verdict = verdict_on(prefix, sources, doc, visiting, acc.assets, r);
        let inner = match verdict {
            Verdict::Enter { id, content } => walk(
                prefix,
                sources,
                id,
                imports(content),
                visiting.push(id),
                acc,
                Seq::empty(),
            ),
            _ => Walked { progress: acc, edits: Seq::empty() },
        };
        let stepped = after(prefix, doc, r, verdict, acc, edits, inner);
        assert(seq![r].first() == r);
        assert(seq![r].drop_first() =~= Seq::<Reference>::empty());
        assert(walk(
            prefix,
            sources,
            doc,
            Seq::<Reference>::empty(),
            visiting,
            stepped.progress,
            stepped.edits,
        ) == stepped);
        assert(next == stepped);
        if has_asset(acc.assets, id) {
            lemma_has_asset_extends(next.progress.assets, acc.assets, id);
        } else {
            assert(verdict is Enter);
            assert(next.progress.assets[inner.progress.assets.len() as int].id == id);
        }
        lemma_has_asset_extends(last.progress.assets, next.progress.assets, id);
    } else {
        assert(rest[k - 1] == refs[k]);
        lemma_walk_caches(prefix, sources, doc, rest, visiting, next.progress, next.edits, k - 1);
    }
}

/// The identity that a directive leaves pending, whatever was gathered
/// before it: that of a target outside the cache directory that is not being
/// walked and of which the sources know nothing.
pub open spec fn awaited(
    prefix: Seq<u8>,
    sources: Map<Seq<u8>, Outcome>,
    doc: Seq<u8>,
    visiting: Seq<Seq<u8>>,
    r: Reference,
) -> Option<Seq<u8>> {
    match canonical(doc, r.target) {
        Some(id) => if !lies_in(prefix, id) && !visiting.contains(id) && !sources.dom().contains(
            id,
        ) {
            Some(id)
        } else {
            None
        },
        None => None,
    }
}

/// A walk notes as pending the target of each of its directives of which
/// the sources know nothing.
pub proof fn lemma_walk_awaits(
    prefix: Seq<u8>,
    sources: Map<Seq<u8>, Outcome>,
    doc: Seq<u8>,
    refs: Seq<Reference>,
    visiting: Seq<Seq<u8>>,
    acc: Progress,
    edits: Seq<Edit>,
    k: int,
)
    requires
        sources.dom().finite(),
        sound(prefix, sources, visiting, acc),
        0 <= k < refs.len(),
        awaited(prefix, sources, doc, visiting, refs[k]) is Some,
    ensures
        walk(prefix, sources, doc, refs, visiting, acc, edits).progress.pending.contains(
            awaited(prefix, sources, doc, visiting, refs[k]).unwrap(),
        ),
    decreases refs.len(),
{
    let r = refs.first();
    let rest = refs.drop_first();
    let next = walk(prefix, sources, doc, seq![r], visiting, acc, edits);
    let last = walk(prefix, sources, doc, refs, visiting, acc, edits);
    let id = awaited(prefix, sources, doc, visiting, refs[k]).unwrap();
    lemma_walk_first(prefix, sources, doc, refs, visiting, acc, edits);
    lemma_walk(prefix, sources, doc, seq![r], visiting, acc, edits);
    lemma_walk(prefix, sources, doc, rest, visiting, next.progress, next.edits);
    if k == 0 {
        assert(refs[0] == r);
        let verdict = verdict_on(prefix, sources, doc, visiting, acc.assets, r);
        if has_asset(acc.assets, id) {
            let m = choose|m: int| 0 <= m < acc.assets.len() && (#[trigger] acc.assets[m]).id == id;
            assert(is_cacheable(prefix, sources, visiting, acc.assets[m].id));
        }
        assert(verdict == Verdict::Wait { id });
        let stepped = after(
            prefix,
            doc,
            r,
            verdict,
            acc,
            edits,
            Walked { progress: acc, edits: Seq::empty() },
        );
        assert(seq![r].first() == r);
        assert(seq![r].drop_first() =~= Seq::<Reference>::empty());
        assert(walk(
            prefix,
            sources,
            doc,
            Seq::<Reference>::empty(),
            visiting,
            stepped.progress,
            stepped.edits,
        ) == stepped);
        assert(next == stepped);
        if !acc.pending.contains(id) {
            assert(next.progress.pending[acc.pending.len() as int] == id);
        }
        assert(next.progress.pending.contains(id));
        lemma_contains_extends(last.progress.pending, next.progress.pending, id);
    } else {
        assert(rest[k - 1] == refs[k]);
        lemma_walk_awaits(prefix, sources, doc, rest, visiting, next.progress, next.edits, k - 1);
    }
}

/// Every import of the document is accounted for. It points into the cache
/// directory already; or it is rewritten and its target is among the
/// assets; or it is among the failures; or its target is pending. So when
/// nothing is pending, every import is local, cached or reported.
pub proof fn lemma_every_import_accounted(
    css: Seq<u8>,
    root_identity: Seq<u8>,
    cache_dir: Seq<u8>,
    sources: Map<Seq<u8>, Outcome>,
    k: int,
)
    requires
        sources.dom().finite(),
        0 <= k < imports(css).len(),
    ensures
        ({
            let prefix = cache_prefix_of(cache_dir);
            let root = normalized(root_identity);
            let visiting = seq![root];
            let r = imports(css)[k];
            let result = localized(css, root_identity, cache_dir, sources);
            ||| canonical(root, r.target) matches Some(id) && lies_in(prefix, id)
            ||| is_rewritten(prefix, sources, root, visiting, r) && has_asset(
                result.assets,
                canonical(root, r.target).unwrap(),
            )
            ||| reported(prefix, sources, root, visiting, r) is Some && result.failures.contains(
                reported(prefix, sources, root, visiting, r).unwrap(),
            )
            ||| awaited(prefix, sources, root, visiting, r) is Some && result.pending.contains(
                awaited(prefix, sources, root, visiting, r).unwrap(),
            )
        }),
{
    let prefix = cache_prefix_of(cache_dir);
    let root = normalized(root_identity);
    let visiting = seq![root];
    let refs = imports(css);
    let r = refs[k];
    let start = Progress::empty();
    let none = Seq::<Edit>::empty();
    lemma_sound_empty(prefix, sources, visiting);
    if is_rewritten(prefix, sources, root, visiting, r) {
        lemma_walk_caches(prefix, sources, root, refs, visiting, start, none, k);
    } else if reported(prefix, sources, root, visiting, r) is Some {
        lemma_walk_reports(prefix, sources, root, refs, visiting, start, none, k);
    } else if awaited(prefix, sources, root, visiting, r) is Some {
        lemma_walk_awaits(prefix, sources, root, refs, visiting, start, none, k);
    }
}

/// When an import fails, the failure is reported and the others are not
/// held up: every import of the document that is malformed, points back at
/// the document, or is held by the sources as failed is among the failures
/// of the run, with its directive, its target and the kind of the failure.
pub proof fn lemma_failed_import_is_reported(
    css: Seq<u8>,
    root_identity: Seq<u8>,
    cache_dir: Seq<u8>,
    sources: Map<Seq<u8>, Outcome>,
    k: int,
)
    requires
        sources.dom().finite(),
        0 <= k < imports(css).len(),
        reported(
            cache_prefix_of(cache_dir),
            sources,
            normalized(root_identity),
            seq![normalized(root_identity)],
            imports(css)[k],
        ) is Some,
    ensures
        localized(css, root_identity, cache_dir, sources).failures.contains(
            reported(
                cache_prefix_of(cache_dir),
                sources,
                normalized(root_identity),
                seq![normalized(root_identity)],
                imports(css)[k],
            ).unwrap(),
        ),
{
    let prefix = cache_prefix_of(cache_dir);
    let root = normalized(root_identity);
    lemma_sound_empty(prefix, sources, seq![root]);
    lemma_walk_reports(
        prefix,
        sources,
        root,
        imports(css),
        seq![root],
        Progress::empty(),
        Seq::empty(),
        k,
    );
}

/// An import whose target the sources hold is cached and rewritten: the
/// run has an asset for the target, and the directive that imports the
/// asset's cache file stands in the result at the place of the old one.
pub proof fn lemma_held_import_is_rewritten(
    css: Seq<u8>,
    root_identity: Seq<u8>,
    cache_dir: Seq<u8>,
    sources: Map<Seq<u8>, Outcome>,
    k: int,
)
    requires
        sources.dom().finite(),
        0 <= k < imports(css).len(),
        is_rewritten(
            cache_prefix_of(cache_dir),
            sources,
            normalized(root_identity),
            seq![normalized(root_identity)],
            imports(css)[k],
        ),
    ensures
        ({
            let r = imports(css)[k];
            let id = canonical(normalized(root_identity), r.target).unwrap();
            let edits = rewrites(
                cache_prefix_of(cache_dir),
                sources,
                normalized(root_identity),
                imports(css),
                seq![normalized(root_identity)],
            );
            let result = localized(css, root_identity, cache_dir, sources);
            let directive = import_text(cache_name_of(id));
            let at = r.start + shift(edits, r.start);
            &&& has_asset(result.assets, id)
            &&& 0 <= at
            &&& at + directive.len() <= result.css.len()
            &&& result.css.subrange(at, at + directive.len()) == directive
        }),
{
    let prefix = cache_prefix_of(cache_dir);
    let root = normalized(root_identity);
    let refs = imports(css);
    let r = refs[k];
    let id = canonical(root, r.target).unwrap();
    let edits = rewrites(prefix, sources, root, refs, seq![root]);
    lemma_sound_empty(prefix, sources, seq![root]);
    lemma_walk_caches(prefix, sources, root, refs, seq![root], Progress::empty(), Seq::empty(), k);
    lemma_rewritten_document(css, root_identity, cache_dir, sources);
    lemma_imports_in_order(css);
    lemma_rewrites_fit(prefix, sources, root, refs, seq![root], css.len() as int);
    lemma_rewrites_hold(prefix, sources, root, refs, seq![root], k);
    let i = choose|i: int| 0 <= i < edits.len() && edits[i] == edit_for(r, id);
    lemma_edit_applied(css, edits, i);
}

/// The edits to a document hold one for each directive that is rewritten.
pub proof fn lemma_rewrites_hold(
    prefix: Seq<u8>,
    sources: Map<Seq<u8>, Outcome>,
    doc: Seq<u8>,
    refs: Seq<Reference>,
    visiting: Seq<Seq<u8>>,
    k: int,
)
    requires
        0 <= k < refs.len(),
        is_rewritten(prefix, sources, doc, visiting, refs[k]),
    ensures
        exists|i: int|
            0 <= i < rewrites(prefix, sources, doc, refs, visiting).len() && (#[trigger] rewrites(
                prefix,
                sources,
                doc,
                refs,
                visiting,
            )[i]) == edit_for(refs[k], canonical(doc, refs[k].target).unwrap()),
    decreases refs.len(),
{
    let r = refs.first();
    let rest = refs.drop_first();
    let all = rewrites(prefix, sources, doc, refs, visiting);
    let later = rewrites(prefix, sources, doc, rest, visiting);
    let offset: int = if is_rewritten(prefix, sources, doc, visiting, r) {
        1
    } else {
        0
    };
    assert(refs[0] == r);
    if k == 0 {
        assert(all[0] == edit_for(refs[k], canonical(doc, refs[k].target).unwrap()));
    } else {
        assert(rest[k - 1] == refs[k]);
        lemma_rewrites_hold(prefix, sources, doc, rest, visiting, k - 1);
        let i = choose|i: int|
            0 <= i < later.len() && later[i] == edit_for(
                rest[k - 1],
                canonical(doc, rest[k - 1].target).unwrap(),
            );
        assert(all[i + offset] == later[i]);
    }
}

/// Two documents that import each other: the run ends. The second is cached
/// as it is, its import of the first is reported as a cycle and left in
/// place, and the first gets its import of the second rewritten.
pub proof fn lemma_cycle_of_two(
    first_css: Seq<u8>,
    first_identity: Seq<u8>,
    second_css: Seq<u8>,
    second: Seq<u8>,
    cache_dir: Seq<u8>,
    sources: Map<Seq<u8>, Outcome>,
    out: Reference,
    back: Reference,
)
    requires
        sources.dom().finite(),
        imports(first_css) == seq![out],
        imports(second_css) == seq![back],
        canonical(normalized(first_identity), out.target) == Some(second),
        canonical(second, back.target) == Some(normalized(first_identity)),
        second != normalized(first_identity),
        !lies_in(cache_prefix_of(cache_dir), second),
        !lies_in(cache_prefix_of(cache_dir), normalized(first_identity)),
        sources.dom().contains(second),
        sources[second] == Outcome::Content(second_css),
    ensures
        localized(first_css, first_identity, cache_dir, sources) == (Localized {
            css: spliced(first_css, seq![edit_for(out, second)]),
            assets: seq![asset_of(cache_prefix_of(cache_dir), second, second_css)],
            failures: seq![
                Fault {
                    document: second,
                    reference: back,
                    resource: normalized(first_identity),
                    kind: ErrorKind::CyclicImport,
                    detail: Seq::empty(),
                },
            ],
            pending: Seq::empty(),
        }),
{
    let prefix = cache_prefix_of(cache_dir);
    let first = normalized(first_identity);
    let nothing = Seq::<Reference>::empty();
    let start = Progress::empty();
    let fault = Fault {
        document: second,
        reference: back,
        resource: first,
        kind: ErrorKind::CyclicImport,
        detail: Seq::empty(),
    };
    assert(seq![out].first() == out && seq![out].drop_first() =~= nothing);
    assert(seq![back].first() == back && seq![back].drop_first() =~= nothing);
    assert(seq![first][0] == first);
    assert(!seq![first].contains(second));
    assert(seq![first].push(second)[0] == first);
    assert(seq![first].push(second).contains(first));
    let inside = verdict_on(prefix, sources, second, seq![first].push(second), start.assets, back);
    assert(inside == Verdict::Fail {
        id: first,
        kind: ErrorKind::CyclicImport,
        detail: Seq::<u8>::empty(),
    });
    let reported = start.failing(fault);
    assert(walk(prefix, sources, second, nothing, seq![first].push(second), reported, Seq::empty())
        == Walked { progress: reported, edits: Seq::empty() });
    let inner = walk(
        prefix,
        sources,
        second,
        seq![back],
        seq![first].push(second),
        start,
        Seq::empty(),
    );
    assert(inner == Walked { progress: reported, edits: Seq::empty() });
    let outside = verdict_on(prefix, sources, first, seq![first], start.assets, out);
    assert(outside == Verdict::Enter { id: second, content: second_css });
    let stored = reported.storing(asset_of(prefix, second, spliced(second_css, Seq::empty())));
    let edited = Seq::<Edit>::empty().push(edit_for(out, second));
    assert(walk(prefix, sources, first, nothing, seq![first], stored, edited) == Walked {
        progress: stored,
        edits: edited,
    });
    let walked = walk(prefix, sources, first, seq![out], seq![first], start, Seq::empty());
    assert(walked == Walked { progress: stored, edits: edited });
    assert(edited =~= seq![edit_for(out, second)]);
    assert(stored.assets =~= seq![asset_of(prefix, second, second_css)]);
    assert(stored.failures =~= seq![fault]);
    assert(stored.pending =~= Seq::<Seq<u8>>::empty());
}

/// Whether the target of every directive among `refs` that is rewritten has
/// an asset among `assets`.
pub open spec fn imports_cached(
    prefix: Seq<u8>,
    sources: Map<Seq<u8>, Outcome>,
    doc: Seq<u8>,
    refs: Seq<Reference>,
    visiting: Seq<Seq<u8>>,
    assets: Seq<Asset>,
) -> bool {
    forall|i: int|
        0 <= i < refs.len() && is_rewritten(prefix, sources, doc, visiting, #[trigger] refs[i])
            ==> has_asset(assets, canonical(doc, refs[i].target).unwrap())
}

/// A walk caches the target of every directive that it rewrites.
pub proof fn lemma_walk_caches_all(
    prefix: Seq<u8>,
    sources: Map<Seq<u8>, Outcome>,
    doc: Seq<u8>,
    refs: Seq<Reference>,
    visiting: Seq<Seq<u8>>,
    acc: Progress,
    edits: Seq<Edit>,
)
    requires
        sources.dom().finite(),
        sound(prefix, sources, visiting, acc),
    ensures
        imports_cached(
            prefix,
            sources,
            doc,
            refs,
            visiting,
            walk(prefix, sources, doc, refs, visiting, acc, edits).progress.assets,
        ),
{
    let assets = walk(prefix, sources, doc, refs, visiting, acc, edits).progress.assets;
    assert forall|i: int|
        0 <= i < refs.len() && is_rewritten(
            prefix,
            sources,
            doc,
            visiting,
            #[trigger] refs[i],
        ) implies has_asset(assets, canonical(doc, refs[i].target).unwrap()) by {
        lemma_walk_caches(prefix, sources, doc, refs, visiting, acc, edits, i);
    }
}

/// Whether an asset is the localized form of what the sources hold for its
/// identity: the held bytes with the directives rewritten that are rewritten
/// in that document, and every other byte kept; and whether what it imports
/// from the cache is among the assets `earlier`. Which directives are
/// rewritten depends on the documents that were being walked when the asset
/// was made, and the asset's own document was the last of them.
pub open spec fn made_from_source(
    prefix: Seq<u8>,
    sources: Map<Seq<u8>, Outcome>,
    earlier: Seq<Asset>,
    asset: Asset,
) -> bool {
    &&& sources.dom().contains(asset.id)
    &&& sources[asset.id] matches Outcome::Content(held) && exists|visiting: Seq<Seq<u8>>|
        {
            &&& visiting.len() > 0
            &&& visiting.last() == asset.id
            &&& asset.content == spliced(
                held,
                #[trigger] rewrites(prefix, sources, asset.id, imports(held), visiting),
            )
            &&& imports_cached(prefix, sources, asset.id, imports(held), visiting, earlier)
        }
}

/// Whether each of the assets is made from its source, importing from the
/// cache only what stands before it.
pub open spec fn all_made(
    prefix: Seq<u8>,
    sources: Map<Seq<u8>, Outcome>,
    assets: Seq<Asset>,
) -> bool {
    forall|k: int|
        0 <= k < assets.len() ==> made_from_source(
            prefix,
            sources,
            assets.take(k),
            #[trigger] assets[k],
        )
}

/// Assets that are made from their sources stay so when more are added
/// behind them.
proof fn lemma_all_made_push(
    prefix: Seq<u8>,
    sources: Map<Seq<u8>, Outcome>,
    assets: Seq<Asset>,
    asset: Asset,
)
    requires
        all_made(prefix, sources, assets),
        made_from_source(prefix, sources, assets, asset),
    ensures
        all_made(prefix, sources, assets.push(asset)),
{
    let more = assets.push(asset);
    assert forall|k: int| 0 <= k < more.len() implies made_from_source(
        prefix,
        sources,
        more.take(k),
        #[trigger] more[k],
    ) by {
        if k < assets.len() {
            assert(more.take(k) =~= assets.take(k));
            assert(more[k] == assets[k]);
        } else {
            assert(more.take(k) =~= assets);
        }
    }
}

/// A walk makes its assets from what the sources hold, each behind the
/// assets that it imports.
pub proof fn lemma_walk_makes_assets(
    prefix: Seq<u8>,
    sources: Map<Seq<u8>, Outcome>,
    doc: Seq<u8>,
    refs: Seq<Reference>,
    visiting: Seq<Seq<u8>>,
    acc: Progress,
    edits: Seq<Edit>,
)
    requires
        sources.dom().finite(),
        sound(prefix, sources, visiting, acc),
        all_made(prefix, sources, acc.assets),
    ensures
        all_made(
            prefix,
            sources,
            walk(prefix, sources, doc, refs, visiting, acc, edits).progress.assets,
        ),
    decreases sources.dom().difference(visiting.to_set()).len(), refs.len(),
{
    if refs.len() > 0 {
        let r = refs.first();
        let rest = refs.drop_first();
        let verdict = verdict_on(prefix, sources, doc, visiting, acc.assets, r);
        let inner = match verdict {
            Verdict::Enter { id, content } => walk(
                prefix,
                sources,
                id,
                imports(content),
                visiting.push(id),
                acc,
                Seq::empty(),
            ),
            _ => Walked { progress: acc, edits: Seq::empty() },
        };
        let next = after(prefix, doc, r, verdict, acc, edits, inner);
        lemma_walk_first(prefix, sources, doc, refs, visiting, acc, edits);
        lemma_walk(prefix, sources, doc, seq![r], visiting, acc, edits);
        assert(seq![r].first() == r);
        assert(seq![r].drop_first() =~= Seq::<Reference>::empty());
        assert(walk(
            prefix,
            sources,
            doc,
            Seq::<Reference>::empty(),
            visiting,
            next.progress,
            next.edits,
        ) == next);
        assert(walk(prefix, sources, doc, seq![r], visiting, acc, edits) == next);
        if let Verdict::Enter { id, content } = verdict {
            let inside = visiting.push(id);
            lemma_entering(sources.dom(), visiting, id);
            lemma_sound_entering(prefix, sources, visiting, acc, id);
            lemma_walk(prefix, sources, id, imports(content), inside, acc, Seq::empty());
            lemma_walk_makes_assets(prefix, sources, id, imports(content), inside, acc, Seq::empty());
            lemma_walk_caches_all(prefix, sources, id, imports(content), inside, acc, Seq::empty());
            let own = rewrites(prefix, sources, id, imports(content), inside);
            assert(Seq::<Edit>::empty() + own =~= own);
            let asset = asset_of(prefix, id, spliced(content, inner.edits));
            assert(inside.last() == id);
            assert(made_from_source(prefix, sources, inner.progress.assets, asset));
            lemma_all_made_push(prefix, sources, inner.progress.assets, asset);
        }
        assert(all_made(prefix, sources, next.progress.assets));
        lemma_walk_makes_assets(prefix, sources, doc, rest, visiting, next.progress, next.edits);
    }
}

/// Every asset of a run is the localized form of what the sources hold for
/// it: a cached stylesheet differs from the fetched one only in directives
/// that now import cache files. And the assets stand in an order in which
/// they can be stored one after the other: what an asset imports from the
/// cache stands before it.
pub proof fn lemma_assets_are_localized_sources(
    css: Seq<u8>,
    root_identity: Seq<u8>,
    cache_dir: Seq<u8>,
    sources: Map<Seq<u8>, Outcome>,
)
    requires
        sources.dom().finite(),
    ensures
        all_made(
            cache_prefix_of(cache_dir),
            sources,
            localized(css, root_identity, cache_dir, sources).assets,
        ),
{
    let prefix = cache_prefix_of(cache_dir);
    let root = normalized(root_identity);
    lemma_sound_empty(prefix, sources, seq![root]);
    lemma_walk_makes_assets(
        prefix,
        sources,
        root,
        imports(css),
        seq![root],
        Progress::empty(),
        Seq::empty(),
    );
}

} // verus!
