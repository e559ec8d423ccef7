//! The localization engine: makes a stylesheet self-contained by caching
//! what it imports and pointing its directives at the cached files.
//!
//! The engine walks the directives of a document in their order. For each it
//! works out the canonical identity of the target and then decides:
//!
//! - a target that already lies in the cache directory is left alone;
//! - a target that this run has cached before is rewritten to that file;
//! - a target that is the document itself, or one of the documents on the
//!   way down to it, is a cycle: the directive stays and a failure is noted;
//! - a target of which the sources know nothing is noted as pending;
//! - a target that failed is noted as a failure, and the directive stays;
//! - any other target is entered: its own directives are walked first, the
//!   result becomes an asset, and the directive is rewritten.
//!
//! The run ends because a document is never entered while it is being
//! walked, and only documents that the sources hold can be entered.

use vstd::prelude::*;
use crate::cache::{asset_of, cache_asset, cache_name, cache_name_of, cache_prefix,
    cache_prefix_of, import_directive, import_text, in_directory, lies_in, Asset, CachedAsset};
use crate::error::ErrorKind;
use crate::identity::{canonical, canonical_id, normalize, normalized};
use crate::rewrite::{edits_fit, splice, spliced, Edit, Replacement};
use crate::scan::{imports, in_order, scan, ImportReference, ImportTarget, Reference};
use crate::sources::{Fetched, Outcome, Sources};
use crate::text::{copy_of, lemma_views_push, same_bytes, views};

verus! {

/// A directive that was not rewritten, and why.
#[derive(Clone, Debug, PartialEq, Eq)]
pub struct Failure {
    /// The canonical identity of the document that holds the directive.
    pub document: Vec<u8>,
    /// The directive.
    pub reference: ImportReference,
    /// The canonical identity of its target: the path or URL that failed.
    /// Empty for a malformed directive.
    pub resource: Vec<u8>,
    /// The category of the failure.
    pub kind: ErrorKind,
    /// What the caller noted of the failure: a status, a message.
    pub detail: Vec<u8>,
}

/// The model of a `Failure`.
pub struct Fault {
    pub document: Seq<u8>,
    pub reference: Reference,
    pub resource: Seq<u8>,
    pub kind: ErrorKind,
    pub detail: Seq<u8>,
}

impl View for Failure {
    type V = Fault;

    open spec fn view(&self) -> Fault {
        Fault {
            document: self.document@,
            reference: self.reference@,
            resource: self.resource@,
            kind: self.kind,
            detail: self.detail@,
        }
    }
}

/// What a localization run gives back.
#[derive(Clone, Debug, PartialEq, Eq)]
pub struct LocalizationResult {
    /// The document, with the directives of its cached imports rewritten.
    pub rewritten_css: Vec<u8>,
    /// The assets to store, in the order in which they were finished.
    pub assets: Vec<CachedAsset>,
    /// The directives that were not rewritten, of this document and of the
    /// documents below it.
    pub failures: Vec<Failure>,
    /// The identities that the sources know nothing of. While there are any,
    /// the run is not final: fetch them, record them, and run again.
    pub pending: Vec<Vec<u8>>,
}

/// The model of a `LocalizationResult`.
pub struct Localized {
    pub css: Seq<u8>,
    pub assets: Seq<Asset>,
    pub failures: Seq<Fault>,
    pub pending: Seq<Seq<u8>>,
}

impl View for LocalizationResult {
    type V = Localized;

    open spec fn view(&self) -> Localized {
        Localized {
            css: self.rewritten_css@,
            assets: views(self.assets@),
            failures: views(self.failures@),
            pending: views(self.pending@),
        }
    }
}

impl LocalizationResult {
    /// Whether the run is final: nothing is pending.
    pub fn is_final(&self) -> (r: bool)
        ensures
            r == (self@.pending.len() == 0),
    {
        self.pending.len() == 0
    }

    /// The rewritten document as an asset of its own, stored like the
    /// others under the cache name of its identity.
    pub fn document(&self, root_identity: &[u8], cache_dir: &[u8]) -> (asset: CachedAsset)
        ensures
            asset@ == asset_of(
                cache_prefix_of(cache_dir@),
                normalized(root_identity@),
                self@.css,
            ),
    {
        let prefix = cache_prefix(cache_dir);
        cache_asset(
            prefix.as_slice(),
            normalize(root_identity),
            copy_of(self.rewritten_css.as_slice()),
        )
    }
}

/// What a run has gathered so far.
pub struct Progress {
    pub assets: Seq<Asset>,
    pub failures: Seq<Fault>,
    pub pending: Seq<Seq<u8>>,
}

impl Progress {
    /// Nothing gathered.
    pub open spec fn empty() -> Progress {
        Progress { assets: Seq::empty(), failures: Seq::empty(), pending: Seq::empty() }
    }

    /// With one more failure.
    pub open spec fn failing(self, fault: Fault) -> Progress {
        Progress { failures: self.failures.push(fault), ..self }
    }

    /// With one more asset.
    pub open spec fn storing(self, asset: Asset) -> Progress {
        Progress { assets: self.assets.push(asset), ..self }
    }

    /// With `id` pending, once.
    pub open spec fn awaiting(self, id: Seq<u8>) -> Progress {
        if self.pending.contains(id) {
            self
        } else {
            Progress { pending: self.pending.push(id), ..self }
        }
    }
}

/// What a walk gives: what was gathered, and the edits to the document.
pub struct Walked {
    pub progress: Progress,
    pub edits: Seq<Edit>,
}

/// What becomes of one directive.
pub enum Verdict {
    /// It names no target.
    Malformed,
    /// Its target lies in the cache directory already.
    Keep,
    /// Its target was cached earlier in this run.
    Rewrite { id: Seq<u8> },
    /// Its target cannot be had.
    Fail { id: Seq<u8>, kind: ErrorKind, detail: Seq<u8> },
    /// Nothing is known of its target yet.
    Wait { id: Seq<u8> },
    /// Its target is to be localized and cached now.
    Enter { id: Seq<u8>, content: Seq<u8> },
}

/// Whether some asset has the identity `id`.
pub open spec fn has_asset(assets: Seq<Asset>, id: Seq<u8>) -> bool {
    exists|k: int| 0 <= k < assets.len() && (#[trigger] assets[k]).id == id
}

/// The verdict on a directive `r` of the document `doc`, at a moment when
/// the documents `visiting` are being walked and `assets` are cached.
pub open spec fn verdict_on(
    prefix: Seq<u8>,
    sources: Map<Seq<u8>, Outcome>,
    doc: Seq<u8>,
    visiting: Seq<Seq<u8>>,
    assets: Seq<Asset>,
    r: Reference,
) -> Verdict {
    match canonical(doc, r.target) {
        None => Verdict::Malformed,
        Some(id) => if lies_in(prefix, id) {
            Verdict::Keep
        } else if has_asset(assets, id) {
            Verdict::Rewrite { id }
        } else if visiting.contains(id) {
            Verdict::Fail { id, kind: ErrorKind::CyclicImport, detail: Seq::empty() }
        } else if !sources.dom().contains(id) {
            Verdict::Wait { id }
        } else {
            match sources[id] {
                Outcome::Failed { kind, detail } => Verdict::Fail { id, kind, detail },
                Outcome::Content(content) => Verdict::Enter { id, content },
            }
        },
    }
}

/// The edit that points the directive `r` at the cache file of `id`.
pub open spec fn edit_for(r: Reference, id: Seq<u8>) -> Edit {
    Edit { start: r.start, end: r.end, text: import_text(cache_name_of(id)) }
}

/// The state after the directive `r` of `doc`, given the verdict on it and,
/// where its target was entered, what the walk of the target gave.
pub open spec fn after(
    prefix: Seq<u8>,
    doc: Seq<u8>,
    r: Reference,
    verdict: Verdict,
    acc: Progress,
    edits: Seq<Edit>,
    inner: Walked,
) -> Walked {
    match verdict {
        Verdict::Malformed => Walked {
            progress: acc.failing(
                Fault {
                    document: doc,
                    reference: r,
                    resource: Seq::empty(),
                    kind: ErrorKind::MalformedImport,
                    detail: Seq::empty(),
                },
            ),
            edits,
        },
        Verdict::Keep => Walked { progress: acc, edits },
        Verdict::Rewrite { id } => Walked { progress: acc, edits: edits.push(edit_for(r, id)) },
        Verdict::Fail { id, kind, detail } => Walked {
            progress: acc.failing(Fault { document: doc, reference: r, resource: id, kind, detail }),
            edits,
        },
        Verdict::Wait { id } => Walked { progress: acc.awaiting(id), edits },
        Verdict::Enter { id, content } => Walked {
            progress: inner.progress.storing(asset_of(prefix, id, spliced(content, inner.edits))),
            edits: edits.push(edit_for(r, id)),
        },
    }
}

/// The walk of the directives `refs` of the document `doc`, from the state
/// `acc` and `edits`, while the documents `visiting` are being walked.
pub open spec fn walk(
    prefix: Seq<u8>,
    sources: Map<Seq<u8>, Outcome>,
    doc: Seq<u8>,
    refs: Seq<Reference>,
    visiting: Seq<Seq<u8>>,
    acc: Progress,
    edits: Seq<Edit>,
) -> Walked
    decreases sources.dom().difference(visiting.to_set()).len(), refs.len(),
    when sources.dom().finite()
    via walk_ends
{
    if refs.len() == 0 {
        Walked { progress: acc, edits }
    } else {
        let r = refs.first();
        let verdict = verdict_on(prefix, sources, doc, visiting, acc.assets, r);
        let inner = match verdict {
            Verdict::Enter { id, content } => walk(
                prefix,
                sources,
                id,
                imports(content),
                visiting.push(id),
                acc,
                Seq::empty(),
            ),
            _ => Walked { progress: acc, edits: Seq::empty() },
        };
        let next = after(prefix, doc, r, verdict, acc, edits, inner);
        walk(prefix, sources, doc, refs.drop_first(), visiting, next.progress, next.edits)
    }
}

#[via_fn]
proof fn walk_ends(
    prefix: Seq<u8>,
    sources: Map<Seq<u8>, Outcome>,
    doc: Seq<u8>,
    refs: Seq<Reference>,
    visiting: Seq<Seq<u8>>,
    acc: Progress,
    edits: Seq<Edit>,
) {
    if refs.len() > 0 {
        let verdict = verdict_on(prefix, sources, doc, visiting, acc.assets, refs.first());
        if let Verdict::Enter { id, content } = verdict {
            lemma_entering(sources.dom(), visiting, id);
        }
    }
}

/// The localization of the stylesheet `css`, whose own identity is
/// `root_identity`, into the cache directory `cache_dir`, by what `sources`
/// knows.
pub open spec fn localized(
    css: Seq<u8>,
    root_identity: Seq<u8>,
    cache_dir: Seq<u8>,
    sources: Map<Seq<u8>, Outcome>,
) -> Localized {
    let root = normalized(root_identity);
    let walked = walk(
        cache_prefix_of(cache_dir),
        sources,
        root,
        imports(css),
        seq![root],
        Progress::empty(),
        Seq::empty(),
    );
    Localized {
        css: spliced(css, walked.edits),
        assets: walked.progress.assets,
        failures: walked.progress.failures,
        pending: walked.progress.pending,
    }
}

/// Entering a document leaves fewer documents that can still be entered.
pub proof fn lemma_entering(known: Set<Seq<u8>>, visiting: Seq<Seq<u8>>, id: Seq<u8>)
    requires
        known.finite(),
        known.contains(id),
        !visiting.contains(id),
    ensures
        known.difference(visiting.push(id).to_set()).len() < known.difference(
            visiting.to_set(),
        ).len(),
{
    let before = known.difference(visiting.to_set());
    let inside = known.difference(visiting.push(id).to_set());
    visiting.lemma_push_to_set_commute(id);
    assert(inside =~= before.remove(id));
    assert(before.contains(id));
    vstd::set::axiom_set_difference_finite(known, visiting.to_set());
    vstd::set::axiom_set_remove_len(before, id);
}

/// The directives behind the first follow one another as all of them do.
pub proof fn lemma_in_order_rest(refs: Seq<Reference>, len: int)
    requires
        in_order(refs, len),
        refs.len() > 0,
    ensures
        in_order(refs.drop_first(), len),
        forall|k: int|
            0 <= k < refs.drop_first().len() ==> refs.first().end <= (
            #[trigger] refs.drop_first()[k]).start,
        0 <= refs.first().start <= refs.first().end <= len,
{
    let rest = refs.drop_first();
    assert(refs[0] == refs.first());
    assert forall|k: int| 0 <= k < rest.len() implies 0 <= (#[trigger] rest[k]).start
        && rest[k].start + 7 <= rest[k].end <= len && refs.first().end <= rest[k].start by {
        assert(rest[k] == refs[k + 1]);
    }
    assert forall|k: int, m: int| 0 <= k < m < rest.len() implies (#[trigger] rest[k]).end <= (
    #[trigger] rest[m]).start by {
        assert(rest[k] == refs[k + 1]);
        assert(rest[m] == refs[m + 1]);
    }
}

/// The edits that a walk makes lie at directives of the document, so they
/// can be applied to it.
pub proof fn lemma_walk_edits_fit(
    prefix: Seq<u8>,
    sources: Map<Seq<u8>, Outcome>,
    doc: Seq<u8>,
    refs: Seq<Reference>,
    visiting: Seq<Seq<u8>>,
    acc: Progress,
    edits: Seq<Edit>,
    len: int,
)
    requires
        sources.dom().finite(),
        in_order(refs, len),
        edits_fit(edits, len),
        forall|k: int, m: int|
            0 <= k < edits.len() && 0 <= m < refs.len() ==> (#[trigger] edits[k]).end <= (
            #[trigger] refs[m]).start,
    ensures
        edits_fit(walk(prefix, sources, doc, refs, visiting, acc, edits).edits, len),
    decreases refs.len(),
{
    if refs.len() > 0 {
        let r = refs.first();
        let rest = refs.drop_first();
        let verdict = verdict_on(prefix, sources, doc, visiting, acc.assets, r);
        let inner = match verdict {
            Verdict::Enter { id, content } => walk(
                prefix,
                sources,
                id,
                imports(content),
                visiting.push(id),
                acc,
                Seq::empty(),
            ),
            _ => Walked { progress: acc, edits: Seq::empty() },
        };
        let next = after(prefix, doc, r, verdict, acc, edits, inner);
        lemma_in_order_rest(refs, len);
        assert(refs[0] == r);
        assert forall|k: int| 0 <= k < next.edits.len() implies 0 <= (#[trigger] next.edits[k]).start
            <= next.edits[k].end <= len by {
            if k < edits.len() {
                assert(next.edits[k] == edits[k]);
            }
        }
        assert forall|k: int, m: int| 0 <= k < m < next.edits.len() implies (
        #[trigger] next.edits[k]).end <= (#[trigger] next.edits[m]).start by {
            assert(next.edits[k] == edits[k]);
            if m < edits.len() {
                assert(next.edits[m] == edits[m]);
            }
        }
        assert forall|k: int, m: int| 0 <= k < next.edits.len() && 0 <= m < rest.len() implies (
        #[trigger] next.edits[k]).end <= (#[trigger] rest[m]).start by {
            assert(rest[m] == refs[m + 1]);
            if k < edits.len() {
                assert(next.edits[k] == edits[k]);
            }
        }
        lemma_walk_edits_fit(prefix, sources, doc, rest, visiting, next.progress, next.edits, len);
    }
}

/// What a run has gathered so far.
struct Tally {
    assets: Vec<CachedAsset>,
    failures: Vec<Failure>,
    pending: Vec<Vec<u8>>,
}

impl View for Tally {
    type V = Progress;

    closed spec fn view(&self) -> Progress {
        Progress {
            assets: views(self.assets@),
            failures: views(self.failures@),
            pending: views(self.pending@),
        }
    }
}

fn holds_asset(assets: &Vec<CachedAsset>, id: &[u8]) -> (r: bool)
    ensures
        r == has_asset(views(assets@), id@),
{
    let mut i: usize = 0;
    while i < assets.len()
        invariant
            i <= assets.len(),
            forall|k: int| 0 <= k < i ==> (#[trigger] views(assets@)[k]).id != id@,
        decreases assets.len() - i,
    {
        if same_bytes(assets[i].canonical_id.as_slice(), id) {
            assert(views(assets@)[i as int].id == id@);
            return true;
        }
        i += 1;
    }
    false
}

fn holds_id(ids: &Vec<Vec<u8>>, id: &[u8]) -> (r: bool)
    ensures
        r == views(ids@).contains(id@),
{
    let mut i: usize = 0;
    while i < ids.len()
        invariant
            i <= ids.len(),
            forall|k: int| 0 <= k < i ==> (#[trigger] views(ids@)[k]) != id@,
        decreases ids.len() - i,
    {
        if same_bytes(ids[i].as_slice(), id) {
            assert(views(ids@)[i as int] == id@);
            return true;
        }
        i += 1;
    }
    false
}

fn copy_reference(r: &ImportReference) -> (copy: ImportReference)
    ensures
        copy@ == r@,
{
    let target = match &r.target {
        ImportTarget::Remote(url) => ImportTarget::Remote(copy_of(url.as_slice())),
        ImportTarget::Relative(path) => ImportTarget::Relative(copy_of(path.as_slice())),
        ImportTarget::Malformed => ImportTarget::Malformed,
    };
    ImportReference { target, start: r.start, end: r.end }
}

fn failure_of(doc: &[u8], r: &ImportReference, resource: &[u8], kind: ErrorKind, detail: &[u8]) -> (f:
    Failure)
    ensures
        f@ == (Fault {
            document: doc@,
            reference: r@,
            resource: resource@,
            kind,
            detail: detail@,
        }),
{
    Failure {
        document: copy_of(doc),
        reference: copy_reference(r),
        resource: copy_of(resource),
        kind,
        detail: copy_of(detail),
    }
}

fn replacement_for(r: &ImportReference, id: &[u8]) -> (edit: Replacement)
    ensures
        edit@ == edit_for(r@, id@),
{
    let name = cache_name(id);
    Replacement { start: r.start, end: r.end, text: import_directive(name.as_slice()) }
}

/// Walks the directives of one document and gives its rewritten text.
fn localize_document(
    prefix: &[u8],
    sources: &Sources,
    doc: &[u8],
    text: &[u8],
    visiting: &mut Vec<Vec<u8>>,
    tally: &mut Tally,
) -> (out: Vec<u8>)
    ensures
        final(visiting)@ == old(visiting)@,
        ({
            let walked = walk(
                prefix@,
                sources@,
                doc@,
                imports(text@),
                views(old(visiting)@),
                old(tally)@,
                Seq::empty(),
            );
            &&& final(tally)@ == walked.progress
            &&& out@ == spliced(text@, walked.edits)
        }),
    decreases sources@.dom().difference(views(old(visiting)@).to_set()).len(),
{
    proof {
        sources.lemma_finite();
    }
    let refs = scan(text);
    let ghost models = imports(text@);
    let ghost goal = walk(
        prefix@,
        sources@,
        doc@,
        models,
        views(old(visiting)@),
        old(tally)@,
        Seq::empty(),
    );
    let mut edits: Vec<Replacement> = Vec::new();
    let mut i: usize = 0;
    assert(models.skip(0) =~= models);
    assert(views(edits@) =~= Seq::<Edit>::empty());
    while i < refs.len()
        invariant
            i <= refs.len(),
            views(refs@) == models,
            visiting@ == old(visiting)@,
            sources@.dom().finite(),
            walk(
                prefix@,
                sources@,
                doc@,
                models.skip(i as int),
                views(visiting@),
                tally@,
                views(edits@),
            ) == goal,
        decreases refs.len() - i,
    {
        let r = &refs[i];
        let ghost here = models.skip(i as int);
        let ghost acc = tally@;
        let ghost done = views(edits@);
        let ghost verdict = verdict_on(prefix@, sources@, doc@, views(visiting@), acc.assets, r@);
        assert(here.first() == r@);
        assert(here.drop_first() =~= models.skip(i + 1));
        let empty: Vec<u8> = Vec::new();
        match canonical_id(doc, &r.target) {
            None => {
                let failure = failure_of(
                    doc,
                    r,
                    empty.as_slice(),
                    ErrorKind::MalformedImport,
                    empty.as_slice(),
                );
                proof {
                    lemma_views_push(tally.failures@, failure);
                }
                tally.failures.push(failure);
            },
            Some(id) => {
                if in_directory(prefix, id.as_slice()) {
                } else if holds_asset(&tally.assets, id.as_slice()) {
                    let edit = replacement_for(r, id.as_slice());
                    proof {
                        lemma_views_push(edits@, edit);
                    }
                    edits.push(edit);
                } else if holds_id(visiting, id.as_slice()) {
                    let failure = failure_of(
                        doc,
                        r,
                        id.as_slice(),
                        ErrorKind::CyclicImport,
                        empty.as_slice(),
                    );
                    proof {
                        lemma_views_push(tally.failures@, failure);
                    }
                    tally.failures.push(failure);
                } else {
                    match sources.lookup(id.as_slice()) {
                        None => {
                            if !holds_id(&tally.pending, id.as_slice()) {
                                proof {
                                    lemma_views_push(tally.pending@, id);
                                }
                                tally.pending.push(id);
                            }
                        },
                        Some(Fetched::Failed { kind, detail }) => {
                            let failure = failure_of(
                                doc,
                                r,
                                id.as_slice(),
                                *kind,
                                detail.as_slice(),
                            );
                            proof {
                                lemma_views_push(tally.failures@, failure);
                            }
                            tally.failures.push(failure);
                        },
                        Some(Fetched::Content(content)) => {
                            let ghost outside = visiting@;
                            let entered = copy_of(id.as_slice());
                            proof {
                                lemma_views_push(visiting@, entered);
                                lemma_entering(sources@.dom(), views(visiting@), id@);
                            }
                            visiting.push(entered);
                            let inner = localize_document(
                                prefix,
                                sources,
                                id.as_slice(),
                                content.as_slice(),
                                visiting,
                                tally,
                            );
                            visiting.pop();
                            assert(visiting@ =~= outside);
                            let edit = replacement_for(r, id.as_slice());
                            let asset = cache_asset(prefix, id, inner);
                            proof {
                                lemma_views_push(tally.assets@, asset);
                                lemma_views_push(edits@, edit);
                            }
                            tally.assets.push(asset);
                            edits.push(edit);
                        },
                    }
                }
            },
        }
        i += 1;
    }
    proof {
        crate::scan::lemma_imports_in_order(text@);
        lemma_walk_edits_fit(
            prefix@,
            sources@,
            doc@,
            models,
            views(old(visiting)@),
            old(tally)@,
            Seq::empty(),
            text@.len() as int,
        );
    }
    match splice(text, &edits) {
        Some(out) => out,
        None => copy_of(text),
    }
}

/// Whether every directive among `refs` of the document `doc` points at a
/// file that lies directly in the cache directory.
pub open spec fn points_into_cache(prefix: Seq<u8>, doc: Seq<u8>, refs: Seq<Reference>) -> bool {
    forall|k: int|
        0 <= k < refs.len() ==> (canonical(doc, (#[trigger] refs[k]).target) matches Some(id)
            && lies_in(prefix, id))
}

/// Whether a stylesheet is localized already: every import of it points at
/// a file in the cache directory. Localizing such a stylesheet changes
/// nothing.
pub fn is_localized(css: &[u8], identity: &[u8], cache_dir: &[u8]) -> (r: bool)
    ensures
        r == points_into_cache(
            cache_prefix_of(cache_dir@),
            normalized(identity@),
            imports(css@),
        ),
{
    let doc = normalize(identity);
    let prefix = cache_prefix(cache_dir);
    let refs = scan(css);
    let mut i: usize = 0;
    while i < refs.len()
        invariant
            i <= refs.len(),
            views(refs@) == imports(css@),
            doc@ == normalized(identity@),
            prefix@ == cache_prefix_of(cache_dir@),
            forall|k: int|
                0 <= k < i ==> (canonical(doc@, (#[trigger] imports(css@)[k]).target) matches Some(
                    id,
                ) && lies_in(prefix@, id)),
        decreases refs.len() - i,
    {
        assert(imports(css@)[i as int] == refs@[i as int]@);
        let inside = match canonical_id(doc.as_slice(), &refs[i].target) {
            Some(id) => in_directory(prefix.as_slice(), id.as_slice()),
            None => false,
        };
        if !inside {
            return false;
        }
        i += 1;
    }
    true
}

/// Localizes the stylesheet `root_css`, which comes from `root_identity`,
/// for the cache directory `cache_dir`, by what `sources` knows of the
/// stylesheets that it imports.
///
/// Nothing is read, fetched or written here. The result names the assets to
/// store and holds their bytes; it lists as pending the identities that the
/// sources know nothing of. A caller fetches what is pending, records it and
/// calls again, until nothing is pending. The same arguments always give the
/// same result.
pub fn localize(root_css: &[u8], root_identity: &[u8], cache_dir: &[u8], sources: &Sources) -> (result:
    LocalizationResult)
    ensures
        result@ == localized(root_css@, root_identity@, cache_dir@, sources@),
{
    let root = normalize(root_identity);
    let prefix = cache_prefix(cache_dir);
    let mut visiting: Vec<Vec<u8>> = Vec::new();
    let start = copy_of(root.as_slice());
    proof {
        lemma_views_push(visiting@, start);
    }
    visiting.push(start);
    assert(views(visiting@) =~= seq![root@]);
    let mut tally = Tally { assets: Vec::new(), failures: Vec::new(), pending: Vec::new() };
    assert(tally@.assets =~= Seq::<Asset>::empty());
    assert(tally@.failures =~= Seq::<Fault>::empty());
    assert(tally@.pending =~= Seq::<Seq<u8>>::empty());
    let css = localize_document(
        prefix.as_slice(),
        sources,
        root.as_slice(),
        root_css,
        &mut visiting,
        &mut tally,
    );
    LocalizationResult {
        rewritten_css: css,
        assets: tally.assets,
        failures: tally.failures,
        pending: tally.pending,
    }
}

} // verus!
