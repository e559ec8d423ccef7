//! What is known of the stylesheets that a document imports: for each
//! identity that was asked for, the bytes that came back or the failure.
//!
//! The table is the library's only picture of the disk and the network. A
//! caller fills it; the localization reads it and never asks twice.

use vstd::prelude::*;
use crate::error::ErrorKind;
use crate::text::same_bytes;

verus! {

/// What came back for one identity.
#[derive(Clone, Debug, PartialEq, Eq)]
pub enum Fetched {
    /// The bytes of the stylesheet.
    Content(Vec<u8>),
    /// No bytes: the read or the request failed, or the asset could not be
    /// stored in the cache.
    Failed { kind: ErrorKind, detail: Vec<u8> },
}

/// The model of a `Fetched`.
pub enum Outcome {
    Content(Seq<u8>),
    Failed { kind: ErrorKind, detail: Seq<u8> },
}

impl View for Fetched {
    type V = Outcome;

    open spec fn view(&self) -> Outcome {
        match self {
            Fetched::Content(bytes) => Outcome::Content(bytes@),
            Fetched::Failed { kind, detail } => Outcome::Failed { kind: *kind, detail: detail@ },
        }
    }
}

/// One entry of the table.
#[derive(Clone, Debug, PartialEq, Eq)]
pub struct Source {
    pub id: Vec<u8>,
    pub fetched: Fetched,
}

/// The table: a map from canonical identities to what came back for them.
#[derive(Clone, Debug)]
pub struct Sources {
    entries: Vec<Source>,
}

/// The map that a list of entries stands for; of two entries for one
/// identity, the later one counts.
pub open spec fn table(entries: Seq<Source>) -> Map<Seq<u8>, Outcome>
    decreases entries.len(),
{
    if entries.len() == 0 {
        Map::empty()
    } else {
        table(entries.drop_last()).insert(entries.last().id@, entries.last().fetched@)
    }
}

proof fn lemma_table_finite(entries: Seq<Source>)
    ensures
        table(entries).dom().finite(),
    decreases entries.len(),
{
    if entries.len() > 0 {
        lemma_table_finite(entries.drop_last());
    }
}

impl View for Sources {
    type V = Map<Seq<u8>, Outcome>;

    closed spec fn view(&self) -> Map<Seq<u8>, Outcome> {
        table(self.entries@)
    }
}

impl Sources {
    /// A table that knows of nothing.
    pub fn new() -> (sources: Sources)
        ensures
            sources@ == Map::<Seq<u8>, Outcome>::empty(),
    {
        Sources { entries: Vec::new() }
    }

    /// A table holds finitely many identities.
    pub proof fn lemma_finite(&self)
        ensures
            self@.dom().finite(),
    {
        lemma_table_finite(self.entries@);
    }

    /// Notes what came back for `id`, in place of what was known of it.
    pub fn record(&mut self, id: Vec<u8>, fetched: Fetched)
        ensures
            final(self)@ == old(self)@.insert(id@, fetched@),
    {
        let ghost before = self.entries@;
        self.entries.push(Source { id, fetched });
        assert(self.entries@.drop_last() =~= before);
    }

    /// What is known of `id`.
    pub fn lookup(&self, id: &[u8]) -> (found: Option<&Fetched>)
        ensures
            match found {
                Some(fetched) => self@.dom().contains(id@) && self@[id@] == fetched@,
                None => !self@.dom().contains(id@),
            },
    {
        let mut at: Option<usize> = None;
        let mut i: usize = 0;
        assert(self.entries@.take(0) =~= Seq::<Source>::empty());
        while i < self.entries.len()
            invariant
                i <= self.entries.len(),
                match at {
                    Some(k) => k < i && table(self.entries@.take(i as int)).dom().contains(id@)
                        && table(self.entries@.take(i as int))[id@] == self.entries@[k as int].fetched@,
                    None => !table(self.entries@.take(i as int)).dom().contains(id@),
                },
            decreases self.entries.len() - i,
        {
            let ghost all = self.entries@;
            assert(all.take(i + 1).drop_last() =~= all.take(i as int));
            assert(all.take(i + 1).last() == all[i as int]);
            if same_bytes(self.entries[i].id.as_slice(), id) {
                at = Some(i);
            }
            i += 1;
        }
        assert(self.entries@.take(i as int) =~= self.entries@);
        match at {
            Some(k) => Some(&self.entries[k].fetched),
            None => None,
        }
    }

    /// Whether anything is known of `id`.
    pub fn knows(&self, id: &[u8]) -> (r: bool)
        ensures
            r == self@.dom().contains(id@),
    {
        self.lookup(id).is_some()
    }
}

} // verus!
