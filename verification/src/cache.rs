//! The cache directory: under which name an asset is stored there, and what
//! a write has to do.
//!
//! A cache name is made from the canonical identity alone, so the same
//! stylesheet always lands in the same file. Digits, lower-case letters, `.`
//! and `-` stand for themselves; every other byte is written as `_` and two
//! hexadecimal digits; `.css` follows. Different identities get different
//! names, also on a file system that ignores case.

use vstd::prelude::*;
use crate::identity::{normalize, normalized};
use crate::scan::{import_word, import_word_bytes, url_word, url_word_bytes};
use crate::text::{copy_of, css_suffix, css_suffix_bytes, find_segment_start, push_all,
    same_bytes, segment_start, starts_with, CLOSE_PAREN, DOT, HYPHEN, QUOTE, SLASH, SPACE,
    UNDERSCORE};

verus! {

/// A stylesheet as it is stored in the cache.
#[derive(Clone, Debug, PartialEq, Eq)]
pub struct CachedAsset {
    /// The canonical identity of the stylesheet.
    pub canonical_id: Vec<u8>,
    /// The path of its file in the cache directory.
    pub local_cache_path: Vec<u8>,
    /// How many bytes the file holds.
    pub length: usize,
    /// The bytes of the file: the stylesheet with its own imports localized.
    pub content: Vec<u8>,
}

/// The model of a `CachedAsset`.
pub struct Asset {
    pub id: Seq<u8>,
    pub path: Seq<u8>,
    pub length: int,
    pub content: Seq<u8>,
}

impl View for CachedAsset {
    type V = Asset;

    open spec fn view(&self) -> Asset {
        Asset {
            id: self.canonical_id@,
            path: self.local_cache_path@,
            length: self.length as int,
            content: self.content@,
        }
    }
}

/// What a write of an asset has to do.
#[derive(Clone, Debug, PartialEq, Eq)]
pub enum WritePlan {
    /// Nothing: the file is there and holds these bytes.
    Keep,
    /// Write the bytes to `temporary`, then rename it to `target`.
    Write { temporary: Vec<u8>, target: Vec<u8> },
}

/// A byte that stands for itself in a cache name.
pub open spec fn is_plain(b: u8) -> bool {
    48 <= b <= 57 || 97 <= b <= 122 || b == DOT || b == HYPHEN
}

/// The hexadecimal digit for a number below 16.
pub open spec fn hex_digit(n: u8) -> u8 {
    if n < 10 {
        (48 + n) as u8
    } else {
        (87 + n) as u8
    }
}

/// How one byte of an identity is written in a cache name.
pub open spec fn escaped(b: u8) -> Seq<u8> {
    if is_plain(b) {
        seq![b]
    } else {
        seq![UNDERSCORE, hex_digit(b / 16), hex_digit(b % 16)]
    }
}

/// An identity with every byte escaped.
pub open spec fn encoded(id: Seq<u8>) -> Seq<u8>
    decreases id.len(),
{
    if id.len() == 0 {
        Seq::<u8>::empty()
    } else {
        escaped(id[0]) + encoded(id.drop_first())
    }
}

/// The name of the cache file for an identity.
pub open spec fn cache_name_of(id: Seq<u8>) -> Seq<u8> {
    encoded(id) + css_suffix()
}

/// The cache directory in canonical spelling, with a slash at its end.
pub open spec fn cache_prefix_of(cache_dir: Seq<u8>) -> Seq<u8> {
    let dir = normalized(cache_dir);
    if dir.len() > 0 && dir.last() == SLASH {
        dir
    } else {
        dir + seq![SLASH]
    }
}

/// Whether an identity names a file directly in the directory `prefix`: it
/// is the prefix followed by one segment.
pub open spec fn lies_in(prefix: Seq<u8>, id: Seq<u8>) -> bool {
    &&& prefix.len() < id.len()
    &&& prefix.is_prefix_of(id)
    &&& segment_start(id) == prefix.len()
}

/// The directive that imports the cache file `name` from a document that
/// lies beside it.
pub open spec fn import_text(name: Seq<u8>) -> Seq<u8> {
    import_word() + seq![SPACE] + url_word() + seq![QUOTE] + name + seq![QUOTE, CLOSE_PAREN]
}

/// The asset that stores `content` under the identity `id` in `prefix`.
pub open spec fn asset_of(prefix: Seq<u8>, id: Seq<u8>, content: Seq<u8>) -> Asset {
    Asset { id, path: prefix + cache_name_of(id), length: content.len() as int, content }
}

/// The bytes of `.tmp`.
pub open spec fn temporary_suffix() -> Seq<u8> {
    seq![DOT, 116u8, 109u8, 112u8]
}

/// A byte that a cache name can hold.
pub open spec fn is_name_byte(b: u8) -> bool {
    is_plain(b) || b == UNDERSCORE
}

/// An encoded identity holds only bytes of cache names.
pub proof fn lemma_encoded_bytes(id: Seq<u8>)
    ensures
        forall|k: int| 0 <= k < encoded(id).len() ==> is_name_byte(#[trigger] encoded(id)[k]),
        encoded(id).len() >= id.len(),
    decreases id.len(),
{
    if id.len() > 0 {
        lemma_encoded_bytes(id.drop_first());
        let head = escaped(id[0]);
        let tail = encoded(id.drop_first());
        assert forall|k: int| 0 <= k < encoded(id).len() implies is_name_byte(
            #[trigger] encoded(id)[k],
        ) by {
            if k < head.len() {
                assert(encoded(id)[k] == head[k]);
            } else {
                assert(encoded(id)[k] == tail[k - head.len()]);
            }
        }
    }
}

/// A cache name is a single path segment: digits, lower-case letters, `.`,
/// `-` and `_`, never a slash, and never empty.
pub proof fn lemma_cache_name_bytes(id: Seq<u8>)
    ensures
        cache_name_of(id).len() >= 4,
        forall|k: int|
            0 <= k < cache_name_of(id).len() ==> is_name_byte(#[trigger] cache_name_of(id)[k]),
        css_suffix().is_suffix_of(cache_name_of(id)),
{
    lemma_encoded_bytes(id);
    let name = cache_name_of(id);
    let stem = encoded(id);
    assert forall|k: int| 0 <= k < name.len() implies is_name_byte(#[trigger] name[k]) by {
        if k < stem.len() {
            assert(name[k] == stem[k]);
        } else {
            assert(name[k] == css_suffix()[k - stem.len()]);
        }
    }
    assert(name.subrange(name.len() - 4, name.len() as int) =~= css_suffix());
}

/// Different identities are encoded differently.
pub proof fn lemma_encoded_injective(a: Seq<u8>, b: Seq<u8>)
    requires
        encoded(a) == encoded(b),
    ensures
        a == b,
    decreases a.len(),
{
    lemma_encoded_bytes(a);
    lemma_encoded_bytes(b);
    if a.len() == 0 || b.len() == 0 {
        assert(a =~= b);
    } else {
        let x = a[0];
        let y = b[0];
        let ex = escaped(x);
        let ey = escaped(y);
        let ra = encoded(a.drop_first());
        let rb = encoded(b.drop_first());
        let whole = encoded(a);
        assert(whole == ex + ra);
        assert(whole == ey + rb);
        assert(whole[0] == ex[0] && whole[0] == ey[0]);
        if is_plain(x) {
            assert(x == y);
            assert(ra =~= whole.subrange(1, whole.len() as int));
            assert(rb =~= whole.subrange(1, whole.len() as int));
        } else {
            assert(!is_plain(y));
            assert(whole[1] == ex[1] && whole[1] == ey[1]);
            assert(whole[2] == ex[2] && whole[2] == ey[2]);
            assert(x / 16 == y / 16);
            assert(x % 16 == y % 16);
            assert(x == y);
            assert(ra =~= whole.subrange(3, whole.len() as int));
            assert(rb =~= whole.subrange(3, whole.len() as int));
        }
        lemma_encoded_injective(a.drop_first(), b.drop_first());
        assert(a =~= seq![x] + a.drop_first());
        assert(b =~= seq![y] + b.drop_first());
    }
}

/// Different identities have different cache names, so no two stylesheets
/// share a cache file.
pub proof fn lemma_cache_name_injective(a: Seq<u8>, b: Seq<u8>)
    requires
        cache_name_of(a) == cache_name_of(b),
    ensures
        a == b,
{
    let name = cache_name_of(a);
    assert(encoded(a) =~= name.subrange(0, name.len() - 4));
    assert(encoded(b) =~= name.subrange(0, name.len() - 4));
    lemma_encoded_injective(a, b);
}

/// A temporary file never has the name of a cache file, so a half-written
/// asset is not taken for a finished one.
pub proof fn lemma_temporary_is_no_cache_name(path: Seq<u8>, prefix: Seq<u8>, id: Seq<u8>)
    ensures
        path + temporary_suffix() != prefix + cache_name_of(id),
{
    let temporary = path + temporary_suffix();
    let stored = prefix + cache_name_of(id);
    if temporary == stored {
        let n = temporary.len() as int;
        assert(temporary[n - 1] == temporary_suffix()[3]);
        assert(stored[n - 1] == css_suffix()[3]);
    }
}

fn hex(n: u8) -> (r: u8)
    requires
        n < 16,
    ensures
        r == hex_digit(n),
{
    if n < 10 {
        48 + n
    } else {
        87 + n
    }
}

fn plain(b: u8) -> (r: bool)
    ensures
        r == is_plain(b),
{
    (48 <= b && b <= 57) || (97 <= b && b <= 122) || b == DOT || b == HYPHEN
}

/// The name of the cache file for an identity.
pub fn cache_name(id: &[u8]) -> (name: Vec<u8>)
    ensures
        name@ == cache_name_of(id@),
{
    let mut name: Vec<u8> = Vec::new();
    let mut i: usize = 0;
    assert(id@.skip(0) =~= id@);
    assert(name@ + encoded(id@.skip(0)) =~= encoded(id@));
    while i < id.len()
        invariant
            i <= id.len(),
            name@ + encoded(id@.skip(i as int)) == encoded(id@),
        decreases id.len() - i,
    {
        let ghost rest = id@.skip(i as int);
        let ghost before = name@;
        assert(rest[0] == id@[i as int]);
        assert(rest.drop_first() =~= id@.skip(i + 1));
        let b = id[i];
        if plain(b) {
            name.push(b);
            assert(name@ =~= before + escaped(b));
        } else {
            name.push(UNDERSCORE);
            name.push(hex(b / 16));
            name.push(hex(b % 16));
            assert(name@ =~= before + escaped(b));
        }
        assert((before + escaped(b)) + encoded(id@.skip(i + 1)) =~= before + (escaped(b) + encoded(
            id@.skip(i + 1),
        )));
        i += 1;
    }
    assert(name@ + encoded(id@.skip(i as int)) =~= name@);
    let suffix = css_suffix_bytes();
    push_all(&mut name, suffix.as_slice());
    name
}

/// The cache directory in canonical spelling, with a slash at its end.
pub fn cache_prefix(cache_dir: &[u8]) -> (prefix: Vec<u8>)
    ensures
        prefix@ == cache_prefix_of(cache_dir@),
{
    let mut prefix = normalize(cache_dir);
    if prefix.len() == 0 || prefix[prefix.len() - 1] != SLASH {
        prefix.push(SLASH);
    }
    prefix
}

/// Whether an identity names a file directly in the directory `prefix`.
pub fn in_directory(prefix: &[u8], id: &[u8]) -> (r: bool)
    ensures
        r == lies_in(prefix@, id@),
{
    prefix.len() < id.len() && starts_with(id, prefix) && find_segment_start(id) == prefix.len()
}

/// The directive that imports the cache file `name`.
pub fn import_directive(name: &[u8]) -> (text: Vec<u8>)
    ensures
        text@ == import_text(name@),
{
    let keyword = import_word_bytes();
    let url = url_word_bytes();
    let mut text: Vec<u8> = Vec::new();
    push_all(&mut text, keyword.as_slice());
    text.push(SPACE);
    push_all(&mut text, url.as_slice());
    text.push(QUOTE);
    push_all(&mut text, name);
    text.push(QUOTE);
    text.push(CLOSE_PAREN);
    assert(text@ =~= import_text(name@));
    text
}

/// The asset that stores `content` under the identity `id` in the cache
/// directory `prefix`. Nothing is written; the asset says where to.
pub fn cache_asset(prefix: &[u8], id: Vec<u8>, content: Vec<u8>) -> (asset: CachedAsset)
    ensures
        asset@ == asset_of(prefix@, id@, content@),
{
    let name = cache_name(id.as_slice());
    let mut path = copy_of(prefix);
    push_all(&mut path, name.as_slice());
    let length = content.len();
    CachedAsset { canonical_id: id, local_cache_path: path, length, content }
}

/// What a write of `asset` has to do, given what its file holds now. A file
/// that holds the asset's bytes already is left alone. Otherwise the bytes
/// go to a temporary file beside it, which is then renamed into place.
pub fn plan_write(asset: &CachedAsset, existing: Option<&[u8]>) -> (plan: WritePlan)
    ensures
        match plan {
            WritePlan::Keep => existing matches Some(bytes) && bytes@ == asset.content@,
            WritePlan::Write { temporary, target } => {
                &&& !(existing matches Some(bytes) && bytes@ == asset.content@)
                &&& target@ == asset.local_cache_path@
                &&& temporary@ == target@ + temporary_suffix()
            },
        },
{
    let same = match existing {
        Some(bytes) => same_bytes(bytes, asset.content.as_slice()),
        None => false,
    };
    if same {
        WritePlan::Keep
    } else {
        let target = copy_of(asset.local_cache_path.as_slice());
        let mut temporary = copy_of(asset.local_cache_path.as_slice());
        temporary.push(DOT);
        temporary.push(116);
        temporary.push(109);
        temporary.push(112);
        assert(temporary@ =~= target@ + temporary_suffix());
        WritePlan::Write { temporary, target }
    }
}

} // verus!
