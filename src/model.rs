use vstd::prelude::*;

use crate::digest::{flatten, sha256_of};
use crate::types::{AssetError, AssetView, Batch, ChunkView, EncodingView, OpView};

verus! {

/// How long a batch stays usable after its creation or its last new chunk.
pub const BATCH_EXPIRY_NANOS: u64 = 300_000_000_000;

/// `i` is the first position of `s` whose element satisfies `p`.
pub open spec fn is_first<T>(s: Seq<T>, p: spec_fn(T) -> bool, i: int) -> bool {
    &&& 0 <= i < s.len()
    &&& p(s[i])
    &&& forall|j: int| 0 <= j < i ==> !p(s[j])
}

/// The first position of `s` whose element satisfies `p`, if any.
pub open spec fn first_index<T>(s: Seq<T>, p: spec_fn(T) -> bool) -> Option<int> {
    if exists|i: int| is_first(s, p, i) {
        Some(choose|i: int| is_first(s, p, i))
    } else {
        None
    }
}

pub proof fn lemma_first_index<T>(s: Seq<T>, p: spec_fn(T) -> bool, i: int)
    requires
        is_first(s, p, i),
    ensures
        first_index(s, p) == Some(i),
{
    let k = choose|k: int| is_first(s, p, k);
    assert(is_first(s, p, k));
    if k < i {
        assert(!p(s[k]));
    } else if i < k {
        assert(!p(s[i]));
    }
}

pub proof fn lemma_first_index_none<T>(s: Seq<T>, p: spec_fn(T) -> bool)
    requires
        forall|j: int| 0 <= j < s.len() ==> !p(s[j]),
    ensures
        first_index(s, p) is None,
{
}

pub open spec fn asset_pos(assets: Seq<AssetView>, key: Seq<char>) -> Option<int> {
    first_index(assets, |a: AssetView| a.key == key)
}

pub open spec fn encoding_pos(encs: Seq<EncodingView>, name: Seq<char>) -> Option<int> {
    first_index(encs, |e: EncodingView| e.name == name)
}

pub open spec fn chunk_pos(chunks: Seq<ChunkView>, id: u64) -> Option<int> {
    first_index(chunks, |c: ChunkView| c.id == id)
}

pub open spec fn batch_pos(batches: Seq<Batch>, id: u64) -> Option<int> {
    first_index(batches, |b: Batch| b.id == id)
}

/// The encoding named `name` of the asset under `key`.
pub open spec fn lookup_encoding(assets: Seq<AssetView>, key: Seq<char>, name: Seq<char>) -> Option<
    EncodingView,
> {
    match asset_pos(assets, key) {
        Some(i) => match encoding_pos(assets[i].encodings, name) {
            Some(j) => Some(assets[i].encodings[j]),
            None => None,
        },
        None => None,
    }
}

/// What is wrong, if anything, with the `j`-th chunk id of a content upload:
/// unknown, used twice, of another batch than `owner`, or of an expired batch.
pub open spec fn id_error(
    chunks: Seq<ChunkView>,
    batches: Seq<Batch>,
    ids: Seq<u64>,
    j: int,
    owner: Option<u64>,
    now: u64,
) -> Option<AssetError> {
    match chunk_pos(chunks, ids[j]) {
        None => Some(AssetError::NotFound),
        Some(ci) => if ids.subrange(0, j).contains(ids[j]) {
            Some(AssetError::NotFound)
        } else if owner is Some && chunks[ci].batch_id != owner->0 {
            Some(AssetError::NotFound)
        } else {
            match batch_pos(batches, chunks[ci].batch_id) {
                None => Some(AssetError::Expired),
                Some(bi) => if batches[bi].expires_at <= now {
                    Some(AssetError::Expired)
                } else {
                    None
                },
            }
        },
    }
}

/// The first error among the first `n` chunk ids.
pub open spec fn ids_error(
    chunks: Seq<ChunkView>,
    batches: Seq<Batch>,
    ids: Seq<u64>,
    n: int,
    owner: Option<u64>,
    now: u64,
) -> Option<AssetError>
    decreases n,
{
    if n <= 0 {
        None
    } else {
        match ids_error(chunks, batches, ids, n - 1, owner, now) {
            Some(e) => Some(e),
            None => id_error(chunks, batches, ids, n - 1, owner, now),
        }
    }
}

/// The payloads of the chunks with the given ids, in that order.
pub open spec fn chunk_contents(chunks: Seq<ChunkView>, ids: Seq<u64>) -> Seq<Seq<u8>> {
    ids.map_values(|id: u64| chunks[chunk_pos(chunks, id)->0].content)
}

/// The chunks whose ids are not among `ids`.
pub open spec fn unused_chunks(chunks: Seq<ChunkView>, ids: Seq<u64>) -> Seq<ChunkView> {
    chunks.filter(|c: ChunkView| !ids.contains(c.id))
}

/// The chunks that do not belong to batch `b`.
pub open spec fn chunks_outside(chunks: Seq<ChunkView>, b: u64) -> Seq<ChunkView> {
    chunks.filter(|c: ChunkView| c.batch_id != b)
}

/// An encoding made of the given chunk payloads.
pub open spec fn new_encoding(name: Seq<char>, contents: Seq<Seq<u8>>, now: u64) -> EncodingView {
    EncodingView {
        name,
        chunks: contents,
        total_length: flatten(contents).len(),
        sha256: sha256_of(flatten(contents)),
        modified: now,
    }
}

/// `encs` with `e` in place of the encoding of the same name, or added at the end.
pub open spec fn put_encoding(encs: Seq<EncodingView>, e: EncodingView) -> Seq<EncodingView> {
    match encoding_pos(encs, e.name) {
        Some(i) => encs.update(i, e),
        None => encs.push(e),
    }
}

/// `encs` without the encoding called `name`.
pub open spec fn drop_encoding(encs: Seq<EncodingView>, name: Seq<char>) -> Seq<EncodingView> {
    match encoding_pos(encs, name) {
        Some(i) => encs.remove(i),
        None => encs,
    }
}

pub open spec fn create_asset_spec(
    assets: Seq<AssetView>,
    key: Seq<char>,
    content_type: Seq<char>,
    default_doc: bool,
) -> Result<
    Seq<AssetView>,
    AssetError,
> {
    match asset_pos(assets, key) {
        Some(i) => if assets[i].content_type == content_type {
            Ok(assets)
        } else {
            Err(AssetError::AlreadyExists)
        },
        None => Ok(
            assets.push(
                AssetView { key, content_type, is_default_doc: default_doc, encodings: Seq::empty() },
            ),
        ),
    }
}

pub open spec fn set_content_spec(
    assets: Seq<AssetView>,
    chunks: Seq<ChunkView>,
    batches: Seq<Batch>,
    key: Seq<char>,
    name: Seq<char>,
    ids: Seq<u64>,
    sha256: Option<Seq<u8>>,
    owner: Option<u64>,
    now: u64,
) -> Result<(Seq<AssetView>, Seq<ChunkView>), AssetError> {
    match asset_pos(assets, key) {
        None => Err(AssetError::NotFound),
        Some(ai) => match ids_error(chunks, batches, ids, ids.len() as int, owner, now) {
            Some(e) => Err(e),
            None => {
                let e = new_encoding(name, chunk_contents(chunks, ids), now);
                if sha256 is Some && sha256->0 != e.sha256 {
                    Err(AssetError::HashMismatch)
                } else {
                    Ok(
                        (
                            assets.update(
                                ai,
                                AssetView {
                                    encodings: put_encoding(assets[ai].encodings, e),
                                    ..assets[ai]
                                },
                            ),
                            unused_chunks(chunks, ids),
                        ),
                    )
                }
            },
        },
    }
}

pub open spec fn unset_content_spec(assets: Seq<AssetView>, key: Seq<char>, name: Seq<char>) -> Result<
    Seq<AssetView>,
    AssetError,
> {
    match asset_pos(assets, key) {
        None => Err(AssetError::NotFound),
        Some(i) => Ok(
            assets.update(
                i,
                AssetView { encodings: drop_encoding(assets[i].encodings, name), ..assets[i] },
            ),
        ),
    }
}

pub open spec fn delete_asset_spec(assets: Seq<AssetView>, key: Seq<char>) -> Seq<AssetView> {
    match asset_pos(assets, key) {
        Some(i) => assets.remove(i),
        None => assets,
    }
}

/// One operation of a commit of batch `b`, on assets and remaining chunks.
pub open spec fn step_spec(
    assets: Seq<AssetView>,
    chunks: Seq<ChunkView>,
    batches: Seq<Batch>,
    b: u64,
    op: OpView,
    now: u64,
) -> Result<(Seq<AssetView>, Seq<ChunkView>), AssetError> {
    match op {
        OpView::CreateAsset { key, content_type, default_doc } => match create_asset_spec(
            assets,
            key,
            content_type,
            default_doc,
        ) {
            Ok(a) => Ok((a, chunks)),
            Err(e) => Err(e),
        },
        OpView::SetContent { key, encoding, chunk_ids, sha256 } => set_content_spec(
            assets,
            chunks,
            batches,
            key,
            encoding,
            chunk_ids,
            sha256,
            Some(b),
            now,
        ),
        OpView::Unset { key, encoding } => match unset_content_spec(assets, key, encoding) {
            Ok(a) => Ok((a, chunks)),
            Err(e) => Err(e),
        },
        OpView::Delete { key } => Ok((delete_asset_spec(assets, key), chunks)),
    }
}

/// The operations applied in order; the first failure stops the run.
pub open spec fn run_ops(
    assets: Seq<AssetView>,
    chunks: Seq<ChunkView>,
    batches: Seq<Batch>,
    b: u64,
    ops: Seq<OpView>,
    now: u64,
) -> Result<(Seq<AssetView>, Seq<ChunkView>), AssetError>
    decreases ops.len(),
{
    if ops.len() == 0 {
        Ok((assets, chunks))
    } else {
        match run_ops(assets, chunks, batches, b, ops.drop_last(), now) {
            Err(e) => Err(e),
            Ok((a, c)) => step_spec(a, c, batches, b, ops.last(), now),
        }
    }
}

/// Expiry a batch gets from `now`, capped at the largest timestamp.
pub open spec fn expiry_from(now: u64) -> u64 {
    if now as int + BATCH_EXPIRY_NANOS as int > u64::MAX as int {
        u64::MAX
    } else {
        (now + BATCH_EXPIRY_NANOS) as u64
    }
}

/// A single-request upload of one encoding; the asset is created if it is missing.
pub open spec fn store_spec(
    assets: Seq<AssetView>,
    key: Seq<char>,
    content_type: Seq<char>,
    name: Seq<char>,
    content: Seq<u8>,
    sha256: Option<Seq<u8>>,
    now: u64,
) -> Result<Seq<AssetView>, AssetError> {
    let e = new_encoding(name, seq![content], now);
    if sha256 is Some && sha256->0 != e.sha256 {
        Err(AssetError::HashMismatch)
    } else {
        match asset_pos(assets, key) {
            Some(i) => Ok(
                assets.update(
                    i,
                    AssetView {
                        content_type,
                        encodings: put_encoding(assets[i].encodings, e),
                        ..assets[i]
                    },
                ),
            ),
            None => Ok(
                assets.push(
                    AssetView { key, content_type, is_default_doc: false, encodings: seq![e] },
                ),
            ),
        }
    }
}

/// The name of the uncompressed encoding.
pub open spec fn identity_name() -> Seq<char> {
    seq!['i', 'd', 'e', 'n', 't', 'i', 't', 'y']
}

/// The first name in `accept` that the encodings offer.
pub open spec fn chosen_encoding(encs: Seq<EncodingView>, accept: Seq<Seq<char>>) -> Option<int> {
    match first_index(accept, |n: Seq<char>| encoding_pos(encs, n) is Some) {
        Some(k) => encoding_pos(encs, accept[k]),
        None => None,
    }
}

/// The bytes of an encoding.
pub open spec fn encoding_bytes(e: EncodingView) -> Seq<u8> {
    flatten(e.chunks)
}

} // verus!
