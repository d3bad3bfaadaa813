use vstd::prelude::*;

use crate::digest::{bytes_eq, concat_chunks, sha256};
use crate::model::{
    asset_pos, batch_pos, chunk_contents, chunk_pos, create_asset_spec, delete_asset_spec,
    drop_encoding, encoding_pos, id_error, ids_error, lemma_first_index,
    lemma_first_index_none, new_encoding, put_encoding, run_ops, set_content_spec,
    step_spec, unset_content_spec, unused_chunks, chunks_outside, };
use crate::types::{
    Asset, AssetEncoding, AssetError, AssetView, Batch, BatchOperation, Chunk, ChunkView,
    EncodingView, OpView,
};

verus! {

pub open spec fn assets_view(v: Seq<Asset>) -> Seq<AssetView> {
    v.map_values(|a: Asset| a@)
}

pub open spec fn chunks_view(v: Seq<Chunk>) -> Seq<ChunkView> {
    v.map_values(|c: Chunk| c@)
}

pub open spec fn encodings_view(v: Seq<AssetEncoding>) -> Seq<EncodingView> {
    v.map_values(|e: AssetEncoding| e@)
}

/// Position of the first asset stored under `key`.
pub fn find_asset(assets: &Vec<Asset>, key: &String) -> (r: Option<usize>)
    ensures
        match r {
            Some(i) => asset_pos(assets_view(assets@), key@) == Some(i as int),
            None => asset_pos(assets_view(assets@), key@) is None,
        },
{
    let ghost p = |a: AssetView| a.key == key@;
    let ghost s = assets_view(assets@);
    let mut i: usize = 0;
    while i < assets.len()
        invariant
            i <= assets@.len(),
            s == assets_view(assets@),
            p == (|a: AssetView| a.key == key@),
            forall|j: int| 0 <= j < i ==> !p(s[j]),
        decreases assets@.len() - i,
    {
        if assets[i].key == *key {
            proof {
                lemma_first_index(s, p, i as int);
            }
            return Some(i);
        }
        i = i + 1;
    }
    proof {
        lemma_first_index_none(s, p);
    }
    None
}

/// Position of the encoding called `name`.
pub fn find_encoding(encs: &Vec<AssetEncoding>, name: &String) -> (r: Option<usize>)
    ensures
        match r {
            Some(i) => encoding_pos(encodings_view(encs@), name@) == Some(i as int),
            None => encoding_pos(encodings_view(encs@), name@) is None,
        },
{
    let ghost p = |e: EncodingView| e.name == name@;
    let ghost s = encodings_view(encs@);
    let mut i: usize = 0;
    while i < encs.len()
        invariant
            i <= encs@.len(),
            s == encodings_view(encs@),
            p == (|e: EncodingView| e.name == name@),
            forall|j: int| 0 <= j < i ==> !p(s[j]),
        decreases encs@.len() - i,
    {
        if encs[i].content_encoding == *name {
            proof {
                lemma_first_index(s, p, i as int);
            }
            return Some(i);
        }
        i = i + 1;
    }
    proof {
        lemma_first_index_none(s, p);
    }
    None
}

/// Position of the chunk with id `id`.
pub fn find_chunk(chunks: &Vec<Chunk>, id: u64) -> (r: Option<usize>)
    ensures
        match r {
            Some(i) => chunk_pos(chunks_view(chunks@), id) == Some(i as int),
            None => chunk_pos(chunks_view(chunks@), id) is None,
        },
{
    let ghost p = |c: ChunkView| c.id == id;
    let ghost s = chunks_view(chunks@);
    let mut i: usize = 0;
    while i < chunks.len()
        invariant
            i <= chunks@.len(),
            s == chunks_view(chunks@),
            p == (|c: ChunkView| c.id == id),
            forall|j: int| 0 <= j < i ==> !p(s[j]),
        decreases chunks@.len() - i,
    {
        if chunks[i].id == id {
            proof {
                lemma_first_index(s, p, i as int);
            }
            return Some(i);
        }
        i = i + 1;
    }
    proof {
        lemma_first_index_none(s, p);
    }
    None
}

/// Position of the batch with id `id`.
pub fn find_batch(batches: &Vec<Batch>, id: u64) -> (r: Option<usize>)
    ensures
        match r {
            Some(i) => batch_pos(batches@, id) == Some(i as int),
            None => batch_pos(batches@, id) is None,
        },
{
    let ghost p = |b: Batch| b.id == id;
    let mut i: usize = 0;
    while i < batches.len()
        invariant
            i <= batches@.len(),
            p == (|b: Batch| b.id == id),
            forall|j: int| 0 <= j < i ==> !p(batches@[j]),
        decreases batches@.len() - i,
    {
        if batches[i].id == id {
            proof {
                lemma_first_index(batches@, p, i as int);
            }
            return Some(i);
        }
        i = i + 1;
    }
    proof {
        lemma_first_index_none(batches@, p);
    }
    None
}

pub fn copy_bytes(v: &Vec<u8>) -> (r: Vec<u8>)
    ensures
        r@ == v@,
{
    let r = v.clone();
    assert(r@ =~= v@);
    r
}

pub fn copy_encoding(e: &AssetEncoding) -> (r: AssetEncoding)
    ensures
        r@ == e@,
{
    let mut chunks: Vec<Vec<u8>> = Vec::new();
    let mut i: usize = 0;
    while i < e.content_chunks.len()
        invariant
            i <= e.content_chunks@.len(),
            chunks@.len() == i,
            chunks.deep_view() =~= e.content_chunks.deep_view().subrange(0, i as int),
        decreases e.content_chunks@.len() - i,
    {
        let c = copy_bytes(&e.content_chunks[i]);
        chunks.push(c);
        assert(chunks@[i as int] == c);
        assert(chunks.deep_view() =~= e.content_chunks.deep_view().subrange(0, i + 1));
        i = i + 1;
    }
    assert(chunks.deep_view() =~= e.content_chunks.deep_view());
    AssetEncoding {
        content_encoding: e.content_encoding.clone(),
        content_chunks: chunks,
        total_length: e.total_length,
        sha256: copy_bytes(&e.sha256),
        modified: e.modified,
    }
}

pub fn copy_asset(a: &Asset) -> (r: Asset)
    ensures
        r@ == a@,
{
    let mut encs: Vec<AssetEncoding> = Vec::new();
    let mut i: usize = 0;
    while i < a.encodings.len()
        invariant
            i <= a.encodings@.len(),
            encs@.len() == i,
            encodings_view(encs@) =~= encodings_view(a.encodings@).subrange(0, i as int),
        decreases a.encodings@.len() - i,
    {
        let c = copy_encoding(&a.encodings[i]);
        encs.push(c);
        assert(encs@[i as int] == c);
        assert(encodings_view(encs@) =~= encodings_view(a.encodings@).subrange(0, i + 1));
        i = i + 1;
    }
    assert(encodings_view(encs@) =~= encodings_view(a.encodings@));
    Asset {
        key: a.key.clone(),
        content_type: a.content_type.clone(),
        is_default_doc: a.is_default_doc,
        encodings: encs,
    }
}

pub fn copy_assets(v: &Vec<Asset>) -> (r: Vec<Asset>)
    ensures
        assets_view(r@) == assets_view(v@),
{
    let mut out: Vec<Asset> = Vec::new();
    let mut i: usize = 0;
    while i < v.len()
        invariant
            i <= v@.len(),
            out@.len() == i,
            assets_view(out@) =~= assets_view(v@).subrange(0, i as int),
        decreases v@.len() - i,
    {
        let a = copy_asset(&v[i]);
        let ghost prev = out@;
        out.push(a);
        assert(out@ == prev.push(a));
        assert(out@[i as int] == a);
        assert(assets_view(out@) =~= assets_view(v@).subrange(0, i + 1));
        i = i + 1;
    }
    assert(assets_view(out@) =~= assets_view(v@));
    out
}

pub fn copy_chunks(v: &Vec<Chunk>) -> (r: Vec<Chunk>)
    ensures
        chunks_view(r@) == chunks_view(v@),
{
    let mut out: Vec<Chunk> = Vec::new();
    let mut i: usize = 0;
    while i < v.len()
        invariant
            i <= v@.len(),
            out@.len() == i,
            chunks_view(out@) =~= chunks_view(v@).subrange(0, i as int),
        decreases v@.len() - i,
    {
        let c = &v[i];
        let d = Chunk { id: c.id, batch_id: c.batch_id, content: copy_bytes(&c.content) };
        out.push(d);
        assert(out@[i as int] == d);
        assert(chunks_view(out@) =~= chunks_view(v@).subrange(0, i + 1));
        i = i + 1;
    }
    assert(chunks_view(out@) =~= chunks_view(v@));
    out
}

proof fn lemma_ids_error_stays(
    chunks: Seq<ChunkView>,
    batches: Seq<Batch>,
    ids: Seq<u64>,
    n: int,
    m: int,
    owner: Option<u64>,
    now: u64,
)
    requires
        0 <= n <= m,
        ids_error(chunks, batches, ids, n, owner, now) is Some,
    ensures
        ids_error(chunks, batches, ids, m, owner, now) == ids_error(
            chunks,
            batches,
            ids,
            n,
            owner,
            now,
        ),
    decreases m - n,
{
    if n < m {
        lemma_ids_error_stays(chunks, batches, ids, n, m - 1, owner, now);
    }
}

proof fn lemma_ids_error_none(
    chunks: Seq<ChunkView>,
    batches: Seq<Batch>,
    ids: Seq<u64>,
    n: int,
    owner: Option<u64>,
    now: u64,
)
    requires
        0 <= n,
        ids_error(chunks, batches, ids, n, owner, now) is None,
    ensures
        forall|j: int| 0 <= j < n ==> id_error(chunks, batches, ids, j, owner, now) is None,
    decreases n,
{
    if n > 0 {
        lemma_ids_error_none(chunks, batches, ids, n - 1, owner, now);
    }
}

/// Whether `id` occurs among the first `n` ids.
fn occurs_before(ids: &Vec<u64>, n: usize, id: u64) -> (r: bool)
    requires
        n <= ids@.len(),
    ensures
        r == ids@.subrange(0, n as int).contains(id),
{
    let mut k: usize = 0;
    while k < n
        invariant
            n <= ids@.len(),
            k <= n,
            forall|j: int| 0 <= j < k ==> ids@[j] != id,
        decreases n - k,
    {
        if ids[k] == id {
            assert(ids@.subrange(0, n as int)[k as int] == id);
            return true;
        }
        k = k + 1;
    }
    assert(!ids@.subrange(0, n as int).contains(id)) by {
        if ids@.subrange(0, n as int).contains(id) {
            let w = choose|w: int| 0 <= w < n && ids@.subrange(0, n as int)[w] == id;
            assert(ids@[w] == id);
        }
    }
    false
}

/// Keeps the chunks whose ids are not in `ids`.
fn remove_used_chunks(chunks: &Vec<Chunk>, ids: &Vec<u64>) -> (r: Vec<Chunk>)
    ensures
        chunks_view(r@) == unused_chunks(chunks_view(chunks@), ids@),
{
    let ghost cv = chunks_view(chunks@);
    let ghost p = |c: ChunkView| !ids@.contains(c.id);
    let mut out: Vec<Chunk> = Vec::new();
    let mut i: usize = 0;
    while i < chunks.len()
        invariant
            i <= chunks@.len(),
            cv == chunks_view(chunks@),
            p == (|c: ChunkView| !ids@.contains(c.id)),
            chunks_view(out@) == cv.subrange(0, i as int).filter(p),
        decreases chunks@.len() - i,
    {
        let c = &chunks[i];
        let used = occurs_before(ids, ids.len(), c.id);
        proof {
            assert(ids@.subrange(0, ids@.len() as int) =~= ids@);
            assert(cv.subrange(0, i + 1).drop_last() =~= cv.subrange(0, i as int));
            assert(cv.subrange(0, i + 1).last() == c@);
            reveal(Seq::filter);
            assert(cv.subrange(0, i + 1).filter(p) == if p(c@) {
                cv.subrange(0, i as int).filter(p).push(c@)
            } else {
                cv.subrange(0, i as int).filter(p)
            });
        }
        if !used {
            let d = Chunk { id: c.id, batch_id: c.batch_id, content: copy_bytes(&c.content) };
            let ghost prev = out@;
            out.push(d);
            assert(chunks_view(out@) =~= chunks_view(prev).push(d@));
        }
        i = i + 1;
    }
    assert(cv.subrange(0, i as int) =~= cv);
    out
}

/// Keeps the chunks that belong to another batch than `b`.
pub(crate) fn remove_batch_chunks(chunks: &Vec<Chunk>, b: u64) -> (r: Vec<Chunk>)
    ensures
        chunks_view(r@) == chunks_outside(chunks_view(chunks@), b),
{
    let ghost cv = chunks_view(chunks@);
    let ghost p = |c: ChunkView| c.batch_id != b;
    let mut out: Vec<Chunk> = Vec::new();
    let mut i: usize = 0;
    while i < chunks.len()
        invariant
            i <= chunks@.len(),
            cv == chunks_view(chunks@),
            p == (|c: ChunkView| c.batch_id != b),
            chunks_view(out@) == cv.subrange(0, i as int).filter(p),
        decreases chunks@.len() - i,
    {
        let c = &chunks[i];
        proof {
            assert(cv.subrange(0, i + 1).drop_last() =~= cv.subrange(0, i as int));
            assert(cv.subrange(0, i + 1).last() == c@);
            reveal(Seq::filter);
            assert(cv.subrange(0, i + 1).filter(p) == if p(c@) {
                cv.subrange(0, i as int).filter(p).push(c@)
            } else {
                cv.subrange(0, i as int).filter(p)
            });
        }
        if c.batch_id != b {
            let d = Chunk { id: c.id, batch_id: c.batch_id, content: copy_bytes(&c.content) };
            let ghost prev = out@;
            out.push(d);
            assert(chunks_view(out@) =~= chunks_view(prev).push(d@));
        }
        i = i + 1;
    }
    assert(cv.subrange(0, i as int) =~= cv);
    out
}

/// Adds an asset without content, or accepts one that exists with the same content type.
pub fn create_asset_in(
    assets: &mut Vec<Asset>,
    key: String,
    content_type: String,
    default_doc: bool,
) -> (r: Result<
    (),
    AssetError,
>)
    ensures
        match create_asset_spec(assets_view(old(assets)@), key@, content_type@, default_doc) {
            Ok(a) => r is Ok && assets_view(final(assets)@) == a,
            Err(e) => r == Err::<(), AssetError>(e) && assets_view(final(assets)@) == assets_view(
                old(assets)@,
            ),
        },
{
    match find_asset(assets, &key) {
        Some(i) => {
            if assets[i].content_type == content_type {
                Ok(())
            } else {
                Err(AssetError::AlreadyExists)
            }
        },
        None => {
            let a = Asset { key, content_type, is_default_doc: default_doc, encodings: Vec::new() };
            let ghost prev = assets@;
            assets.push(a);
            proof {
                assert(a@.encodings =~= Seq::<EncodingView>::empty());
                assert(assets_view(assets@) =~= assets_view(prev).push(a@));
            }
            Ok(())
        },
    }
}

/// Removes the asset stored under `key`, if there is one.
pub fn delete_asset_in(assets: &mut Vec<Asset>, key: &String)
    ensures
        assets_view(final(assets)@) == delete_asset_spec(assets_view(old(assets)@), key@),
{
    if let Some(i) = find_asset(assets, key) {
        let ghost prev = assets@;
        assets.remove(i);
        assert(assets_view(assets@) =~= assets_view(prev).remove(i as int));
    }
}

/// Removes one encoding of the asset under `key`.
pub fn unset_content_in(assets: &mut Vec<Asset>, key: &String, name: &String) -> (r: Result<
    (),
    AssetError,
>)
    ensures
        match unset_content_spec(assets_view(old(assets)@), key@, name@) {
            Ok(a) => r is Ok && assets_view(final(assets)@) == a,
            Err(e) => r == Err::<(), AssetError>(e) && assets_view(final(assets)@) == assets_view(
                old(assets)@,
            ),
        },
{
    match find_asset(assets, key) {
        None => Err(AssetError::NotFound),
        Some(i) => {
            let ghost prev = assets@;
            let mut a = assets.remove(i);
            let ghost before = a;
            if let Some(j) = find_encoding(&a.encodings, name) {
                a.encodings.remove(j);
                assert(encodings_view(a.encodings@) =~= encodings_view(before.encodings@).remove(
                    j as int,
                ));
            }
            assets.insert(i, a);
            proof {
                let nv = AssetView {
                    encodings: drop_encoding(before@.encodings, name@),
                    ..before@
                };
                assert(a@.encodings =~= nv.encodings);
                assert(a@ == nv);
                assert(assets_view(assets@) =~= assets_view(prev).update(i as int, nv));
            }
            Ok(())
        },
    }
}

/// Checks every chunk id of an upload; returns the first error met.
fn check_chunk_ids(
    chunks: &Vec<Chunk>,
    batches: &Vec<Batch>,
    ids: &Vec<u64>,
    owner: Option<u64>,
    now: u64,
) -> (r: Option<AssetError>)
    ensures
        r == ids_error(chunks_view(chunks@), batches@, ids@, ids@.len() as int, owner, now),
{
    let ghost cv = chunks_view(chunks@);
    let mut j: usize = 0;
    while j < ids.len()
        invariant
            j <= ids@.len(),
            cv == chunks_view(chunks@),
            ids_error(cv, batches@, ids@, j as int, owner, now) is None,
        decreases ids@.len() - j,
    {
        let id = ids[j];
        let err: Option<AssetError> = match find_chunk(chunks, id) {
            None => Some(AssetError::NotFound),
            Some(ci) => {
                if occurs_before(ids, j, id) {
                    Some(AssetError::NotFound)
                } else {
                    let bad_owner = match owner {
                        Some(b) => chunks[ci].batch_id != b,
                        None => false,
                    };
                    if bad_owner {
                        Some(AssetError::NotFound)
                    } else {
                        match find_batch(batches, chunks[ci].batch_id) {
                            None => Some(AssetError::Expired),
                            Some(bi) => {
                                if batches[bi].expires_at <= now {
                                    Some(AssetError::Expired)
                                } else {
                                    None
                                }
                            },
                        }
                    }
                }
            },
        };
        assert(err == id_error(cv, batches@, ids@, j as int, owner, now));
        if let Some(e) = err {
            proof {
                lemma_ids_error_stays(
                    cv,
                    batches@,
                    ids@,
                    j + 1,
                    ids@.len() as int,
                    owner,
                    now,
                );
            }
            return Some(e);
        }
        j = j + 1;
    }
    None
}

/// Copies out the payloads of the given chunks, in the order of `ids`.
fn gather_chunks(chunks: &Vec<Chunk>, ids: &Vec<u64>) -> (r: Vec<Vec<u8>>)
    requires
        forall|j: int|
            0 <= j < ids@.len() ==> (#[trigger] chunk_pos(chunks_view(chunks@), ids@[j])) is Some,
    ensures
        r.deep_view() == chunk_contents(chunks_view(chunks@), ids@),
{
    let ghost target = chunk_contents(chunks_view(chunks@), ids@);
    let mut out: Vec<Vec<u8>> = Vec::new();
    let mut j: usize = 0;
    while j < ids.len()
        invariant
            j <= ids@.len(),
            out@.len() == j,
            target == chunk_contents(chunks_view(chunks@), ids@),
            forall|k: int|
                0 <= k < ids@.len() ==> (#[trigger] chunk_pos(chunks_view(chunks@), ids@[k])) is Some,
            out.deep_view() =~= target.subrange(0, j as int),
        decreases ids@.len() - j,
    {
        let ci = find_chunk(chunks, ids[j]);
        assert(chunk_pos(chunks_view(chunks@), ids@[j as int]) is Some);
        let ci = ci.unwrap();
        let c = copy_bytes(&chunks[ci].content);
        out.push(c);
        assert(out@[j as int] == c);
        assert(c.deep_view() =~= c@);
        assert(target[j as int] == chunks_view(chunks@)[ci as int].content);
        assert(out.deep_view() =~= target.subrange(0, j + 1));
        j = j + 1;
    }
    assert(target.subrange(0, j as int) =~= target);
    out
}

/// Puts `enc` into the asset at position `ai`, in place of the encoding of the
/// same name or after the others.
pub fn install_encoding(assets: &mut Vec<Asset>, ai: usize, enc: AssetEncoding)
    requires
        ai < old(assets)@.len(),
    ensures
        final(assets)@.len() == old(assets)@.len(),
        assets_view(final(assets)@) == assets_view(old(assets)@).update(
            ai as int,
            AssetView {
                encodings: put_encoding(assets_view(old(assets)@)[ai as int].encodings, enc@),
                ..assets_view(old(assets)@)[ai as int]
            },
        ),
{
    let ghost ev = enc@;
    let ghost prev = assets@;
    let mut a = assets.remove(ai);
    let ghost before = a;
    match find_encoding(&a.encodings, &enc.content_encoding) {
        Some(j) => {
            a.encodings.remove(j);
            a.encodings.insert(j, enc);
            assert(encodings_view(a.encodings@) =~= encodings_view(before.encodings@).update(
                j as int,
                ev,
            ));
        },
        None => {
            a.encodings.push(enc);
            assert(encodings_view(a.encodings@) =~= encodings_view(before.encodings@).push(ev));
        },
    }
    assets.insert(ai, a);
    proof {
        let nv = AssetView { encodings: put_encoding(before@.encodings, ev), ..before@ };
        assert(a@.encodings =~= nv.encodings);
        assert(a@ == nv);
        assert(assets_view(assets@) =~= assets_view(prev).update(ai as int, nv));
    }
}

/// Sets one encoding of the asset under `key` to the concatenation of the given
/// chunks, which are then used up. With `owner`, every chunk must belong to that batch.
pub fn set_content_in(
    assets: &mut Vec<Asset>,
    chunks: &mut Vec<Chunk>,
    batches: &Vec<Batch>,
    key: &String,
    name: String,
    ids: &Vec<u64>,
    expected: &Option<Vec<u8>>,
    owner: Option<u64>,
    now: u64,
) -> (r: Result<(), AssetError>)
    ensures
        match set_content_spec(
            assets_view(old(assets)@),
            chunks_view(old(chunks)@),
            batches@,
            key@,
            name@,
            ids@,
            crate::types::opt_bytes(*expected),
            owner,
            now,
        ) {
            Ok((a, c)) => r is Ok && assets_view(final(assets)@) == a && chunks_view(final(chunks)@)
                == c,
            Err(e) => r == Err::<(), AssetError>(e) && assets_view(final(assets)@) == assets_view(
                old(assets)@,
            ) && chunks_view(final(chunks)@) == chunks_view(old(chunks)@),
        },
{
    let ai = match find_asset(assets, key) {
        None => return Err(AssetError::NotFound),
        Some(ai) => ai,
    };
    if let Some(e) = check_chunk_ids(chunks, batches, ids, owner, now) {
        return Err(e);
    }
    proof {
        lemma_ids_error_none(
            chunks_view(chunks@),
            batches@,
            ids@,
            ids@.len() as int,
            owner,
            now,
        );
        assert forall|j: int| 0 <= j < ids@.len() implies (#[trigger] chunk_pos(
            chunks_view(chunks@),
            ids@[j],
        )) is Some by {
            assert(id_error(chunks_view(chunks@), batches@, ids@, j, owner, now) is None);
        }
    }
    let contents = gather_chunks(chunks, ids);
    let bytes = concat_chunks(&contents);
    let hash = sha256(bytes.as_slice());
    if let Some(exp) = expected {
        if !bytes_eq(exp.as_slice(), hash.as_slice()) {
            return Err(AssetError::HashMismatch);
        }
    }
    let enc = AssetEncoding {
        content_encoding: name,
        content_chunks: contents,
        total_length: bytes.len(),
        sha256: hash,
        modified: now,
    };
    let ghost ev = enc@;
    assert(ev == new_encoding(name@, chunk_contents(chunks_view(chunks@), ids@), now));
    install_encoding(assets, ai, enc);
    let rest = remove_used_chunks(chunks, ids);
    *chunks = rest;
    Ok(())
}

pub open spec fn ops_view(v: Seq<BatchOperation>) -> Seq<OpView> {
    v.map_values(|o: BatchOperation| o@)
}

/// Once a prefix of the operations fails, every longer prefix fails the same way.
pub proof fn lemma_run_ops_err(
    assets: Seq<AssetView>,
    chunks: Seq<ChunkView>,
    batches: Seq<Batch>,
    b: u64,
    ops: Seq<OpView>,
    n: int,
    m: int,
    now: u64,
)
    requires
        0 <= n <= m <= ops.len(),
        run_ops(assets, chunks, batches, b, ops.subrange(0, n), now) is Err,
    ensures
        run_ops(assets, chunks, batches, b, ops.subrange(0, m), now) == run_ops(
            assets,
            chunks,
            batches,
            b,
            ops.subrange(0, n),
            now,
        ),
    decreases m - n,
{
    if n < m {
        lemma_run_ops_err(assets, chunks, batches, b, ops, n, m - 1, now);
        assert(ops.subrange(0, m).drop_last() =~= ops.subrange(0, m - 1));
    }
}

/// Applies one operation of a commit of batch `b`.
pub fn apply_op(
    assets: &mut Vec<Asset>,
    chunks: &mut Vec<Chunk>,
    batches: &Vec<Batch>,
    b: u64,
    op: &BatchOperation,
    now: u64,
) -> (r: Result<(), AssetError>)
    ensures
        match step_spec(assets_view(old(assets)@), chunks_view(old(chunks)@), batches@, b, op@, now) {
            Ok((a, c)) => r is Ok && assets_view(final(assets)@) == a && chunks_view(final(chunks)@)
                == c,
            Err(e) => r == Err::<(), AssetError>(e),
        },
{
    match op {
        BatchOperation::CreateAsset(arg) => create_asset_in(
            assets,
            arg.key.clone(),
            arg.content_type.clone(),
            arg.default_doc,
        ),
        BatchOperation::SetAssetContent(arg) => set_content_in(
            assets,
            chunks,
            batches,
            &arg.key,
            arg.content_encoding.clone(),
            &arg.chunk_ids,
            &arg.sha256,
            Some(b),
            now,
        ),
        BatchOperation::UnsetAssetContent(arg) => unset_content_in(
            assets,
            &arg.key,
            &arg.content_encoding,
        ),
        BatchOperation::DeleteAsset(arg) => {
            delete_asset_in(assets, &arg.key);
            Ok(())
        },
    }
}

/// Gives the asset at position `ai` the content type `content_type`.
pub fn set_content_type(assets: &mut Vec<Asset>, ai: usize, content_type: String)
    requires
        ai < old(assets)@.len(),
    ensures
        assets_view(final(assets)@) == assets_view(old(assets)@).update(
            ai as int,
            AssetView { content_type: content_type@, ..assets_view(old(assets)@)[ai as int] },
        ),
{
    let ghost prev = assets@;
    let mut a = assets.remove(ai);
    let ghost before = a;
    a.content_type = content_type;
    assets.insert(ai, a);
    proof {
        let nv = AssetView { content_type: content_type@, ..before@ };
        assert(a@.encodings =~= nv.encodings);
        assert(a@ == nv);
        assert(assets_view(assets@) =~= assets_view(prev).update(ai as int, nv));
    }
}

} // verus!
