use vstd::prelude::*;

use crate::digest::{flatten, sha256_of};
use crate::model::{
    asset_pos, batch_pos, chunk_contents, chunk_pos, delete_asset_spec, encoding_bytes,
    encoding_pos, expiry_from, id_error, ids_error, is_first, lemma_first_index,
    lemma_first_index_none, lookup_encoding, new_encoding, put_encoding, run_ops, step_spec,
    unset_content_spec, drop_encoding, chosen_encoding, set_content_spec, BATCH_EXPIRY_NANOS,
};
use crate::cert::{cert_pairs, root_of};
use crate::state::lemma_run_ops_err;
use crate::wellformed::{asset_wf, assets_wf, encoding_wf, keys_unique, lemma_first_exists};
use crate::store::{commit_spec, StoreView};
use crate::types::{AssetError, AssetView, Batch, ChunkView, EncodingView, OpView};

verus! {

proof fn lemma_run_single(
    assets: Seq<AssetView>,
    chunks: Seq<ChunkView>,
    batches: Seq<Batch>,
    b: u64,
    op: OpView,
    now: u64,
)
    ensures
        run_ops(assets, chunks, batches, b, seq![op], now) == step_spec(
            assets,
            chunks,
            batches,
            b,
            op,
            now,
        ),
{
    assert(seq![op].drop_last() =~= Seq::<OpView>::empty());
    assert(seq![op].last() == op);
    assert(run_ops(assets, chunks, batches, b, Seq::<OpView>::empty(), now) == Ok::<
        (Seq<AssetView>, Seq<ChunkView>),
        AssetError,
    >((assets, chunks)));
}

proof fn lemma_asset_pos_update(assets: Seq<AssetView>, i: int, key: Seq<char>, x: AssetView)
    requires
        asset_pos(assets, key) == Some(i),
        x.key == key,
    ensures
        asset_pos(assets.update(i, x), key) == Some(i),
{
    let p = |a: AssetView| a.key == key;
    let q = choose|q: int| is_first(assets, p, q);
    assert(is_first(assets, p, i));
    assert(is_first(assets.update(i, x), p, i));
    lemma_first_index(assets.update(i, x), p, i);
}

proof fn lemma_put_then_find(encs: Seq<EncodingView>, e: EncodingView)
    ensures
        encoding_pos(put_encoding(encs, e), e.name) matches Some(k) && put_encoding(encs, e)[k]
            == e,
{
    let p = |x: EncodingView| x.name == e.name;
    match encoding_pos(encs, e.name) {
        Some(i) => {
            let q = choose|q: int| is_first(encs, p, q);
            assert(is_first(encs.update(i, e), p, i));
            lemma_first_index(encs.update(i, e), p, i);
        },
        None => {
            assert forall|j: int| 0 <= j < encs.len() implies !p(encs[j]) by {
                if p(encs[j]) {
                    lemma_first_exists(encs, p, j);
                }
            }
            let n = encs.push(e);
            assert(is_first(n, p, encs.len() as int));
            lemma_first_index(n, p, encs.len() as int);
        },
    }
}

/// A commit whose operation sets an encoding from chunks gives that encoding the
/// payloads of those chunks, in the order given: its bytes are their
/// concatenation and its digest the digest of that concatenation.
pub proof fn lemma_commit_concatenates(
    s: StoreView,
    b: u64,
    key: Seq<char>,
    name: Seq<char>,
    ids: Seq<u64>,
    sha256: Option<Seq<u8>>,
    now: u64,
)
    requires
        commit_spec(
            s,
            b,
            seq![OpView::SetContent { key, encoding: name, chunk_ids: ids, sha256 }],
            now,
        ) is Ok,
    ensures
        commit_spec(
            s,
            b,
            seq![OpView::SetContent { key, encoding: name, chunk_ids: ids, sha256 }],
            now,
        ) matches Ok(n) && lookup_encoding(n.assets, key, name) == Some(
            new_encoding(name, chunk_contents(s.chunks, ids), now),
        ),
        encoding_bytes(new_encoding(name, chunk_contents(s.chunks, ids), now)) == flatten(
            chunk_contents(s.chunks, ids),
        ),
        new_encoding(name, chunk_contents(s.chunks, ids), now).sha256 == sha256_of(
            flatten(chunk_contents(s.chunks, ids)),
        ),
{
    let op = OpView::SetContent { key, encoding: name, chunk_ids: ids, sha256 };
    lemma_run_single(s.assets, s.chunks, s.batches, b, op, now);
    let ai = asset_pos(s.assets, key)->0;
    let e = new_encoding(name, chunk_contents(s.chunks, ids), now);
    let x = AssetView { encodings: put_encoding(s.assets[ai].encodings, e), ..s.assets[ai] };
    lemma_asset_pos_update(s.assets, ai, key, x);
    lemma_put_then_find(s.assets[ai].encodings, e);
}

/// After `get` has chosen an encoding of a well-formed store, its pages, read in
/// order by index, put together give as many bytes as the reported total length,
/// and their digest is the stored digest.
pub proof fn lemma_pages_reconstruct(assets: Seq<AssetView>, key: Seq<char>, name: Seq<char>)
    requires
        assets_wf(assets),
        lookup_encoding(assets, key, name) is Some,
    ensures
        ({
            let e = lookup_encoding(assets, key, name)->0;
            &&& flatten(e.chunks).len() == e.total_length
            &&& sha256_of(flatten(e.chunks)) == e.sha256
            &&& encoding_bytes(e) == flatten(e.chunks)
        }),
{
    let i = asset_pos(assets, key)->0;
    let j = encoding_pos(assets[i].encodings, name)->0;
    assert(asset_wf(assets[i]));
    assert(encoding_wf(assets[i].encodings[j]));
}

proof fn lemma_ids_ok_prefix(
    chunks: Seq<ChunkView>,
    batches: Seq<Batch>,
    ids: Seq<u64>,
    n: int,
    owner: Option<u64>,
    now: u64,
)
    requires
        0 <= n,
        forall|k: int| 0 <= k < n ==> id_error(chunks, batches, ids, k, owner, now) is None,
    ensures
        ids_error(chunks, batches, ids, n, owner, now) is None,
    decreases n,
{
    if n > 0 {
        lemma_ids_ok_prefix(chunks, batches, ids, n - 1, owner, now);
    }
}

proof fn lemma_ids_error_at(
    chunks: Seq<ChunkView>,
    batches: Seq<Batch>,
    ids: Seq<u64>,
    j: int,
    m: int,
    owner: Option<u64>,
    now: u64,
)
    requires
        0 <= j < m,
        forall|k: int| 0 <= k < j ==> id_error(chunks, batches, ids, k, owner, now) is None,
        id_error(chunks, batches, ids, j, owner, now) is Some,
    ensures
        ids_error(chunks, batches, ids, m, owner, now) == id_error(
            chunks,
            batches,
            ids,
            j,
            owner,
            now,
        ),
    decreases m - j,
{
    if m == j + 1 {
        lemma_ids_ok_prefix(chunks, batches, ids, j, owner, now);
    } else {
        lemma_ids_error_at(chunks, batches, ids, j, m - 1, owner, now);
    }
}

/// A commit whose operations, run in order, first go wrong on a chunk of another
/// batch is refused as not found, whatever the operations are; the store, and so
/// both batches, stay as they were.
pub proof fn lemma_foreign_chunk_refused(
    s: StoreView,
    b: u64,
    ops: Seq<OpView>,
    m: int,
    j: int,
    now: u64,
)
    requires
        batch_pos(s.batches, b) matches Some(bi) ==> s.batches[bi].expires_at > now,
        0 <= m < ops.len(),
        run_ops(s.assets, s.chunks, s.batches, b, ops.subrange(0, m), now) matches Ok((a, c))
            && ops[m] matches OpView::SetContent { key, encoding, chunk_ids, sha256 } && 0 <= j
            < chunk_ids.len() && (forall|k: int|
            0 <= k < j ==> id_error(c, s.batches, chunk_ids, k, Some(b), now) is None)
            && chunk_pos(c, chunk_ids[j]) is Some && c[chunk_pos(c, chunk_ids[j])->0].batch_id
            != b,
    ensures
        commit_spec(s, b, ops, now) == Err::<StoreView, AssetError>(AssetError::NotFound),
{
    let (a, c) = run_ops(s.assets, s.chunks, s.batches, b, ops.subrange(0, m), now)->Ok_0;
    if let OpView::SetContent { key, encoding, chunk_ids, sha256 } = ops[m] {
        assert(ops.subrange(0, m + 1).drop_last() =~= ops.subrange(0, m));
        assert(ops.subrange(0, m + 1).last() == ops[m]);
        assert(id_error(c, s.batches, chunk_ids, j, Some(b), now) == Some(AssetError::NotFound));
        lemma_ids_error_at(c, s.batches, chunk_ids, j, chunk_ids.len() as int, Some(b), now);
        assert(run_ops(s.assets, s.chunks, s.batches, b, ops.subrange(0, m + 1), now) == Err::<
            (Seq<AssetView>, Seq<ChunkView>),
            AssetError,
        >(AssetError::NotFound));
        lemma_run_ops_err(s.assets, s.chunks, s.batches, b, ops, m + 1, ops.len() as int, now);
        assert(ops.subrange(0, ops.len() as int) =~= ops);
    }
}

/// A commit of a batch whose time to live has passed since its last chunk was
/// created is refused as expired, whatever its operations; the store stays as it
/// was, and the batch with it.
pub proof fn lemma_expired_batch_refused(
    s: StoreView,
    b: u64,
    ops: Seq<OpView>,
    last_chunk_created: u64,
    now: u64,
)
    requires
        batch_pos(s.batches, b) is Some,
        s.batches[batch_pos(s.batches, b)->0].expires_at == expiry_from(last_chunk_created),
        now >= last_chunk_created as int + BATCH_EXPIRY_NANOS as int,
    ensures
        commit_spec(s, b, ops, now) == Err::<StoreView, AssetError>(AssetError::Expired),
{
}

/// Once an encoding is unset, looking it up fails, and every other encoding of
/// the asset is found as it was, digest included.
pub proof fn lemma_unset_removes_only_that(
    assets: Seq<AssetView>,
    key: Seq<char>,
    name: Seq<char>,
    other: Seq<char>,
)
    requires
        assets_wf(assets),
        unset_content_spec(assets, key, name) is Ok,
    ensures
        unset_content_spec(assets, key, name) matches Ok(a) && lookup_encoding(a, key, name) is None
            && (other != name ==> lookup_encoding(a, key, other) == lookup_encoding(
            assets,
            key,
            other,
        )),
{
    let i = asset_pos(assets, key)->0;
    let encs = assets[i].encodings;
    let d = drop_encoding(encs, name);
    let x = AssetView { encodings: d, ..assets[i] };
    lemma_asset_pos_update(assets, i, key, x);
    let pn = |e: EncodingView| e.name == name;
    let po = |e: EncodingView| e.name == other;
    assert(asset_wf(assets[i]));
    match encoding_pos(encs, name) {
        Some(m) => {
            let r = choose|r: int| is_first(encs, pn, r);
            assert(d == encs.remove(m));
            assert forall|k: int| 0 <= k < d.len() implies !pn(d[k]) by {
                if k < m {
                    assert(d[k] == encs[k]);
                } else {
                    assert(d[k] == encs[k + 1]);
                }
            }
            lemma_first_index_none(d, pn);
            if other != name {
                match encoding_pos(encs, other) {
                    Some(t) => {
                        let r2 = choose|r: int| is_first(encs, po, r);
                        let t2 = if t < m {
                            t
                        } else {
                            t - 1
                        };
                        assert(d[t2] == encs[t]);
                        assert forall|k: int| 0 <= k < t2 implies !po(d[k]) by {
                            if k < m {
                                assert(d[k] == encs[k]);
                            } else {
                                assert(d[k] == encs[k + 1]);
                            }
                        }
                        lemma_first_index(d, po, t2);
                    },
                    None => {
                        assert forall|k: int| 0 <= k < d.len() implies !po(d[k]) by {
                            let kk = if k < m {
                                k
                            } else {
                                k + 1
                            };
                            assert(d[k] == encs[kk]);
                            if po(encs[kk]) {
                                lemma_first_exists(encs, po, kk);
                            }
                        }
                        lemma_first_index_none(d, po);
                    },
                }
            }
        },
        None => {},
    }
}

/// The root digest depends only on the certified (key, encoding name, content
/// digest) triples: two stores that hold the same triples have the same root,
/// whatever operations led to them.
pub proof fn lemma_root_depends_only_on_content(a1: Seq<AssetView>, a2: Seq<AssetView>)
    requires
        cert_pairs(a1) == cert_pairs(a2),
    ensures
        root_of(a1) == root_of(a2),
{
}

/// In a store with distinct keys, a deleted key is gone.
pub proof fn lemma_delete_removes(assets: Seq<AssetView>, key: Seq<char>)
    requires
        keys_unique(assets),
    ensures
        asset_pos(delete_asset_spec(assets, key), key) is None,
{
    let p = |a: AssetView| a.key == key;
    if let Some(i) = asset_pos(assets, key) {
        let d = assets.remove(i);
        assert forall|k: int| 0 <= k < d.len() implies !p(d[k]) by {
            if k < i {
                assert(d[k] == assets[k]);
            } else {
                assert(d[k] == assets[k + 1]);
            }
        }
        lemma_first_index_none(d, p);
    }
}

/// A commit of a live batch whose operation sets an encoding of an existing
/// asset from distinct chunks of that batch, with no expected digest, succeeds:
/// the encoding holds the concatenation of their payloads in the order given,
/// with its length and digest.
pub proof fn lemma_commit_of_own_chunks_succeeds(
    s: StoreView,
    b: u64,
    key: Seq<char>,
    name: Seq<char>,
    ids: Seq<u64>,
    now: u64,
)
    requires
        batch_pos(s.batches, b) is Some,
        s.batches[batch_pos(s.batches, b)->0].expires_at > now,
        asset_pos(s.assets, key) is Some,
        forall|i: int, j: int| 0 <= i < j < ids.len() ==> ids[i] != ids[j],
        forall|k: int|
            0 <= k < ids.len() ==> (#[trigger] chunk_pos(s.chunks, ids[k])) is Some
                && s.chunks[chunk_pos(s.chunks, ids[k])->0].batch_id == b,
    ensures
        commit_spec(
            s,
            b,
            seq![OpView::SetContent { key, encoding: name, chunk_ids: ids, sha256: None }],
            now,
        ) matches Ok(n) && lookup_encoding(n.assets, key, name) == Some(
            new_encoding(name, chunk_contents(s.chunks, ids), now),
        ),
        flatten(chunk_contents(s.chunks, ids)).len() == new_encoding(
            name,
            chunk_contents(s.chunks, ids),
            now,
        ).total_length,
        new_encoding(name, chunk_contents(s.chunks, ids), now).sha256 == sha256_of(
            flatten(chunk_contents(s.chunks, ids)),
        ),
{
    assert forall|k: int| 0 <= k < ids.len() implies id_error(
        s.chunks,
        s.batches,
        ids,
        k,
        Some(b),
        now,
    ) is None by {
        assert(chunk_pos(s.chunks, ids[k]) is Some);
        if ids.subrange(0, k).contains(ids[k]) {
            let w = choose|w: int| 0 <= w < k && ids.subrange(0, k)[w] == ids[k];
            assert(ids[w] == ids[k]);
        }
    }
    lemma_ids_ok_prefix(s.chunks, s.batches, ids, ids.len() as int, Some(b), now);
    let op = OpView::SetContent { key, encoding: name, chunk_ids: ids, sha256: None };
    lemma_run_single(s.assets, s.chunks, s.batches, b, op, now);
    lemma_commit_concatenates(s, b, key, name, ids, None, now);
}

/// After an encoding is unset, `get` asking for that encoding alone finds
/// nothing to serve, and asking for another one chooses what it chose before.
pub proof fn lemma_unset_then_get(
    assets: Seq<AssetView>,
    key: Seq<char>,
    name: Seq<char>,
    other: Seq<char>,
)
    requires
        assets_wf(assets),
        unset_content_spec(assets, key, name) is Ok,
    ensures
        unset_content_spec(assets, key, name) matches Ok(a) && asset_pos(a, key) == asset_pos(
            assets,
            key,
        ) && chosen_encoding(a[asset_pos(a, key)->0].encodings, seq![name]) is None && (other
            != name ==> lookup_encoding(a, key, other) == lookup_encoding(assets, key, other)),
{
    lemma_unset_removes_only_that(assets, key, name, other);
    let i = asset_pos(assets, key)->0;
    let a = unset_content_spec(assets, key, name)->Ok_0;
    let x = AssetView { encodings: drop_encoding(assets[i].encodings, name), ..assets[i] };
    lemma_asset_pos_update(assets, i, key, x);
    let encs = a[i].encodings;
    let p = |n: Seq<char>| encoding_pos(encs, n) is Some;
    let one = seq![name];
    assert(encoding_pos(encs, name) is None);
    assert forall|k: int| 0 <= k < one.len() implies !p(one[k]) by {
        assert(one[k] == name);
    }
    lemma_first_index_none(one, p);
}

/// Setting an encoding that an asset lacks and then unsetting it gives back the
/// assets exactly as they were, and so the same root digest.
pub proof fn lemma_set_then_unset_restores(
    assets: Seq<AssetView>,
    chunks: Seq<ChunkView>,
    batches: Seq<Batch>,
    key: Seq<char>,
    name: Seq<char>,
    ids: Seq<u64>,
    sha256: Option<Seq<u8>>,
    owner: Option<u64>,
    now: u64,
)
    requires
        asset_pos(assets, key) is Some,
        encoding_pos(assets[asset_pos(assets, key)->0].encodings, name) is None,
        set_content_spec(assets, chunks, batches, key, name, ids, sha256, owner, now) is Ok,
    ensures
        set_content_spec(assets, chunks, batches, key, name, ids, sha256, owner, now) matches Ok(
            (a, c),
        ) && unset_content_spec(a, key, name) == Ok::<Seq<AssetView>, AssetError>(assets)
            && root_of(unset_content_spec(a, key, name)->Ok_0) == root_of(assets),
{
    let i = asset_pos(assets, key)->0;
    let encs = assets[i].encodings;
    let e = new_encoding(name, chunk_contents(chunks, ids), now);
    let pushed = encs.push(e);
    let x = AssetView { encodings: pushed, ..assets[i] };
    assert(put_encoding(encs, e) == pushed);
    let a = assets.update(i, x);
    lemma_asset_pos_update(assets, i, key, x);
    let pn = |v: EncodingView| v.name == name;
    assert forall|k: int| 0 <= k < encs.len() implies !pn(pushed[k]) by {
        assert(pushed[k] == encs[k]);
        if pn(encs[k]) {
            lemma_first_exists(encs, pn, k);
        }
    }
    assert(is_first(pushed, pn, encs.len() as int));
    lemma_first_index(pushed, pn, encs.len() as int);
    assert(pushed.remove(encs.len() as int) =~= encs);
    let back = AssetView { encodings: encs, ..x };
    assert(back == assets[i]);
    assert(a.update(i, back) =~= assets);
}

} // verus!
