use vstd::prelude::*;

use crate::digest::{flatten, sha256_of};
use crate::model::{
    asset_pos, chunk_contents, create_asset_spec, drop_encoding, encoding_pos,
    first_index, is_first, lemma_first_index, new_encoding, put_encoding, run_ops,
    set_content_spec, step_spec, store_spec,
};
use crate::store::{commit_spec, StoreView};
use crate::types::{AssetView, Batch, ChunkView, EncodingView, OpView};

verus! {

/// An encoding whose length and digest are those of its bytes.
pub open spec fn encoding_wf(e: EncodingView) -> bool {
    &&& e.total_length == flatten(e.chunks).len()
    &&& e.sha256 == sha256_of(flatten(e.chunks))
}

/// An asset whose encodings are well formed and have distinct names.
pub open spec fn asset_wf(a: AssetView) -> bool {
    &&& forall|j: int| 0 <= j < a.encodings.len() ==> encoding_wf(#[trigger] a.encodings[j])
    &&& forall|j: int, k: int|
        0 <= j < k < a.encodings.len() ==> (#[trigger] a.encodings[j]).name
            != (#[trigger] a.encodings[k]).name
}

pub open spec fn assets_wf(assets: Seq<AssetView>) -> bool {
    forall|i: int| 0 <= i < assets.len() ==> asset_wf(#[trigger] assets[i])
}

proof fn lemma_put_encoding_wf(a: AssetView, e: EncodingView)
    requires
        asset_wf(a),
        encoding_wf(e),
    ensures
        asset_wf(AssetView { encodings: put_encoding(a.encodings, e), ..a }),
{
    let p = |x: EncodingView| x.name == e.name;
    if !(exists|i: int| is_first(a.encodings, p, i)) {
        assert forall|j: int| 0 <= j < a.encodings.len() implies a.encodings[j].name != e.name by {
            if a.encodings[j].name == e.name {
                lemma_first_exists(a.encodings, p, j);
            }
        }
    }
}

pub proof fn lemma_first_exists<T>(s: Seq<T>, p: spec_fn(T) -> bool, j: int)
    requires
        0 <= j < s.len(),
        p(s[j]),
    ensures
        first_index(s, p) is Some,
    decreases j,
{
    if exists|q: int| 0 <= q < j && p(s[q]) {
        let q = choose|q: int| 0 <= q < j && p(s[q]);
        lemma_first_exists(s, p, q);
    } else {
        lemma_first_index(s, p, j);
    }
}

proof fn lemma_drop_encoding_wf(a: AssetView, name: Seq<char>)
    requires
        asset_wf(a),
    ensures
        asset_wf(AssetView { encodings: drop_encoding(a.encodings, name), ..a }),
{
    let r = AssetView { encodings: drop_encoding(a.encodings, name), ..a };
    if let Some(i) = encoding_pos(a.encodings, name) {
        assert forall|j: int, k: int|
            0 <= j < k < r.encodings.len() implies (#[trigger] r.encodings[j]).name
                != (#[trigger] r.encodings[k]).name by {
            let jj = if j < i {
                j
            } else {
                j + 1
            };
            let kk = if k < i {
                k
            } else {
                k + 1
            };
            assert(r.encodings[j] == a.encodings[jj]);
            assert(r.encodings[k] == a.encodings[kk]);
        }
        assert forall|j: int| 0 <= j < r.encodings.len() implies encoding_wf(
            #[trigger] r.encodings[j],
        ) by {
            if j < i {
                assert(r.encodings[j] == a.encodings[j]);
            } else {
                assert(r.encodings[j] == a.encodings[j + 1]);
            }
        }
    }
}

proof fn lemma_update_wf(assets: Seq<AssetView>, i: int, a: AssetView)
    requires
        assets_wf(assets),
        0 <= i < assets.len(),
        asset_wf(a),
    ensures
        assets_wf(assets.update(i, a)),
{
    assert forall|k: int| 0 <= k < assets.update(i, a).len() implies asset_wf(
        #[trigger] assets.update(i, a)[k],
    ) by {
        if k != i {
            assert(assets.update(i, a)[k] == assets[k]);
        }
    }
}

proof fn lemma_step_keeps_assets_wf(
    assets: Seq<AssetView>,
    chunks: Seq<ChunkView>,
    batches: Seq<Batch>,
    b: u64,
    op: OpView,
    now: u64,
)
    requires
        assets_wf(assets),
    ensures
        step_spec(assets, chunks, batches, b, op, now) matches Ok((a, c)) ==> assets_wf(a),
{
    match op {
        OpView::CreateAsset { key, content_type, default_doc } => {
            if create_asset_spec(assets, key, content_type, default_doc) is Ok && asset_pos(
                assets,
                key,
            ) is None {
                let n = AssetView {
                    key,
                    content_type,
                    is_default_doc: default_doc,
                    encodings: Seq::empty(),
                };
                assert forall|k: int| 0 <= k < assets.push(n).len() implies asset_wf(
                    #[trigger] assets.push(n)[k],
                ) by {
                    if k < assets.len() {
                        assert(assets.push(n)[k] == assets[k]);
                    }
                }
            }
        },
        OpView::SetContent { key, encoding, chunk_ids, sha256 } => {
            if let Ok((a, c)) = set_content_spec(
                assets,
                chunks,
                batches,
                key,
                encoding,
                chunk_ids,
                sha256,
                Some(b),
                now,
            ) {
                let ai = asset_pos(assets, key)->0;
                let e = new_encoding(encoding, chunk_contents(chunks, chunk_ids), now);
                lemma_put_encoding_wf(assets[ai], e);
                lemma_update_wf(
                    assets,
                    ai,
                    AssetView { encodings: put_encoding(assets[ai].encodings, e), ..assets[ai] },
                );
            }
        },
        OpView::Unset { key, encoding } => {
            if let Some(i) = asset_pos(assets, key) {
                lemma_drop_encoding_wf(assets[i], encoding);
                lemma_update_wf(
                    assets,
                    i,
                    AssetView { encodings: drop_encoding(assets[i].encodings, encoding), ..assets[i] },
                );
            }
        },
        OpView::Delete { key } => {
            if let Some(i) = asset_pos(assets, key) {
                assert forall|k: int| 0 <= k < assets.remove(i).len() implies asset_wf(
                    #[trigger] assets.remove(i)[k],
                ) by {
                    if k < i {
                        assert(assets.remove(i)[k] == assets[k]);
                    } else {
                        assert(assets.remove(i)[k] == assets[k + 1]);
                    }
                }
            }
        },
    }
}


proof fn lemma_run_ops_keeps_assets_wf(
    assets: Seq<AssetView>,
    chunks: Seq<ChunkView>,
    batches: Seq<Batch>,
    b: u64,
    ops: Seq<OpView>,
    now: u64,
)
    requires
        assets_wf(assets),
    ensures
        run_ops(assets, chunks, batches, b, ops, now) matches Ok((a, c)) ==> assets_wf(a),
    decreases ops.len(),
{
    if ops.len() > 0 {
        lemma_run_ops_keeps_assets_wf(assets, chunks, batches, b, ops.drop_last(), now);
        if let Ok((a, c)) = run_ops(assets, chunks, batches, b, ops.drop_last(), now) {
            lemma_step_keeps_assets_wf(a, c, batches, b, ops.last(), now);
        }
    }
}

proof fn lemma_store_keeps_assets_wf(
    assets: Seq<AssetView>,
    key: Seq<char>,
    content_type: Seq<char>,
    name: Seq<char>,
    content: Seq<u8>,
    sha256: Option<Seq<u8>>,
    now: u64,
)
    requires
        assets_wf(assets),
    ensures
        store_spec(assets, key, content_type, name, content, sha256, now) matches Ok(a)
            ==> assets_wf(a),
{
    let e = new_encoding(name, seq![content], now);
    if store_spec(assets, key, content_type, name, content, sha256, now) is Ok {
        match asset_pos(assets, key) {
            Some(i) => {
                lemma_put_encoding_wf(assets[i], e);
                let x = AssetView {
                    content_type,
                    encodings: put_encoding(assets[i].encodings, e),
                    ..assets[i]
                };
                let y = AssetView { encodings: put_encoding(assets[i].encodings, e), ..assets[i] };
                assert(x.encodings == y.encodings);
                assert(asset_wf(x));
                lemma_update_wf(assets, i, x);
            },
            None => {
                let n = AssetView { key, content_type, is_default_doc: false, encodings: seq![e] };
                assert(asset_wf(n));
                assert forall|k: int| 0 <= k < assets.push(n).len() implies asset_wf(
                    #[trigger] assets.push(n)[k],
                ) by {
                    if k < assets.len() {
                        assert(assets.push(n)[k] == assets[k]);
                    }
                }
            },
        }
    }
}

/// No two assets share a key.
pub open spec fn keys_unique(assets: Seq<AssetView>) -> bool {
    forall|i: int, j: int|
        0 <= i < j < assets.len() ==> (#[trigger] assets[i]).key != (#[trigger] assets[j]).key
}

/// Chunk ids are distinct and below `bound`.
pub open spec fn chunk_ids_ok(chunks: Seq<ChunkView>, bound: u64) -> bool {
    &&& forall|i: int| 0 <= i < chunks.len() ==> (#[trigger] chunks[i]).id < bound
    &&& forall|i: int, j: int|
        0 <= i < j < chunks.len() ==> (#[trigger] chunks[i]).id != (#[trigger] chunks[j]).id
}

/// Batch ids are distinct and below `bound`.
pub open spec fn batch_ids_ok(batches: Seq<Batch>, bound: u64) -> bool {
    &&& forall|i: int| 0 <= i < batches.len() ==> (#[trigger] batches[i]).id < bound
    &&& forall|i: int, j: int|
        0 <= i < j < batches.len() ==> (#[trigger] batches[i]).id != (#[trigger] batches[j]).id
}

/// The invariant of a store: well-formed assets under distinct keys, and batch
/// and chunk ids that are distinct and below the next ids to be handed out.
pub open spec fn store_wf(s: StoreView) -> bool {
    &&& assets_wf(s.assets)
    &&& keys_unique(s.assets)
    &&& batch_ids_ok(s.batches, s.next_batch_id)
    &&& chunk_ids_ok(s.chunks, s.next_chunk_id)
}

/// Filtering keeps elements of the sequence and keeps them distinct under `f`.
pub proof fn lemma_filter_distinct<T>(s: Seq<T>, p: spec_fn(T) -> bool, f: spec_fn(T) -> u64)
    requires
        forall|i: int, j: int| 0 <= i < j < s.len() ==> f(#[trigger] s[i]) != f(#[trigger] s[j]),
    ensures
        forall|i: int, j: int|
            0 <= i < j < s.filter(p).len() ==> f(#[trigger] s.filter(p)[i]) != f(
                #[trigger] s.filter(p)[j],
            ),
        forall|i: int| 0 <= i < s.filter(p).len() ==> s.contains(#[trigger] s.filter(p)[i]),
    decreases s.len(),
{
    reveal(Seq::filter);
    if s.len() > 0 {
        let d = s.drop_last();
        assert forall|i: int, j: int| 0 <= i < j < d.len() implies f(#[trigger] d[i]) != f(
            #[trigger] d[j],
        ) by {
            assert(d[i] == s[i] && d[j] == s[j]);
        }
        lemma_filter_distinct(d, p, f);
        let t = d.filter(p);
        assert forall|i: int| 0 <= i < t.len() implies s.contains(#[trigger] t[i]) by {
            let k = choose|k: int| 0 <= k < d.len() && d[k] == t[i];
            assert(s[k] == t[i]);
        }
        if p(s.last()) {
            let u = t.push(s.last());
            assert(s.filter(p) == u);
            assert forall|i: int, j: int| 0 <= i < j < u.len() implies f(#[trigger] u[i]) != f(
                #[trigger] u[j],
            ) by {
                if j == t.len() {
                    let k = choose|k: int| 0 <= k < d.len() && d[k] == t[i];
                    assert(u[i] == s[k]);
                    assert(u[j] == s[s.len() - 1]);
                } else {
                    assert(u[i] == t[i] && u[j] == t[j]);
                }
            }
            assert forall|i: int| 0 <= i < u.len() implies s.contains(#[trigger] u[i]) by {
                if i < t.len() {
                    assert(u[i] == t[i]);
                } else {
                    assert(u[i] == s[s.len() - 1]);
                }
            }
        }
    }
}

pub proof fn lemma_chunks_filter_ok(chunks: Seq<ChunkView>, p: spec_fn(ChunkView) -> bool, bound: u64)
    requires
        chunk_ids_ok(chunks, bound),
    ensures
        chunk_ids_ok(chunks.filter(p), bound),
{
    let f = |c: ChunkView| c.id;
    lemma_filter_distinct(chunks, p, f);
    let t = chunks.filter(p);
    assert forall|i: int| 0 <= i < t.len() implies (#[trigger] t[i]).id < bound by {
        assert(chunks.contains(t[i]));
        let k = choose|k: int| 0 <= k < chunks.len() && chunks[k] == t[i];
    }
    assert forall|i: int, j: int| 0 <= i < j < t.len() implies (#[trigger] t[i]).id != (
    #[trigger] t[j]).id by {
        assert(f(t[i]) != f(t[j]));
    }
}

pub proof fn lemma_batches_filter_ok(batches: Seq<Batch>, p: spec_fn(Batch) -> bool, bound: u64)
    requires
        batch_ids_ok(batches, bound),
    ensures
        batch_ids_ok(batches.filter(p), bound),
{
    let f = |b: Batch| b.id;
    lemma_filter_distinct(batches, p, f);
    let t = batches.filter(p);
    assert forall|i: int| 0 <= i < t.len() implies (#[trigger] t[i]).id < bound by {
        assert(batches.contains(t[i]));
        let k = choose|k: int| 0 <= k < batches.len() && batches[k] == t[i];
    }
    assert forall|i: int, j: int| 0 <= i < j < t.len() implies (#[trigger] t[i]).id != (
    #[trigger] t[j]).id by {
        assert(f(t[i]) != f(t[j]));
    }
}

proof fn lemma_keys_update(assets: Seq<AssetView>, i: int, x: AssetView)
    requires
        keys_unique(assets),
        0 <= i < assets.len(),
        x.key == assets[i].key,
    ensures
        keys_unique(assets.update(i, x)),
{
    let u = assets.update(i, x);
    assert forall|a: int, b: int| 0 <= a < b < u.len() implies (#[trigger] u[a]).key != (
    #[trigger] u[b]).key by {
        assert(u[a].key == assets[a].key && u[b].key == assets[b].key);
    }
}

proof fn lemma_keys_push(assets: Seq<AssetView>, n: AssetView)
    requires
        keys_unique(assets),
        asset_pos(assets, n.key) is None,
    ensures
        keys_unique(assets.push(n)),
{
    let p = |a: AssetView| a.key == n.key;
    let u = assets.push(n);
    assert forall|a: int, b: int| 0 <= a < b < u.len() implies (#[trigger] u[a]).key != (
    #[trigger] u[b]).key by {
        if b == assets.len() {
            assert(u[a] == assets[a]);
            if p(assets[a]) {
                lemma_first_exists(assets, p, a);
            }
        } else {
            assert(u[a] == assets[a] && u[b] == assets[b]);
        }
    }
}

proof fn lemma_keys_remove(assets: Seq<AssetView>, i: int)
    requires
        keys_unique(assets),
        0 <= i < assets.len(),
    ensures
        keys_unique(assets.remove(i)),
{
    let u = assets.remove(i);
    assert forall|a: int, b: int| 0 <= a < b < u.len() implies (#[trigger] u[a]).key != (
    #[trigger] u[b]).key by {
        let aa = if a < i {
            a
        } else {
            a + 1
        };
        let bb = if b < i {
            b
        } else {
            b + 1
        };
        assert(u[a] == assets[aa] && u[b] == assets[bb]);
    }
}

/// Setting content from chunks keeps assets well formed under distinct keys,
/// and the remaining chunk ids distinct and below `bound`.
pub proof fn lemma_set_content_keeps(
    assets: Seq<AssetView>,
    chunks: Seq<ChunkView>,
    batches: Seq<Batch>,
    key: Seq<char>,
    name: Seq<char>,
    ids: Seq<u64>,
    sha256: Option<Seq<u8>>,
    owner: Option<u64>,
    now: u64,
    bound: u64,
)
    requires
        assets_wf(assets),
        keys_unique(assets),
        chunk_ids_ok(chunks, bound),
    ensures
        set_content_spec(assets, chunks, batches, key, name, ids, sha256, owner, now) matches Ok(
            (a, c),
        ) ==> assets_wf(a) && keys_unique(a) && chunk_ids_ok(c, bound),
{
    if set_content_spec(assets, chunks, batches, key, name, ids, sha256, owner, now) is Ok {
        let ai = asset_pos(assets, key)->0;
        let e = new_encoding(name, chunk_contents(chunks, ids), now);
        let x = AssetView { encodings: put_encoding(assets[ai].encodings, e), ..assets[ai] };
        lemma_put_encoding_wf(assets[ai], e);
        lemma_update_wf(assets, ai, x);
        lemma_keys_update(assets, ai, x);
        lemma_chunks_filter_ok(chunks, |c: ChunkView| !ids.contains(c.id), bound);
    }
}

/// Every operation of a commit keeps assets well formed under distinct keys,
/// and chunk ids distinct and below `bound`.
pub proof fn lemma_step_keeps(
    assets: Seq<AssetView>,
    chunks: Seq<ChunkView>,
    batches: Seq<Batch>,
    b: u64,
    op: OpView,
    now: u64,
    bound: u64,
)
    requires
        assets_wf(assets),
        keys_unique(assets),
        chunk_ids_ok(chunks, bound),
    ensures
        step_spec(assets, chunks, batches, b, op, now) matches Ok((a, c)) ==> assets_wf(a)
            && keys_unique(a) && chunk_ids_ok(c, bound),
{
    lemma_step_keeps_assets_wf(assets, chunks, batches, b, op, now);
    match op {
        OpView::CreateAsset { key, content_type, default_doc } => {
            if asset_pos(assets, key) is None {
                lemma_keys_push(
                    assets,
                    AssetView { key, content_type, is_default_doc: default_doc, encodings: Seq::empty() },
                );
            }
        },
        OpView::SetContent { key, encoding, chunk_ids, sha256 } => {
            lemma_set_content_keeps(
                assets,
                chunks,
                batches,
                key,
                encoding,
                chunk_ids,
                sha256,
                Some(b),
                now,
                bound,
            );
        },
        OpView::Unset { key, encoding } => {
            if let Some(i) = asset_pos(assets, key) {
                lemma_keys_update(
                    assets,
                    i,
                    AssetView { encodings: drop_encoding(assets[i].encodings, encoding), ..assets[i] },
                );
            }
        },
        OpView::Delete { key } => {
            if let Some(i) = asset_pos(assets, key) {
                lemma_keys_remove(assets, i);
            }
        },
    }
}

proof fn lemma_run_ops_keeps(
    assets: Seq<AssetView>,
    chunks: Seq<ChunkView>,
    batches: Seq<Batch>,
    b: u64,
    ops: Seq<OpView>,
    now: u64,
    bound: u64,
)
    requires
        assets_wf(assets),
        keys_unique(assets),
        chunk_ids_ok(chunks, bound),
    ensures
        run_ops(assets, chunks, batches, b, ops, now) matches Ok((a, c)) ==> assets_wf(a)
            && keys_unique(a) && chunk_ids_ok(c, bound),
    decreases ops.len(),
{
    if ops.len() > 0 {
        lemma_run_ops_keeps(assets, chunks, batches, b, ops.drop_last(), now, bound);
        if let Ok((a, c)) = run_ops(assets, chunks, batches, b, ops.drop_last(), now) {
            lemma_step_keeps(a, c, batches, b, ops.last(), now, bound);
        }
    }
}

/// A commit keeps the store invariant.
pub proof fn lemma_commit_keeps_wf(s: StoreView, b: u64, ops: Seq<OpView>, now: u64)
    requires
        store_wf(s),
    ensures
        commit_spec(s, b, ops, now) matches Ok(n) ==> store_wf(n),
{
    lemma_run_ops_keeps(s.assets, s.chunks, s.batches, b, ops, now, s.next_chunk_id);
    if let Ok((a, c)) = run_ops(s.assets, s.chunks, s.batches, b, ops, now) {
        lemma_chunks_filter_ok(c, |x: ChunkView| x.batch_id != b, s.next_chunk_id);
        if let Some(bi) = crate::model::batch_pos(s.batches, b) {
            let r = s.batches.remove(bi);
            assert forall|i: int, j: int| 0 <= i < j < r.len() implies (#[trigger] r[i]).id != (
            #[trigger] r[j]).id by {
                let ii = if i < bi {
                    i
                } else {
                    i + 1
                };
                let jj = if j < bi {
                    j
                } else {
                    j + 1
                };
                assert(r[i] == s.batches[ii] && r[j] == s.batches[jj]);
            }
            assert forall|i: int| 0 <= i < r.len() implies (#[trigger] r[i]).id < s.next_batch_id by {
                if i < bi {
                    assert(r[i] == s.batches[i]);
                } else {
                    assert(r[i] == s.batches[i + 1]);
                }
            }
        }
    }
}

/// A single-request upload keeps assets well formed under distinct keys.
pub proof fn lemma_store_keeps(
    assets: Seq<AssetView>,
    key: Seq<char>,
    content_type: Seq<char>,
    name: Seq<char>,
    content: Seq<u8>,
    sha256: Option<Seq<u8>>,
    now: u64,
)
    requires
        assets_wf(assets),
        keys_unique(assets),
    ensures
        store_spec(assets, key, content_type, name, content, sha256, now) matches Ok(a)
            ==> assets_wf(a) && keys_unique(a),
{
    lemma_store_keeps_assets_wf(assets, key, content_type, name, content, sha256, now);
    if store_spec(assets, key, content_type, name, content, sha256, now) is Ok {
        let e = new_encoding(name, seq![content], now);
        match asset_pos(assets, key) {
            Some(i) => {
                lemma_keys_update(
                    assets,
                    i,
                    AssetView {
                        content_type,
                        encodings: put_encoding(assets[i].encodings, e),
                        ..assets[i]
                    },
                );
            },
            None => {
                lemma_keys_push(
                    assets,
                    AssetView { key, content_type, is_default_doc: false, encodings: seq![e] },
                );
            },
        }
    }
}

} // verus!
