use vstd::prelude::*;

use crate::digest::bytes_eq;
use crate::wellformed::{
    lemma_batches_filter_ok, lemma_chunks_filter_ok, lemma_commit_keeps_wf,
    lemma_set_content_keeps, lemma_step_keeps, store_wf,
};
use crate::model::{
    batch_pos, chunks_outside, create_asset_spec, delete_asset_spec, expiry_from, run_ops,
    set_content_spec, unset_content_spec, BATCH_EXPIRY_NANOS,
};
use crate::state::{
    apply_op, assets_view, chunks_view, copy_assets, copy_bytes, copy_chunks, create_asset_in,
    delete_asset_in, find_batch, lemma_run_ops_err, ops_view, remove_batch_chunks,
    set_content_in, unset_content_in,
};
use crate::types::{
    OpView, opt_bytes, Asset, AssetError, AssetView, Batch, BatchOperation, Chunk, ChunkView,
    CreateAssetArguments, DeleteAssetArguments, SetAssetContentArguments,
    UnsetAssetContentArguments,
};

verus! {

/// Everything the store holds.
pub struct State {
    pub assets: Vec<Asset>,
    pub batches: Vec<Batch>,
    pub chunks: Vec<Chunk>,
    pub next_batch_id: u64,
    pub next_chunk_id: u64,
    pub authorized: Vec<Vec<u8>>,
}

pub struct StoreView {
    pub assets: Seq<AssetView>,
    pub batches: Seq<Batch>,
    pub chunks: Seq<ChunkView>,
    pub next_batch_id: u64,
    pub next_chunk_id: u64,
    pub authorized: Seq<Seq<u8>>,
}

pub open spec fn identities_view(v: Seq<Vec<u8>>) -> Seq<Seq<u8>> {
    v.map_values(|p: Vec<u8>| p@)
}

impl View for State {
    type V = StoreView;

    open spec fn view(&self) -> StoreView {
        StoreView {
            assets: assets_view(self.assets@),
            batches: self.batches@,
            chunks: chunks_view(self.chunks@),
            next_batch_id: self.next_batch_id,
            next_chunk_id: self.next_chunk_id,
            authorized: identities_view(self.authorized@),
        }
    }
}

/// A commit of batch `b`: an unknown batch is not found, an expired one is
/// refused; otherwise all operations apply, or the store stays as it was.
pub open spec fn commit_spec(s: StoreView, b: u64, ops: Seq<OpView>, now: u64) -> Result<
    StoreView,
    AssetError,
> {
    match batch_pos(s.batches, b) {
        None => Err(AssetError::NotFound),
        Some(bi) => if s.batches[bi].expires_at <= now {
            Err(AssetError::Expired)
        } else {
            match run_ops(s.assets, s.chunks, s.batches, b, ops, now) {
            Ok((a, c)) => Ok(
                StoreView {
                    assets: a,
                    chunks: chunks_outside(c, b),
                    batches: s.batches.remove(bi),
                    ..s
                },
            ),
            Err(e) => Err(e),
        }
        },
    }
}

/// Batches still usable at `now`.
pub open spec fn live_batches(batches: Seq<Batch>, now: u64) -> Seq<Batch> {
    batches.filter(|b: Batch| b.expires_at > now)
}

/// Chunks whose batch is among `batches`.
pub open spec fn owned_chunks(chunks: Seq<ChunkView>, batches: Seq<Batch>) -> Seq<ChunkView> {
    chunks.filter(|c: ChunkView| batch_pos(batches, c.batch_id) is Some)
}

/// Whether `p` occurs in `list`.
fn contains_identity(list: &Vec<Vec<u8>>, p: &Vec<u8>) -> (r: bool)
    ensures
        r == identities_view(list@).contains(p@),
{
    let mut i: usize = 0;
    while i < list.len()
        invariant
            i <= list@.len(),
            forall|j: int| 0 <= j < i ==> identities_view(list@)[j] != p@,
        decreases list@.len() - i,
    {
        if bytes_eq(list[i].as_slice(), p.as_slice()) {
            assert(identities_view(list@)[i as int] == p@);
            return true;
        }
        i = i + 1;
    }
    false
}

impl State {
    /// The store invariant over the current content.
    pub open spec fn wf(&self) -> bool {
        store_wf(self@)
    }

    /// An empty store whose only authorized identity is `owner`.
    pub fn new(owner: Vec<u8>) -> (r: State)
        ensures
            r.wf(),
            r@.assets.len() == 0,
            r@.batches.len() == 0,
            r@.chunks.len() == 0,
            r@.authorized == seq![owner@],
            r@.next_batch_id == 1,
            r@.next_chunk_id == 1,
    {
        let mut authorized: Vec<Vec<u8>> = Vec::new();
        authorized.push(owner);
        let r = State {
            assets: Vec::new(),
            batches: Vec::new(),
            chunks: Vec::new(),
            next_batch_id: 1,
            next_chunk_id: 1,
            authorized,
        };
        assert(r@.authorized =~= seq![owner@]);
        assert(r@.assets =~= Seq::<AssetView>::empty());
        assert(r@.chunks =~= Seq::<ChunkView>::empty());
        r
    }

    /// Whether `p` may mutate the store.
    pub fn is_authorized(&self, p: &Vec<u8>) -> (r: bool)
        ensures
            r == self@.authorized.contains(p@),
    {
        contains_identity(&self.authorized, p)
    }

    /// Adds `other` to the authorized identities, without asking who calls.
    pub fn authorize_unconditionally(&mut self, other: Vec<u8>)
        requires
            old(self).wf(),
        ensures
            final(self).wf(),
            final(self)@ == (StoreView {
                authorized: if old(self)@.authorized.contains(other@) {
                    old(self)@.authorized
                } else {
                    old(self)@.authorized.push(other@)
                },
                ..old(self)@
            }),
    {
        if !contains_identity(&self.authorized, &other) {
            let ghost prev = self.authorized@;
            self.authorized.push(other);
            assert(identities_view(self.authorized@) =~= identities_view(prev).push(other@));
        }
    }

    /// Lets `caller`, if authorized, authorize `other` as well.
    pub fn authorize(&mut self, caller: &Vec<u8>, other: Vec<u8>) -> (r: Result<(), AssetError>)
        requires
            old(self).wf(),
        ensures
            final(self).wf(),
            old(self)@.authorized.contains(caller@) ==> r is Ok && final(self)@ == (StoreView {
                authorized: if old(self)@.authorized.contains(other@) {
                    old(self)@.authorized
                } else {
                    old(self)@.authorized.push(other@)
                },
                ..old(self)@
            }),
            !old(self)@.authorized.contains(caller@) ==> r == Err::<(), AssetError>(
                AssetError::Unauthorized,
            ) && final(self)@ == old(self)@,
    {
        if !self.is_authorized(caller) {
            return Err(AssetError::Unauthorized);
        }
        self.authorize_unconditionally(other);
        Ok(())
    }

    /// Opens a new batch that expires a fixed time after `now`, after dropping the
    /// batches that have expired and their chunks.
    pub fn create_batch(&mut self, now: u64) -> (r: u64)
        requires
            old(self).wf(),
            old(self)@.next_batch_id < u64::MAX,
        ensures
            final(self).wf(),
            forall|i: int| 0 <= i < old(self)@.batches.len() ==> old(self)@.batches[i].id < r,
            r == old(self)@.next_batch_id,
            final(self)@ == (StoreView {
                batches: live_batches(old(self)@.batches, now).push(
                    Batch { id: r, expires_at: expiry_from(now) },
                ),
                chunks: owned_chunks(old(self)@.chunks, live_batches(old(self)@.batches, now)),
                next_batch_id: (r + 1) as u64,
                ..old(self)@
            }),
    {
        let ghost p = |b: Batch| b.expires_at > now;
        let mut live: Vec<Batch> = Vec::new();
        let mut i: usize = 0;
        while i < self.batches.len()
            invariant
                i <= self.batches@.len(),
                p == (|b: Batch| b.expires_at > now),
                live@ == self.batches@.subrange(0, i as int).filter(p),
            decreases self.batches@.len() - i,
        {
            let b = self.batches[i];
            proof {
                assert(self.batches@.subrange(0, i + 1).drop_last() =~= self.batches@.subrange(
                    0,
                    i as int,
                ));
                assert(self.batches@.subrange(0, i + 1).last() == b);
                reveal(Seq::filter);
            }
            if b.expires_at > now {
                live.push(b);
            }
            i = i + 1;
        }
        assert(self.batches@.subrange(0, i as int) =~= self.batches@);
        let ghost cv = chunks_view(self.chunks@);
        let ghost q = |c: ChunkView| batch_pos(live@, c.batch_id) is Some;
        let mut kept: Vec<Chunk> = Vec::new();
        let mut k: usize = 0;
        while k < self.chunks.len()
            invariant
                k <= self.chunks@.len(),
                cv == chunks_view(self.chunks@),
                q == (|c: ChunkView| batch_pos(live@, c.batch_id) is Some),
                chunks_view(kept@) == cv.subrange(0, k as int).filter(q),
            decreases self.chunks@.len() - k,
        {
            let c = &self.chunks[k];
            proof {
                assert(cv.subrange(0, k + 1).drop_last() =~= cv.subrange(0, k as int));
                assert(cv.subrange(0, k + 1).last() == c@);
                reveal(Seq::filter);
            }
            if find_batch(&live, c.batch_id).is_some() {
                let d = Chunk { id: c.id, batch_id: c.batch_id, content: copy_bytes(&c.content) };
                let ghost prev = kept@;
                kept.push(d);
                assert(chunks_view(kept@) =~= chunks_view(prev).push(d@));
            }
            k = k + 1;
        }
        assert(cv.subrange(0, k as int) =~= cv);
        let id = self.next_batch_id;
        let expires_at = if now > u64::MAX - BATCH_EXPIRY_NANOS {
            u64::MAX
        } else {
            now + BATCH_EXPIRY_NANOS
        };
        proof {
            lemma_batches_filter_ok(old(self)@.batches, p, id);
            lemma_chunks_filter_ok(cv, q, self.next_chunk_id);
        }
        live.push(Batch { id, expires_at });
        self.batches = live;
        self.chunks = kept;
        self.next_batch_id = id + 1;
        id
    }

    /// Stores `content` as a new chunk of batch `batch_id` and extends the batch's
    /// expiry from `now`; an unknown or expired batch is not found.
    pub fn create_chunk(&mut self, batch_id: u64, content: Vec<u8>, now: u64) -> (r: Result<
        u64,
        AssetError,
    >)
        requires
            old(self).wf(),
            old(self)@.next_chunk_id < u64::MAX,
        ensures
            final(self).wf(),
            r is Ok ==> forall|i: int|
                0 <= i < old(self)@.chunks.len() ==> old(self)@.chunks[i].id < r->Ok_0,
            match batch_pos(old(self)@.batches, batch_id) {
                Some(bi) if old(self)@.batches[bi].expires_at > now => r == Ok::<u64, AssetError>(
                    old(self)@.next_chunk_id,
                ) && final(self)@ == (StoreView {
                    batches: old(self)@.batches.update(
                        bi,
                        Batch { id: batch_id, expires_at: expiry_from(now) },
                    ),
                    chunks: old(self)@.chunks.push(
                        ChunkView { id: old(self)@.next_chunk_id, batch_id, content: content@ },
                    ),
                    next_chunk_id: (old(self)@.next_chunk_id + 1) as u64,
                    ..old(self)@
                }),
                _ => r == Err::<u64, AssetError>(AssetError::NotFound) && final(self)@ == old(
                    self,
                )@,
            },
    {
        let bi = match find_batch(&self.batches, batch_id) {
            None => return Err(AssetError::NotFound),
            Some(bi) => bi,
        };
        if self.batches[bi].expires_at <= now {
            return Err(AssetError::NotFound);
        }
        let expires_at = if now > u64::MAX - BATCH_EXPIRY_NANOS {
            u64::MAX
        } else {
            now + BATCH_EXPIRY_NANOS
        };
        self.batches.set(bi, Batch { id: batch_id, expires_at });
        let id = self.next_chunk_id;
        let c = Chunk { id, batch_id, content };
        let ghost prev = self.chunks@;
        self.chunks.push(c);
        assert(chunks_view(self.chunks@) =~= chunks_view(prev).push(c@));
        self.next_chunk_id = id + 1;
        proof {
            let nb = self@.batches;
            assert forall|i: int, j: int| 0 <= i < j < nb.len() implies (#[trigger] nb[i]).id != (
            #[trigger] nb[j]).id by {
                assert(nb[i].id == old(self)@.batches[i].id);
                assert(nb[j].id == old(self)@.batches[j].id);
            }
            assert forall|i: int| 0 <= i < nb.len() implies (#[trigger] nb[i]).id
                < self.next_batch_id by {
                assert(nb[i].id == old(self)@.batches[i].id);
            }
        }
        Ok(id)
    }

    /// Creates an asset without content; an asset of the same key and content type
    /// is accepted as it is, one with another content type is refused.
    pub fn create_asset(&mut self, arg: CreateAssetArguments) -> (r: Result<(), AssetError>)
        requires
            old(self).wf(),
        ensures
            final(self).wf(),
            match create_asset_spec(old(self)@.assets, arg.key@, arg.content_type@, arg.default_doc) {
                Ok(a) => r is Ok && final(self)@ == (StoreView { assets: a, ..old(self)@ }),
                Err(e) => r == Err::<(), AssetError>(e) && final(self)@ == old(self)@,
            },
    {
        proof {
            lemma_step_keeps(
                self@.assets,
                self@.chunks,
                self@.batches,
                0,
                OpView::CreateAsset {
                    key: arg.key@,
                    content_type: arg.content_type@,
                    default_doc: arg.default_doc,
                },
                0,
                self@.next_chunk_id,
            );
        }
        create_asset_in(&mut self.assets, arg.key, arg.content_type, arg.default_doc)
    }

    /// Sets one encoding of an asset from uploaded chunks, which are used up.
    pub fn set_asset_content(&mut self, arg: SetAssetContentArguments, now: u64) -> (r: Result<
        (),
        AssetError,
    >)
        requires
            old(self).wf(),
        ensures
            final(self).wf(),
            match set_content_spec(
                old(self)@.assets,
                old(self)@.chunks,
                old(self)@.batches,
                arg.key@,
                arg.content_encoding@,
                arg.chunk_ids@,
                opt_bytes(arg.sha256),
                None,
                now,
            ) {
                Ok((a, c)) => r is Ok && final(self)@ == (StoreView {
                    assets: a,
                    chunks: c,
                    ..old(self)@
                }),
                Err(e) => r == Err::<(), AssetError>(e) && final(self)@ == old(self)@,
            },
    {
        proof {
            lemma_set_content_keeps(
                self@.assets,
                self@.chunks,
                self@.batches,
                arg.key@,
                arg.content_encoding@,
                arg.chunk_ids@,
                opt_bytes(arg.sha256),
                None,
                now,
                self@.next_chunk_id,
            );
        }
        set_content_in(
            &mut self.assets,
            &mut self.chunks,
            &self.batches,
            &arg.key,
            arg.content_encoding,
            &arg.chunk_ids,
            &arg.sha256,
            None,
            now,
        )
    }

    /// Removes one encoding of an asset; the asset stays, perhaps without content.
    pub fn unset_asset_content(&mut self, arg: UnsetAssetContentArguments) -> (r: Result<
        (),
        AssetError,
    >)
        requires
            old(self).wf(),
        ensures
            final(self).wf(),
            match unset_content_spec(old(self)@.assets, arg.key@, arg.content_encoding@) {
                Ok(a) => r is Ok && final(self)@ == (StoreView { assets: a, ..old(self)@ }),
                Err(e) => r == Err::<(), AssetError>(e) && final(self)@ == old(self)@,
            },
    {
        proof {
            lemma_step_keeps(
                self@.assets,
                self@.chunks,
                self@.batches,
                0,
                OpView::Unset { key: arg.key@, encoding: arg.content_encoding@ },
                0,
                self@.next_chunk_id,
            );
        }
        unset_content_in(&mut self.assets, &arg.key, &arg.content_encoding)
    }

    /// Removes an asset with all its encodings.
    pub fn delete_asset(&mut self, arg: DeleteAssetArguments)
        requires
            old(self).wf(),
        ensures
            final(self).wf(),
            final(self)@ == (StoreView {
                assets: delete_asset_spec(old(self)@.assets, arg.key@),
                ..old(self)@
            }),
    {
        proof {
            lemma_step_keeps(
                self@.assets,
                self@.chunks,
                self@.batches,
                0,
                OpView::Delete { key: arg.key@ },
                0,
                self@.next_chunk_id,
            );
        }
        delete_asset_in(&mut self.assets, &arg.key)
    }

    /// Removes every asset, batch and chunk; the authorized identities stay.
    pub fn clear(&mut self)
        requires
            old(self).wf(),
        ensures
            final(self).wf(),
            final(self)@ == (StoreView {
                assets: Seq::empty(),
                batches: Seq::empty(),
                chunks: Seq::empty(),
                ..old(self)@
            }),
    {
        self.assets = Vec::new();
        self.batches = Vec::new();
        self.chunks = Vec::new();
        assert(self@.assets =~= Seq::<AssetView>::empty());
        assert(self@.chunks =~= Seq::<ChunkView>::empty());
        assert(self@.batches =~= Seq::<Batch>::empty());
    }

    /// Applies the operations in order, all or none. On success the batch and the
    /// chunks it still owns are released.
    pub fn commit_batch(&mut self, batch_id: u64, operations: Vec<BatchOperation>, now: u64) -> (r:
        Result<(), AssetError>)
        requires
            old(self).wf(),
        ensures
            final(self).wf(),
            match commit_spec(old(self)@, batch_id, ops_view(operations@), now) {
                Ok(v) => r is Ok && final(self)@ == v,
                Err(e) => r == Err::<(), AssetError>(e) && final(self)@ == old(self)@,
            },
    {
        proof {
            lemma_commit_keeps_wf(self@, batch_id, ops_view(operations@), now);
        }
        let bi = match find_batch(&self.batches, batch_id) {
            None => return Err(AssetError::NotFound),
            Some(bi) => bi,
        };
        if self.batches[bi].expires_at <= now {
            return Err(AssetError::Expired);
        }
        let ghost a0 = self@.assets;
        let ghost c0 = self@.chunks;
        let ghost ov = ops_view(operations@);
        let mut work_assets = copy_assets(&self.assets);
        let mut work_chunks = copy_chunks(&self.chunks);
        let mut i: usize = 0;
        while i < operations.len()
            invariant
                i <= operations@.len(),
                ov == ops_view(operations@),
                a0 == self@.assets,
                c0 == self@.chunks,
                self@ == old(self)@,
                self.wf(),
                batch_pos(self@.batches, batch_id) == Some(bi as int),
                self@.batches[bi as int].expires_at > now,
                run_ops(a0, c0, self@.batches, batch_id, ov.subrange(0, i as int), now) == Ok::<
                    (Seq<AssetView>, Seq<ChunkView>),
                    AssetError,
                >((assets_view(work_assets@), chunks_view(work_chunks@))),
            decreases operations@.len() - i,
        {
            proof {
                assert(ov.subrange(0, i + 1).drop_last() =~= ov.subrange(0, i as int));
                assert(ov.subrange(0, i + 1).last() == operations@[i as int]@);
            }
            let res = apply_op(
                &mut work_assets,
                &mut work_chunks,
                &self.batches,
                batch_id,
                &operations[i],
                now,
            );
            if let Err(e) = res {
                proof {
                    lemma_run_ops_err(
                        a0,
                        c0,
                        self@.batches,
                        batch_id,
                        ov,
                        i + 1,
                        ov.len() as int,
                        now,
                    );
                    assert(ov.subrange(0, ov.len() as int) =~= ov);
                }
                return Err(e);
            }
            i = i + 1;
        }
        assert(ov.subrange(0, i as int) =~= ov);
        let rest = remove_batch_chunks(&work_chunks, batch_id);
        self.assets = work_assets;
        self.chunks = rest;
        let ghost b0 = self.batches@;
        self.batches.remove(bi);
        assert(self.batches@ == b0.remove(bi as int));
        assert(self@.assets == assets_view(work_assets@));
        Ok(())
    }
}

} // verus!
