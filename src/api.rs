use vstd::prelude::*;

use crate::cert::{canonical, leaf_set};
use crate::order::sorted_strict;
use crate::http::{
    http_response_ok, streaming_response_ok, HttpRequest, HttpResponse,
    StreamingCallbackHttpResponse, StreamingCallbackToken,
};
use crate::wellformed::store_wf;
use crate::model::{
    asset_pos, delete_asset_spec, encoding_bytes, encoding_pos, identity_name,
    lemma_first_index, lemma_first_index_none, lookup_encoding, store_spec,
};
use crate::read::{details_match, identity_string, strings_view};
use crate::state::{assets_view, chunks_view};
use crate::store::{identities_view, State, StoreView};
use crate::types::{
    opt_bytes, Asset, AssetDetails, AssetError, Batch, Chunk, DeleteAssetArguments, StoreArg,
};

verus! {

/// The whole content of a store, handed over across a restart.
pub struct StableState {
    pub authorized: Vec<Vec<u8>>,
    pub stable_assets: Vec<Asset>,
    pub batches: Vec<Batch>,
    pub chunks: Vec<Chunk>,
    pub next_batch_id: u64,
    pub next_chunk_id: u64,
}

/// The store that a snapshot describes.
pub open spec fn stable_view(s: StableState) -> StoreView {
    StoreView {
        assets: assets_view(s.stable_assets@),
        batches: s.batches@,
        chunks: chunks_view(s.chunks@),
        next_batch_id: s.next_batch_id,
        next_chunk_id: s.next_chunk_id,
        authorized: identities_view(s.authorized@),
    }
}

/// A fresh store whose only authorized identity is `owner`.
pub fn init(owner: Vec<u8>) -> (r: State)
    ensures
        r.wf(),
        r@.assets.len() == 0,
        r@.batches.len() == 0,
        r@.chunks.len() == 0,
        r@.authorized == seq![owner@],
{
    State::new(owner)
}

/// Hands over the whole store: assets, open batches and their chunks, id
/// counters and authorized identities.
pub fn pre_upgrade(state: State) -> (r: StableState)
    ensures
        stable_view(r) == state@,
{
    StableState {
        authorized: state.authorized,
        stable_assets: state.assets,
        batches: state.batches,
        chunks: state.chunks,
        next_batch_id: state.next_batch_id,
        next_chunk_id: state.next_chunk_id,
    }
}

/// Rebuilds the store that `pre_upgrade` handed over.
pub fn post_upgrade(stable_state: StableState) -> (r: State)
    ensures
        r@ == stable_view(stable_state),
        store_wf(stable_view(stable_state)) ==> r.wf(),
{
    State {
        assets: stable_state.stable_assets,
        batches: stable_state.batches,
        chunks: stable_state.chunks,
        next_batch_id: stable_state.next_batch_id,
        next_chunk_id: stable_state.next_chunk_id,
        authorized: stable_state.authorized,
    }
}

/// Answers a GET-style request against `state`.
pub fn http_request_handle(state: &State, req: &HttpRequest, certificate: &Vec<u8>) -> (r:
    HttpResponse)
    ensures
        http_response_ok(state@.assets, req, &r),
        r.certificate@ == certificate@,
        r.witness.deep_view() == canonical(leaf_set(state@.assets)),
        sorted_strict(r.witness.deep_view()),
        r.witness.deep_view().to_set() == leaf_set(state@.assets),
{
    state.http_request(req, certificate)
}

/// Serves the chunk a streaming token points at.
pub fn http_request_streaming_callback_handle(
    state: &State,
    token: &StreamingCallbackToken,
) -> (r: Result<StreamingCallbackHttpResponse, AssetError>)
    ensures
        streaming_response_ok(state@.assets, token, &r),
{
    state.http_request_streaming_callback(token)
}

/// Chunk `index` of the "identity" encoding of an asset.
pub fn get_asset_chunk(state: &State, key: &String, index: usize) -> (r: Result<Vec<u8>, AssetError>)
    ensures
        match lookup_encoding(state@.assets, key@, identity_name()) {
            None => r == Err::<Vec<u8>, AssetError>(AssetError::NotFound),
            Some(e) => if index >= e.chunks.len() {
                r == Err::<Vec<u8>, AssetError>(AssetError::NotFound)
            } else {
                r is Ok && r->Ok_0@ == e.chunks[index as int]
            },
        },
{
    let name = identity_string();
    state.get_chunk(key, &name, index, &None)
}

/// All bytes of the "identity" encoding of an asset, read chunk by chunk.
pub fn get_asset(state: &State, asset_name: &String) -> (r: Result<Vec<u8>, AssetError>)
    ensures
        match lookup_encoding(state@.assets, asset_name@, identity_name()) {
            None => r == Err::<Vec<u8>, AssetError>(AssetError::NotFound),
            Some(e) => r is Ok && r->Ok_0@ == encoding_bytes(e),
        },
{
    state.retrieve(asset_name)
}

/// Uploads one encoding whole; see `State::store`.
pub fn store_asset(state: &mut State, arg: StoreArg, now: u64) -> (r: Result<(), AssetError>)
    requires
        old(state).wf(),
    ensures
        final(state).wf(),
        match store_spec(
            old(state)@.assets,
            arg.key@,
            arg.content_type@,
            arg.content_encoding@,
            arg.content@,
            opt_bytes(arg.sha256),
            now,
        ) {
            Ok(a) => r is Ok && final(state)@ == (StoreView { assets: a, ..old(state)@ }),
            Err(e) => r == Err::<(), AssetError>(e) && final(state)@ == old(state)@,
        },
{
    state.store(arg, now)
}

/// Removes an asset.
pub fn delete(state: &mut State, arg: DeleteAssetArguments)
    requires
        old(state).wf(),
    ensures
        final(state).wf(),
        final(state)@ == (StoreView {
            assets: delete_asset_spec(old(state)@.assets, arg.key@),
            ..old(state)@
        }),
{
    state.delete_asset(arg)
}

/// Every asset with its encodings, in creation order.
pub fn list_assets(state: &State) -> (r: Vec<AssetDetails>)
    ensures
        r@.len() == state@.assets.len(),
        forall|i: int| 0 <= i < r@.len() ==> details_match(#[trigger] r@[i], state@.assets[i]),
{
    state.list_assets()
}

/// Whether the asset has an "identity" encoding.
pub fn asset_exists(state: &State, asset_name: &String) -> (r: bool)
    ensures
        r == lookup_encoding(state@.assets, asset_name@, identity_name()) is Some,
{
    let mut accept: Vec<String> = Vec::new();
    accept.push(identity_string());
    let r = state.get(asset_name, &accept);
    proof {
        let names = strings_view(accept@);
        assert(names =~= seq![identity_name()]);
        if let Some(i) = asset_pos(state@.assets, asset_name@) {
            let encs = state@.assets[i].encodings;
            let p = |n: Seq<char>| encoding_pos(encs, n) is Some;
            if encoding_pos(encs, identity_name()) is Some {
                lemma_first_index(names, p, 0);
            } else {
                lemma_first_index_none(names, p);
            }
        }
    }
    r.is_ok()
}

} // verus!
