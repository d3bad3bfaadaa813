use vstd::prelude::*;

use crate::digest::{bytes_eq, concat_chunks, flatten, sha256};
use crate::wellformed::lemma_store_keeps;
use crate::model::{
    asset_pos, chosen_encoding, encoding_bytes, encoding_pos, identity_name,
    lemma_first_index, lemma_first_index_none, lookup_encoding, new_encoding, put_encoding, store_spec,
};
use crate::state::{
    assets_view, copy_bytes, encodings_view, find_asset, find_encoding, install_encoding,
    set_content_type,
};
use crate::store::{State, StoreView};
use crate::types::{
    opt_bytes, Asset, AssetDetails, AssetEncoding, AssetEncodingDetails, AssetError, AssetView,
    EncodedAsset, EncodingView, StoreArg,
};

verus! {

pub open spec fn strings_view(v: Seq<String>) -> Seq<Seq<char>> {
    v.map_values(|s: String| s@)
}

/// `x` describes encoding `e` of asset `a` and carries its first chunk.
pub open spec fn encoded_matches(x: EncodedAsset, a: AssetView, e: EncodingView) -> bool {
    &&& x.content@ == (if e.chunks.len() > 0 {
        e.chunks[0]
    } else {
        Seq::<u8>::empty()
    })
    &&& x.content_type@ == a.content_type
    &&& x.content_encoding@ == e.name
    &&& x.total_length as nat == e.total_length
    &&& opt_bytes(x.sha256) == Some(e.sha256)
}

/// `d` lists asset `a` with the length, digest and time of each encoding.
pub open spec fn details_match(d: AssetDetails, a: AssetView) -> bool {
    &&& d.key@ == a.key
    &&& d.content_type@ == a.content_type
    &&& d.is_default_doc == a.is_default_doc
    &&& d.encodings@.len() == a.encodings.len()
    &&& forall|j: int|
        0 <= j < a.encodings.len() ==> {
            let x = #[trigger] d.encodings@[j];
            &&& x.content_encoding@ == a.encodings[j].name
            &&& opt_bytes(x.sha256) == Some(a.encodings[j].sha256)
            &&& x.length as nat == a.encodings[j].total_length
            &&& x.modified == a.encodings[j].modified
        }
}

/// The string "identity".
pub fn identity_string() -> (r: String)
    ensures
        r@ == identity_name(),
{
    let r = "identity".to_owned();
    proof {
        reveal_strlit("identity");
    }
    assert(r@ =~= identity_name());
    r
}

impl State {
    /// Sets one encoding of an asset from bytes given whole, creating the asset
    /// if needed; a supplied digest must match the bytes.
    pub fn store(&mut self, arg: StoreArg, now: u64) -> (r: Result<(), AssetError>)
        requires
            old(self).wf(),
        ensures
            final(self).wf(),
            match store_spec(
                old(self)@.assets,
                arg.key@,
                arg.content_type@,
                arg.content_encoding@,
                arg.content@,
                opt_bytes(arg.sha256),
                now,
            ) {
                Ok(a) => r is Ok && final(self)@ == (StoreView { assets: a, ..old(self)@ }),
                Err(e) => r == Err::<(), AssetError>(e) && final(self)@ == old(self)@,
            },
    {
        proof {
            lemma_store_keeps(
                self@.assets,
                arg.key@,
                arg.content_type@,
                arg.content_encoding@,
                arg.content@,
                opt_bytes(arg.sha256),
                now,
            );
        }
        let hash = sha256(arg.content.as_slice());
        proof {
            let one = seq![arg.content@];
            assert(one.drop_last() =~= Seq::<Seq<u8>>::empty());
            assert(flatten(Seq::<Seq<u8>>::empty()) =~= Seq::<u8>::empty());
            assert(flatten(one) =~= arg.content@);
        }
        if let Some(exp) = &arg.sha256 {
            if !bytes_eq(exp.as_slice(), hash.as_slice()) {
                return Err(AssetError::HashMismatch);
            }
        }
        let len = arg.content.len();
        let mut chunks: Vec<Vec<u8>> = Vec::new();
        assert(arg.content.deep_view() =~= arg.content@);
        chunks.push(arg.content);
        assert(chunks.deep_view() =~= seq![arg.content@]);
        let enc = AssetEncoding {
            content_encoding: arg.content_encoding,
            content_chunks: chunks,
            total_length: len,
            sha256: hash,
            modified: now,
        };
        assert(enc@ == new_encoding(arg.content_encoding@, seq![arg.content@], now));
        match find_asset(&self.assets, &arg.key) {
            Some(i) => {
                let ghost a0 = self@.assets;
                let ghost ev = enc@;
                install_encoding(&mut self.assets, i, enc);
                let ghost a1 = self@.assets;
                set_content_type(&mut self.assets, i, arg.content_type);
                proof {
                    let target = AssetView {
                        content_type: arg.content_type@,
                        encodings: put_encoding(a0[i as int].encodings, ev),
                        ..a0[i as int]
                    };
                    assert(a1[i as int].encodings == target.encodings);
                    assert(self@.assets =~= a0.update(i as int, target));
                }
            },
            None => {
                let ghost ev = enc@;
                let mut encodings: Vec<AssetEncoding> = Vec::new();
                encodings.push(enc);
                let a = Asset {
                    key: arg.key,
                    content_type: arg.content_type,
                    is_default_doc: false,
                    encodings,
                };
                let ghost prev = self.assets@;
                self.assets.push(a);
                proof {
                    assert(a@.encodings =~= seq![ev]);
                    assert(assets_view(self.assets@) =~= assets_view(prev).push(a@));
                }
            },
        }
        Ok(())
    }

    /// The bytes of the "identity" encoding of the asset under `key`.
    pub fn retrieve(&self, key: &String) -> (r: Result<Vec<u8>, AssetError>)
        ensures
            match lookup_encoding(self@.assets, key@, identity_name()) {
                None => r == Err::<Vec<u8>, AssetError>(AssetError::NotFound),
                Some(e) => r is Ok && r->Ok_0@ == encoding_bytes(e),
            },
    {
        let i = match find_asset(&self.assets, key) {
            None => return Err(AssetError::NotFound),
            Some(i) => i,
        };
        let name = identity_string();
        let a = &self.assets[i];
        assert(self@.assets[i as int].encodings =~= encodings_view(a.encodings@));
        match find_encoding(&a.encodings, &name) {
            None => Err(AssetError::NotFound),
            Some(j) => {
                let out = concat_chunks(&a.encodings[j].content_chunks);
                Ok(out)
            },
        }
    }

    /// The first encoding of `accept_encodings` that the asset offers, described
    /// with its first chunk.
    pub fn get(&self, key: &String, accept_encodings: &Vec<String>) -> (r: Result<
        EncodedAsset,
        AssetError,
    >)
        ensures
            match asset_pos(self@.assets, key@) {
                None => r == Err::<EncodedAsset, AssetError>(AssetError::NotFound),
                Some(i) => match chosen_encoding(
                    self@.assets[i].encodings,
                    strings_view(accept_encodings@),
                ) {
                    None => r == Err::<EncodedAsset, AssetError>(AssetError::NotFound),
                    Some(j) => r is Ok && encoded_matches(
                        r->Ok_0,
                        self@.assets[i],
                        self@.assets[i].encodings[j],
                    ),
                },
            },
    {
        let i = match find_asset(&self.assets, key) {
            None => return Err(AssetError::NotFound),
            Some(i) => i,
        };
        let a = &self.assets[i];
        let ghost encs = self@.assets[i as int].encodings;
        assert(encs =~= encodings_view(a.encodings@));
        let ghost accept = strings_view(accept_encodings@);
        let ghost p = |n: Seq<char>| encoding_pos(encs, n) is Some;
        let mut k: usize = 0;
        while k < accept_encodings.len()
            invariant
                k <= accept_encodings@.len(),
                i < self.assets@.len(),
                *a == self.assets@[i as int],
                encs == self@.assets[i as int].encodings,
                asset_pos(self@.assets, key@) == Some(i as int),
                accept == strings_view(accept_encodings@),
                encs == encodings_view(a.encodings@),
                p == (|n: Seq<char>| encoding_pos(encs, n) is Some),
                forall|m: int| 0 <= m < k ==> !p(accept[m]),
            decreases accept_encodings@.len() - k,
        {
            if let Some(j) = find_encoding(&a.encodings, &accept_encodings[k]) {
                proof {
                    assert(accept[k as int] == accept_encodings@[k as int]@);
                    lemma_first_index(accept, p, k as int);
                    assert(chosen_encoding(encs, accept) == Some(j as int));
                }
                let e = &a.encodings[j];
                let content = if e.content_chunks.len() > 0 {
                    copy_bytes(&e.content_chunks[0])
                } else {
                    Vec::new()
                };
                assert(content@ =~= (if encs[j as int].chunks.len() > 0 {
                    encs[j as int].chunks[0]
                } else {
                    Seq::<u8>::empty()
                }));
                let x = EncodedAsset {
                    content,
                    content_type: a.content_type.clone(),
                    content_encoding: e.content_encoding.clone(),
                    total_length: e.total_length,
                    sha256: Some(copy_bytes(&e.sha256)),
                };
                assert(encs[j as int] == e@);
                assert(encoded_matches(x, self@.assets[i as int], encs[j as int]));
                return Ok(x);
            }
            k = k + 1;
        }
        proof {
            lemma_first_index_none(accept, p);
        }
        Err(AssetError::NotFound)
    }

    /// One chunk of an encoding. A supplied digest must equal the encoding's.
    pub fn get_chunk(
        &self,
        key: &String,
        content_encoding: &String,
        index: usize,
        sha256: &Option<Vec<u8>>,
    ) -> (r: Result<Vec<u8>, AssetError>)
        ensures
            match lookup_encoding(self@.assets, key@, content_encoding@) {
                None => r == Err::<Vec<u8>, AssetError>(AssetError::NotFound),
                Some(e) => if opt_bytes(*sha256) is Some && opt_bytes(*sha256)->0 != e.sha256 {
                    r == Err::<Vec<u8>, AssetError>(AssetError::HashMismatch)
                } else if index >= e.chunks.len() {
                    r == Err::<Vec<u8>, AssetError>(AssetError::NotFound)
                } else {
                    r is Ok && r->Ok_0@ == e.chunks[index as int]
                },
            },
    {
        let i = match find_asset(&self.assets, key) {
            None => return Err(AssetError::NotFound),
            Some(i) => i,
        };
        let a = &self.assets[i];
        assert(self@.assets[i as int].encodings =~= encodings_view(a.encodings@));
        let j = match find_encoding(&a.encodings, content_encoding) {
            None => return Err(AssetError::NotFound),
            Some(j) => j,
        };
        let e = &a.encodings[j];
        if let Some(exp) = sha256 {
            if !bytes_eq(exp.as_slice(), e.sha256.as_slice()) {
                return Err(AssetError::HashMismatch);
            }
        }
        if index >= e.content_chunks.len() {
            return Err(AssetError::NotFound);
        }
        let out = copy_bytes(&e.content_chunks[index]);
        assert(out@ =~= e.content_chunks.deep_view()[index as int]);
        Ok(out)
    }

    /// Every asset, in the order they were created, with its encodings.
    pub fn list_assets(&self) -> (r: Vec<AssetDetails>)
        ensures
            r@.len() == self@.assets.len(),
            forall|i: int| 0 <= i < r@.len() ==> details_match(#[trigger] r@[i], self@.assets[i]),
            self.wf() ==> forall|i: int, j: int|
                0 <= i < j < r@.len() ==> (#[trigger] r@[i]).key@ != (#[trigger] r@[j]).key@,
    {
        let mut out: Vec<AssetDetails> = Vec::new();
        let mut i: usize = 0;
        while i < self.assets.len()
            invariant
                i <= self.assets@.len(),
                out@.len() == i,
                forall|m: int| 0 <= m < i ==> details_match(#[trigger] out@[m], self@.assets[m]),
            decreases self.assets@.len() - i,
        {
            let a = &self.assets[i];
            let ghost av = self@.assets[i as int];
            assert(av.encodings =~= encodings_view(a.encodings@));
            let mut encs: Vec<AssetEncodingDetails> = Vec::new();
            let mut j: usize = 0;
            while j < a.encodings.len()
                invariant
                    j <= a.encodings@.len(),
                    encs@.len() == j,
                    av.encodings == encodings_view(a.encodings@),
                    av == self@.assets[i as int],
                    *a == self.assets@[i as int],
                    forall|m: int|
                        0 <= m < j ==> {
                            let x = #[trigger] encs@[m];
                            &&& x.content_encoding@ == av.encodings[m].name
                            &&& opt_bytes(x.sha256) == Some(av.encodings[m].sha256)
                            &&& x.length as nat == av.encodings[m].total_length
                            &&& x.modified == av.encodings[m].modified
                        },
                decreases a.encodings@.len() - j,
            {
                let e = &a.encodings[j];
                encs.push(
                    AssetEncodingDetails {
                        content_encoding: e.content_encoding.clone(),
                        sha256: Some(copy_bytes(&e.sha256)),
                        length: e.total_length,
                        modified: e.modified,
                    },
                );
                j = j + 1;
            }
            out.push(
                AssetDetails {
                    key: a.key.clone(),
                    content_type: a.content_type.clone(),
                    is_default_doc: a.is_default_doc,
                    encodings: encs,
                },
            );
            i = i + 1;
        }
        proof {
            if self.wf() {
                assert forall|a: int, b: int| 0 <= a < b < out@.len() implies (#[trigger] out@[a]).key@
                    != (#[trigger] out@[b]).key@ by {
                    assert(details_match(out@[a], self@.assets[a]));
                    assert(details_match(out@[b], self@.assets[b]));
                    assert(self@.assets[a].key != self@.assets[b].key);
                }
            }
        }
        out
    }
}

} // verus!
