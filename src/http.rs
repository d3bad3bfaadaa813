use vstd::prelude::*;
use vstd::utf8::encode_utf8;

use crate::cert::{canonical, leaf_set};
use crate::order::sorted_strict;
use crate::digest::bytes_eq;
use crate::model::{first_index, identity_name, lemma_first_index, lemma_first_index_none, lookup_encoding};
use crate::read::identity_string;
use crate::state::{copy_bytes, encodings_view, find_asset, find_encoding};
use crate::store::State;
use crate::types::{opt_bytes, Asset, AssetEncoding, AssetError, AssetView, EncodingView};
use crate::url_decode::{percent_decode, url_decode};

verus! {

/// A request in the style of HTTP GET.
pub struct HttpRequest {
    pub method: String,
    pub url: String,
    pub headers: Vec<(String, String)>,
    pub body: Vec<u8>,
}

/// Where to resume reading an encoding that did not fit one response.
pub struct StreamingCallbackToken {
    pub key: String,
    pub content_encoding: String,
    pub index: usize,
    pub sha256: Option<Vec<u8>>,
}

pub struct HttpResponse {
    pub status_code: u16,
    pub headers: Vec<(String, String)>,
    pub body: Vec<u8>,
    pub streaming_token: Option<StreamingCallbackToken>,
    /// The certification leaves, in increasing order, valid against the root.
    pub witness: Vec<Vec<u8>>,
    /// The host's certificate over the published root, passed through.
    pub certificate: Vec<u8>,
}

pub struct StreamingCallbackHttpResponse {
    pub body: Vec<u8>,
    pub token: Option<StreamingCallbackToken>,
}

pub open spec fn headers_view(h: Seq<(String, String)>) -> Seq<(Seq<u8>, Seq<u8>)> {
    h.map_values(|p: (String, String)| (encode_utf8(p.0@), encode_utf8(p.1@)))
}

/// The bytes of "accept-encoding".
pub open spec fn accept_encoding_name() -> Seq<u8> {
    seq![97u8, 99, 99, 101, 112, 116, 45, 101, 110, 99, 111, 100, 105, 110, 103]
}

pub open spec fn ascii_lower(b: u8) -> u8 {
    if 0x41 <= b <= 0x5a {
        (b + 32) as u8
    } else {
        b
    }
}

/// A header name that reads "accept-encoding" in any letter case.
pub open spec fn is_accept_encoding(name: Seq<u8>) -> bool {
    &&& name.len() == accept_encoding_name().len()
    &&& forall|i: int| 0 <= i < name.len() ==> ascii_lower(name[i]) == accept_encoding_name()[i]
}

/// The comma-separated names of `v` from position `i`, spaces left out, `cur`
/// being the part of the current name already read.
pub open spec fn tokens_from(v: Seq<u8>, i: int, cur: Seq<u8>) -> Seq<Seq<u8>>
    decreases v.len() - i,
{
    if i >= v.len() {
        seq![cur]
    } else if v[i] == 0x2cu8 {
        seq![cur] + tokens_from(v, i + 1, Seq::empty())
    } else if v[i] == 0x20u8 {
        tokens_from(v, i + 1, cur)
    } else {
        tokens_from(v, i + 1, cur.push(v[i]))
    }
}

/// The encodings a client accepts, in its order of preference, from its headers.
pub open spec fn accept_list(headers: Seq<(Seq<u8>, Seq<u8>)>) -> Seq<Seq<u8>>
    decreases headers.len(),
{
    if headers.len() == 0 {
        Seq::empty()
    } else {
        accept_list(headers.drop_last()) + if is_accept_encoding(headers.last().0) {
            tokens_from(headers.last().1, 0, Seq::empty())
        } else {
            Seq::empty()
        }
    }
}

/// The part of a URL before its query string.
pub open spec fn path_of(url: Seq<u8>) -> Seq<u8> {
    match first_index(url, |b: u8| b == 0x3fu8) {
        Some(i) => url.take(i),
        None => url,
    }
}

/// `p` is a prefix of `k`.
pub open spec fn is_prefix(p: Seq<u8>, k: Seq<u8>) -> bool {
    p.len() <= k.len() && k.subrange(0, p.len() as int) == p
}

/// The first asset flagged as default document whose key starts with `dir`.
pub open spec fn default_doc_pos(assets: Seq<AssetView>, dir: Seq<u8>) -> Option<int> {
    first_index(assets, |a: AssetView| a.is_default_doc && is_prefix(dir, encode_utf8(a.key)))
}

pub open spec fn asset_pos_bytes(assets: Seq<AssetView>, key: Seq<u8>) -> Option<int> {
    first_index(assets, |a: AssetView| encode_utf8(a.key) == key)
}

pub open spec fn encoding_pos_bytes(encs: Seq<EncodingView>, name: Seq<u8>) -> Option<int> {
    first_index(encs, |e: EncodingView| encode_utf8(e.name) == name)
}

/// The first accepted name that the encodings offer.
pub open spec fn chosen_encoding_bytes(encs: Seq<EncodingView>, accept: Seq<Seq<u8>>) -> Option<int> {
    match first_index(accept, |n: Seq<u8>| encoding_pos_bytes(encs, n) is Some) {
        Some(k) => encoding_pos_bytes(encs, accept[k]),
        None => None,
    }
}

/// The asset a decoded path asks for: the one under that key; failing that,
/// for a path that ends in `/`, the default document under that path.
pub open spec fn requested_asset(assets: Seq<AssetView>, path: Seq<u8>) -> Option<int> {
    match asset_pos_bytes(assets, path) {
        Some(i) => Some(i),
        None => if path.len() > 0 && path.last() == 0x2fu8 {
            default_doc_pos(assets, path)
        } else {
            None
        },
    }
}

/// The token that follows chunk `index` of an encoding, if any chunk follows.
pub open spec fn next_token_matches(
    t: Option<StreamingCallbackToken>,
    key: Seq<char>,
    e: EncodingView,
    index: int,
) -> bool {
    if index + 1 < e.chunks.len() {
        t is Some && t->0.key@ == key && t->0.content_encoding@ == e.name && t->0.index == index + 1
            && opt_bytes(t->0.sha256) == Some(e.sha256)
    } else {
        t is None
    }
}

pub open spec fn content_type_name() -> Seq<char> {
    seq!['c', 'o', 'n', 't', 'e', 'n', 't', '-', 't', 'y', 'p', 'e']
}

pub open spec fn content_encoding_name() -> Seq<char> {
    seq!['c', 'o', 'n', 't', 'e', 'n', 't', '-', 'e', 'n', 'c', 'o', 'd', 'i', 'n', 'g']
}

/// The headers of a response that serves encoding `e` of asset `a`.
pub open spec fn response_headers(a: AssetView, e: EncodingView) -> Seq<(Seq<char>, Seq<char>)> {
    seq![(content_type_name(), a.content_type)] + if e.name == identity_name() {
        Seq::empty()
    } else {
        seq![(content_encoding_name(), e.name)]
    }
}

pub open spec fn string_pairs_view(h: Seq<(String, String)>) -> Seq<(Seq<char>, Seq<char>)> {
    h.map_values(|p: (String, String)| (p.0@, p.1@))
}

/// The first chunk of an encoding, empty if it has none.
pub open spec fn first_chunk(e: EncodingView) -> Seq<u8> {
    if e.chunks.len() > 0 {
        e.chunks[0]
    } else {
        Seq::empty()
    }
}

/// `r` is the answer to `req` over a store holding `assets`.
pub open spec fn http_response_ok(assets: Seq<AssetView>, req: &HttpRequest, r: &HttpResponse) -> bool {
    match percent_decode(path_of(encode_utf8(req.url@))) {
        None => r.status_code == 400 && r.streaming_token is None && r.body@ == bad_path_body(),
        Some(p) => match requested_asset(assets, p) {
            None => r.status_code == 404 && r.streaming_token is None && r.body@ == not_found_body(),
            Some(i) => match chosen_encoding_bytes(
                assets[i].encodings,
                accept_list(headers_view(req.headers@)) + seq![encode_utf8(identity_name())],
            ) {
                None => r.status_code == 404 && r.streaming_token is None && r.body@ == not_found_body(),
                Some(j) => {
                    &&& r.status_code == 200
                    &&& r.body@ == first_chunk(assets[i].encodings[j])
                    &&& string_pairs_view(r.headers@) == response_headers(
                        assets[i],
                        assets[i].encodings[j],
                    )
                    &&& next_token_matches(
                        r.streaming_token,
                        assets[i].key,
                        assets[i].encodings[j],
                        0,
                    )
                },
            },
        },
    }
}

/// `r` is the answer to `token` over a store holding `assets`.
pub open spec fn streaming_response_ok(
    assets: Seq<AssetView>,
    token: &StreamingCallbackToken,
    r: &Result<StreamingCallbackHttpResponse, AssetError>,
) -> bool {
    match lookup_encoding(assets, token.key@, token.content_encoding@) {
        None => r == Err::<StreamingCallbackHttpResponse, AssetError>(AssetError::NotFound),
        Some(e) => if opt_bytes(token.sha256) is Some && opt_bytes(token.sha256)->0
            != e.sha256 {
            r == Err::<StreamingCallbackHttpResponse, AssetError>(AssetError::StaleToken)
        } else if token.index >= e.chunks.len() {
            r == Err::<StreamingCallbackHttpResponse, AssetError>(AssetError::NotFound)
        } else {
            r is Ok && r->Ok_0.body@ == e.chunks[token.index as int] && next_token_matches(
                r->Ok_0.token,
                token.key@,
                e,
                token.index as int,
            )
        },
    }
}

fn lit_bytes(b: &[u8]) -> (r: Vec<u8>)
    ensures
        r@ == b@,
{
    let mut out: Vec<u8> = Vec::new();
    let mut i: usize = 0;
    while i < b.len()
        invariant
            i <= b@.len(),
            out@ =~= b@.subrange(0, i as int),
        decreases b@.len() - i,
    {
        out.push(b[i]);
        i = i + 1;
    }
    assert(b@.subrange(0, i as int) =~= b@);
    out
}

fn is_accept_encoding_exec(name: &[u8]) -> (r: bool)
    ensures
        r == is_accept_encoding(name@),
{
    let target: [u8; 15] = [97u8, 99, 99, 101, 112, 116, 45, 101, 110, 99, 111, 100, 105, 110, 103];
    assert(target@ =~= accept_encoding_name());
    if name.len() != 15 {
        return false;
    }
    let mut i: usize = 0;
    while i < 15
        invariant
            i <= 15,
            name@.len() == 15,
            target@ == accept_encoding_name(),
            forall|j: int| 0 <= j < i ==> ascii_lower(name@[j]) == accept_encoding_name()[j],
        decreases 15 - i,
    {
        let b = name[i];
        let l = if 0x41 <= b && b <= 0x5a {
            b + 32
        } else {
            b
        };
        if l != target[i] {
            return false;
        }
        i = i + 1;
    }
    true
}

/// Splits a header value into names at commas, leaving out spaces.
fn split_tokens(v: &[u8]) -> (r: Vec<Vec<u8>>)
    ensures
        r.deep_view() == tokens_from(v@, 0, Seq::empty()),
{
    let mut out: Vec<Vec<u8>> = Vec::new();
    let mut cur: Vec<u8> = Vec::new();
    let mut i: usize = 0;
    assert(out.deep_view() + tokens_from(v@, 0, cur@) =~= tokens_from(v@, 0, Seq::empty()));
    while i < v.len()
        invariant
            i <= v@.len(),
            out.deep_view() + tokens_from(v@, i as int, cur@) == tokens_from(
                v@,
                0,
                Seq::empty(),
            ),
        decreases v@.len() - i,
    {
        let b = v[i];
        if b == 0x2c {
            let ghost prev = out.deep_view();
            let ghost c = cur@;
            assert(cur.deep_view() =~= cur@);
            out.push(cur);
            assert(out.deep_view() =~= prev.push(c));
            cur = Vec::new();
            assert(prev + tokens_from(v@, i as int, c) =~= out.deep_view() + tokens_from(
                v@,
                i + 1,
                cur@,
            ));
        } else if b != 0x20 {
            cur.push(b);
        }
        i = i + 1;
    }
    let ghost prev = out.deep_view();
    let ghost c = cur@;
    assert(cur.deep_view() =~= cur@);
    out.push(cur);
    assert(out.deep_view() =~= prev + seq![c]);
    out
}

/// The accepted encodings named by the headers, in order.
fn accept_from_headers(headers: &Vec<(String, String)>) -> (r: Vec<Vec<u8>>)
    ensures
        r.deep_view() == accept_list(headers_view(headers@)),
{
    let ghost hv = headers_view(headers@);
    let mut out: Vec<Vec<u8>> = Vec::new();
    let mut i: usize = 0;
    while i < headers.len()
        invariant
            i <= headers@.len(),
            hv == headers_view(headers@),
            out.deep_view() == accept_list(hv.subrange(0, i as int)),
        decreases headers@.len() - i,
    {
        let name = headers[i].0.as_str().as_bytes();
        let value = headers[i].1.as_str().as_bytes();
        proof {
            assert(hv.subrange(0, i + 1).drop_last() =~= hv.subrange(0, i as int));
            assert(hv.subrange(0, i + 1).last() == (name@, value@));
        }
        if is_accept_encoding_exec(name) {
            let toks = split_tokens(value);
            let mut k: usize = 0;
            let ghost start = out.deep_view();
            while k < toks.len()
                invariant
                    k <= toks@.len(),
                    out.deep_view() == start + toks.deep_view().subrange(0, k as int),
                decreases toks@.len() - k,
            {
                let t = copy_bytes(&toks[k]);
                let ghost prev = out.deep_view();
                assert(t.deep_view() =~= t@);
                out.push(t);
                assert(out.deep_view() =~= prev.push(t@));
                assert(toks.deep_view()[k as int] =~= t@);
                assert(out.deep_view() =~= start + toks.deep_view().subrange(0, k + 1));
                k = k + 1;
            }
            assert(toks.deep_view().subrange(0, k as int) =~= toks.deep_view());
        } else {
            assert(out.deep_view() =~= out.deep_view() + Seq::<Seq<u8>>::empty());
        }
        i = i + 1;
    }
    assert(hv.subrange(0, i as int) =~= hv);
    out
}

fn find_asset_bytes(state: &State, key: &[u8]) -> (r: Option<usize>)
    ensures
        match r {
            Some(i) => asset_pos_bytes(state@.assets, key@) == Some(i as int),
            None => asset_pos_bytes(state@.assets, key@) is None,
        },
        r matches Some(i) ==> i < state@.assets.len(),
{
    let ghost s = state@.assets;
    let ghost p = |a: AssetView| encode_utf8(a.key) == key@;
    let mut i: usize = 0;
    while i < state.assets.len()
        invariant
            i <= state.assets@.len(),
            s == state@.assets,
            p == (|a: AssetView| encode_utf8(a.key) == key@),
            forall|j: int| 0 <= j < i ==> !p(s[j]),
        decreases state.assets@.len() - i,
    {
        if bytes_eq(state.assets[i].key.as_str().as_bytes(), key) {
            proof {
                lemma_first_index(s, p, i as int);
            }
            return Some(i);
        }
        i = i + 1;
    }
    proof {
        lemma_first_index_none(s, p);
    }
    None
}

fn is_prefix_exec(p: &[u8], k: &[u8]) -> (r: bool)
    ensures
        r == is_prefix(p@, k@),
{
    if p.len() > k.len() {
        return false;
    }
    let mut i: usize = 0;
    while i < p.len()
        invariant
            p@.len() <= k@.len(),
            i <= p@.len(),
            forall|j: int| 0 <= j < i ==> k@[j] == p@[j],
        decreases p@.len() - i,
    {
        if p[i] != k[i] {
            assert(k@.subrange(0, p@.len() as int)[i as int] != p@[i as int]);
            return false;
        }
        i = i + 1;
    }
    assert(k@.subrange(0, p@.len() as int) =~= p@);
    true
}

fn find_default_doc(state: &State, dir: &[u8]) -> (r: Option<usize>)
    ensures
        match r {
            Some(i) => default_doc_pos(state@.assets, dir@) == Some(i as int),
            None => default_doc_pos(state@.assets, dir@) is None,
        },
        r matches Some(i) ==> i < state@.assets.len(),
{
    let ghost s = state@.assets;
    let ghost p = |a: AssetView| a.is_default_doc && is_prefix(dir@, encode_utf8(a.key));
    let mut i: usize = 0;
    while i < state.assets.len()
        invariant
            i <= state.assets@.len(),
            s == state@.assets,
            p == (|a: AssetView| a.is_default_doc && is_prefix(dir@, encode_utf8(a.key))),
            forall|j: int| 0 <= j < i ==> !p(s[j]),
        decreases state.assets@.len() - i,
    {
        let a = &state.assets[i];
        if a.is_default_doc && is_prefix_exec(dir, a.key.as_str().as_bytes()) {
            proof {
                lemma_first_index(s, p, i as int);
            }
            return Some(i);
        }
        i = i + 1;
    }
    proof {
        lemma_first_index_none(s, p);
    }
    None
}

fn path_part(url: &[u8]) -> (r: Vec<u8>)
    ensures
        r@ == path_of(url@),
{
    let ghost p = |b: u8| b == 0x3fu8;
    let mut out: Vec<u8> = Vec::new();
    let mut i: usize = 0;
    while i < url.len()
        invariant
            i <= url@.len(),
            p == (|b: u8| b == 0x3fu8),
            out@ =~= url@.take(i as int),
            forall|j: int| 0 <= j < i ==> !p(url@[j]),
        decreases url@.len() - i,
    {
        if url[i] == 0x3f {
            proof {
                lemma_first_index(url@, p, i as int);
            }
            return out;
        }
        out.push(url[i]);
        i = i + 1;
    }
    proof {
        lemma_first_index_none(url@, p);
        assert(url@.take(i as int) =~= url@);
    }
    out
}

fn find_encoding_bytes(encs: &Vec<AssetEncoding>, name: &[u8]) -> (r: Option<usize>)
    ensures
        match r {
            Some(i) => encoding_pos_bytes(encodings_view(encs@), name@) == Some(i as int),
            None => encoding_pos_bytes(encodings_view(encs@), name@) is None,
        },
        r matches Some(i) ==> i < encs@.len(),
{
    let ghost s = encodings_view(encs@);
    let ghost p = |e: EncodingView| encode_utf8(e.name) == name@;
    let mut i: usize = 0;
    while i < encs.len()
        invariant
            i <= encs@.len(),
            s == encodings_view(encs@),
            p == (|e: EncodingView| encode_utf8(e.name) == name@),
            forall|j: int| 0 <= j < i ==> !p(s[j]),
        decreases encs@.len() - i,
    {
        if bytes_eq(encs[i].content_encoding.as_str().as_bytes(), name) {
            proof {
                lemma_first_index(s, p, i as int);
            }
            return Some(i);
        }
        i = i + 1;
    }
    proof {
        lemma_first_index_none(s, p);
    }
    None
}

fn content_type_string() -> (r: String)
    ensures
        r@ == content_type_name(),
{
    let r = "content-type".to_owned();
    proof {
        reveal_strlit("content-type");
    }
    assert(r@ =~= content_type_name());
    r
}

fn content_encoding_string() -> (r: String)
    ensures
        r@ == content_encoding_name(),
{
    let r = "content-encoding".to_owned();
    proof {
        reveal_strlit("content-encoding");
    }
    assert(r@ =~= content_encoding_name());
    r
}

/// The body of a response to a path that does not decode: "failed to decode path".
pub open spec fn bad_path_body() -> Seq<u8> {
    seq![
        102u8, 97, 105, 108, 101, 100, 32, 116, 111, 32, 100, 101, 99, 111, 100, 101, 32, 112,
        97, 116, 104,
    ]
}

/// The body of a response for which nothing can be served: "not found".
pub open spec fn not_found_body() -> Seq<u8> {
    seq![110u8, 111, 116, 32, 102, 111, 117, 110, 100]
}

fn bad_path_text() -> (r: Vec<u8>)
    ensures
        r@ == bad_path_body(),
{
    let r: Vec<u8> = vec![
        102u8, 97, 105, 108, 101, 100, 32, 116, 111, 32, 100, 101, 99, 111, 100, 101, 32, 112,
        97, 116, 104,
    ];
    assert(r@ =~= bad_path_body());
    r
}

fn not_found_text() -> (r: Vec<u8>)
    ensures
        r@ == not_found_body(),
{
    let r: Vec<u8> = vec![110u8, 111, 116, 32, 102, 111, 117, 110, 100];
    assert(r@ =~= not_found_body());
    r
}

fn plain_response(
    status_code: u16,
    text: Vec<u8>,
    witness: Vec<Vec<u8>>,
    certificate: Vec<u8>,
) -> (r: HttpResponse)
    ensures
        r.witness.deep_view() == witness.deep_view(),
        r.certificate@ == certificate@,
        r.status_code == status_code,
        r.headers@.len() == 0,
        r.body@ == text@,
        r.streaming_token is None,
{
    HttpResponse {
        status_code,
        headers: Vec::new(),
        body: text,
        streaming_token: None,
        witness,
        certificate,
    }
}

/// The token for the chunk after `index`, if there is one.
fn next_token(a: &Asset, e: &AssetEncoding, index: usize) -> (r: Option<StreamingCallbackToken>)
    ensures
        next_token_matches(r, a.key@, e@, index as int),
{
    if index < e.content_chunks.len() && e.content_chunks.len() - index > 1 {
        Some(
            StreamingCallbackToken {
                key: a.key.clone(),
                content_encoding: e.content_encoding.clone(),
                index: index + 1,
                sha256: Some(copy_bytes(&e.sha256)),
            },
        )
    } else {
        None
    }
}

/// Serves the first chunk of encoding `j` of asset `i`.
fn serve(
    state: &State,
    i: usize,
    j: usize,
    witness: Vec<Vec<u8>>,
    certificate: Vec<u8>,
) -> (r: HttpResponse)
    requires
        i < state@.assets.len(),
        j < state@.assets[i as int].encodings.len(),
    ensures
        r.certificate@ == certificate@,
        r.witness.deep_view() == witness.deep_view(),
        r.status_code == 200,
        r.body@ == first_chunk(state@.assets[i as int].encodings[j as int]),
        string_pairs_view(r.headers@) == response_headers(
            state@.assets[i as int],
            state@.assets[i as int].encodings[j as int],
        ),
        next_token_matches(
            r.streaming_token,
            state@.assets[i as int].key,
            state@.assets[i as int].encodings[j as int],
            0,
        ),
{
    let a = &state.assets[i];
    assert(state@.assets[i as int].encodings =~= encodings_view(a.encodings@));
    let e = &a.encodings[j];
    let body = if e.content_chunks.len() > 0 {
        copy_bytes(&e.content_chunks[0])
    } else {
        Vec::new()
    };
    assert(body@ =~= first_chunk(e@));
    let mut headers: Vec<(String, String)> = Vec::new();
    headers.push((content_type_string(), a.content_type.clone()));
    if e.content_encoding != identity_string() {
        headers.push((content_encoding_string(), e.content_encoding.clone()));
    }
    assert(string_pairs_view(headers@) =~= response_headers(a@, e@));
    HttpResponse { status_code: 200, headers, body, streaming_token: next_token(a, e, 0),
        witness,
        certificate,
    }
}

impl State {
    /// Answers a GET-style request: decodes the path, picks the asset (or the
    /// default document) and the first encoding the client accepts, "identity"
    /// last, and returns its first chunk with a token for the rest.
    pub fn http_request(&self, req: &HttpRequest, certificate: &Vec<u8>) -> (r: HttpResponse)
        ensures
            http_response_ok(self@.assets, req, &r),
            r.certificate@ == certificate@,
            r.witness.deep_view() == canonical(leaf_set(self@.assets)),
            sorted_strict(r.witness.deep_view()),
            r.witness.deep_view().to_set() == leaf_set(self@.assets),
    {
        let witness = self.certified_leaves();
        let path = path_part(req.url.as_str().as_bytes());
        let decoded = match url_decode(path.as_slice()) {
            Err(_) => return plain_response(400, bad_path_text(), witness, copy_bytes(certificate)),
            Ok(d) => d,
        };
        let i = match find_asset_bytes(self, decoded.as_slice()) {
            Some(i) => i,
            None => {
                let n = decoded.len();
                let found = if n > 0 && decoded[n - 1] == 0x2f {
                    find_default_doc(self, decoded.as_slice())
                } else {
                    None
                };
                match found {
                    Some(i) => i,
                    None => return plain_response(
                        404,
                        not_found_text(),
                        witness,
                        copy_bytes(certificate),
                    ),
                }
            },
        };
        let mut accept = accept_from_headers(&req.headers);
        let id = identity_string();
        let id_bytes = lit_bytes(id.as_str().as_bytes());
        let ghost before = accept.deep_view();
        assert(id_bytes.deep_view() =~= id_bytes@);
        accept.push(id_bytes);
        let ghost av = accept.deep_view();
        assert(av =~= accept_list(headers_view(req.headers@)) + seq![encode_utf8(identity_name())]);
        let a = &self.assets[i];
        let ghost encs = self@.assets[i as int].encodings;
        assert(encs =~= encodings_view(a.encodings@));
        let ghost p = |n: Seq<u8>| encoding_pos_bytes(encs, n) is Some;
        let mut k: usize = 0;
        while k < accept.len()
            invariant
                k <= accept@.len(),
                av == accept.deep_view(),
                witness.deep_view() == canonical(leaf_set(self@.assets)),
                sorted_strict(witness.deep_view()),
                witness.deep_view().to_set() == leaf_set(self@.assets),
                av == accept_list(headers_view(req.headers@)) + seq![encode_utf8(identity_name())],
                percent_decode(path_of(encode_utf8(req.url@))) == Some(decoded@),
                requested_asset(self@.assets, decoded@) == Some(i as int),
                i < self.assets@.len(),
                *a == self.assets@[i as int],
                encs == self@.assets[i as int].encodings,
                encs == encodings_view(a.encodings@),
                p == (|n: Seq<u8>| encoding_pos_bytes(encs, n) is Some),
                forall|m: int| 0 <= m < k ==> !p(av[m]),
            decreases accept@.len() - k,
        {
            proof {
                assert(av[k as int] =~= accept@[k as int]@);
            }
            if let Some(j) = find_encoding_bytes(&a.encodings, accept[k].as_slice()) {
                proof {
                    lemma_first_index(av, p, k as int);
                    assert(encoding_pos_bytes(encs, av[k as int]) == Some(j as int));
                    assert(chosen_encoding_bytes(encs, av) == Some(j as int));
                }
                return serve(self, i, j, witness, copy_bytes(certificate));
            }
            k = k + 1;
        }
        proof {
            lemma_first_index_none(av, p);
        }
        plain_response(404, not_found_text(), witness, copy_bytes(certificate))
    }

    /// Serves the chunk a streaming token points at, with the token for the next
    /// one. A token whose digest no longer matches the encoding is stale.
    pub fn http_request_streaming_callback(&self, token: &StreamingCallbackToken) -> (r: Result<
        StreamingCallbackHttpResponse,
        AssetError,
    >)
        ensures
            streaming_response_ok(self@.assets, token, &r),
    {
        let i = match find_asset(&self.assets, &token.key) {
            None => return Err(AssetError::NotFound),
            Some(i) => i,
        };
        let a = &self.assets[i];
        assert(self@.assets[i as int].encodings =~= encodings_view(a.encodings@));
        let j = match find_encoding(&a.encodings, &token.content_encoding) {
            None => return Err(AssetError::NotFound),
            Some(j) => j,
        };
        let e = &a.encodings[j];
        if let Some(exp) = &token.sha256 {
            if !bytes_eq(exp.as_slice(), e.sha256.as_slice()) {
                return Err(AssetError::StaleToken);
            }
        }
        if token.index >= e.content_chunks.len() {
            return Err(AssetError::NotFound);
        }
        let body = copy_bytes(&e.content_chunks[token.index]);
        assert(body@ =~= e@.chunks[token.index as int]);
        let next = next_token(a, e, token.index);
        Ok(StreamingCallbackHttpResponse { body, token: next })
    }
}

} // verus!
