use certified_assets::api::{
    asset_exists, delete, get_asset, get_asset_chunk, http_request_handle,
    http_request_streaming_callback_handle, init, list_assets, post_upgrade, pre_upgrade,
    store_asset,
};
use certified_assets::http::{HttpRequest, StreamingCallbackToken};
use certified_assets::store::State;
use certified_assets::types::{
    AssetError, BatchOperation, CreateAssetArguments, DeleteAssetArguments,
    SetAssetContentArguments, StoreArg, UnsetAssetContentArguments,
};
use certified_assets::url_decode::{url_decode, UrlDecodeError};
use sha2::Digest;

const TTL: u64 = 300_000_000_000;

fn owner() -> Vec<u8> {
    vec![1, 2, 3]
}

fn cert() -> Vec<u8> {
    vec![0xce, 0x27]
}

fn sha(b: &[u8]) -> Vec<u8> {
    sha2::Sha256::digest(b).to_vec()
}

fn create(state: &mut State, key: &str, ct: &str) {
    state
        .create_asset(CreateAssetArguments { key: key.to_string(), content_type: ct.to_string(), default_doc: false })
        .unwrap();
}

fn set_op(key: &str, enc: &str, ids: Vec<u64>, sha256: Option<Vec<u8>>) -> BatchOperation {
    BatchOperation::SetAssetContent(SetAssetContentArguments {
        key: key.to_string(),
        content_encoding: enc.to_string(),
        chunk_ids: ids,
        sha256,
    })
}

fn put(state: &mut State, key: &str, enc: &str, content: &[u8]) {
    store_asset(
        state,
        StoreArg {
            key: key.to_string(),
            content_type: "text/plain".to_string(),
            content_encoding: enc.to_string(),
            content: content.to_vec(),
            sha256: None,
        },
        7,
    )
    .unwrap();
}

fn get_req(url: &str, headers: Vec<(&str, &str)>) -> HttpRequest {
    HttpRequest {
        method: "GET".to_string(),
        url: url.to_string(),
        headers: headers.into_iter().map(|(a, b)| (a.to_string(), b.to_string())).collect(),
        body: vec![],
    }
}

#[test]
fn hello_world_upload_in_two_chunks() {
    let mut s = init(owner());
    create(&mut s, "/a.txt", "text/plain");
    let b = s.create_batch(0);
    let c1 = s.create_chunk(b, b"hello".to_vec(), 1).unwrap();
    let c2 = s.create_chunk(b, b" world".to_vec(), 2).unwrap();
    s.commit_batch(b, vec![set_op("/a.txt", "identity", vec![c1, c2], None)], 3).unwrap();
    assert_eq!(s.retrieve(&"/a.txt".to_string()).unwrap(), b"hello world".to_vec());
    let list = list_assets(&s);
    assert_eq!(list.len(), 1);
    assert_eq!(list[0].key, "/a.txt");
    assert_eq!(list[0].encodings.len(), 1);
    assert_eq!(list[0].encodings[0].length, 11);
}

#[test]
fn committed_encoding_is_concatenation_with_its_digest() {
    let mut s = init(owner());
    create(&mut s, "/x", "application/octet-stream");
    let b = s.create_batch(10);
    let ids: Vec<u64> = [b"ab".to_vec(), b"cd".to_vec(), b"e".to_vec()]
        .into_iter()
        .map(|c| s.create_chunk(b, c, 11).unwrap())
        .collect();
    s.commit_batch(b, vec![set_op("/x", "identity", ids, Some(sha(b"abcde")))], 12).unwrap();
    let e = s.get(&"/x".to_string(), &vec!["identity".to_string()]).unwrap();
    assert_eq!(e.total_length, 5);
    assert_eq!(e.sha256, Some(sha(b"abcde")));
    assert_eq!(e.content, b"ab".to_vec());
    assert_eq!(s.retrieve(&"/x".to_string()).unwrap(), b"abcde".to_vec());
    // the batch and its chunks are released
    assert!(s.batches.is_empty());
    assert!(s.chunks.is_empty());
}

#[test]
fn commit_with_wrong_digest_changes_nothing() {
    let mut s = init(owner());
    create(&mut s, "/x", "text/plain");
    let b = s.create_batch(0);
    let c = s.create_chunk(b, b"data".to_vec(), 1).unwrap();
    let r = s.commit_batch(b, vec![set_op("/x", "identity", vec![c], Some(sha(b"other")))], 2);
    assert_eq!(r, Err(AssetError::HashMismatch));
    assert_eq!(s.batches.len(), 1);
    assert_eq!(s.chunks.len(), 1);
    assert_eq!(s.retrieve(&"/x".to_string()), Err(AssetError::NotFound));
}

#[test]
fn commit_is_all_or_nothing() {
    let mut s = init(owner());
    let b = s.create_batch(0);
    let c = s.create_chunk(b, b"data".to_vec(), 1).unwrap();
    let ops = vec![
        BatchOperation::CreateAsset(CreateAssetArguments {
            key: "/new".to_string(),
            content_type: "text/plain".to_string(),
            default_doc: false,
        }),
        set_op("/new", "identity", vec![c], None),
        set_op("/missing", "identity", vec![], None),
    ];
    assert_eq!(s.commit_batch(b, ops, 2), Err(AssetError::NotFound));
    assert!(s.assets.is_empty());
    assert_eq!(s.chunks.len(), 1);
    assert_eq!(s.batches.len(), 1);
}

#[test]
fn chunk_of_another_batch_is_refused() {
    let mut s = init(owner());
    create(&mut s, "/x", "text/plain");
    let b1 = s.create_batch(0);
    let b2 = s.create_batch(0);
    let c1 = s.create_chunk(b1, b"one".to_vec(), 1).unwrap();
    let c2 = s.create_chunk(b2, b"two".to_vec(), 1).unwrap();
    let r = s.commit_batch(b1, vec![set_op("/x", "identity", vec![c1, c2], None)], 2);
    assert_eq!(r, Err(AssetError::NotFound));
    assert_eq!(s.batches.len(), 2);
    assert_eq!(s.chunks.len(), 2);
    assert_eq!(s.retrieve(&"/x".to_string()), Err(AssetError::NotFound));
}

#[test]
fn expired_chunk_is_refused_and_batch_kept() {
    let mut s = init(owner());
    create(&mut s, "/x", "text/plain");
    let b = s.create_batch(100);
    let c = s.create_chunk(b, b"late".to_vec(), 100).unwrap();
    let r = s.commit_batch(b, vec![set_op("/x", "identity", vec![c], None)], 100 + TTL);
    assert_eq!(r, Err(AssetError::Expired));
    assert_eq!(s.batches.len(), 1);
    assert_eq!(s.chunks.len(), 1);
}

#[test]
fn chunk_for_unknown_or_expired_batch_is_not_found() {
    let mut s = init(owner());
    assert_eq!(s.create_chunk(42, vec![1], 0), Err(AssetError::NotFound));
    let b = s.create_batch(0);
    assert_eq!(s.create_chunk(b, vec![1], TTL), Err(AssetError::NotFound));
    // a new chunk extends the batch's life
    let b2 = s.create_batch(0);
    s.create_chunk(b2, vec![1], TTL - 1).unwrap();
    s.create_chunk(b2, vec![2], TTL + 5).unwrap();
}

#[test]
fn new_batch_evicts_expired_batches_and_their_chunks() {
    let mut s = init(owner());
    let b1 = s.create_batch(0);
    s.create_chunk(b1, vec![1], 0).unwrap();
    let b2 = s.create_batch(TTL + 1);
    assert!(b2 > b1);
    assert_eq!(s.batches.len(), 1);
    assert_eq!(s.batches[0].id, b2);
    assert!(s.chunks.is_empty());
}

#[test]
fn duplicate_chunk_id_is_refused() {
    let mut s = init(owner());
    create(&mut s, "/x", "text/plain");
    let b = s.create_batch(0);
    let c = s.create_chunk(b, b"a".to_vec(), 0).unwrap();
    let r = s.commit_batch(b, vec![set_op("/x", "identity", vec![c, c], None)], 1);
    assert_eq!(r, Err(AssetError::NotFound));
}

#[test]
fn unset_removes_only_that_encoding() {
    let mut s = init(owner());
    put(&mut s, "/x", "identity", b"plain");
    put(&mut s, "/x", "gzip", b"zipped");
    s.unset_asset_content(UnsetAssetContentArguments {
        key: "/x".to_string(),
        content_encoding: "gzip".to_string(),
    })
    .unwrap();
    assert!(s.get(&"/x".to_string(), &vec!["gzip".to_string()]).is_err());
    let e = s.get(&"/x".to_string(), &vec!["identity".to_string()]).unwrap();
    assert_eq!(e.sha256, Some(sha(b"plain")));
    // the asset stays even without content
    s.unset_asset_content(UnsetAssetContentArguments {
        key: "/x".to_string(),
        content_encoding: "identity".to_string(),
    })
    .unwrap();
    assert_eq!(list_assets(&s).len(), 1);
    let missing = s.unset_asset_content(UnsetAssetContentArguments {
        key: "/nope".to_string(),
        content_encoding: "identity".to_string(),
    });
    assert_eq!(missing, Err(AssetError::NotFound));
}

#[test]
fn create_asset_conflicts_only_on_other_content_type() {
    let mut s = init(owner());
    create(&mut s, "/x", "text/plain");
    create(&mut s, "/x", "text/plain");
    let r = s.create_asset(CreateAssetArguments {
        key: "/x".to_string(),
        content_type: "text/html".to_string(),
        default_doc: false,
    });
    assert_eq!(r, Err(AssetError::AlreadyExists));
    assert_eq!(s.assets.len(), 1);
}

#[test]
fn set_asset_content_outside_a_commit() {
    let mut s = init(owner());
    let b = s.create_batch(0);
    let c = s.create_chunk(b, b"xyz".to_vec(), 0).unwrap();
    let arg = |k: &str| SetAssetContentArguments {
        key: k.to_string(),
        content_encoding: "identity".to_string(),
        chunk_ids: vec![c],
        sha256: None,
    };
    assert_eq!(s.set_asset_content(arg("/y"), 1), Err(AssetError::NotFound));
    create(&mut s, "/y", "text/plain");
    s.set_asset_content(arg("/y"), 1).unwrap();
    assert_eq!(s.retrieve(&"/y".to_string()).unwrap(), b"xyz".to_vec());
    assert!(s.chunks.is_empty());
    // the chunk is used up
    assert_eq!(s.set_asset_content(arg("/y"), 1), Err(AssetError::NotFound));
}

#[test]
fn get_chunk_pages_rebuild_the_content() {
    let mut s = init(owner());
    create(&mut s, "/big", "text/plain");
    let b = s.create_batch(0);
    let parts: Vec<Vec<u8>> = vec![b"first-".to_vec(), b"second-".to_vec(), b"third".to_vec()];
    let ids: Vec<u64> = parts.iter().map(|p| s.create_chunk(b, p.clone(), 0).unwrap()).collect();
    s.commit_batch(b, vec![set_op("/big", "identity", ids, None)], 1).unwrap();
    let key = "/big".to_string();
    let enc = "identity".to_string();
    let head = s.get(&key, &vec![enc.clone()]).unwrap();
    let mut all = head.content.clone();
    let mut i = 1;
    while all.len() < head.total_length {
        all.extend(s.get_chunk(&key, &enc, i, &head.sha256).unwrap());
        i += 1;
    }
    assert_eq!(all, b"first-second-third".to_vec());
    assert_eq!(Some(sha(&all)), head.sha256);
    assert_eq!(s.get_chunk(&key, &enc, 3, &None), Err(AssetError::NotFound));
    assert_eq!(s.get_chunk(&key, &enc, 0, &Some(sha(b"x"))), Err(AssetError::HashMismatch));
    assert_eq!(get_asset(&s, &key).unwrap(), b"first-second-third".to_vec());
    assert_eq!(get_asset_chunk(&s, &key, 1).unwrap(), b"second-".to_vec());
}

#[test]
fn get_prefers_the_callers_order() {
    let mut s = init(owner());
    put(&mut s, "/x", "identity", b"plain");
    put(&mut s, "/x", "gzip", b"zipped");
    let key = "/x".to_string();
    let e = s.get(&key, &vec!["br".to_string(), "gzip".to_string(), "identity".to_string()]).unwrap();
    assert_eq!(e.content_encoding, "gzip");
    assert_eq!(e.content, b"zipped".to_vec());
    assert_eq!(s.get(&key, &vec!["br".to_string()]).err(), Some(AssetError::NotFound));
    assert_eq!(s.get(&"/nope".to_string(), &vec!["identity".to_string()]).err(), Some(AssetError::NotFound));
}

#[test]
fn streaming_through_http_rebuilds_the_content() {
    let mut s = init(owner());
    create(&mut s, "/big", "text/plain");
    let b = s.create_batch(0);
    let ids: Vec<u64> =
        [b"aa".to_vec(), b"bb".to_vec(), b"c".to_vec()].into_iter().map(|c| s.create_chunk(b, c, 0).unwrap()).collect();
    s.commit_batch(b, vec![set_op("/big", "identity", ids, None)], 1).unwrap();
    let r = http_request_handle(&s, &get_req("/big?x=1", vec![]), &cert());
    assert_eq!(r.status_code, 200);
    let mut body = r.body.clone();
    let mut token = r.streaming_token;
    while let Some(t) = token {
        let next = http_request_streaming_callback_handle(&s, &t).unwrap();
        body.extend(next.body);
        token = next.token;
    }
    assert_eq!(body, b"aabbc".to_vec());
}

#[test]
fn stale_token_is_refused() {
    let mut s = init(owner());
    put(&mut s, "/x", "identity", b"v1");
    let t = StreamingCallbackToken {
        key: "/x".to_string(),
        content_encoding: "identity".to_string(),
        index: 0,
        sha256: Some(sha(b"v1")),
    };
    assert_eq!(http_request_streaming_callback_handle(&s, &t).unwrap().body, b"v1".to_vec());
    put(&mut s, "/x", "identity", b"v2");
    assert_eq!(http_request_streaming_callback_handle(&s, &t).err(), Some(AssetError::StaleToken));
}

#[test]
fn http_picks_accepted_encoding_and_sets_headers() {
    let mut s = init(owner());
    put(&mut s, "/x", "identity", b"plain");
    put(&mut s, "/x", "gzip", b"zipped");
    let r = http_request_handle(&s, &get_req("/x", vec![("Accept-Encoding", "br, gzip")]), &cert());
    assert_eq!(r.status_code, 200);
    assert_eq!(r.body, b"zipped".to_vec());
    assert_eq!(
        r.headers,
        vec![
            ("content-type".to_string(), "text/plain".to_string()),
            ("content-encoding".to_string(), "gzip".to_string())
        ]
    );
    assert!(r.streaming_token.is_none());
    let r = http_request_handle(&s, &get_req("/x", vec![("accept-encoding", "br")]), &cert());
    assert_eq!(r.body, b"plain".to_vec());
    assert_eq!(r.headers, vec![("content-type".to_string(), "text/plain".to_string())]);
}

#[test]
fn http_decodes_path_and_falls_back_to_index() {
    let mut s = init(owner());
    put(&mut s, "/a b.txt", "identity", b"spaced");
    let r = http_request_handle(&s, &get_req("/a%20b.txt", vec![]), &cert());
    assert_eq!(r.status_code, 200);
    assert_eq!(r.body, b"spaced".to_vec());
    let missing = http_request_handle(&s, &get_req("/missing", vec![]), &cert());
    assert_eq!(missing.status_code, 404);
    assert_eq!(missing.body, b"not found".to_vec());
    assert_eq!(missing.certificate, cert());
    let bad = http_request_handle(&s, &get_req("/bad%zz", vec![]), &cert());
    assert_eq!(bad.status_code, 400);
    assert_eq!(bad.body, b"failed to decode path".to_vec());
    assert!(bad.streaming_token.is_none());
    put(&mut s, "/index.html", "identity", b"<html>");
    // a missing path that does not end in '/' stays missing
    assert_eq!(http_request_handle(&s, &get_req("/missing", vec![]), &cert()).status_code, 404);
    // '/' resolves only to an asset flagged as default document
    assert_eq!(http_request_handle(&s, &get_req("/", vec![]), &cert()).status_code, 404);
}

#[test]
fn trailing_slash_serves_the_flagged_default_document() {
    let mut s = init(owner());
    s.create_asset(CreateAssetArguments {
        key: "/docs/index.html".to_string(),
        content_type: "text/html".to_string(),
        default_doc: true,
    })
    .unwrap();
    put(&mut s, "/docs/index.html", "identity", b"<docs>");
    put(&mut s, "/other/page.html", "identity", b"<other>");
    let r = http_request_handle(&s, &get_req("/docs/", vec![]), &cert());
    assert_eq!(r.status_code, 200);
    assert_eq!(r.body, b"<docs>".to_vec());
    assert_eq!(http_request_handle(&s, &get_req("/other/", vec![]), &cert()).status_code, 404);
    assert!(list_assets(&s)[0].is_default_doc);
    assert!(!list_assets(&s)[1].is_default_doc);
}

#[test]
fn commit_of_expired_batch_is_refused() {
    let mut s = init(owner());
    let b = s.create_batch(0);
    let ops = vec![BatchOperation::CreateAsset(CreateAssetArguments {
        key: "/late".to_string(),
        content_type: "text/plain".to_string(),
        default_doc: false,
    })];
    assert_eq!(s.commit_batch(b, ops, TTL), Err(AssetError::Expired));
    assert!(s.assets.is_empty());
    assert_eq!(s.batches.len(), 1);
    assert_eq!(s.commit_batch(b + 7, vec![], 0), Err(AssetError::NotFound));
}

#[test]
fn error_messages() {
    assert_eq!(AssetError::NotFound.message(), "not found");
    assert_eq!(AssetError::Expired.message(), "batch expired");
}

#[test]
fn url_decode_cases() {
    assert_eq!(url_decode(b"/a%2Fb%41c"), Ok(b"/a/bAc".to_vec()));
    assert_eq!(url_decode(b""), Ok(vec![]));
    assert_eq!(url_decode(b"%4"), Err(UrlDecodeError::InvalidPercentEncoding));
    assert_eq!(url_decode(b"%g1"), Err(UrlDecodeError::InvalidPercentEncoding));
}

#[test]
fn store_checks_digest_and_creates_asset() {
    let mut s = init(owner());
    let bad = store_asset(
        &mut s,
        StoreArg {
            key: "/s".to_string(),
            content_type: "text/plain".to_string(),
            content_encoding: "identity".to_string(),
            content: b"abc".to_vec(),
            sha256: Some(vec![0; 32]),
        },
        1,
    );
    assert_eq!(bad, Err(AssetError::HashMismatch));
    assert!(s.assets.is_empty());
    let abc_digest = vec![
        0xba, 0x78, 0x16, 0xbf, 0x8f, 0x01, 0xcf, 0xea, 0x41, 0x41, 0x40, 0xde, 0x5d, 0xae, 0x22,
        0x23, 0xb0, 0x03, 0x61, 0xa3, 0x96, 0x17, 0x7a, 0x9c, 0xb4, 0x10, 0xff, 0x61, 0xf2, 0x00,
        0x15, 0xad,
    ];
    store_asset(
        &mut s,
        StoreArg {
            key: "/s".to_string(),
            content_type: "text/plain".to_string(),
            content_encoding: "identity".to_string(),
            content: b"abc".to_vec(),
            sha256: Some(abc_digest.clone()),
        },
        1,
    )
    .unwrap();
    assert_eq!(list_assets(&s)[0].encodings[0].sha256, Some(abc_digest));
    assert_eq!(list_assets(&s)[0].encodings[0].modified, 1);
    assert!(asset_exists(&s, &"/s".to_string()));
    assert!(!asset_exists(&s, &"/t".to_string()));
    delete(&mut s, DeleteAssetArguments { key: "/s".to_string() });
    assert!(!asset_exists(&s, &"/s".to_string()));
}

#[test]
fn authorization_grows_only_through_authorized_callers() {
    let mut s = init(owner());
    assert!(s.is_authorized(&owner()));
    assert!(!s.is_authorized(&vec![9]));
    assert_eq!(s.authorize(&vec![9], vec![8]), Err(AssetError::Unauthorized));
    assert!(!s.is_authorized(&vec![8]));
    s.authorize(&owner(), vec![9]).unwrap();
    assert!(s.is_authorized(&vec![9]));
    s.authorize(&vec![9], vec![9]).unwrap();
    assert_eq!(s.authorized.len(), 2);
}

#[test]
fn clear_keeps_authorization() {
    let mut s = init(owner());
    put(&mut s, "/x", "identity", b"x");
    s.create_batch(0);
    s.clear();
    assert!(s.assets.is_empty() && s.batches.is_empty() && s.chunks.is_empty());
    assert!(s.is_authorized(&owner()));
}

#[test]
fn root_hash_is_a_digest_of_content() {
    let mut a = init(owner());
    let empty = a.root_hash();
    assert_eq!(empty, sha(b""));
    put(&mut a, "/x", "identity", b"one");
    let one = a.root_hash();
    assert_ne!(one, empty);
    // another history reaching the same content
    let mut b = init(owner());
    put(&mut b, "/x", "identity", b"zero");
    put(&mut b, "/x", "identity", b"one");
    assert_eq!(b.root_hash(), one);
    put(&mut b, "/x", "gzip", b"g");
    b.unset_asset_content(UnsetAssetContentArguments {
        key: "/x".to_string(),
        content_encoding: "gzip".to_string(),
    })
    .unwrap();
    assert_eq!(b.root_hash(), one);
}

#[test]
fn root_hash_ignores_creation_order() {
    let mut a = init(owner());
    put(&mut a, "/x", "identity", b"x");
    put(&mut a, "/y", "identity", b"y");
    put(&mut a, "/y", "gzip", b"yz");
    let mut b = init(owner());
    put(&mut b, "/y", "gzip", b"yz");
    put(&mut b, "/y", "identity", b"y");
    put(&mut b, "/x", "identity", b"old");
    put(&mut b, "/x", "identity", b"x");
    assert_eq!(a.root_hash(), b.root_hash());
    delete(&mut b, DeleteAssetArguments { key: "/x".to_string() });
    assert_ne!(a.root_hash(), b.root_hash());
}

#[test]
fn upgrade_keeps_assets_and_authorization() {
    let mut s = init(owner());
    put(&mut s, "/x", "identity", b"kept");
    s.create_batch(0);
    let root = s.root_hash();
    let restored = post_upgrade(pre_upgrade(s));
    assert_eq!(restored.retrieve(&"/x".to_string()).unwrap(), b"kept".to_vec());
    assert!(restored.is_authorized(&owner()));
    assert_eq!(restored.root_hash(), root);
}

#[test]
fn upgrade_keeps_open_batches_and_id_counters() {
    let mut s = init(owner());
    create(&mut s, "/x", "text/plain");
    let b = s.create_batch(0);
    let c = s.create_chunk(b, b"half".to_vec(), 1).unwrap();
    let mut s = post_upgrade(pre_upgrade(s));
    assert_eq!(s.batches.len(), 1);
    assert_eq!(s.chunks.len(), 1);
    let b2 = s.create_batch(2);
    assert!(b2 > b);
    let c2 = s.create_chunk(b, b"-way".to_vec(), 3).unwrap();
    assert!(c2 > c);
    s.commit_batch(b, vec![set_op("/x", "identity", vec![c, c2], None)], 4).unwrap();
    assert_eq!(s.retrieve(&"/x".to_string()).unwrap(), b"half-way".to_vec());
}

#[test]
fn store_sets_content_type_of_existing_asset() {
    let mut s = init(owner());
    create(&mut s, "/x", "text/plain");
    store_asset(
        &mut s,
        StoreArg {
            key: "/x".to_string(),
            content_type: "text/html".to_string(),
            content_encoding: "identity".to_string(),
            content: b"<p>".to_vec(),
            sha256: None,
        },
        3,
    )
    .unwrap();
    assert_eq!(list_assets(&s)[0].content_type, "text/html");
}

#[test]
fn response_carries_the_certificate() {
    let mut s = init(owner());
    put(&mut s, "/x", "identity", b"x");
    let r = http_request_handle(&s, &get_req("/x", vec![]), &cert());
    assert_eq!(r.status_code, 200);
    assert_eq!(r.certificate, cert());
}

fn framed(b: &[u8]) -> Vec<u8> {
    let mut v = (b.len() as u64).to_be_bytes().to_vec();
    v.extend_from_slice(b);
    v
}

#[test]
fn every_response_carries_a_witness_of_the_root() {
    let mut s = init(owner());
    put(&mut s, "/b", "identity", b"bee");
    put(&mut s, "/a", "identity", b"ay");
    let r = http_request_handle(&s, &get_req("/a", vec![]), &cert());
    assert_eq!(r.status_code, 200);
    assert_eq!(r.witness.len(), 2);
    assert!(r.witness[0] < r.witness[1]);
    let joined: Vec<u8> = r.witness.concat();
    assert_eq!(sha(&joined), s.root_hash());
    let mut leaf = framed(b"/a");
    leaf.extend(framed(b"identity"));
    leaf.extend(framed(&sha(&r.body)));
    assert!(r.witness.contains(&leaf));
    let missing = http_request_handle(&s, &get_req("/zzz", vec![]), &cert());
    assert_eq!(missing.status_code, 404);
    assert_eq!(missing.witness, r.witness);
}
