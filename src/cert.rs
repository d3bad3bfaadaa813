use vstd::prelude::*;
use vstd::utf8::encode_utf8;

use crate::digest::{concat_chunks, flatten, sha256, sha256_of};
use crate::order::{insert_sorted, lemma_sorted_unique, sorted_strict};
use crate::state::encodings_view;
use crate::store::State;
use crate::types::AssetView;

verus! {

/// `n` as eight big-endian bytes.
pub open spec fn be8(n: u64) -> Seq<u8> {
    seq![
        (n / 0x100000000000000) as u8,
        ((n / 0x1000000000000) % 256) as u8,
        ((n / 0x10000000000) % 256) as u8,
        ((n / 0x100000000) % 256) as u8,
        ((n / 0x1000000) % 256) as u8,
        ((n / 0x10000) % 256) as u8,
        ((n / 0x100) % 256) as u8,
        (n % 256) as u8,
    ]
}

/// A length-prefixed byte string.
pub open spec fn framed(b: Seq<u8>) -> Seq<u8> {
    be8(b.len() as u64) + b
}

/// The certified triples: key, encoding name and content digest of every
/// encoding in the store.
pub open spec fn cert_pairs(assets: Seq<AssetView>) -> Set<(Seq<char>, Seq<char>, Seq<u8>)> {
    Set::new(
        |t: (Seq<char>, Seq<char>, Seq<u8>)|
            exists|i: int, j: int|
                0 <= i < assets.len() && 0 <= j < assets[i].encodings.len() && t == (
                    assets[i].key,
                    assets[i].encodings[j].name,
                    assets[i].encodings[j].sha256,
                ),
    )
}

/// The bytes that certify one triple.
pub open spec fn record_of(t: (Seq<char>, Seq<char>, Seq<u8>)) -> Seq<u8> {
    framed(encode_utf8(t.0)) + framed(encode_utf8(t.1)) + framed(t.2)
}

/// The leaves of the certification: one record per certified triple.
pub open spec fn leaf_set(assets: Seq<AssetView>) -> Set<Seq<u8>> {
    Set::new(|r: Seq<u8>| exists|t| cert_pairs(assets).contains(t) && r == record_of(t))
}

/// The elements of a set in strictly increasing order.
pub open spec fn canonical(leaves: Set<Seq<u8>>) -> Seq<Seq<u8>> {
    choose|s: Seq<Seq<u8>>| sorted_strict(s) && s.to_set() == leaves
}

/// The digest that certifies the store's content: the digest of its leaves, in
/// increasing order.
pub open spec fn root_of(assets: Seq<AssetView>) -> Seq<u8> {
    sha256_of(flatten(canonical(leaf_set(assets))))
}

pub open spec fn pair_record(assets: Seq<AssetView>, i: int, j: int) -> Seq<u8> {
    record_of((assets[i].key, assets[i].encodings[j].name, assets[i].encodings[j].sha256))
}

/// Records of the encodings that come before encoding `j` of asset `i`.
pub open spec fn records_before(assets: Seq<AssetView>, i: int, j: int) -> Set<Seq<u8>> {
    Set::new(
        |r: Seq<u8>|
            exists|i2: int, j2: int|
                0 <= i2 < assets.len() && 0 <= j2 < assets[i2].encodings.len() && (i2 < i || (i2
                    == i && j2 < j)) && r == pair_record(assets, i2, j2),
    )
}

fn push_be8(out: &mut Vec<u8>, n: u64)
    ensures
        final(out)@ == old(out)@ + be8(n),
{
    let ghost start = out@;
    out.push((n / 0x100000000000000) as u8);
    out.push(((n / 0x1000000000000) % 256) as u8);
    out.push(((n / 0x10000000000) % 256) as u8);
    out.push(((n / 0x100000000) % 256) as u8);
    out.push(((n / 0x1000000) % 256) as u8);
    out.push(((n / 0x10000) % 256) as u8);
    out.push(((n / 0x100) % 256) as u8);
    out.push((n % 256) as u8);
    assert(out@ =~= start + be8(n));
}

fn push_framed(out: &mut Vec<u8>, b: &[u8])
    ensures
        final(out)@ == old(out)@ + framed(b@),
{
    let ghost start = out@;
    push_be8(out, b.len() as u64);
    let ghost mid = out@;
    let mut i: usize = 0;
    while i < b.len()
        invariant
            i <= b@.len(),
            out@ == mid + b@.subrange(0, i as int),
        decreases b@.len() - i,
    {
        out.push(b[i]);
        assert(out@ =~= mid + b@.subrange(0, i + 1));
        i = i + 1;
    }
    assert(b@.subrange(0, i as int) =~= b@);
    assert(out@ =~= start + framed(b@));
}

impl State {
    /// The digest over every (key, encoding, content digest) of the store.
    pub fn root_hash(&self) -> (r: Vec<u8>)
        ensures
            r@ == root_of(self@.assets),
    {
        let leaves = self.certified_leaves();
        let bytes = concat_chunks(&leaves);
        sha256(bytes.as_slice())
    }

    /// The leaves of the certification in increasing order. With them a client
    /// recomputes the root and finds the record of what it was served.
    pub fn certified_leaves(&self) -> (r: Vec<Vec<u8>>)
        ensures
            r.deep_view() == canonical(leaf_set(self@.assets)),
            sorted_strict(r.deep_view()),
            r.deep_view().to_set() == leaf_set(self@.assets),
    {
        let ghost av = self@.assets;
        let mut out: Vec<Vec<u8>> = Vec::new();
        assert(out.deep_view().to_set() =~= records_before(av, 0, 0));
        let mut i: usize = 0;
        while i < self.assets.len()
            invariant
                i <= self.assets@.len(),
                av == self@.assets,
                sorted_strict(out.deep_view()),
                out.deep_view().to_set() == records_before(av, i as int, 0),
            decreases self.assets@.len() - i,
        {
            let a = &self.assets[i];
            let ghost ev = av[i as int].encodings;
            assert(ev =~= encodings_view(a.encodings@));
            let mut j: usize = 0;
            while j < a.encodings.len()
                invariant
                    i < self.assets@.len(),
                    *a == self.assets@[i as int],
                    av == self@.assets,
                    j <= a.encodings@.len(),
                    ev == av[i as int].encodings,
                    ev == encodings_view(a.encodings@),
                    sorted_strict(out.deep_view()),
                    out.deep_view().to_set() == records_before(av, i as int, j as int),
                decreases a.encodings@.len() - j,
            {
                let e = &a.encodings[j];
                let mut rec: Vec<u8> = Vec::new();
                push_framed(&mut rec, a.key.as_str().as_bytes());
                push_framed(&mut rec, e.content_encoding.as_str().as_bytes());
                push_framed(&mut rec, e.sha256.as_slice());
                assert(rec@ =~= pair_record(av, i as int, j as int));
                let ghost old_set = out.deep_view().to_set();
                insert_sorted(&mut out, rec);
                proof {
                    let n = records_before(av, i as int, j + 1);
                    assert(out.deep_view().to_set() =~= n) by {
                        assert forall|r: Seq<u8>| n.contains(r) implies old_set.insert(
                            pair_record(av, i as int, j as int),
                        ).contains(r) by {
                            let (i2, j2) = choose|i2: int, j2: int|
                                0 <= i2 < av.len() && 0 <= j2 < av[i2].encodings.len() && (i2 < i
                                    || (i2 == i && j2 < j + 1)) && r == pair_record(av, i2, j2);
                            if !(i2 == i && j2 == j) {
                                assert(records_before(av, i as int, j as int).contains(r));
                            }
                        }
                        assert forall|r: Seq<u8>| old_set.insert(
                            pair_record(av, i as int, j as int),
                        ).contains(r) implies n.contains(r) by {
                            if r != pair_record(av, i as int, j as int) {
                                let (i2, j2) = choose|i2: int, j2: int|
                                    0 <= i2 < av.len() && 0 <= j2 < av[i2].encodings.len() && (i2
                                        < i || (i2 == i && j2 < j)) && r == pair_record(av, i2, j2);
                            }
                        }
                    }
                }
                j = j + 1;
            }
            proof {
                assert(records_before(av, i as int, j as int) =~= records_before(av, i + 1, 0)) by {
                    assert forall|r: Seq<u8>| records_before(av, i + 1, 0).contains(r) implies records_before(
                        av,
                        i as int,
                        j as int,
                    ).contains(r) by {
                        let (i2, j2) = choose|i2: int, j2: int|
                            0 <= i2 < av.len() && 0 <= j2 < av[i2].encodings.len() && (i2 < i + 1
                                || (i2 == i + 1 && j2 < 0)) && r == pair_record(av, i2, j2);
                    }
                }
            }
            i = i + 1;
        }
        proof {
            let ls = leaf_set(av);
            assert(records_before(av, i as int, 0) =~= ls) by {
                assert forall|r: Seq<u8>| ls.contains(r) implies records_before(
                    av,
                    i as int,
                    0,
                ).contains(r) by {
                    let t = choose|t| cert_pairs(av).contains(t) && r == record_of(t);
                    let (i2, j2) = choose|i2: int, j2: int|
                        0 <= i2 < av.len() && 0 <= j2 < av[i2].encodings.len() && t == (
                            av[i2].key,
                            av[i2].encodings[j2].name,
                            av[i2].encodings[j2].sha256,
                        );
                    assert(r == pair_record(av, i2, j2));
                }
                assert forall|r: Seq<u8>| records_before(av, i as int, 0).contains(r) implies ls.contains(
                    r,
                ) by {
                    let (i2, j2) = choose|i2: int, j2: int|
                        0 <= i2 < av.len() && 0 <= j2 < av[i2].encodings.len() && (i2 < i || (i2
                            == i && j2 < 0)) && r == pair_record(av, i2, j2);
                    let t = (av[i2].key, av[i2].encodings[j2].name, av[i2].encodings[j2].sha256);
                    assert(cert_pairs(av).contains(t));
                }
            }
            let c = canonical(ls);
            assert(sorted_strict(c) && c.to_set() == ls);
            lemma_sorted_unique(out.deep_view(), c);
        }
        out
    }
}

} // verus!
