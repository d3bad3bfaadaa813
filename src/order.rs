use vstd::prelude::*;

verus! {

/// Lexicographic order on byte strings, a proper prefix coming first.
pub open spec fn lex_lt(a: Seq<u8>, b: Seq<u8>) -> bool
    decreases a.len(),
{
    if a.len() == 0 {
        b.len() > 0
    } else if b.len() == 0 {
        false
    } else if a[0] != b[0] {
        a[0] < b[0]
    } else {
        lex_lt(a.skip(1), b.skip(1))
    }
}

/// Every element comes strictly before the ones after it.
pub open spec fn sorted_strict(s: Seq<Seq<u8>>) -> bool {
    forall|i: int, j: int| 0 <= i < j < s.len() ==> lex_lt(#[trigger] s[i], #[trigger] s[j])
}

pub proof fn lemma_lex_irreflexive(a: Seq<u8>)
    ensures
        !lex_lt(a, a),
    decreases a.len(),
{
    if a.len() > 0 {
        lemma_lex_irreflexive(a.skip(1));
    }
}

pub proof fn lemma_lex_transitive(a: Seq<u8>, b: Seq<u8>, c: Seq<u8>)
    requires
        lex_lt(a, b),
        lex_lt(b, c),
    ensures
        lex_lt(a, c),
    decreases a.len(),
{
    if a.len() > 0 && b.len() > 0 && c.len() > 0 && a[0] == b[0] && b[0] == c[0] {
        lemma_lex_transitive(a.skip(1), b.skip(1), c.skip(1));
    }
}

pub proof fn lemma_lex_total(a: Seq<u8>, b: Seq<u8>)
    requires
        a != b,
    ensures
        lex_lt(a, b) || lex_lt(b, a),
    decreases a.len(),
{
    if a.len() == 0 && b.len() == 0 {
        assert(a =~= b);
    } else if a.len() > 0 && b.len() > 0 && a[0] == b[0] {
        if a.skip(1) == b.skip(1) {
            assert(a =~= seq![a[0]] + a.skip(1));
            assert(b =~= seq![b[0]] + b.skip(1));
        }
        lemma_lex_total(a.skip(1), b.skip(1));
    }
}

pub proof fn lemma_lex_asymmetric(a: Seq<u8>, b: Seq<u8>)
    requires
        lex_lt(a, b),
    ensures
        !lex_lt(b, a),
{
    if lex_lt(b, a) {
        lemma_lex_transitive(a, b, a);
        lemma_lex_irreflexive(a);
    }
}

/// Two strictly sorted sequences with the same elements are equal.
pub proof fn lemma_sorted_unique(s1: Seq<Seq<u8>>, s2: Seq<Seq<u8>>)
    requires
        sorted_strict(s1),
        sorted_strict(s2),
        s1.to_set() == s2.to_set(),
    ensures
        s1 == s2,
    decreases s1.len(),
{
    if s1.len() == 0 {
        if s2.len() > 0 {
            assert(s2.to_set().contains(s2[0]));
        }
        assert(s1 =~= s2);
    } else {
        assert(s1.to_set().contains(s1[0]));
        if s2.len() == 0 {
            assert(false);
        }
        assert(s2.to_set().contains(s2[0]));
        let k = choose|k: int| 0 <= k < s2.len() && s2[k] == s1[0];
        let m = choose|m: int| 0 <= m < s1.len() && s1[m] == s2[0];
        if k > 0 {
            assert(lex_lt(s2[0], s2[k]));
            if m == 0 {
                lemma_lex_irreflexive(s1[0]);
            } else {
                assert(lex_lt(s1[0], s1[m]));
                lemma_lex_asymmetric(s1[0], s1[m]);
            }
        }
        assert(s1[0] == s2[0]);
        let t1 = s1.skip(1);
        let t2 = s2.skip(1);
        assert(sorted_strict(t1)) by {
            assert forall|i: int, j: int| 0 <= i < j < t1.len() implies lex_lt(
                #[trigger] t1[i],
                #[trigger] t1[j],
            ) by {
                assert(t1[i] == s1[i + 1] && t1[j] == s1[j + 1]);
            }
        }
        assert(sorted_strict(t2)) by {
            assert forall|i: int, j: int| 0 <= i < j < t2.len() implies lex_lt(
                #[trigger] t2[i],
                #[trigger] t2[j],
            ) by {
                assert(t2[i] == s2[i + 1] && t2[j] == s2[j + 1]);
            }
        }
        assert forall|x: Seq<u8>| t1.to_set().contains(x) implies t2.to_set().contains(x) by {
            let i = choose|i: int| 0 <= i < t1.len() && t1[i] == x;
            assert(s1[i + 1] == x);
            assert(s1.to_set().contains(x));
            let j = choose|j: int| 0 <= j < s2.len() && s2[j] == x;
            assert(lex_lt(s1[0], s1[i + 1]));
            if j == 0 {
                lemma_lex_irreflexive(x);
            }
            assert(t2[j - 1] == x);
        }
        assert forall|x: Seq<u8>| t2.to_set().contains(x) implies t1.to_set().contains(x) by {
            let i = choose|i: int| 0 <= i < t2.len() && t2[i] == x;
            assert(s2[i + 1] == x);
            assert(s2.to_set().contains(x));
            let j = choose|j: int| 0 <= j < s1.len() && s1[j] == x;
            assert(lex_lt(s2[0], s2[i + 1]));
            if j == 0 {
                lemma_lex_irreflexive(x);
            }
            assert(t1[j - 1] == x);
        }
        assert(t1.to_set() =~= t2.to_set());
        lemma_sorted_unique(t1, t2);
        assert(s1 =~= s2) by {
            assert forall|i: int| 0 <= i < s1.len() implies s1[i] == s2[i] by {
                if i > 0 {
                    assert(s1[i] == t1[i - 1]);
                    assert(s2[i] == t2[i - 1]);
                }
            }
        }
    }
}

/// Whether `a` comes before `b` in lexicographic order.
pub fn lex_less(a: &[u8], b: &[u8]) -> (r: bool)
    ensures
        r == lex_lt(a@, b@),
{
    let mut i: usize = 0;
    assert(a@.skip(0) =~= a@ && b@.skip(0) =~= b@);
    while i < a.len() && i < b.len()
        invariant
            i <= a@.len(),
            i <= b@.len(),
            lex_lt(a@, b@) == lex_lt(a@.skip(i as int), b@.skip(i as int)),
        decreases a@.len() - i,
    {
        if a[i] != b[i] {
            return a[i] < b[i];
        }
        assert(a@.skip(i as int).skip(1) =~= a@.skip(i + 1));
        assert(b@.skip(i as int).skip(1) =~= b@.skip(i + 1));
        i = i + 1;
    }
    i == a.len() && i < b.len()
}

/// Adds `r` to a strictly sorted vector, keeping it strictly sorted.
pub fn insert_sorted(out: &mut Vec<Vec<u8>>, r: Vec<u8>)
    requires
        sorted_strict(old(out).deep_view()),
    ensures
        sorted_strict(final(out).deep_view()),
        final(out).deep_view().to_set() == old(out).deep_view().to_set().insert(r@),
{
    let ghost s = out.deep_view();
    let mut p: usize = 0;
    while p < out.len() && lex_less(out[p].as_slice(), r.as_slice())
        invariant
            p <= out@.len(),
            s == out.deep_view(),
            forall|k: int| 0 <= k < p ==> lex_lt(#[trigger] s[k], r@),
        decreases out@.len() - p,
    {
        assert(s[p as int] =~= out@[p as int]@);
        p = p + 1;
    }
    if p < out.len() {
        assert(s[p as int] =~= out@[p as int]@);
        assert(!lex_lt(s[p as int], r@));
        if crate::digest::bytes_eq(out[p].as_slice(), r.as_slice()) {
            assert(s.to_set().insert(r@) =~= s.to_set()) by {
                assert(s.to_set().contains(s[p as int]));
            }
            return;
        }
        proof {
            lemma_lex_total(s[p as int], r@);
        }
    }
    assert forall|k: int| p <= k < s.len() implies lex_lt(r@, #[trigger] s[k]) by {
        if k > p {
            lemma_lex_transitive(r@, s[p as int], s[k]);
        }
    }
    let ghost rv = r@;
    assert(r.deep_view() =~= r@);
    out.insert(p, r);
    let ghost n = out.deep_view();
    assert(n =~= s.insert(p as int, rv));
    assert forall|i: int, j: int| 0 <= i < j < n.len() implies lex_lt(
        #[trigger] n[i],
        #[trigger] n[j],
    ) by {
        if j < p {
        } else if j == p {
        } else if i < p {
            lemma_lex_transitive(n[i], rv, n[j]);
        } else if i == p {
        } else {
            assert(n[i] == s[i - 1] && n[j] == s[j - 1]);
        }
    }
    assert(n.to_set() =~= s.to_set().insert(rv)) by {
        assert forall|x: Seq<u8>| n.to_set().contains(x) implies s.to_set().insert(rv).contains(x) by {
            let i = choose|i: int| 0 <= i < n.len() && n[i] == x;
            if i < p {
                assert(s[i] == x);
            } else if i > p {
                assert(s[i - 1] == x);
            }
        }
        assert forall|x: Seq<u8>| s.to_set().insert(rv).contains(x) implies n.to_set().contains(x) by {
            if x == rv {
                assert(n[p as int] == x);
            } else {
                let i = choose|i: int| 0 <= i < s.len() && s[i] == x;
                if i < p {
                    assert(n[i] == x);
                } else {
                    assert(n[i + 1] == x);
                }
            }
        }
    }
}

} // verus!
