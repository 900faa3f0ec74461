//! Ascending listings of serial numbers.
use vstd::prelude::*;

verus! {

/// Strictly ascending.
pub open spec fn ascending(s: Seq<usize>) -> bool {
    forall|i: int, j: int| 0 <= i < j < s.len() ==> s[i] < s[j]
}

/// `s` lists the members of `d` in ascending order, each once.
pub open spec fn lists_in_order(s: Seq<usize>, d: Set<usize>) -> bool {
    ascending(s) && forall|x: usize| s.contains(x) <==> d.contains(x)
}

/// A set has one ascending listing at most.
pub proof fn lemma_listing_unique(s1: Seq<usize>, s2: Seq<usize>, d: Set<usize>)
    requires
        lists_in_order(s1, d),
        lists_in_order(s2, d),
    ensures
        s1 == s2,
    decreases s1.len(),
{
    if s1.len() == 0 {
        if s2.len() > 0 {
            assert(s2.contains(s2[0]));
        }
        assert(s1 =~= s2);
    } else {
        assert(s1.contains(s1[0]));
        if s2.len() == 0 {
            assert(false);
        }
        assert(s2.contains(s2[0]));
        let j1 = choose|j: int| 0 <= j < s2.len() && s2[j] == s1[0];
        let j2 = choose|j: int| 0 <= j < s1.len() && s1[j] == s2[0];
        assert(s1[0] == s2[0]) by {
            if j1 > 0 {
                assert(s2[0] < s2[j1]);
            }
            if j2 > 0 {
                assert(s1[0] < s1[j2]);
            }
        }
        let d1 = d.remove(s1[0]);
        let t1 = s1.drop_first();
        let t2 = s2.drop_first();
        assert forall|x: usize| t1.contains(x) <==> d1.contains(x) by {
            if t1.contains(x) {
                let k = choose|k: int| 0 <= k < t1.len() && t1[k] == x;
                assert(s1[k + 1] == x);
                assert(s1[0] < s1[k + 1]);
            }
            if d1.contains(x) {
                assert(s1.contains(x));
                let k = choose|k: int| 0 <= k < s1.len() && s1[k] == x;
                assert(k != 0);
                assert(t1[k - 1] == x);
            }
        }
        assert forall|x: usize| t2.contains(x) <==> d1.contains(x) by {
            if t2.contains(x) {
                let k = choose|k: int| 0 <= k < t2.len() && t2[k] == x;
                assert(s2[k + 1] == x);
                assert(s2[0] < s2[k + 1]);
            }
            if d1.contains(x) {
                assert(s2.contains(x));
                let k = choose|k: int| 0 <= k < s2.len() && s2[k] == x;
                assert(k != 0);
                assert(t2[k - 1] == x);
            }
        }
        lemma_listing_unique(t1, t2, d1);
        assert(s1 =~= s2) by {
            assert forall|i: int| 0 <= i < s1.len() implies s1[i] == s2[i] by {
                if i > 0 {
                    assert(s1[i] == t1[i - 1]);
                    assert(s2[i] == t2[i - 1]);
                }
            }
        }
    }
}

/// Puts `x` into an ascending list at its place.
pub fn insert_in_order(v: &mut Vec<usize>, x: usize)
    requires
        ascending(old(v)@),
        !old(v)@.contains(x),
    ensures
        ascending(final(v)@),
        forall|y: usize| final(v)@.contains(y) <==> (old(v)@.contains(y) || y == x),
{
    let mut p: usize = 0;
    while p < v.len() && v[p] < x
        invariant
            0 <= p <= v@.len(),
            forall|k: int| 0 <= k < p ==> v@[k] < x,
        decreases v@.len() - p,
    {
        p = p + 1;
    }
    let ghost w = v@;
    proof {
        if p < w.len() {
            assert(w[p as int] != x) by {
                assert(w.contains(w[p as int]));
            }
        }
    }
    v.insert(p, x);
    proof {
        let u = v@;
        assert(u == w.insert(p as int, x));
        assert forall|i: int, j: int| 0 <= i < j < u.len() implies u[i] < u[j] by {
            if j < p {
            } else if j == p {
            } else if i < p {
                assert(u[j] == w[j - 1]);
                assert(w[i] < w[j - 1] || i == j - 1);
            } else if i == p {
                assert(u[j] == w[j - 1]);
                if j - 1 > p {
                    assert(w[p as int] < w[j - 1]);
                }
            } else {
                assert(u[j] == w[j - 1]);
                assert(u[i] == w[i - 1]);
            }
        }
        assert forall|y: usize| u.contains(y) <==> (w.contains(y) || y == x) by {
            if u.contains(y) {
                let k = choose|k: int| 0 <= k < u.len() && u[k] == y;
                if k < p {
                    assert(w[k] == y);
                } else if k > p {
                    assert(w[k - 1] == y);
                }
            }
            if w.contains(y) {
                let k = choose|k: int| 0 <= k < w.len() && w[k] == y;
                if k < p {
                    assert(u[k] == y);
                } else {
                    assert(u[k + 1] == y);
                }
            }
            if y == x {
                assert(u[p as int] == x);
            }
        }
    }
}

} // verus!
