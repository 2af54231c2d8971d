//! Sets of id pairs, held as strictly ascending sequences so that each set
//! has exactly one order.

use vstd::prelude::*;

verus! {

/// Lexicographic order on id pairs.
pub open spec fn pair_lt(p: (u32, u32), q: (u32, u32)) -> bool {
    p.0 < q.0 || (p.0 == q.0 && p.1 < q.1)
}

/// Whether `s` is strictly ascending.
pub open spec fn ascending(s: Seq<(u32, u32)>) -> bool {
    forall|i: int, j: int| 0 <= i < j < s.len() ==> pair_lt(#[trigger] s[i], #[trigger] s[j])
}

/// Two ascending sequences that hold the same pairs are equal.
pub proof fn lemma_ascending_unique(s: Seq<(u32, u32)>, t: Seq<(u32, u32)>)
    requires
        ascending(s),
        ascending(t),
        forall|p: (u32, u32)| s.contains(p) <==> t.contains(p),
    ensures
        s == t,
    decreases s.len() + t.len(),
{
    if s.len() == 0 {
        if t.len() > 0 {
            assert(t.contains(t[0]));
        }
        assert(s =~= t);
    } else if t.len() == 0 {
        assert(s.contains(s[0]));
    } else {
        assert(s.contains(s[0]));
        assert(t.contains(t[0]));
        let j = choose|j: int| 0 <= j < s.len() && s[j] == t[0];
        let k = choose|k: int| 0 <= k < t.len() && t[k] == s[0];
        if j > 0 {
            assert(pair_lt(s[0], s[j]));
            if k > 0 {
                assert(pair_lt(t[0], t[k]));
            }
        }
        assert(s[0] == t[0]);
        let s1 = s.drop_first();
        let t1 = t.drop_first();
        assert forall|p: (u32, u32)| s1.contains(p) <==> t1.contains(p) by {
            if s1.contains(p) {
                let a = choose|a: int| 0 <= a < s1.len() && s1[a] == p;
                assert(s.contains(p));
                assert(pair_lt(s[0], s[a + 1]));
                let b = choose|b: int| 0 <= b < t.len() && t[b] == p;
                assert(b != 0);
                assert(t1[b - 1] == p);
            }
            if t1.contains(p) {
                let a = choose|a: int| 0 <= a < t1.len() && t1[a] == p;
                assert(t.contains(p));
                assert(pair_lt(t[0], t[a + 1]));
                let b = choose|b: int| 0 <= b < s.len() && s[b] == p;
                assert(b != 0);
                assert(s1[b - 1] == p);
            }
        }
        lemma_ascending_unique(s1, t1);
        assert(s =~= seq![s[0]] + s1);
        assert(t =~= seq![t[0]] + t1);
    }
}

/// Whether `p` comes before `q`.
pub fn less(p: (u32, u32), q: (u32, u32)) -> (r: bool)
    ensures
        r == pair_lt(p, q),
{
    p.0 < q.0 || (p.0 == q.0 && p.1 < q.1)
}

/// Adds `p` to the ascending sequence `v`, unless it is there already.
pub fn insert_pair(v: &mut Vec<(u32, u32)>, p: (u32, u32))
    requires
        ascending(old(v)@),
    ensures
        ascending(final(v)@),
        forall|q: (u32, u32)| #[trigger] final(v)@.contains(q) <==> (old(v)@.contains(q) || q == p),
{
    let mut i: usize = 0;
    while i < v.len() && less(v[i], p)
        invariant
            ascending(v@),
            v@ == old(v)@,
            i <= v@.len(),
            forall|j: int| 0 <= j < i ==> pair_lt(#[trigger] v@[j], p),
        decreases v@.len() - i,
    {
        i = i + 1;
    }
    let ghost before = v@;
    if i < v.len() && v[i].0 == p.0 && v[i].1 == p.1 {
        assert(v@[i as int] == p);
        assert(v@.contains(p));
        return;
    }
    v.insert(i, p);
    proof {
        assert forall|a: int, b: int| 0 <= a < b < v@.len() implies pair_lt(#[trigger] v@[a], #[trigger] v@[b]) by {
            if b < i {
            } else if a < i && b == i {
            } else if a < i {
                assert(v@[b] == before[b - 1]);
            } else if a == i {
                assert(v@[b] == before[b - 1]);
                assert(!pair_lt(before[i as int], p));
                if b - 1 > i {
                    assert(pair_lt(before[i as int], before[b - 1]));
                }
            } else {
                assert(v@[a] == before[a - 1]);
                assert(v@[b] == before[b - 1]);
            }
        }
        assert forall|q: (u32, u32)| #[trigger] v@.contains(q) <==> (before.contains(q) || q == p) by {
            if v@.contains(q) {
                let a = choose|a: int| 0 <= a < v@.len() && v@[a] == q;
                if a < i {
                    assert(before[a] == q);
                } else if a > i {
                    assert(before[a - 1] == q);
                }
            }
            if before.contains(q) {
                let a = choose|a: int| 0 <= a < before.len() && before[a] == q;
                if a < i {
                    assert(v@[a] == q);
                } else {
                    assert(v@[a + 1] == q);
                }
            }
            if q == p {
                assert(v@[i as int] == q);
            }
        }
        assert(before == old(v)@);
    }
}

} // verus!
