//! Sorted sets of document numbers kept in vectors.
use vstd::prelude::*;

verus! {

/// Each element is smaller than the next.
pub open spec fn strictly_increasing_u32(s: Seq<u32>) -> bool {
    forall|i: int, j: int| 0 <= i < j < s.len() ==> s[i] < s[j]
}

/// Each element is smaller than the next.
pub open spec fn strictly_increasing_usize(s: Seq<usize>) -> bool {
    forall|i: int, j: int| 0 <= i < j < s.len() ==> s[i] < s[j]
}

/// Appending `x` adds exactly `x` to what a sequence contains.
pub proof fn lemma_push_contains<A>(s: Seq<A>, x: A)
    ensures
        forall|y: A| #[trigger] s.push(x).contains(y) <==> (s.contains(y) || y == x),
{
    assert forall|y: A| #[trigger] s.push(x).contains(y) <==> (s.contains(y) || y == x) by {
        if s.push(x).contains(y) {
            let i = choose|i: int| 0 <= i < s.push(x).len() && s.push(x)[i] == y;
            if i < s.len() {
                assert(s[i] == y);
            }
        }
        if s.contains(y) {
            let i = choose|i: int| 0 <= i < s.len() && s[i] == y;
            assert(s.push(x)[i] == y);
        }
        if y == x {
            assert(s.push(x)[s.len() as int] == y);
        }
    }
}

/// Adds `x` to a strictly increasing vector, keeping it strictly increasing.
pub fn insert_sorted_u32(v: &mut Vec<u32>, x: u32)
    requires
        strictly_increasing_u32(old(v)@),
    ensures
        strictly_increasing_u32(final(v)@),
        forall|d: u32| #![trigger final(v)@.contains(d)] final(v)@.contains(d) <==> (old(v)@.contains(d) || d == x),
{
    let mut k: usize = 0;
    while k < v.len() && v[k] < x
        invariant
            k <= v.len(),
            v@ == old(v)@,
            forall|i: int| 0 <= i < k ==> v@[i] < x,
        decreases v.len() - k,
    {
        k += 1;
    }
    if k < v.len() && v[k] == x {
        proof {
            assert(v@[k as int] == x);
            assert(v@.contains(x));
        }
        return ;
    }
    let ghost before = v@;
    v.insert(k, x);
    proof {
        assert forall|d: u32| #![trigger v@.contains(d)] v@.contains(d) <==> (before.contains(d) || d == x) by {
            if v@.contains(d) {
                let i = choose|i: int| 0 <= i < v@.len() && v@[i] == d;
                if i < k {
                    assert(before[i] == d);
                } else if i > k {
                    assert(before[i - 1] == d);
                }
            }
            if before.contains(d) {
                let i = choose|i: int| 0 <= i < before.len() && before[i] == d;
                if i < k {
                    assert(v@[i] == d);
                } else {
                    assert(v@[i + 1] == d);
                }
            }
            if d == x {
                assert(v@[k as int] == x);
            }
        }
    }
}

/// Adds `x` to a strictly increasing vector, keeping it strictly increasing.
pub fn insert_sorted_usize(v: &mut Vec<usize>, x: usize)
    requires
        strictly_increasing_usize(old(v)@),
    ensures
        strictly_increasing_usize(final(v)@),
        forall|d: usize| #![trigger final(v)@.contains(d)] final(v)@.contains(d) <==> (old(v)@.contains(d) || d == x),
{
    let mut k: usize = 0;
    while k < v.len() && v[k] < x
        invariant
            k <= v.len(),
            v@ == old(v)@,
            forall|i: int| 0 <= i < k ==> v@[i] < x,
        decreases v.len() - k,
    {
        k += 1;
    }
    if k < v.len() && v[k] == x {
        proof {
            assert(v@[k as int] == x);
            assert(v@.contains(x));
        }
        return ;
    }
    let ghost before = v@;
    v.insert(k, x);
    proof {
        assert forall|d: usize| #![trigger v@.contains(d)] v@.contains(d) <==> (before.contains(d) || d == x) by {
            if v@.contains(d) {
                let i = choose|i: int| 0 <= i < v@.len() && v@[i] == d;
                if i < k {
                    assert(before[i] == d);
                } else if i > k {
                    assert(before[i - 1] == d);
                }
            }
            if before.contains(d) {
                let i = choose|i: int| 0 <= i < before.len() && before[i] == d;
                if i < k {
                    assert(v@[i] == d);
                } else {
                    assert(v@[i + 1] == d);
                }
            }
            if d == x {
                assert(v@[k as int] == x);
            }
        }
    }
}

} // verus!
