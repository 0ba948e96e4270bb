//! The token model shared by both tokenizers: a token is a maximal run of
//! ASCII letters, digits and underscores that is at least two bytes long,
//! and tokens compare without regard to ASCII case.
use vstd::prelude::*;

verus! {

/// ASCII letters, digits and `_` make up tokens; every other byte separates them.
pub open spec fn is_token_byte(b: u8) -> bool {
    (48 <= b <= 57) || (65 <= b <= 90) || (97 <= b <= 122) || b == 95
}

/// The ASCII lowercase of a byte (other bytes unchanged).
pub open spec fn lower_byte(b: u8) -> u8 {
    if 65 <= b <= 90 {
        (b + 32) as u8
    } else {
        b
    }
}

/// The ASCII lowercase of a byte sequence.
pub open spec fn lower_bytes(s: Seq<u8>) -> Seq<u8> {
    s.map_values(|b: u8| lower_byte(b))
}

/// The number of token bytes at the front of `s`.
pub open spec fn run_len(s: Seq<u8>) -> nat
    decreases s.len(),
{
    if s.len() > 0 && is_token_byte(s[0]) {
        1 + run_len(s.drop_first())
    } else {
        0
    }
}

pub proof fn lemma_run_len_bound(s: Seq<u8>)
    ensures
        run_len(s) <= s.len(),
        s.len() > 0 && is_token_byte(s[0]) ==> run_len(s) >= 1,
    decreases s.len(),
{
    if s.len() > 0 && is_token_byte(s[0]) {
        lemma_run_len_bound(s.drop_first());
    }
}

/// The tokens of `s`, in order: its maximal runs of token bytes that are at
/// least two bytes long.
pub open spec fn byte_tokens(s: Seq<u8>) -> Seq<Seq<u8>>
    decreases s.len(),
{
    if s.len() == 0 {
        Seq::empty()
    } else if !is_token_byte(s[0]) {
        byte_tokens(s.drop_first())
    } else {
        proof {
            lemma_run_len_bound(s);
        }
        let n = run_len(s);
        (if n >= 2 {
            seq![s.take(n as int)]
        } else {
            Seq::empty()
        }) + byte_tokens(s.skip(n as int))
    }
}

pub const FNV_OFFSET: u64 = 0xcbf29ce484222325u64;

pub const FNV_PRIME: u64 = 0x100000001b3u64;

/// One FNV-1a step on the lowercased byte, modulo 2^64.
pub open spec fn fnv_step(h: u64, b: u8) -> u64 {
    (((h ^ (lower_byte(b) as u64)) as nat * FNV_PRIME as nat) % 0x1_0000_0000_0000_0000nat) as u64
}

/// The 64-bit FNV-1a hash of the ASCII lowercase of `s`.
pub open spec fn fnv_hash(s: Seq<u8>) -> u64
    decreases s.len(),
{
    if s.len() == 0 {
        FNV_OFFSET
    } else {
        fnv_step(fnv_hash(s.drop_last()), s.last())
    }
}

/// Hashes of the tokens of `s`.
pub open spec fn hashed_tokens(s: Seq<u8>) -> Seq<u64> {
    byte_tokens(s).map_values(|t: Seq<u8>| fnv_hash(t))
}

/// Reading a run of token bytes from position `i` to `j`.
pub proof fn lemma_run_len_skip(s: Seq<u8>, i: int, j: int)
    requires
        0 <= i <= j <= s.len(),
        forall|k: int| i <= k < j ==> is_token_byte(#[trigger] s[k]),
    ensures
        run_len(s.skip(i)) == (j - i) + run_len(s.skip(j)),
    decreases j - i,
{
    if i < j {
        assert(s.skip(i).drop_first() =~= s.skip(i + 1));
        assert(s.skip(i)[0] == s[i]);
        lemma_run_len_skip(s, i + 1, j);
    }
}

/// Stepping over a separator byte.
pub proof fn lemma_tokens_skip_separator(s: Seq<u8>, i: int)
    requires
        0 <= i < s.len(),
        !is_token_byte(s[i]),
    ensures
        byte_tokens(s.skip(i)) == byte_tokens(s.skip(i + 1)),
{
    assert(s.skip(i).drop_first() =~= s.skip(i + 1));
    assert(s.skip(i)[0] == s[i]);
}

/// Stepping over a maximal run of token bytes from `i` to `j`.
pub proof fn lemma_tokens_skip_run(s: Seq<u8>, i: int, j: int)
    requires
        0 <= i < j <= s.len(),
        forall|k: int| i <= k < j ==> is_token_byte(#[trigger] s[k]),
        j == s.len() || !is_token_byte(s[j]),
    ensures
        byte_tokens(s.skip(i)) == (if j - i >= 2 {
            seq![s.subrange(i, j)]
        } else {
            Seq::empty()
        }) + byte_tokens(s.skip(j)),
{
    lemma_run_len_skip(s, i, j);
    if j < s.len() {
        assert(s.skip(j)[0] == s[j]);
    }
    assert(run_len(s.skip(i)) == j - i);
    assert(s.skip(i)[0] == s[i]);
    assert(s.skip(i).skip(j - i) =~= s.skip(j));
    assert(s.skip(i).take(j - i) =~= s.subrange(i, j));
}

/// The hash of a run of bytes, extended by one byte.
pub proof fn lemma_fnv_extend(s: Seq<u8>, i: int, j: int)
    requires
        0 <= i <= j < s.len(),
    ensures
        fnv_hash(s.subrange(i, j + 1)) == fnv_step(fnv_hash(s.subrange(i, j)), s[j]),
{
    assert(s.subrange(i, j + 1).drop_last() =~= s.subrange(i, j));
}

/// Hashing ignores ASCII case: two byte sequences whose ASCII lowercases
/// are equal have equal hashes.
pub proof fn lemma_hash_ignores_case(a: Seq<u8>, b: Seq<u8>)
    requires
        lower_bytes(a) == lower_bytes(b),
    ensures
        fnv_hash(a) == fnv_hash(b),
    decreases a.len(),
{
    assert(lower_bytes(a).len() == a.len());
    assert(lower_bytes(b).len() == b.len());
    if a.len() > 0 {
        assert(lower_bytes(a.drop_last()) =~= lower_bytes(a).drop_last());
        assert(lower_bytes(b.drop_last()) =~= lower_bytes(b).drop_last());
        lemma_hash_ignores_case(a.drop_last(), b.drop_last());
        assert(lower_bytes(a)[a.len() - 1] == lower_bytes(b)[b.len() - 1]);
    }
}


/// The ASCII uppercase of a byte (other bytes unchanged).
pub open spec fn upper_byte(b: u8) -> u8 {
    if 97 <= b <= 122 {
        (b - 32) as u8
    } else {
        b
    }
}

/// The ASCII uppercase of a byte sequence.
pub open spec fn upper_bytes(s: Seq<u8>) -> Seq<u8> {
    s.map_values(|b: u8| upper_byte(b))
}

/// Two byte sequences that differ at most in ASCII case: the same length,
/// token bytes at the same places, and the same lowercase.
pub open spec fn same_but_case(a: Seq<u8>, b: Seq<u8>) -> bool {
    &&& a.len() == b.len()
    &&& forall|i: int|
        0 <= i < a.len() ==> is_token_byte(#[trigger] a[i]) == is_token_byte(b[i]) && lower_byte(a[i])
            == lower_byte(b[i])
}

proof fn lemma_run_len_same_but_case(a: Seq<u8>, b: Seq<u8>)
    requires
        same_but_case(a, b),
    ensures
        run_len(a) == run_len(b),
    decreases a.len(),
{
    if a.len() > 0 && is_token_byte(a[0]) {
        assert(is_token_byte(b[0]));
        assert(same_but_case(a.drop_first(), b.drop_first())) by {
            assert forall|i: int| 0 <= i < a.drop_first().len() implies is_token_byte(
                #[trigger] a.drop_first()[i],
            ) == is_token_byte(b.drop_first()[i]) && lower_byte(a.drop_first()[i]) == lower_byte(
                b.drop_first()[i],
            ) by {
                assert(a.drop_first()[i] == a[i + 1]);
                assert(b.drop_first()[i] == b[i + 1]);
            }
        }
        lemma_run_len_same_but_case(a.drop_first(), b.drop_first());
    } else if a.len() > 0 {
        assert(!is_token_byte(b[0]));
    }
}

/// Changing ASCII case leaves the tokens in place: as many tokens, each
/// with the same lowercase.
pub proof fn lemma_tokens_same_but_case(a: Seq<u8>, b: Seq<u8>)
    requires
        same_but_case(a, b),
    ensures
        byte_tokens(a).len() == byte_tokens(b).len(),
        forall|i: int|
            0 <= i < byte_tokens(a).len() ==> lower_bytes(#[trigger] byte_tokens(a)[i]) == lower_bytes(
                byte_tokens(b)[i],
            ),
    decreases a.len(),
{
    if a.len() == 0 {
    } else if !is_token_byte(a[0]) {
        assert(!is_token_byte(b[0]));
        assert(same_but_case(a.drop_first(), b.drop_first())) by {
            assert forall|i: int| 0 <= i < a.drop_first().len() implies is_token_byte(
                #[trigger] a.drop_first()[i],
            ) == is_token_byte(b.drop_first()[i]) && lower_byte(a.drop_first()[i]) == lower_byte(
                b.drop_first()[i],
            ) by {
                assert(a.drop_first()[i] == a[i + 1]);
                assert(b.drop_first()[i] == b[i + 1]);
            }
        }
        lemma_tokens_same_but_case(a.drop_first(), b.drop_first());
    } else {
        lemma_run_len_same_but_case(a, b);
        lemma_run_len_bound(a);
        let n = run_len(a) as int;
        assert(same_but_case(a.skip(n), b.skip(n))) by {
            assert forall|i: int| 0 <= i < a.skip(n).len() implies is_token_byte(#[trigger] a.skip(n)[i])
                == is_token_byte(b.skip(n)[i]) && lower_byte(a.skip(n)[i]) == lower_byte(b.skip(n)[i]) by {
                assert(a.skip(n)[i] == a[i + n]);
                assert(b.skip(n)[i] == b[i + n]);
            }
        }
        lemma_tokens_same_but_case(a.skip(n), b.skip(n));
        let ra = byte_tokens(a.skip(n));
        let rb = byte_tokens(b.skip(n));
        assert(lower_bytes(a.take(n)) =~= lower_bytes(b.take(n))) by {
            assert forall|k: int| 0 <= k < n implies lower_bytes(a.take(n))[k] == lower_bytes(b.take(n))[k] by {
                assert(a.take(n)[k] == a[k]);
                assert(b.take(n)[k] == b[k]);
            }
        }
        if n >= 2 {
            let ta = seq![a.take(n)] + ra;
            let tb = seq![b.take(n)] + rb;
            assert(byte_tokens(a) == ta);
            assert(byte_tokens(b) == tb);
            assert forall|i: int| 0 <= i < ta.len() implies lower_bytes(#[trigger] ta[i]) == lower_bytes(tb[i]) by {
                if i > 0 {
                    assert(ta[i] == ra[i - 1]);
                    assert(tb[i] == rb[i - 1]);
                }
            }
        } else {
            assert(byte_tokens(a) =~= ra);
            assert(byte_tokens(b) =~= rb);
        }
    }
}

/// Every byte of a run at the front is a token byte.
proof fn lemma_run_is_tokens(s: Seq<u8>)
    ensures
        run_len(s) <= s.len(),
        forall|k: int| 0 <= k < run_len(s) ==> is_token_byte(#[trigger] s[k]),
    decreases s.len(),
{
    lemma_run_len_bound(s);
    if s.len() > 0 && is_token_byte(s[0]) {
        lemma_run_is_tokens(s.drop_first());
        assert forall|k: int| 0 <= k < run_len(s) implies is_token_byte(#[trigger] s[k]) by {
            if k > 0 {
                assert(s[k] == s.drop_first()[k - 1]);
            }
        }
    }
}

/// Each token is at least two bytes long and made of token bytes.
pub proof fn lemma_token_shape(s: Seq<u8>)
    ensures
        forall|i: int| 0 <= i < byte_tokens(s).len() ==> (#[trigger] byte_tokens(s)[i]).len() >= 2,
        forall|i: int, k: int|
            0 <= i < byte_tokens(s).len() && 0 <= k < byte_tokens(s)[i].len() ==> is_token_byte(
                #[trigger] byte_tokens(s)[i][k],
            ),
    decreases s.len(),
{
    if s.len() == 0 {
    } else if !is_token_byte(s[0]) {
        lemma_token_shape(s.drop_first());
        assert(byte_tokens(s) == byte_tokens(s.drop_first()));
    } else {
        lemma_run_is_tokens(s);
        lemma_run_len_bound(s);
        let n = run_len(s) as int;
        lemma_token_shape(s.skip(n));
        let r = byte_tokens(s.skip(n));
        if n >= 2 {
            let t = seq![s.take(n)] + r;
            assert(byte_tokens(s) == t);
            assert forall|i: int, k: int| 0 <= i < t.len() && 0 <= k < t[i].len() implies is_token_byte(
                #[trigger] t[i][k],
            ) by {
                if i == 0 {
                    assert(t[0] == s.take(n));
                    assert(t[0][k] == s[k]);
                } else {
                    assert(t[i] == r[i - 1]);
                }
            }
            assert forall|i: int| 0 <= i < t.len() implies (#[trigger] t[i]).len() >= 2 by {
                if i > 0 {
                    assert(t[i] == r[i - 1]);
                }
            }
        } else {
            assert(byte_tokens(s) =~= r);
            assert forall|i: int, k: int| 0 <= i < r.len() && 0 <= k < r[i].len() implies is_token_byte(
                #[trigger] byte_tokens(s)[i][k],
            ) by {
                assert(byte_tokens(s)[i] == r[i]);
            }
        }
    }
}

/// Token byte sequences joined by single spaces.
pub open spec fn joined_tokens(ts: Seq<Seq<u8>>) -> Seq<u8>
    decreases ts.len(),
{
    if ts.len() == 0 {
        Seq::empty()
    } else if ts.len() == 1 {
        ts[0]
    } else {
        ts[0] + seq![32u8] + joined_tokens(ts.drop_first())
    }
}

/// Tokens joined by spaces read back as the same tokens.
pub proof fn lemma_tokens_of_joined(ts: Seq<Seq<u8>>)
    requires
        forall|i: int| 0 <= i < ts.len() ==> (#[trigger] ts[i]).len() >= 2,
        forall|i: int, k: int| 0 <= i < ts.len() && 0 <= k < ts[i].len() ==> is_token_byte(#[trigger] ts[i][k]),
    ensures
        byte_tokens(joined_tokens(ts)) == ts,
    decreases ts.len(),
{
    if ts.len() == 0 {
        assert(byte_tokens(Seq::<u8>::empty()) =~= ts);
    } else {
        let t = ts[0];
        let rest: Seq<u8> = if ts.len() == 1 {
            Seq::empty()
        } else {
            seq![32u8] + joined_tokens(ts.drop_first())
        };
        let s = joined_tokens(ts);
        assert(s =~= t + rest);
        let j = t.len() as int;
        assert forall|k: int| 0 <= k < j implies is_token_byte(#[trigger] s[k]) by {
            assert(s[k] == ts[0][k]);
        }
        if ts.len() > 1 {
            assert(s[j] == 32u8);
        }
        lemma_tokens_skip_run(s, 0, j);
        assert(s.skip(0) =~= s);
        assert(s.subrange(0, j) =~= t);
        assert(s.skip(j) =~= rest);
        if ts.len() == 1 {
            assert(byte_tokens(rest) =~= Seq::<Seq<u8>>::empty());
            assert(byte_tokens(s) =~= ts);
        } else {
            let d = ts.drop_first();
            assert forall|i: int| 0 <= i < d.len() implies (#[trigger] d[i]).len() >= 2 by {
                assert(d[i] == ts[i + 1]);
            }
            assert forall|i: int, k: int| 0 <= i < d.len() && 0 <= k < d[i].len() implies is_token_byte(
                #[trigger] d[i][k],
            ) by {
                assert(d[i] == ts[i + 1]);
            }
            lemma_tokens_of_joined(d);
            lemma_tokens_skip_separator(rest, 0);
            assert(rest.skip(0) =~= rest);
            assert(rest.skip(1) =~= joined_tokens(d));
            assert(byte_tokens(s) =~= seq![t] + d);
            assert(seq![t] + d =~= ts);
        }
    }
}


/// A run of token bytes at the front stops at a separator that follows it.
proof fn lemma_run_len_stops(a: Seq<u8>, y: Seq<u8>)
    requires
        y.len() > 0,
        !is_token_byte(y[0]),
    ensures
        run_len(a + y) == run_len(a),
    decreases a.len(),
{
    if a.len() == 0 {
        assert(a + y =~= y);
    } else {
        assert((a + y)[0] == a[0]);
        assert((a + y).drop_first() =~= a.drop_first() + y);
        lemma_run_len_stops(a.drop_first(), y);
    }
}

/// A separator byte splits the tokens: those of `a + [c] + b` are the
/// tokens of `a` followed by the tokens of `b`.
pub proof fn lemma_tokens_split(a: Seq<u8>, c: u8, b: Seq<u8>)
    requires
        !is_token_byte(c),
    ensures
        byte_tokens(a + seq![c] + b) == byte_tokens(a) + byte_tokens(b),
    decreases a.len(),
{
    let y = seq![c] + b;
    let s = a + seq![c] + b;
    assert(s =~= a + y);
    if a.len() == 0 {
        assert(s =~= y);
        assert(y.drop_first() =~= b);
        assert(byte_tokens(a) =~= Seq::<Seq<u8>>::empty());
        assert(byte_tokens(s) =~= byte_tokens(a) + byte_tokens(b));
    } else if !is_token_byte(a[0]) {
        assert(s[0] == a[0]);
        assert(s.drop_first() =~= a.drop_first() + seq![c] + b);
        lemma_tokens_split(a.drop_first(), c, b);
        assert(byte_tokens(s) =~= byte_tokens(a) + byte_tokens(b));
    } else {
        assert(s[0] == a[0]);
        lemma_run_len_stops(a, y);
        lemma_run_len_bound(a);
        let n = run_len(a) as int;
        assert(s.take(n) =~= a.take(n));
        assert(s.skip(n) =~= a.skip(n) + seq![c] + b);
        lemma_tokens_split(a.skip(n), c, b);
        let first: Seq<Seq<u8>> = if n >= 2 {
            seq![a.take(n)]
        } else {
            Seq::empty()
        };
        assert(byte_tokens(a) == first + byte_tokens(a.skip(n)));
        assert(byte_tokens(s) == first + byte_tokens(s.skip(n)));
        assert(byte_tokens(s) =~= byte_tokens(a) + byte_tokens(b));
    }
}

/// A sequence of token bytes alone is one token when it has two bytes or
/// more, and no token otherwise.
pub proof fn lemma_tokens_word(t: Seq<u8>)
    requires
        forall|k: int| 0 <= k < t.len() ==> is_token_byte(#[trigger] t[k]),
    ensures
        byte_tokens(t) == if t.len() >= 2 {
            seq![t]
        } else {
            Seq::<Seq<u8>>::empty()
        },
{
    if t.len() > 0 {
        lemma_tokens_skip_run(t, 0, t.len() as int);
        assert(t.skip(0) =~= t);
        assert(t.subrange(0, t.len() as int) =~= t);
        assert(t.skip(t.len() as int) =~= Seq::<u8>::empty());
        assert(byte_tokens(Seq::<u8>::empty()) =~= Seq::<Seq<u8>>::empty());
        if t.len() >= 2 {
            assert(byte_tokens(t) =~= seq![t]);
        } else {
            assert(byte_tokens(t) =~= Seq::<Seq<u8>>::empty());
        }
    } else {
        assert(byte_tokens(t) =~= Seq::<Seq<u8>>::empty());
    }
}

} // verus!
