//! Counting the pieces of a kind in a sequence, and what a permutation of the
//! sixteen pieces holds of each kind.
use vstd::prelude::*;

verus! {

/// The number of pieces of `s` that satisfy `f`.
pub open spec fn count(s: Seq<u8>, f: spec_fn(u8) -> bool) -> int
    decreases s.len(),
{
    if s.len() == 0 {
        0
    } else {
        count(s.drop_last(), f) + if f(s.last()) {
            1int
        } else {
            0int
        }
    }
}

/// The number of values below `n` that satisfy `f`.
pub open spec fn count_below(n: int, f: spec_fn(u8) -> bool) -> int
    decreases n,
{
    if n <= 0 {
        0
    } else {
        count_below(n - 1, f) + if f((n - 1) as u8) {
            1int
        } else {
            0int
        }
    }
}

/// No piece occurs twice in `s`, and each is below `n`.
pub open spec fn distinct_below(s: Seq<u8>, n: int) -> bool {
    &&& forall|i: int| 0 <= i < s.len() ==> #[trigger] s[i] < n
    &&& forall|i: int, j: int| 0 <= i < j < s.len() ==> s[i] != s[j]
}

pub proof fn lemma_count_bounds(s: Seq<u8>, f: spec_fn(u8) -> bool)
    ensures
        0 <= count(s, f) <= s.len(),
    decreases s.len(),
{
    if s.len() > 0 {
        lemma_count_bounds(s.drop_last(), f);
    }
}

/// Counting the first `i + 1` pieces.
pub proof fn lemma_count_take(s: Seq<u8>, i: int, f: spec_fn(u8) -> bool)
    requires
        0 <= i < s.len(),
    ensures
        count(s.take(i + 1), f) == count(s.take(i), f) + if f(s[i]) {
            1int
        } else {
            0int
        },
{
    assert(s.take(i + 1).drop_last() =~= s.take(i));
}

pub proof fn lemma_count_concat(a: Seq<u8>, b: Seq<u8>, f: spec_fn(u8) -> bool)
    ensures
        count(a + b, f) == count(a, f) + count(b, f),
    decreases b.len(),
{
    if b.len() == 0 {
        assert(a + b =~= a);
    } else {
        lemma_count_concat(a, b.drop_last(), f);
        assert((a + b).drop_last() =~= a + b.drop_last());
    }
}

/// Counting without the piece at position `k`.
pub proof fn lemma_count_remove(s: Seq<u8>, k: int, f: spec_fn(u8) -> bool)
    requires
        0 <= k < s.len(),
    ensures
        count(s, f) == count(s.remove(k), f) + if f(s[k]) {
            1int
        } else {
            0int
        },
    decreases s.len(),
{
    if k == s.len() - 1 {
        assert(s.remove(k) =~= s.drop_last());
    } else {
        lemma_count_remove(s.drop_last(), k, f);
        assert(s.remove(k).drop_last() =~= s.drop_last().remove(k));
    }
}

/// More than `n` distinct pieces cannot all lie below `n`.
pub proof fn lemma_pigeonhole(s: Seq<u8>, n: int)
    requires
        distinct_below(s, n),
    ensures
        s.len() <= n || n < 0,
    decreases n,
{
    if n >= 1 && s.len() > n {
        if exists|k: int| 0 <= k < s.len() && s[k] == n - 1 {
            let k = choose|k: int| 0 <= k < s.len() && s[k] == n - 1;
            let t = s.remove(k);
            assert(distinct_below(t, n - 1)) by {
                assert forall|i: int| 0 <= i < t.len() implies #[trigger] t[i] < n - 1 by {
                    if i < k {
                        assert(t[i] == s[i]);
                    } else {
                        assert(t[i] == s[i + 1]);
                    }
                }
                assert forall|i: int, j: int| 0 <= i < j < t.len() implies t[i] != t[j] by {
                    let a = if i < k {
                        i
                    } else {
                        i + 1
                    };
                    let b = if j < k {
                        j
                    } else {
                        j + 1
                    };
                    assert(t[i] == s[a] && t[j] == s[b]);
                }
            }
            lemma_pigeonhole(t, n - 1);
        } else {
            let t = s.drop_last();
            assert(distinct_below(t, n - 1)) by {
                assert forall|i: int| 0 <= i < t.len() implies #[trigger] t[i] < n - 1 by {
                    assert(t[i] == s[i]);
                }
            }
            lemma_pigeonhole(t, n - 1);
        }
    } else if n == 0 && s.len() > 0 {
        assert(s[0] < 0);
    }
}

/// `n` distinct pieces below `n` hold as many pieces of a kind as the values
/// below `n` do.
pub proof fn lemma_count_permutation(s: Seq<u8>, n: int, f: spec_fn(u8) -> bool)
    requires
        0 <= n <= 256,
        s.len() == n,
        distinct_below(s, n),
    ensures
        count(s, f) == count_below(n, f),
    decreases n,
{
    if n > 0 {
        if !exists|k: int| 0 <= k < s.len() && s[k] == n - 1 {
            assert(distinct_below(s, n - 1));
            lemma_pigeonhole(s, n - 1);
        }
        let k = choose|k: int| 0 <= k < s.len() && s[k] == n - 1;
        let t = s.remove(k);
        assert(distinct_below(t, n - 1)) by {
            assert forall|i: int| 0 <= i < t.len() implies #[trigger] t[i] < n - 1 by {
                if i < k {
                    assert(t[i] == s[i]);
                } else {
                    assert(t[i] == s[i + 1]);
                }
            }
            assert forall|i: int, j: int| 0 <= i < j < t.len() implies t[i] != t[j] by {
                let a = if i < k {
                    i
                } else {
                    i + 1
                };
                let b = if j < k {
                    j
                } else {
                    j + 1
                };
                assert(t[i] == s[a] && t[j] == s[b]);
            }
        }
        lemma_count_permutation(t, n - 1, f);
        lemma_count_remove(s, k, f);
    }
}

/// The first pieces of a sequence hold no more of a kind than all of it.
pub proof fn lemma_count_take_le(s: Seq<u8>, i: int, f: spec_fn(u8) -> bool)
    requires
        0 <= i <= s.len(),
    ensures
        0 <= count(s.take(i), f) <= count(s, f),
{
    lemma_count_concat(s.take(i), s.skip(i), f);
    assert(s.take(i) + s.skip(i) =~= s);
    lemma_count_bounds(s.take(i), f);
    lemma_count_bounds(s.skip(i), f);
}

} // verus!
