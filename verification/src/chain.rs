use vstd::prelude::*;

verus! {

/// The element at `i`, where there is one.
pub open spec fn opt_at<K>(s: Seq<K>, i: int) -> Option<K> {
    if 0 <= i < s.len() {
        Some(s[i])
    } else {
        None
    }
}

/// The first element, where there is one.
pub open spec fn first_of<K>(s: Seq<K>) -> Option<K> {
    if s.len() > 0 {
        Some(s[0])
    } else {
        None
    }
}

/// The last element, where there is one.
pub open spec fn last_of<K>(s: Seq<K>) -> Option<K> {
    if s.len() > 0 {
        Some(s[s.len() - 1])
    } else {
        None
    }
}

/// The items of `s`, each once, are threaded into a doubly linked list in the
/// order of `s`: `next` leads from each to the one after it, `prev` back.
pub open spec fn chained<K>(
    s: Seq<K>,
    prev: spec_fn(K) -> Option<K>,
    next: spec_fn(K) -> Option<K>,
) -> bool {
    &&& s.no_duplicates()
    &&& (s.len() > 0 ==> prev(s[0]) is None && next(s[s.len() - 1]) is None)
    &&& forall|i: int, j: int|
        0 <= i && j == i + 1 && j < s.len() ==> next(#[trigger] s[i]) == Some(#[trigger] s[j])
            && prev(s[j]) == Some(s[i])
}

/// In a chained list each item points at its two neighbours.
pub proof fn lemma_chained_at<K>(
    s: Seq<K>,
    prev: spec_fn(K) -> Option<K>,
    next: spec_fn(K) -> Option<K>,
    k: int,
)
    requires
        chained(s, prev, next),
        0 <= k < s.len(),
    ensures
        prev(s[k]) == opt_at(s, k - 1),
        next(s[k]) == opt_at(s, k + 1),
{
    if k > 0 {
        assert(prev(s[k]) == Some(s[k - 1]));
    }
    if k + 1 < s.len() {
        assert(next(s[k]) == Some(s[k + 1]));
    }
}

/// A chained list stays chained while the pointers of its items stay.
pub proof fn lemma_chained_frame<K>(
    s: Seq<K>,
    prev: spec_fn(K) -> Option<K>,
    next: spec_fn(K) -> Option<K>,
    prev2: spec_fn(K) -> Option<K>,
    next2: spec_fn(K) -> Option<K>,
)
    requires
        chained(s, prev, next),
        forall|i: int| 0 <= i < s.len() ==> prev2(#[trigger] s[i]) == prev(s[i]),
        forall|i: int| 0 <= i < s.len() ==> next2(#[trigger] s[i]) == next(s[i]),
    ensures
        chained(s, prev2, next2),
{
    assert forall|i: int, j: int| 0 <= i && j == i + 1 && j < s.len() implies next2(
        #[trigger] s[i],
    ) == Some(#[trigger] s[j]) && prev2(s[j]) == Some(s[i]) by {
        assert(next(s[i]) == Some(s[j]));
    }
}

/// Cutting the item at `k` out of a chained list, and joining its two
/// neighbours, leaves a chained list.
pub proof fn lemma_chained_remove<K>(
    s: Seq<K>,
    prev: spec_fn(K) -> Option<K>,
    next: spec_fn(K) -> Option<K>,
    k: int,
    prev2: spec_fn(K) -> Option<K>,
    next2: spec_fn(K) -> Option<K>,
)
    requires
        chained(s, prev, next),
        0 <= k < s.len(),
        forall|i: int|
            0 <= i < s.len() && i != k ==> prev2(#[trigger] s[i]) == (if i == k + 1 {
                prev(s[k])
            } else {
                prev(s[i])
            }),
        forall|i: int|
            0 <= i < s.len() && i != k ==> next2(#[trigger] s[i]) == (if i == k - 1 {
                next(s[k])
            } else {
                next(s[i])
            }),
    ensures
        chained(s.remove(k), prev2, next2),
        !s.remove(k).contains(s[k]),
        forall|x: K| x != s[k] && s.contains(x) ==> s.remove(k).contains(x),
        forall|x: K| s.remove(k).contains(x) ==> s.contains(x),
{
    let t = s.remove(k);
    assert forall|i: int| 0 <= i < t.len() implies #[trigger] t[i] == s[if i < k {
        i
    } else {
        i + 1
    }] by {}
    lemma_chained_at(s, prev, next, k);
    assert forall|i: int, j: int| 0 <= i < t.len() && 0 <= j < t.len() && i != j implies t[i]
        != t[j] by {
        let oi = if i < k {
            i
        } else {
            i + 1
        };
        let oj = if j < k {
            j
        } else {
            j + 1
        };
        assert(s[oi] != s[oj]);
    }
    assert forall|i: int, j: int| 0 <= i && j == i + 1 && j < t.len() implies next2(
        #[trigger] t[i],
    ) == Some(#[trigger] t[j]) && prev2(t[j]) == Some(s.remove(k)[i]) by {
        let oi = if i < k {
            i
        } else {
            i + 1
        };
        let oj = if j < k {
            j
        } else {
            j + 1
        };
        assert(t[i] == s[oi]);
        assert(t[j] == s[oj]);
        lemma_chained_at(s, prev, next, oi);
        lemma_chained_at(s, prev, next, oj);
    }
    if t.len() > 0 {
        assert(t[0] == s[if 0 < k {
            0int
        } else {
            1int
        }]);
        let last = t.len() - 1;
        assert(t[last] == s[if last < k {
            last
        } else {
            last + 1
        }]);
        lemma_chained_at(s, prev, next, 0);
        lemma_chained_at(s, prev, next, 1);
        lemma_chained_at(s, prev, next, s.len() - 1);
        lemma_chained_at(s, prev, next, s.len() - 2);
    }
    assert(!t.contains(s[k])) by {
        if t.contains(s[k]) {
            let i = choose|i: int| 0 <= i < t.len() && t[i] == s[k];
            assert(s[if i < k {
                i
            } else {
                i + 1
            }] == s[k]);
        }
    }
    assert forall|x: K| x != s[k] && s.contains(x) implies t.contains(x) by {
        let i = choose|i: int| 0 <= i < s.len() && s[i] == x;
        assert(t[if i < k {
            i
        } else {
            i - 1
        }] == x);
    }
    assert forall|x: K| t.contains(x) implies s.contains(x) by {
        let i = choose|i: int| 0 <= i < t.len() && t[i] == x;
        assert(s[if i < k {
            i
        } else {
            i + 1
        }] == x);
    }
}

/// Putting a new item in at `k`, between the items that stood at `k - 1` and
/// `k`, leaves a chained list.
pub proof fn lemma_chained_insert<K>(
    s: Seq<K>,
    prev: spec_fn(K) -> Option<K>,
    next: spec_fn(K) -> Option<K>,
    k: int,
    x: K,
    prev2: spec_fn(K) -> Option<K>,
    next2: spec_fn(K) -> Option<K>,
)
    requires
        chained(s, prev, next),
        0 <= k <= s.len(),
        !s.contains(x),
        prev2(x) == opt_at(s, k - 1),
        next2(x) == opt_at(s, k),
        forall|i: int|
            0 <= i < s.len() ==> prev2(#[trigger] s[i]) == (if i == k {
                Some(x)
            } else {
                prev(s[i])
            }),
        forall|i: int|
            0 <= i < s.len() ==> next2(#[trigger] s[i]) == (if i == k - 1 {
                Some(x)
            } else {
                next(s[i])
            }),
    ensures
        chained(s.insert(k, x), prev2, next2),
        s.insert(k, x).contains(x),
        forall|y: K| s.contains(y) ==> s.insert(k, x).contains(y),
        forall|y: K| s.insert(k, x).contains(y) ==> y == x || s.contains(y),
{
    let t = s.insert(k, x);
    assert forall|i: int| 0 <= i < t.len() implies #[trigger] t[i] == (if i < k {
        s[i]
    } else if i == k {
        x
    } else {
        s[i - 1]
    }) by {}
    assert forall|i: int, j: int| 0 <= i < t.len() && 0 <= j < t.len() && i != j implies t[i]
        != t[j] by {
        if i != k && j != k {
            let oi = if i < k {
                i
            } else {
                i - 1
            };
            let oj = if j < k {
                j
            } else {
                j - 1
            };
            assert(s[oi] != s[oj]);
        } else if i == k {
            let oj = if j < k {
                j
            } else {
                j - 1
            };
            assert(s.contains(s[oj]));
        } else {
            let oi = if i < k {
                i
            } else {
                i - 1
            };
            assert(s.contains(s[oi]));
        }
    }
    assert forall|i: int, j: int| 0 <= i && j == i + 1 && j < t.len() implies next2(
        #[trigger] t[i],
    ) == Some(#[trigger] t[j]) && prev2(t[j]) == Some(s.insert(k, x)[i]) by {
        if i < k {
            lemma_chained_at(s, prev, next, i);
            assert(t[i] == s[i]);
        } else if i > k {
            lemma_chained_at(s, prev, next, i - 1);
            assert(t[i] == s[i - 1]);
        }
        if j < k {
            lemma_chained_at(s, prev, next, j);
            assert(t[j] == s[j]);
        } else if j > k {
            lemma_chained_at(s, prev, next, j - 1);
            assert(t[j] == s[j - 1]);
        }
    }
    assert(t[0] == (if 0 < k {
        s[0]
    } else {
        x
    }));
    let last = t.len() - 1;
    assert(t[last] == (if last == k {
        x
    } else {
        s[last - 1]
    }));
    if s.len() > 0 {
        lemma_chained_at(s, prev, next, 0);
        lemma_chained_at(s, prev, next, s.len() - 1);
        assert(s[0] == s[0]);
        assert(s[s.len() - 1] == s[s.len() - 1]);
    }
    assert(t[k] == x);
    assert forall|y: K| s.contains(y) implies t.contains(y) by {
        let i = choose|i: int| 0 <= i < s.len() && s[i] == y;
        assert(t[if i < k {
            i
        } else {
            i + 1
        }] == y);
    }
    assert forall|y: K| t.contains(y) implies y == x || s.contains(y) by {
        let i = choose|i: int| 0 <= i < t.len() && t[i] == y;
        if i < k {
            assert(s[i] == y);
        } else if i > k {
            assert(s[i - 1] == y);
        }
    }
}

} // verus!
