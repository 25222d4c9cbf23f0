//! Mathematical vocabulary for scans over index ranges: the first index with a
//! property, how many have it, and which ones.

use vstd::prelude::*;

verus! {

/// The first index of `lo..hi` with property `p`.
pub open spec fn first_index(lo: int, hi: int, p: spec_fn(int) -> bool) -> Option<int>
    decreases hi - lo,
{
    if lo >= hi {
        None
    } else if p(lo) {
        Some(lo)
    } else {
        first_index(lo + 1, hi, p)
    }
}

/// The last index of `0..n` with property `p`.
pub open spec fn last_index(n: int, p: spec_fn(int) -> bool) -> Option<int>
    decreases n,
{
    if n <= 0 {
        None
    } else if p(n - 1) {
        Some(n - 1)
    } else {
        last_index(n - 1, p)
    }
}

/// How many indices of `0..n` have property `p`.
pub open spec fn count_where(n: int, p: spec_fn(int) -> bool) -> int
    decreases n,
{
    if n <= 0 {
        0
    } else {
        count_where(n - 1, p) + if p(n - 1) {
            1int
        } else {
            0int
        }
    }
}

/// The indices of `0..n` with property `p`, ascending.
pub open spec fn indices_where(n: int, p: spec_fn(int) -> bool) -> Seq<usize>
    decreases n,
{
    if n <= 0 {
        Seq::empty()
    } else if p(n - 1) {
        indices_where(n - 1, p).push((n - 1) as usize)
    } else {
        indices_where(n - 1, p)
    }
}

/// The first index of `0..n` whose cost is present and least among the present ones.
pub open spec fn least_index(n: int, cost: spec_fn(int) -> Option<int>) -> Option<int> {
    first_index(0, n, is_least(n, cost))
}

/// Of an index: its cost is present and no present one of `0..n` is less.
pub open spec fn is_least(n: int, cost: spec_fn(int) -> Option<int>) -> spec_fn(int) -> bool {
    |k: int|
        cost(k) is Some && forall|j: int|
            #![trigger cost(j)]
            0 <= j < n && cost(j) is Some ==> cost(k)->0 <= cost(j)->0
}

pub proof fn lemma_first_index(lo: int, hi: int, p: spec_fn(int) -> bool)
    ensures
        match first_index(lo, hi, p) {
            Some(i) => lo <= i < hi && p(i) && forall|j: int| lo <= j < i ==> !#[trigger] p(j),
            None => forall|j: int| lo <= j < hi ==> !#[trigger] p(j),
        },
    decreases hi - lo,
{
    if lo < hi && !p(lo) {
        lemma_first_index(lo + 1, hi, p);
    }
}

pub proof fn lemma_first_index_is(lo: int, hi: int, p: spec_fn(int) -> bool, i: int)
    requires
        lo <= i < hi,
        p(i),
        forall|j: int| lo <= j < i ==> !#[trigger] p(j),
    ensures
        first_index(lo, hi, p) == Some(i),
{
    lemma_first_index(lo, hi, p);
}

pub proof fn lemma_first_index_none(lo: int, hi: int, p: spec_fn(int) -> bool)
    requires
        forall|j: int| lo <= j < hi ==> !#[trigger] p(j),
    ensures
        first_index(lo, hi, p) is None,
{
    lemma_first_index(lo, hi, p);
}

/// Two properties that agree on the range have the same first index.
pub proof fn lemma_first_index_agree(
    lo: int,
    hi: int,
    p: spec_fn(int) -> bool,
    q: spec_fn(int) -> bool,
)
    requires
        forall|j: int| lo <= j < hi ==> #[trigger] p(j) == q(j),
    ensures
        first_index(lo, hi, p) == first_index(lo, hi, q),
    decreases hi - lo,
{
    if lo < hi {
        assert(p(lo) == q(lo));
        lemma_first_index_agree(lo + 1, hi, p, q);
    }
}

/// What one more index does to the least one.
pub proof fn lemma_least_step(n: int, cost: spec_fn(int) -> Option<int>)
    requires
        0 <= n,
    ensures
        least_index(n + 1, cost) == (match (least_index(n, cost), cost(n)) {
            (best, None) => best,
            (None, Some(_)) => Some(n),
            (Some(i), Some(c)) => if c < cost(i)->0 {
                Some(n)
            } else {
                Some(i)
            },
        }),
{
    lemma_least(n, cost);
    let now = is_least(n + 1, cost);
    match least_index(n, cost) {
        Some(i) => {
            if cost(n) is Some && cost(n)->0 < cost(i)->0 {
                assert forall|j: int| 0 <= j < n implies !#[trigger] now(j) by {
                    if cost(j) is Some {
                        assert(cost(i)->0 <= cost(j)->0);
                        assert(cost(n)->0 < cost(j)->0);
                    }
                }
                assert(now(n)) by {
                    assert forall|j: int|
                        #![trigger cost(j)]
                        0 <= j < n + 1 && cost(j) is Some implies cost(n)->0 <= cost(j)->0 by {}
                }
                lemma_first_index_is(0, n + 1, now, n);
            } else {
                assert(now(i));
                assert forall|j: int| 0 <= j < i implies !#[trigger] now(j) by {
                    if cost(j) is Some {
                        assert(cost(i)->0 < cost(j)->0);
                    }
                }
                lemma_first_index_is(0, n + 1, now, i);
            }
        },
        None => {
            assert forall|j: int| 0 <= j < n implies !#[trigger] now(j) by {
                assert(cost(j) is None);
            }
            if cost(n) is Some {
                assert(now(n));
                lemma_first_index_is(0, n + 1, now, n);
            } else {
                lemma_first_index_none(0, n + 1, now);
            }
        },
    }
}

pub proof fn lemma_least(n: int, cost: spec_fn(int) -> Option<int>)
    requires
        0 <= n,
    ensures
        match least_index(n, cost) {
            Some(i) => 0 <= i < n && cost(i) is Some && (forall|j: int|
                #![trigger cost(j)]
                0 <= j < n && cost(j) is Some ==> cost(i)->0 <= cost(j)->0) && (forall|j: int|
                #![trigger cost(j)]
                0 <= j < i && cost(j) is Some ==> cost(i)->0 < cost(j)->0),
            None => forall|j: int| #![trigger cost(j)] 0 <= j < n ==> cost(j) is None,
        },
    decreases n,
{
    lemma_first_index(0, n, is_least(n, cost));
    match least_index(n, cost) {
        Some(i) => {
            assert(is_least(n, cost)(i));
            assert forall|j: int| #![trigger cost(j)] 0 <= j < i && cost(j) is Some implies cost(i)->0
                < cost(j)->0 by {
                assert(!is_least(n, cost)(j));
                if cost(j)->0 == cost(i)->0 {
                    assert(is_least(n, cost)(j));
                }
            }
        },
        None => {
            if n > 0 {
                lemma_least(n - 1, cost);
                match least_index(n - 1, cost) {
                    Some(i) => {
                        if cost(n - 1) is Some && cost(n - 1)->0 < cost(i)->0 {
                            assert(is_least(n, cost)(n - 1));
                        } else {
                            assert(is_least(n, cost)(i));
                        }
                    },
                    None => {
                        if cost(n - 1) is Some {
                            assert(is_least(n, cost)(n - 1));
                        }
                    },
                }
            }
        },
    }
}

pub proof fn lemma_count_bounds(n: int, p: spec_fn(int) -> bool)
    requires
        0 <= n,
    ensures
        0 <= count_where(n, p) <= n,
    decreases n,
{
    if n > 0 {
        lemma_count_bounds(n - 1, p);
    }
}

pub proof fn lemma_count_agree(n: int, p: spec_fn(int) -> bool, q: spec_fn(int) -> bool)
    requires
        forall|j: int| 0 <= j < n ==> #[trigger] p(j) == q(j),
    ensures
        count_where(n, p) == count_where(n, q),
    decreases n,
{
    if n > 0 {
        assert(p(n - 1) == q(n - 1));
        lemma_count_agree(n - 1, p, q);
    }
}

pub proof fn lemma_count_zero(n: int, p: spec_fn(int) -> bool)
    requires
        forall|j: int| 0 <= j < n ==> !#[trigger] p(j),
    ensures
        count_where(n, p) == 0,
    decreases n,
{
    if n > 0 {
        assert(!p(n - 1));
        lemma_count_zero(n - 1, p);
    }
}

pub proof fn lemma_count_positive(n: int, p: spec_fn(int) -> bool, i: int)
    requires
        0 <= i < n,
        p(i),
    ensures
        count_where(n, p) >= 1,
    decreases n,
{
    lemma_count_bounds(n - 1, p);
    if i < n - 1 {
        lemma_count_positive(n - 1, p, i);
    }
}

pub proof fn lemma_count_monotone(m: int, n: int, p: spec_fn(int) -> bool)
    requires
        0 <= m <= n,
    ensures
        count_where(m, p) <= count_where(n, p),
    decreases n - m,
{
    if m < n {
        lemma_count_monotone(m, n - 1, p);
    }
}

pub proof fn lemma_indices(n: int, p: spec_fn(int) -> bool)
    requires
        0 <= n <= usize::MAX,
    ensures
        forall|k: int|
            0 <= k < indices_where(n, p).len() ==> 0 <= #[trigger] indices_where(n, p)[k] < n && p(
                indices_where(n, p)[k] as int,
            ),
        forall|i: int| 0 <= i < n && p(i) ==> #[trigger] indices_where(n, p).contains(i as usize),
        forall|a: int, b: int|
            #![trigger indices_where(n, p)[a], indices_where(n, p)[b]]
            0 <= a < b < indices_where(n, p).len() ==> indices_where(n, p)[a] < indices_where(n, p)[b],
        indices_where(n, p).len() == count_where(n, p),
    decreases n,
{
    if n > 0 {
        lemma_indices(n - 1, p);
        let prev = indices_where(n - 1, p);
        let cur = indices_where(n, p);
        if p(n - 1) {
            assert(cur == prev.push((n - 1) as usize));
            assert forall|i: int| 0 <= i < n && p(i) implies #[trigger] cur.contains(i as usize) by {
                if i < n - 1 {
                    assert(prev.contains(i as usize));
                    let k = choose|k: int| 0 <= k < prev.len() && prev[k] == i as usize;
                    assert(cur[k] == i as usize);
                } else {
                    assert(cur[cur.len() - 1] == i as usize);
                }
            }
            assert forall|k: int| 0 <= k < cur.len() implies 0 <= #[trigger] cur[k] < n && p(
                cur[k] as int,
            ) by {
                if k < prev.len() {
                    assert(cur[k] == prev[k]);
                }
            }
        }
    }
}

pub proof fn lemma_indices_agree(n: int, p: spec_fn(int) -> bool, q: spec_fn(int) -> bool)
    requires
        forall|j: int| 0 <= j < n ==> #[trigger] p(j) == q(j),
    ensures
        indices_where(n, p) == indices_where(n, q),
    decreases n,
{
    if n > 0 {
        assert(p(n - 1) == q(n - 1));
        lemma_indices_agree(n - 1, p, q);
    }
}

} // verus!
