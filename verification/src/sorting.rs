//! Sorting a group of indices by a key held elsewhere.

use vstd::prelude::*;
use vstd::relations::{sorted_by, total_ordering};

verus! {

/// Lower key first; of equal keys, the lower index first.
pub open spec fn by_key(keys: Seq<i128>) -> spec_fn(usize, usize) -> bool {
    |a: usize, b: usize|
        keys[a as int] < keys[b as int] || (keys[a as int] == keys[b as int] && a <= b)
}

pub proof fn lemma_by_key_is_total(keys: Seq<i128>)
    ensures
        total_ordering(by_key(keys)),
{
    let r = by_key(keys);
    assert(vstd::relations::reflexive(r));
    assert(vstd::relations::antisymmetric(r));
    assert(vstd::relations::transitive(r));
    assert(vstd::relations::strongly_connected(r));
}

/// Every index is one of the keyed ones.
pub open spec fn within(members: Seq<usize>, n: nat) -> bool {
    forall|k: int| 0 <= k < members.len() ==> #[trigger] members[k] < n
}

/// The members with a given key, in the order in which they stand.
pub open spec fn with_key(s: Seq<usize>, keys: Seq<i128>, v: i128) -> Seq<usize>
    decreases s.len(),
{
    if s.len() == 0 {
        Seq::empty()
    } else {
        let rest = with_key(s.drop_last(), keys, v);
        if keys[s.last() as int] == v {
            rest.push(s.last())
        } else {
            rest
        }
    }
}

/// No key is above a later one.
pub open spec fn is_ascending(s: Seq<usize>, keys: Seq<i128>) -> bool {
    forall|a: int, b: int|
        #![trigger s[a], s[b]]
        0 <= a < b < s.len() ==> keys[s[a] as int] <= keys[s[b] as int]
}

/// The same members with ascending keys; those of equal keys stand in the order
/// in which they stood before.
pub open spec fn is_stable_sort(before: Seq<usize>, after: Seq<usize>, keys: Seq<i128>) -> bool {
    &&& after.to_multiset() == before.to_multiset()
    &&& is_ascending(after, keys)
    &&& forall|v: i128| #[trigger] with_key(after, keys, v) == with_key(before, keys, v)
}

/// Each index is above the one before.
pub open spec fn is_rising(s: Seq<usize>) -> bool {
    forall|a: int, b: int| #![trigger s[a], s[b]] 0 <= a < b < s.len() ==> s[a] < s[b]
}

pub proof fn lemma_rising_is_distinct(s: Seq<usize>)
    requires
        is_rising(s),
    ensures
        s.no_duplicates(),
{
    assert forall|a: int, b: int| 0 <= a < s.len() && 0 <= b < s.len() && a != b implies s[a]
        != s[b] by {
        if a < b {
            assert(s[a] < s[b]);
        } else {
            assert(s[b] < s[a]);
        }
    }
}

proof fn lemma_with_key_push(s: Seq<usize>, x: usize, keys: Seq<i128>, v: i128)
    ensures
        with_key(s.push(x), keys, v) == (if keys[x as int] == v {
            with_key(s, keys, v).push(x)
        } else {
            with_key(s, keys, v)
        }),
{
    assert(s.push(x).drop_last() =~= s);
}

proof fn lemma_with_key_concat(a: Seq<usize>, b: Seq<usize>, keys: Seq<i128>, v: i128)
    ensures
        with_key(a + b, keys, v) == with_key(a, keys, v) + with_key(b, keys, v),
    decreases b.len(),
{
    if b.len() == 0 {
        assert(a + b =~= a);
        assert(with_key(a, keys, v) + with_key(b, keys, v) =~= with_key(a, keys, v));
    } else {
        let c = b.drop_last();
        lemma_with_key_concat(a, c, keys, v);
        assert(a + b =~= (a + c).push(b.last()));
        lemma_with_key_push(a + c, b.last(), keys, v);
        assert(with_key(a + b, keys, v) =~= with_key(a, keys, v) + with_key(b, keys, v));
    }
}

proof fn lemma_with_key_absent(s: Seq<usize>, keys: Seq<i128>, v: i128)
    requires
        forall|k: int| 0 <= k < s.len() ==> keys[#[trigger] s[k] as int] != v,
    ensures
        with_key(s, keys, v) =~= Seq::<usize>::empty(),
    decreases s.len(),
{
    if s.len() > 0 {
        assert forall|k: int| 0 <= k < s.drop_last().len() implies keys[#[trigger] s.drop_last()[k] as int]
            != v by {
            assert(s.drop_last()[k] == s[k]);
        }
        lemma_with_key_absent(s.drop_last(), keys, v);
        assert(keys[s[s.len() - 1] as int] != v);
    }
}

/// Of rising indices, those with a key rise too, and are some of them.
proof fn lemma_with_key_rises(s: Seq<usize>, keys: Seq<i128>, v: i128)
    requires
        is_rising(s),
    ensures
        is_rising(with_key(s, keys, v)),
        forall|k: int|
            0 <= k < with_key(s, keys, v).len() ==> s.contains(#[trigger] with_key(s, keys, v)[k]),
    decreases s.len(),
{
    if s.len() > 0 {
        let t = s.drop_last();
        let w = with_key(t, keys, v);
        assert(is_rising(t)) by {
            assert forall|a: int, b: int|
                #![trigger t[a], t[b]]
                0 <= a < b < t.len() implies t[a] < t[b] by {
                assert(t[a] == s[a] && t[b] == s[b]);
            }
        }
        lemma_with_key_rises(t, keys, v);
        assert forall|k: int| 0 <= k < w.len() implies s.contains(#[trigger] w[k]) && w[k]
            < s.last() by {
            assert(t.contains(w[k]));
            let j = choose|j: int| 0 <= j < t.len() && t[j] == w[k];
            assert(s[j] == w[k]);
            assert(s[j] < s[s.len() - 1]);
        }
        assert(s.contains(s[s.len() - 1]));
    }
}

/// Two members with a key stand in the same order among those with it.
proof fn lemma_with_key_order(s: Seq<usize>, keys: Seq<i128>, v: i128, a: int, b: int) -> (r: (int, int))
    requires
        0 <= a < b < s.len(),
        keys[s[a] as int] == v,
        keys[s[b] as int] == v,
    ensures
        0 <= r.0 < r.1 < with_key(s, keys, v).len(),
        with_key(s, keys, v)[r.0] == s[a],
        with_key(s, keys, v)[r.1] == s[b],
    decreases s.len(),
{
    let t = s.drop_last();
    if b < s.len() - 1 {
        lemma_with_key_order(t, keys, v, a, b)
    } else {
        let p = lemma_with_key_place(t, keys, v, a);
        (p, with_key(t, keys, v).len() as int)
    }
}

/// A member with a key stands among those with it.
proof fn lemma_with_key_place(s: Seq<usize>, keys: Seq<i128>, v: i128, a: int) -> (p: int)
    requires
        0 <= a < s.len(),
        keys[s[a] as int] == v,
    ensures
        0 <= p < with_key(s, keys, v).len(),
        with_key(s, keys, v)[p] == s[a],
    decreases s.len(),
{
    let t = s.drop_last();
    if a < s.len() - 1 {
        lemma_with_key_place(t, keys, v, a)
    } else {
        with_key(t, keys, v).len() as int
    }
}

/// For rising indices the stable sort is the one that breaks ties by index.
pub proof fn lemma_stable_sort_of_rising(before: Seq<usize>, after: Seq<usize>, keys: Seq<i128>)
    requires
        is_rising(before),
        is_stable_sort(before, after, keys),
    ensures
        after == before.sort_by(by_key(keys)),
        sorted_by(after, by_key(keys)),
{
    let leq = by_key(keys);
    lemma_by_key_is_total(keys);
    before.lemma_sort_by_ensures(leq);
    assert forall|a: int, b: int| 0 <= a < b < after.len() implies #[trigger] leq(
        after[a],
        after[b],
    ) by {
        let (x, y) = (after[a], after[b]);
        assert(keys[x as int] <= keys[y as int]);
        if keys[x as int] == keys[y as int] {
            let v = keys[x as int];
            let (p, q) = lemma_with_key_order(after, keys, v, a, b);
            lemma_with_key_rises(before, keys, v);
            assert(with_key(after, keys, v) == with_key(before, keys, v));
            assert(with_key(before, keys, v)[p] < with_key(before, keys, v)[q]);
        }
    }
    vstd::seq_lib::lemma_sorted_unique(after, before.sort_by(leq), leq);
}

fn merge(a: &Vec<usize>, b: &Vec<usize>, keys: &Vec<i128>) -> (out: Vec<usize>)
    requires
        within(a@, keys@.len()),
        within(b@, keys@.len()),
        is_ascending(a@, keys@),
        is_ascending(b@, keys@),
        a@.len() + b@.len() <= usize::MAX,
    ensures
        within(out@, keys@.len()),
        is_ascending(out@, keys@),
        out@.to_multiset() =~= a@.to_multiset().add(b@.to_multiset()),
        forall|v: i128| #[trigger]
            with_key(out@, keys@, v) == with_key(a@, keys@, v) + with_key(b@, keys@, v),
{
    let mut out: Vec<usize> = Vec::new();
    let mut i: usize = 0;
    let mut j: usize = 0;
    proof {
        broadcast use vstd::seq_lib::group_to_multiset_ensures;
        assert(out@.to_multiset() =~= a@.subrange(0, 0).to_multiset().add(
            b@.subrange(0, 0).to_multiset(),
        ));
        assert forall|v: i128| #[trigger] with_key(out@, keys@, v) == with_key(
            a@.subrange(0, 0),
            keys@,
            v,
        ) + with_key(b@.subrange(0, 0), keys@, v) by {
            assert(with_key(out@, keys@, v) =~= with_key(a@.subrange(0, 0), keys@, v) + with_key(
                b@.subrange(0, 0),
                keys@,
                v,
            ));
        }
    }
    while i < a.len() || j < b.len()
        invariant
            within(a@, keys@.len()),
            within(b@, keys@.len()),
            is_ascending(a@, keys@),
            is_ascending(b@, keys@),
            i <= a@.len(),
            j <= b@.len(),
            a@.len() + b@.len() <= usize::MAX,
            out@.len() == i + j,
            within(out@, keys@.len()),
            is_ascending(out@, keys@),
            forall|x: int, y: int|
                0 <= x < out@.len() && i <= y < a@.len() ==> keys@[#[trigger] out@[x] as int]
                    <= keys@[#[trigger] a@[y] as int],
            forall|x: int, y: int|
                0 <= x < out@.len() && j <= y < b@.len() ==> keys@[#[trigger] out@[x] as int]
                    <= keys@[#[trigger] b@[y] as int],
            // what was taken from the right is below all that is left on the left
            forall|x: int, y: int|
                0 <= x < j && i <= y < a@.len() ==> keys@[#[trigger] b@[x] as int]
                    < keys@[#[trigger] a@[y] as int],
            out@.to_multiset() =~= a@.subrange(0, i as int).to_multiset().add(
                b@.subrange(0, j as int).to_multiset(),
            ),
            forall|v: i128| #[trigger]
                with_key(out@, keys@, v) == with_key(a@.subrange(0, i as int), keys@, v) + with_key(
                    b@.subrange(0, j as int),
                    keys@,
                    v,
                ),
        decreases a@.len() + b@.len() - i - j,
    {
        let ghost before = out@;
        let ghost (left, right) = (a@.subrange(0, i as int), b@.subrange(0, j as int));
        let take_a: bool = if i < a.len() && j < b.len() {
            keys[a[i]] <= keys[b[j]]
        } else {
            i < a.len()
        };
        if take_a {
            let x = a[i];
            out.push(x);
            proof {
                broadcast use vstd::seq_lib::group_to_multiset_ensures;
                assert(a@.subrange(0, i + 1) =~= left.push(x));
                assert(out@.to_multiset() =~= a@.subrange(0, i + 1).to_multiset().add(
                    right.to_multiset(),
                ));
                assert forall|y: int| j <= y < b@.len() implies keys@[x as int]
                    <= keys@[#[trigger] b@[y] as int] by {
                    if y > j {
                        assert(keys@[b@[j as int] as int] <= keys@[b@[y] as int]);
                    }
                }
                assert forall|v: i128| #[trigger] with_key(out@, keys@, v) == with_key(
                    left.push(x),
                    keys@,
                    v,
                ) + with_key(right, keys@, v) by {
                    lemma_with_key_push(before, x, keys@, v);
                    lemma_with_key_push(left, x, keys@, v);
                    assert(with_key(before, keys@, v) == with_key(left, keys@, v) + with_key(
                        right,
                        keys@,
                        v,
                    ));
                    if keys@[x as int] == v {
                        assert forall|k: int| 0 <= k < right.len() implies keys@[#[trigger] right[k] as int]
                            != v by {
                            assert(right[k] == b@[k]);
                            assert(keys@[b@[k] as int] < keys@[a@[i as int] as int]);
                        }
                        lemma_with_key_absent(right, keys@, v);
                    }
                    assert(with_key(out@, keys@, v) =~= with_key(left.push(x), keys@, v) + with_key(
                        right,
                        keys@,
                        v,
                    ));
                }
            }
            i += 1;
        } else {
            let y = b[j];
            out.push(y);
            proof {
                broadcast use vstd::seq_lib::group_to_multiset_ensures;
                assert(b@.subrange(0, j + 1) =~= right.push(y));
                assert(out@.to_multiset() =~= left.to_multiset().add(
                    b@.subrange(0, j + 1).to_multiset(),
                ));
                assert forall|x: int| i <= x < a@.len() implies keys@[y as int]
                    < keys@[#[trigger] a@[x] as int] by {
                    if x > i {
                        assert(keys@[a@[i as int] as int] <= keys@[a@[x] as int]);
                    }
                }
                assert forall|v: i128| #[trigger] with_key(out@, keys@, v) == with_key(
                    left,
                    keys@,
                    v,
                ) + with_key(right.push(y), keys@, v) by {
                    lemma_with_key_push(before, y, keys@, v);
                    lemma_with_key_push(right, y, keys@, v);
                    assert(with_key(before, keys@, v) == with_key(left, keys@, v) + with_key(
                        right,
                        keys@,
                        v,
                    ));
                    assert(with_key(out@, keys@, v) =~= with_key(left, keys@, v) + with_key(
                        right.push(y),
                        keys@,
                        v,
                    ));
                }
            }
            j += 1;
        }
        assert(out@.drop_last() =~= before);
    }
    assert(a@.subrange(0, i as int) =~= a@);
    assert(b@.subrange(0, j as int) =~= b@);
    out
}

/// The members in the order of their keys. The sort is stable: members with
/// equal keys keep their order.
pub fn sort_members(members: &Vec<usize>, keys: &Vec<i128>) -> (out: Vec<usize>)
    requires
        within(members@, keys@.len()),
    ensures
        is_stable_sort(members@, out@, keys@),
        out@.len() == members@.len(),
        within(out@, keys@.len()),
    decreases members@.len(),
{
    let n = members.len();
    let out = if n <= 1 {
        let mut out: Vec<usize> = Vec::new();
        if n == 1 {
            out.push(members[0]);
        }
        assert(out@ =~= members@);
        out
    } else {
        let half = n / 2;
        let mut left: Vec<usize> = Vec::new();
        let mut right: Vec<usize> = Vec::new();
        let mut i: usize = 0;
        while i < n
            invariant
                i <= n,
                half <= n,
                n == members@.len(),
                left@ == members@.subrange(0, if i < half {
                    i as int
                } else {
                    half as int
                }),
                right@ == members@.subrange(half as int, if i < half {
                    half as int
                } else {
                    i as int
                }),
            decreases n - i,
        {
            if i < half {
                left.push(members[i]);
                assert(left@ =~= members@.subrange(0, i + 1));
            } else {
                right.push(members[i]);
                assert(right@ =~= members@.subrange(half as int, i + 1));
            }
            i += 1;
        }
        assert(members@ =~= left@ + right@);
        proof {
            vstd::seq_lib::lemma_multiset_commutative(left@, right@);
        }
        let a = sort_members(&left, keys);
        let b = sort_members(&right, keys);
        let out = merge(&a, &b, keys);
        proof {
            assert forall|v: i128| #[trigger] with_key(out@, keys@, v) == with_key(
                members@,
                keys@,
                v,
            ) by {
                lemma_with_key_concat(left@, right@, keys@, v);
                assert(with_key(a@, keys@, v) == with_key(left@, keys@, v));
                assert(with_key(b@, keys@, v) == with_key(right@, keys@, v));
            }
        }
        out
    };
    proof {
        broadcast use vstd::seq_lib::group_to_multiset_ensures;
        assert(out@.to_multiset().len() == members@.to_multiset().len());
    }
    out
}

/// What sorting keeps: the length and the members, none of them twice.
pub proof fn lemma_sorted_members(s: Seq<usize>, keys: Seq<i128>)
    requires
        s.no_duplicates(),
    ensures
        s.sort_by(by_key(keys)).len() == s.len(),
        s.sort_by(by_key(keys)).no_duplicates(),
        forall|x: usize| #[trigger] s.sort_by(by_key(keys)).contains(x) <==> s.contains(x),
        sorted_by(s.sort_by(by_key(keys)), by_key(keys)),
{
    let t = s.sort_by(by_key(keys));
    lemma_by_key_is_total(keys);
    s.lemma_sort_by_ensures(by_key(keys));
    broadcast use vstd::seq_lib::group_to_multiset_ensures;

    assert(t.to_multiset().len() == s.to_multiset().len());
    s.lemma_multiset_has_no_duplicates();
    assert forall|x: usize| #[trigger] t.contains(x) <==> s.contains(x) by {
        assert(t.to_multiset().contains(x) <==> t.contains(x));
        assert(s.to_multiset().contains(x) <==> s.contains(x));
    }
    t.lemma_multiset_has_no_duplicates_conv();
}

} // verus!
