//! A queue of links to settle, the cheapest first: a binary heap.

use vstd::prelude::*;

verus! {

/// A link and what it costs to come from it.
#[derive(Clone, Copy, Debug, PartialEq, Eq, Structural)]
pub struct Entry {
    pub cost: u128,
    pub link: usize,
}

#[derive(Debug)]
pub struct Queue {
    items: Vec<Entry>,
}

/// The item at `i` costs no less than the one it hangs from.
spec fn hangs(s: Seq<Entry>, i: int) -> bool {
    s[(i - 1) / 2].cost <= s[i].cost
}

/// The item at `i` hangs from the one at `hole`, and costs no less than what that
/// one hangs from.
spec fn hangs_over(s: Seq<Entry>, hole: int, i: int) -> bool {
    (i - 1) / 2 == hole && hole > 0 ==> s[(hole - 1) / 2].cost <= s[i].cost
}

/// Nothing costs less than what it hangs from.
spec fn is_heap(s: Seq<Entry>) -> bool {
    forall|i: int| 0 < i < s.len() ==> #[trigger] hangs(s, i)
}

/// A heap but for the item at `hole`, which may cost less than what it hangs from.
spec fn rises(s: Seq<Entry>, hole: int) -> bool {
    &&& forall|i: int| 0 < i < s.len() && i != hole ==> #[trigger] hangs(s, i)
    &&& forall|i: int| 0 < i < s.len() ==> #[trigger] hangs_over(s, hole, i)
}

/// A heap but for the item at `hole`, which may cost more than what hangs from it.
spec fn sinks(s: Seq<Entry>, hole: int) -> bool {
    &&& forall|i: int| 0 < i < s.len() && (i - 1) / 2 != hole ==> #[trigger] hangs(s, i)
    &&& forall|i: int| 0 < i < s.len() ==> #[trigger] hangs_over(s, hole, i)
}

proof fn lemma_first_is_least(s: Seq<Entry>, i: int)
    requires
        is_heap(s),
        0 <= i < s.len(),
    ensures
        s[0].cost <= s[i].cost,
    decreases i,
{
    if i > 0 {
        lemma_first_is_least(s, (i - 1) / 2);
        assert(hangs(s, i));
    }
}

/// The item at `i` changes places with the dearer one that it hangs from.
proof fn lemma_risen(s: Seq<Entry>, i: int)
    requires
        0 < i < s.len(),
        rises(s, i),
        s[i].cost < s[(i - 1) / 2].cost,
    ensures
        rises(swapped(s, i, (i - 1) / 2), (i - 1) / 2),
{
    let up = (i - 1) / 2;
    let t = swapped(s, i, up);
    assert forall|k: int| 0 < k < t.len() && k != up implies #[trigger] hangs(t, k) by {
        if k != i {
            assert(hangs(s, k));
            assert(hangs_over(s, i, k));
        }
    }
    assert forall|k: int| 0 < k < t.len() implies #[trigger] hangs_over(t, up, k) by {
        if (k - 1) / 2 == up && up > 0 {
            assert(hangs(s, up));
            if k != i {
                assert(hangs(s, k));
            }
        }
    }
}

/// The item at `i` changes places with the cheaper of those that hang from it.
proof fn lemma_sunk(s: Seq<Entry>, i: int, low: int)
    requires
        0 <= i < s.len(),
        sinks(s, i),
        0 < low < s.len(),
        (low - 1) / 2 == i,
        s[low].cost < s[i].cost,
        forall|k: int|
            0 < k < s.len() && (k - 1) / 2 == i ==> s[low].cost <= (#[trigger] s[k]).cost,
    ensures
        sinks(swapped(s, i, low), low),
{
    let t = swapped(s, i, low);
    assert forall|k: int| 0 < k < t.len() && (k - 1) / 2 != low implies #[trigger] hangs(t, k) by {
        if (k - 1) / 2 == i {
            assert(s[low].cost <= s[k].cost);
        } else if k == i {
            assert(hangs_over(s, i, low));
        } else {
            assert(hangs(s, k));
        }
    }
    assert forall|k: int| 0 < k < t.len() implies #[trigger] hangs_over(t, low, k) by {
        if (k - 1) / 2 == low {
            assert(hangs(s, k));
        }
    }
}

/// What hangs from the item at `i` costs no less.
proof fn lemma_rests(s: Seq<Entry>, i: int)
    requires
        sinks(s, i),
        forall|k: int|
            0 < k < s.len() && (k - 1) / 2 == i ==> s[i].cost <= (#[trigger] s[k]).cost,
    ensures
        is_heap(s),
{
    assert forall|k: int| 0 < k < s.len() implies #[trigger] hangs(s, k) by {
        if (k - 1) / 2 == i {
            assert(s[i].cost <= s[k].cost);
        }
    }
}

spec fn swapped(s: Seq<Entry>, a: int, b: int) -> Seq<Entry> {
    s.update(a, s[b]).update(b, s[a])
}

proof fn lemma_swapped(s: Seq<Entry>, a: int, b: int)
    requires
        0 <= a < s.len(),
        0 <= b < s.len(),
    ensures
        forall|e: Entry| #[trigger] swapped(s, a, b).contains(e) <==> s.contains(e),
{
    let t = swapped(s, a, b);
    assert forall|e: Entry| #[trigger] t.contains(e) <==> s.contains(e) by {
        if t.contains(e) {
            let k = choose|k: int| 0 <= k < t.len() && t[k] == e;
            let j = if k == a {
                b
            } else if k == b {
                a
            } else {
                k
            };
            assert(s[j] == e);
        }
        if s.contains(e) {
            let k = choose|k: int| 0 <= k < s.len() && s[k] == e;
            let j = if k == a {
                b
            } else if k == b {
                a
            } else {
                k
            };
            assert(t[j] == e);
        }
    }
}

impl Queue {
    pub closed spec fn items(&self) -> Seq<Entry> {
        self.items@
    }

    pub closed spec fn wf(&self) -> bool {
        is_heap(self.items@)
    }

    /// The entry is in the queue.
    pub open spec fn holds(&self, e: Entry) -> bool {
        self.items().contains(e)
    }

    pub fn new() -> (r: Queue)
        ensures
            r.wf(),
            r.items().len() == 0,
    {
        Queue { items: Vec::new() }
    }

    /// The cheapest entry, which stays in the queue.
    pub fn first(&self) -> (r: Option<Entry>)
        requires
            self.wf(),
        ensures
            match r {
                Some(e) => self.items().len() > 0 && e == self.items()[0] && self.holds(e)
                    && forall|x: Entry| #[trigger] self.holds(x) ==> e.cost <= x.cost,
                None => self.items().len() == 0,
            },
    {
        if self.items.len() == 0 {
            return None;
        }
        let e = self.items[0];
        proof {
            assert(self.items@[0] == e);
            assert forall|x: Entry| #[trigger] self.holds(x) implies e.cost <= x.cost by {
                let k = choose|k: int| 0 <= k < self.items@.len() && self.items@[k] == x;
                lemma_first_is_least(self.items@, k);
            }
        }
        Some(e)
    }

    fn swap(&mut self, a: usize, b: usize)
        requires
            a < old(self).items@.len(),
            b < old(self).items@.len(),
        ensures
            final(self).items@ == swapped(old(self).items@, a as int, b as int),
    {
        let (x, y) = (self.items[a], self.items[b]);
        self.items[a] = y;
        self.items[b] = x;
    }

    pub fn push(&mut self, e: Entry)
        requires
            old(self).wf(),
        ensures
            final(self).wf(),
            final(self).items().len() == old(self).items().len() + 1,
            forall|x: Entry| #[trigger] final(self).holds(x) <==> old(self).holds(x) || x == e,
    {
        let mut i = self.items.len();
        self.items.push(e);
        let ghost all = self.items@;
        proof {
            assert forall|k: int| 0 < k < all.len() && k != i implies #[trigger] hangs(all, k) by {
                assert(hangs(old(self).items@, k));
            }
            assert forall|x: Entry| #[trigger] all.contains(x) <==> old(self).items@.contains(x) || x
                == e by {
                if old(self).items@.contains(x) {
                    let k = choose|k: int|
                        0 <= k < old(self).items@.len() && old(self).items@[k] == x;
                    assert(all[k] == x);
                }
                assert(all[i as int] == e);
            }
        }
        while i > 0 && self.items[i].cost < self.items[(i - 1) / 2].cost
            invariant
                i < self.items@.len(),
                self.items@.len() == all.len(),
                rises(self.items@, i as int),
                forall|x: Entry| #[trigger] self.items@.contains(x) <==> all.contains(x),
            decreases i,
        {
            let up = (i - 1) / 2;
            let ghost s = self.items@;
            self.swap(i, up);
            proof {
                lemma_swapped(s, i as int, up as int);
                lemma_risen(s, i as int);
            }
            i = up;
        }
        proof {
            assert forall|k: int| 0 < k < self.items@.len() implies #[trigger] hangs(
                self.items@,
                k,
            ) by {}
            assert forall|x: Entry| #[trigger] self.holds(x) <==> old(self).holds(x) || x == e by {
                assert(self.items@.contains(x) <==> all.contains(x));
            }
        }
    }

    /// Take the cheapest entry out.
    pub fn drop_first(&mut self)
        requires
            old(self).wf(),
            old(self).items().len() > 0,
        ensures
            final(self).wf(),
            final(self).items().len() == old(self).items().len() - 1,
            forall|x: Entry| #[trigger] final(self).holds(x) ==> old(self).holds(x),
            forall|x: Entry|
                x != old(self).items()[0] && #[trigger] old(self).holds(x) ==> final(self).holds(x),
    {
        let ghost all = self.items@;
        let last = self.items.len() - 1;
        self.swap(0, last);
        proof {
            lemma_swapped(all, 0, last as int);
        }
        let ghost turned = self.items@;
        self.items.pop();
        proof {
            assert forall|x: Entry|
                (#[trigger] self.items@.contains(x) ==> all.contains(x)) && (all.contains(x) && x
                    != all[0] ==> self.items@.contains(x)) by {
                if self.items@.contains(x) {
                    let k = choose|k: int| 0 <= k < self.items@.len() && self.items@[k] == x;
                    assert(turned[k] == x);
                    assert(turned.contains(x));
                }
                if all.contains(x) && x != all[0] {
                    assert(turned.contains(x));
                    let k = choose|k: int| 0 <= k < turned.len() && turned[k] == x;
                    assert(turned[last as int] == all[0]);
                    assert(self.items@[k] == x);
                }
            }
            assert forall|k: int|
                0 < k < self.items@.len() && (k - 1) / 2 != 0 implies #[trigger] hangs(
                self.items@,
                k,
            ) by {
                assert(hangs(all, k));
            }
        }
        let ghost kept = self.items@;
        let n = self.items.len();
        let mut i: usize = 0;
        let mut open: bool = true;
        while open
            invariant
                n == self.items@.len(),
                n == kept.len(),
                n < usize::MAX,
                i <= n,
                open ==> sinks(self.items@, i as int),
                !open ==> is_heap(self.items@),
                forall|x: Entry| #[trigger] self.items@.contains(x) <==> kept.contains(x),
            decreases n - i + (if open {
                1int
            } else {
                0int
            }),
        {
            let ghost s = self.items@;
            if i >= n / 2 {
                // nothing hangs from it
                proof {
                    lemma_rests(s, i as int);
                }
                open = false;
            } else {
                let left = 2 * i + 1;
                let low = if left + 1 < n && self.items[left + 1].cost < self.items[left].cost {
                    left + 1
                } else {
                    left
                };
                assert forall|k: int| 0 < k < s.len() && (k - 1) / 2 == i implies s[low as int].cost
                    <= (#[trigger] s[k]).cost by {
                    assert(k == left || k == left + 1);
                }
                if self.items[low].cost < self.items[i].cost {
                    self.swap(i, low);
                    proof {
                        lemma_swapped(s, i as int, low as int);
                        lemma_sunk(s, i as int, low as int);
                    }
                    i = low;
                } else {
                    proof {
                        lemma_rests(s, i as int);
                    }
                    open = false;
                }
            }
        }
        proof {
            assert forall|x: Entry| #[trigger] self.holds(x) implies old(self).holds(x) by {
                assert(kept.contains(x));
            }
            assert forall|x: Entry|
                x != old(self).items()[0] && #[trigger] old(self).holds(x) implies self.holds(x) by {
                assert(kept.contains(x));
            }
        }
    }
}

} // verus!
