//! A shard task's window onto the fleet. The rows lie in one shared buffer, or
//! each shard's rows lie in a buffer of its own, so that no task can reach a row
//! of another shard. Splitting the rows and putting them together again loses
//! nothing, and a write through the window reaches one row only.

use vstd::prelude::*;
use crate::fleet::{reversed, NetVehicle};
use crate::search::{count_where, lemma_count_agree, lemma_count_bounds, lemma_count_monotone};

verus! {

pub enum ShardView {
    /// One buffer for all.
    Shared(Vec<NetVehicle>),
    /// A buffer per shard; the index gives the shard and the slot of every row.
    Regions { bufs: Vec<Vec<NetVehicle>>, index: Vec<(u32, u32)> },
}

/// Of a row: the index puts it in the shard.
pub open spec fn in_shard(index: Seq<(u32, u32)>, s: u32) -> spec_fn(int) -> bool {
    |i: int| index[i].0 == s
}

/// The slots of a shard are dealt in row order, without gaps.
pub open spec fn index_ok(index: Seq<(u32, u32)>, shards: nat) -> bool {
    forall|i: int|
        0 <= i < index.len() ==> (#[trigger] index[i]).0 < shards && index[i].1 == count_where(
            i,
            in_shard(index, index[i].0),
        )
}

/// Every buffer holds the rows that the index puts there.
pub open spec fn bufs_ok(bufs: Seq<Vec<NetVehicle>>, index: Seq<(u32, u32)>) -> bool {
    forall|s: int|
        0 <= s < bufs.len() ==> (#[trigger] bufs[s])@.len() == count_where(
            index.len() as int,
            in_shard(index, s as u32),
        )
}

impl ShardView {
    pub open spec fn wf(&self) -> bool {
        match self {
            ShardView::Shared(_) => true,
            ShardView::Regions { bufs, index } => {
                &&& bufs@.len() <= u32::MAX
                &&& index@.len() <= u32::MAX
                &&& index_ok(index@, bufs@.len())
                &&& bufs_ok(bufs@, index@)
            },
        }
    }

    /// The rows, in fleet order.
    pub open spec fn rows(&self) -> Seq<NetVehicle> {
        match self {
            ShardView::Shared(rows) => rows@,
            ShardView::Regions { bufs, index } => Seq::new(
                index@.len(),
                |i: int| bufs@[index@[i].0 as int]@[index@[i].1 as int],
            ),
        }
    }

    /// A window onto one shared buffer.
    pub fn shared(rows: Vec<NetVehicle>) -> (r: ShardView)
        ensures
            r is Shared,
            r.wf(),
            r.rows() == rows@,
    {
        ShardView::Shared(rows)
    }

    /// Give each of the shards a buffer of its own and deal the rows to them by
    /// their home shards.
    pub fn regions(rows: Vec<NetVehicle>, homes: &Vec<u32>, count: usize) -> (r: ShardView)
        requires
            rows@.len() <= u32::MAX,
            count <= u32::MAX,
            homes@.len() == rows@.len(),
            forall|i: int| 0 <= i < homes@.len() ==> #[trigger] homes@[i] < count,
        ensures
            r.wf(),
            r.rows() == rows@,
            r matches ShardView::Regions { bufs, index } && bufs@.len() == count && index@.len()
                == rows@.len() && forall|i: int|
                0 <= i < index@.len() ==> (#[trigger] index@[i]).0 == homes@[i],
    {
        let n = rows.len();
        let ghost all = rows@;
        let mut bufs: Vec<Vec<NetVehicle>> = Vec::new();
        let mut s: usize = 0;
        while s < count
            invariant
                s <= count,
                bufs@.len() == s,
                forall|k: int| 0 <= k < s ==> (#[trigger] bufs@[k])@.len() == 0,
            decreases count - s,
        {
            bufs.push(Vec::new());
            s += 1;
        }
        let mut index: Vec<(u32, u32)> = Vec::new();
        let mut rest = reversed(rows);
        let mut i: usize = 0;
        while i < n
            invariant
                n == all.len(),
                n <= u32::MAX,
                count <= u32::MAX,
                i <= n,
                homes@.len() == n,
                forall|k: int| 0 <= k < n ==> #[trigger] homes@[k] < count,
                bufs@.len() == count,
                rest@.len() == n - i,
                forall|k: int| 0 <= k < rest@.len() ==> #[trigger] rest@[k] == all[n - 1 - k],
                index@.len() == i,
                index_ok(index@, count as nat),
                bufs_ok(bufs@, index@),
                forall|k: int|
                    0 <= k < i ==> (#[trigger] index@[k]).0 == homes@[k]
                        && index@[k].1 < bufs@[index@[k].0 as int]@.len()
                        && bufs@[index@[k].0 as int]@[index@[k].1 as int] == all[k],
            decreases n - i,
        {
            let row = rest.pop().unwrap();
            let home = homes[i];
            let ghost before = index@;
            let ghost full = bufs@;
            proof {
                lemma_count_bounds(before.len() as int, in_shard(before, home));
                assert(full[home as int]@.len() == count_where(
                    before.len() as int,
                    in_shard(before, home),
                ));
            }
            let slot = bufs[home as usize].len() as u32;
            index.push((home, slot));
            bufs[home as usize].push(row);
            proof {
                lemma_index_grows(before, (home, slot), count as nat);
                assert forall|s: int| 0 <= s < bufs@.len() implies (#[trigger] bufs@[s])@.len()
                    == count_where(index@.len() as int, in_shard(index@, s as u32)) by {
                    lemma_count_agree(
                        before.len() as int,
                        in_shard(before, s as u32),
                        in_shard(index@, s as u32),
                    );
                    assert(full[s]@.len() == count_where(
                        before.len() as int,
                        in_shard(before, s as u32),
                    ));
                    if s != home {
                        assert(bufs@[s] == full[s]);
                    }
                }
                assert forall|k: int| 0 <= k < i + 1 implies (#[trigger] index@[k]).0 == homes@[k]
                    && index@[k].1 < bufs@[index@[k].0 as int]@.len()
                    && bufs@[index@[k].0 as int]@[index@[k].1 as int] == all[k] by {
                    if k < i {
                        assert(index@[k] == before[k]);
                    }
                }
            }
            i += 1;
        }
        let r = ShardView::Regions { bufs, index };
        assert(r.rows() =~= all);
        r
    }

    /// The row `i`.
    pub fn row(&self, i: usize) -> (r: &NetVehicle)
        requires
            self.wf(),
            i < self.rows().len(),
        ensures
            *r == self.rows()[i as int],
    {
        match self {
            ShardView::Shared(rows) => &rows[i],
            ShardView::Regions { bufs, index } => {
                proof {
                    lemma_slot(bufs@, index@, i as int);
                }
                let (s, l) = index[i];
                &bufs[s as usize][l as usize]
            },
        }
    }

    /// Write the row `i`. No other row changes, and every row stays where it is.
    pub fn set_row(&mut self, i: usize, v: NetVehicle)
        requires
            old(self).wf(),
            i < old(self).rows().len(),
        ensures
            final(self).wf(),
            final(self).rows() == old(self).rows().update(i as int, v),
            match (*old(self), *final(self)) {
                (ShardView::Shared(_), ShardView::Shared(_)) => true,
                (ShardView::Regions { bufs, index }, ShardView::Regions { bufs: bufs1, index: index1 }) => {
                    &&& index1@ == index@
                    &&& bufs1@.len() == bufs@.len()
                    &&& bufs1@[index@[i as int].0 as int]@ == bufs@[index@[i as int].0 as int]@.update(
                        index@[i as int].1 as int,
                        v,
                    )
                    &&& forall|s: int|
                        0 <= s < bufs@.len() && s != index@[i as int].0 ==> (
                        #[trigger] bufs1@[s])@ == bufs@[s]@
                },
                _ => false,
            },
    {
        match self {
            ShardView::Shared(rows) => {
                rows[i] = v;
            },
            ShardView::Regions { bufs, index } => {
                proof {
                    lemma_slot(bufs@, index@, i as int);
                }
                let ghost full = bufs@;
                let (s, l) = index[i];
                bufs[s as usize][l as usize] = v;
                assert forall|x: int| 0 <= x < bufs@.len() implies (#[trigger] bufs@[x])@.len()
                    == count_where(index@.len() as int, in_shard(index@, x as u32)) by {
                    assert(full[x]@.len() == count_where(
                        index@.len() as int,
                        in_shard(index@, x as u32),
                    ));
                }
                assert forall|k: int| 0 <= k < index@.len() && k != i implies #[trigger] index@[k]
                    != index@[i as int] by {
                    no_two_rows_share_a_slot(index@, bufs@.len(), k, i as int);
                }
                assert forall|k: int| 0 <= k < index@.len() implies index@[k].1
                    < full[(#[trigger] index@[k]).0 as int]@.len() by {
                    lemma_slot(full, index@, k);
                }
            },
        }
        assert(self.rows() =~= old(self).rows().update(i as int, v));
    }

    /// Put the rows together again, in fleet order.
    pub fn merge(self) -> (r: Vec<NetVehicle>)
        requires
            self.wf(),
        ensures
            r@ == self.rows(),
    {
        match self {
            ShardView::Shared(rows) => rows,
            ShardView::Regions { bufs, index } => {
                let ghost all = self.rows();
                let ghost whole = index@;
                let n = index.len();
                let mut bufs = bufs;
                let mut out: Vec<NetVehicle> = Vec::new();
                let mut i: usize = n;
                assert(index@.take(n as int) =~= index@);
                while i > 0
                    invariant
                        i <= n,
                        n == whole.len(),
                        whole == index@,
                        all.len() == n,
                        bufs@.len() <= u32::MAX,
                        index_ok(index@, bufs@.len()),
                        bufs_ok(bufs@, index@.take(i as int)),
                        out@.len() == n - i,
                        forall|k: int| 0 <= k < out@.len() ==> #[trigger] out@[k] == all[n - 1 - k],
                        forall|k: int|
                            0 <= k < i ==> bufs@[(#[trigger] index@[k]).0 as int]@[index@[k].1 as int]
                                == all[k],
                    decreases i,
                {
                    let ghost full = bufs@;
                    let ghost at = index@[i - 1];
                    let ghost upto = index@.take(i as int);
                    proof {
                        assert(upto[i - 1] == at);
                        assert(at.1 == count_where(i - 1, in_shard(index@, at.0)));
                        lemma_count_agree(
                            i - 1,
                            in_shard(index@, at.0),
                            in_shard(upto, at.0),
                        );
                        lemma_count_bounds(i - 1, in_shard(upto, at.0));
                        assert(full[at.0 as int]@.len() == at.1 + 1);
                    }
                    i -= 1;
                    let (s, _l) = index[i];
                    let row = bufs[s as usize].pop().unwrap();
                    out.push(row);
                    proof {
                        let less = index@.take(i as int);
                        assert forall|x: int| 0 <= x < bufs@.len() implies (#[trigger] bufs@[x])@.len()
                            == count_where(less.len() as int, in_shard(less, x as u32)) by {
                            assert(full[x]@.len() == count_where(
                                upto.len() as int,
                                in_shard(upto, x as u32),
                            ));
                            lemma_count_agree(
                                i as int,
                                in_shard(less, x as u32),
                                in_shard(upto, x as u32),
                            );
                            if x != s {
                                assert(bufs@[x] == full[x]);
                            }
                        }
                        assert forall|k: int| 0 <= k < i implies bufs@[(#[trigger] index@[k]).0 as int]@[index@[k].1 as int]
                            == all[k] by {
                            if index@[k].0 == s {
                                lemma_slot_upto(index@, bufs@.len(), k, i as int);
                            }
                        }
                    }
                }
                let back = reversed(out);
                assert(back@ =~= all);
                back
            },
        }
    }
}

proof fn lemma_index_grows(index: Seq<(u32, u32)>, at: (u32, u32), shards: nat)
    requires
        index_ok(index, shards),
        at.0 < shards,
        at.1 == count_where(index.len() as int, in_shard(index, at.0)),
    ensures
        index_ok(index.push(at), shards),
{
    let more = index.push(at);
    assert forall|i: int| 0 <= i < more.len() implies (#[trigger] more[i]).0 < shards && more[i].1
        == count_where(i, in_shard(more, more[i].0)) by {
        if i < index.len() {
            assert(more[i] == index[i]);
        }
        lemma_count_agree(i, in_shard(index, more[i].0), in_shard(more, more[i].0));
    }
}

/// An earlier row of the same shard has a lower slot.
proof fn lemma_slot_upto(index: Seq<(u32, u32)>, shards: nat, a: int, b: int)
    requires
        index_ok(index, shards),
        0 <= a < b < index.len(),
        index[a].0 == index[b].0,
    ensures
        index[a].1 < index[b].1,
{
    let p = in_shard(index, index[a].0);
    lemma_count_monotone(a + 1, b, p);
    assert(count_where(a + 1, p) == count_where(a, p) + 1);
}

/// A row's slot is within its shard's buffer.
proof fn lemma_slot(bufs: Seq<Vec<NetVehicle>>, index: Seq<(u32, u32)>, i: int)
    requires
        index_ok(index, bufs.len()),
        bufs_ok(bufs, index),
        bufs.len() <= u32::MAX,
        0 <= i < index.len(),
    ensures
        index[i].0 < bufs.len(),
        index[i].1 < bufs[index[i].0 as int]@.len(),
{
    let p = in_shard(index, index[i].0);
    assert(index[i].0 < bufs.len());
    lemma_count_monotone(i + 1, index.len() as int, p);
    assert(count_where(i + 1, p) == count_where(i, p) + 1);
    assert(bufs[index[i].0 as int]@.len() == count_where(index.len() as int, p));
}

/// No row is reached from two places: different rows have different slots.
pub proof fn no_two_rows_share_a_slot(index: Seq<(u32, u32)>, shards: nat, a: int, b: int)
    requires
        index_ok(index, shards),
        0 <= a < index.len(),
        0 <= b < index.len(),
        a != b,
    ensures
        index[a] != index[b],
{
    if index[a].0 == index[b].0 {
        if a < b {
            lemma_slot_upto(index, shards, a, b);
        } else {
            lemma_slot_upto(index, shards, b, a);
        }
    }
}

} // verus!
