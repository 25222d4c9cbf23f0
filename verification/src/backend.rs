//! Which executor runs the per-vehicle passes, and the order-preserving map
//! that they run on.

use vstd::prelude::*;
use rayon::iter::{IntoParallelIterator, ParallelIterator};

verus! {

/// Executor for the per-vehicle passes.
#[derive(Clone, Copy, Debug, PartialEq, Eq, Structural)]
pub enum AccelBackend {
    /// Single-threaded; always available.
    Serial,
    /// Data-parallel across CPU cores.
    Threads,
    /// GPU kernel for the evaluate pass.
    Gpu,
}

/// Below this many vehicles handing work to threads costs more than it gains.
pub const DEFAULT_PAR_THRESHOLD: usize = 500;

/// The same crossover for passes whose work per vehicle is light.
pub const LIGHT_PAR_THRESHOLD: usize = 8000;

impl AccelBackend {
    /// The name of a backend.
    pub open spec fn spelled(self) -> Seq<char> {
        match self {
            AccelBackend::Serial => "serial"@,
            AccelBackend::Threads => "threads"@,
            AccelBackend::Gpu => "gpu"@,
        }
    }

    /// The backend that a name stands for; unknown names stand for `Serial`.
    pub open spec fn meant_by(s: Seq<char>) -> AccelBackend {
        if s == "threads"@ {
            AccelBackend::Threads
        } else if s == "gpu"@ {
            AccelBackend::Gpu
        } else {
            AccelBackend::Serial
        }
    }

    pub fn from_name(s: &str) -> (r: Self)
        ensures
            r == Self::meant_by(s@),
    {
        let name = s.to_owned();
        if name == "threads".to_owned() {
            AccelBackend::Threads
        } else if name == "gpu".to_owned() {
            AccelBackend::Gpu
        } else {
            AccelBackend::Serial
        }
    }

    pub fn name(self) -> (r: &'static str)
        ensures
            r@ == self.spelled(),
    {
        match self {
            AccelBackend::Serial => "serial",
            AccelBackend::Threads => "threads",
            AccelBackend::Gpu => "gpu",
        }
    }
}

/// A backend's name stands for that backend.
pub proof fn names_round_trip(b: AccelBackend)
    ensures
        AccelBackend::meant_by(b.spelled()) == b,
{
    reveal_strlit("serial");
    reveal_strlit("threads");
    reveal_strlit("gpu");
    assert("serial"@.len() == 6);
    assert("threads"@.len() == 7);
    assert("gpu"@.len() == 3);
}

/// `rayon`'s parallel iterator over `0..n`, mapped and collected into a vector.
/// Collecting an indexed parallel iterator into a `Vec` keeps the items in the
/// order of their indices, so the result has one item per index and item `i` is
/// what the function returned for `i`.
#[verifier::external_body]
fn par_map_range<T: Send, F: Fn(usize) -> T + Sync + Send>(n: usize, f: F) -> (r: Vec<T>)
    requires
        forall|i: usize| i < n ==> call_requires(f, (i,)),
    ensures
        r@.len() == n,
        forall|i: int| 0 <= i < n ==> call_ensures(f, (i as usize,), #[trigger] r@[i]),
{
    (0..n).into_par_iter().map(f).collect()
}

/// `rayon`'s parallel iterator over a vector's items, taken out of it, mapped and
/// collected into a vector. It is indexed too, so the items keep their order: the
/// result has one item for each, and item `i` is what the function returned for the
/// `i`-th.
#[verifier::external_body]
fn par_map_vec<S: Send, T: Send, F: Fn(S) -> T + Sync + Send>(items: Vec<S>, f: F) -> (r: Vec<T>)
    requires
        forall|i: int| 0 <= i < items@.len() ==> call_requires(f, (#[trigger] items@[i],)),
    ensures
        r@.len() == items@.len(),
        forall|i: int| 0 <= i < items@.len() ==> call_ensures(f, (items@[i],), #[trigger] r@[i]),
{
    items.into_par_iter().map(f).collect()
}

/// `rayon::current_num_threads`: how many threads the pool has. Nothing is
/// promised of the number, which depends on the machine and on how the pool was
/// set up.
#[verifier::external_body]
fn pool_threads() -> (r: usize) {
    rayon::current_num_threads()
}

/// How many threads the pool has, at least one: [`usable_width`] of its number,
/// of which nothing more is known.
pub fn pool_width() -> (r: usize)
    ensures
        r >= 1,
{
    usable_width(pool_threads())
}

/// How many threads a pool of `threads` can be counted on for: all of them, and
/// the caller's own where it has none.
pub fn usable_width(threads: usize) -> (r: usize)
    ensures
        r == (if threads < 1 {
            1
        } else {
            threads
        }),
{
    if threads < 1 {
        1
    } else {
        threads
    }
}

/// Map `0..n` through `f`. On `Threads` the work is spread over the pool once
/// there are `threshold` items; the result is in index order on every backend.
pub fn map_collect<T: Send, F: Fn(usize) -> T + Sync + Send>(
    backend: AccelBackend,
    threshold: usize,
    n: usize,
    f: F,
) -> (r: Vec<T>)
    requires
        forall|i: usize| i < n ==> call_requires(f, (i,)),
    ensures
        r@.len() == n,
        forall|i: int| 0 <= i < n ==> call_ensures(f, (i as usize,), #[trigger] r@[i]),
{
    if backend == AccelBackend::Threads && n >= threshold {
        par_map_range(n, f)
    } else {
        let mut out: Vec<T> = Vec::new();
        let mut i: usize = 0;
        while i < n
            invariant
                i <= n,
                out@.len() == i,
                forall|k: usize| k < n ==> call_requires(f, (k,)),
                forall|k: int| 0 <= k < i ==> call_ensures(f, (k as usize,), #[trigger] out@[k]),
            decreases n - i,
        {
            out.push(f(i));
            i += 1;
        }
        out
    }
}

/// Map every item of a vector through `f`, on the pool or one after the other. The
/// result is in the order of the items either way.
pub fn map_all<S: Send, T: Send, F: Fn(S) -> T + Sync + Send>(
    backend: AccelBackend,
    items: Vec<S>,
    f: F,
) -> (r: Vec<T>)
    requires
        forall|i: int| 0 <= i < items@.len() ==> call_requires(f, (#[trigger] items@[i],)),
    ensures
        r@.len() == items@.len(),
        forall|i: int| 0 <= i < items@.len() ==> call_ensures(f, (items@[i],), #[trigger] r@[i]),
{
    if backend == AccelBackend::Threads {
        return par_map_vec(items, f);
    }
    let ghost all = items@;
    let n = items.len();
    let mut items = items;
    let mut rest: Vec<S> = Vec::new();
    while items.len() > 0
        invariant
            items@.len() + rest@.len() == n,
            n == all.len(),
            forall|k: int| 0 <= k < items@.len() ==> #[trigger] items@[k] == all[k],
            forall|k: int| 0 <= k < rest@.len() ==> #[trigger] rest@[k] == all[n - 1 - k],
        decreases items@.len(),
    {
        if let Some(x) = items.pop() {
            rest.push(x);
        }
    }
    let mut out: Vec<T> = Vec::new();
    while rest.len() > 0
        invariant
            out@.len() + rest@.len() == n,
            n == all.len(),
            forall|k: int| 0 <= k < rest@.len() ==> #[trigger] rest@[k] == all[n - 1 - k],
            forall|k: int| 0 <= k < n ==> call_requires(f, (#[trigger] all[k],)),
            forall|k: int| 0 <= k < out@.len() ==> call_ensures(f, (all[k],), #[trigger] out@[k]),
        decreases rest@.len(),
    {
        if let Some(x) = rest.pop() {
            assert(x == all[out@.len() as int]);
            out.push(f(x));
        }
    }
    out
}

/// For a function of its argument, every backend and threshold gives the same
/// vector: whatever two runs return, item by item, is equal.
pub proof fn every_backend_gives_the_serial_result<T, F: Fn(usize) -> T>(
    f: F,
    n: usize,
    a: Seq<T>,
    b: Seq<T>,
)
    requires
        forall|i: usize, x: T, y: T|
            #![trigger call_ensures(f, (i,), x), call_ensures(f, (i,), y)]
            call_ensures(f, (i,), x) && call_ensures(f, (i,), y) ==> x == y,
        a.len() == n,
        b.len() == n,
        forall|i: int| 0 <= i < n ==> call_ensures(f, (i as usize,), #[trigger] a[i]),
        forall|i: int| 0 <= i < n ==> call_ensures(f, (i as usize,), #[trigger] b[i]),
    ensures
        a == b,
{
    assert forall|i: int| 0 <= i < n implies a[i] == b[i] by {
        assert(call_ensures(f, (i as usize,), a[i]));
        assert(call_ensures(f, (i as usize,), b[i]));
    }
    assert(a =~= b);
}

/// The function accepts this shard and roster.
pub open spec fn shard_runs<T, F: Fn(usize, &Vec<u32>) -> T>(
    f: &F,
    s: usize,
    roster: &Vec<u32>,
) -> bool {
    call_requires(*f, (s, roster))
}

/// The function may return `t` for this shard and roster.
pub open spec fn shard_returns<T, F: Fn(usize, &Vec<u32>) -> T>(
    f: &F,
    s: usize,
    roster: &Vec<u32>,
    t: T,
) -> bool {
    call_ensures(*f, (s, roster), t)
}

/// Run a function once per shard, on the pool, and collect what each returned in
/// shard order.
pub fn shard_map<T: Send, F: Fn(usize, &Vec<u32>) -> T + Sync + Send>(
    rosters: &Vec<Vec<u32>>,
    f: F,
) -> (r: Vec<T>)
    requires
        forall|s: usize| s < rosters@.len() ==> shard_runs(&f, s, &#[trigger] rosters@[s as int]),
    ensures
        r@.len() == rosters@.len(),
        forall|s: int|
            0 <= s < r@.len() ==> shard_returns(&f, s as usize, &rosters@[s], #[trigger] r@[s]),
{
    let each = &f;
    let one = |s: usize| -> (t: T)
        requires
            s < rosters@.len(),
            shard_runs(each, s, &rosters@[s as int]),
        ensures
            shard_returns(each, s, &rosters@[s as int], t),
        { (*each)(s, &rosters[s]) };
    par_map_range(rosters.len(), one)
}

} // verus!
