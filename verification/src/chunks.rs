//! Cutting a range of work items into one run of consecutive items per worker.
use vstd::prelude::*;

verus! {

/// The size of each run when `total` items are shared among `parts`
/// workers: `total / parts`, rounded up.
pub open spec fn run_length(total: nat, parts: nat) -> nat {
    ((total + parts - 1) as int / parts as int) as nat
}

/// `r` cuts `0..total` into runs of `c` items, the last one possibly
/// shorter: run `k` is `k * c .. min(k * c + c, total)`, and the runs end at
/// `total`.
pub open spec fn cut_in_runs(r: Seq<(usize, usize)>, total: nat, c: nat) -> bool {
    &&& c > 0
    &&& r.len() > 0
    &&& forall|k: int|
        0 <= k < r.len() ==> (#[trigger] r[k]).0 == k * c && r[k].1 == if k * c + c <= total {
            k * c + c
        } else {
            total as int
        }
    &&& r[r.len() - 1].1 == total
    &&& (r.len() - 1) * c < total
}

/// Cuts `0..total` into runs of `total / parts` items, rounded up, in
/// order; the last run may be shorter.
pub fn chunk_ranges(total: usize, parts: usize) -> (r: Vec<(usize, usize)>)
    requires
        total > 0,
        parts > 0,
    ensures
        cut_in_runs(r@, total as nat, run_length(total as nat, parts as nat)),
{
    proof {
        let t = total as int;
        let p = parts as int;
        vstd::arithmetic::div_mod::lemma_fundamental_div_mod(t, p);
        if p == 1 {
            vstd::arithmetic::div_mod::lemma_fundamental_div_mod_converse(t, p, t, 0);
        } else {
            assert(t / p < t) by (nonlinear_arith)
                requires
                    t == p * (t / p) + t % p,
                    0 <= t % p,
                    p >= 2,
                    t > 0,
            ;
        }
    }
    let c: usize = total / parts + if total % parts == 0 {
        0
    } else {
        1
    };
    assert(c == run_length(total as nat, parts as nat)) by {
        let t = total as int;
        let p = parts as int;
        vstd::arithmetic::div_mod::lemma_fundamental_div_mod(t, p);
        let q = t / p;
        let m = t % p;
        assert(t == q * p + m) by (nonlinear_arith)
            requires
                t == p * q + m,
        ;
        if m == 0 {
            vstd::arithmetic::div_mod::lemma_fundamental_div_mod_converse(t + p - 1, p, q, p - 1);
        } else {
            assert(t + p - 1 == (q + 1) * p + (m - 1)) by (nonlinear_arith)
                requires
                    t == q * p + m,
            ;
            vstd::arithmetic::div_mod::lemma_fundamental_div_mod_converse(
                t + p - 1,
                p,
                q + 1,
                m - 1,
            );
        }
    }
    assert(c > 0);
    let mut r: Vec<(usize, usize)> = Vec::new();
    let mut start: usize = 0;
    assert(r@.len() * c == 0) by (nonlinear_arith)
        requires
            r@.len() == 0,
    ;
    while start < total
        invariant
            c > 0,
            start <= total,
            start == if r@.len() * c <= total {
                r@.len() * c
            } else {
                total as int
            },
            forall|k: int|
                0 <= k < r@.len() ==> (#[trigger] r@[k]).0 == k * c && r@[k].1 == if k * c + c
                    <= total {
                    k * c + c
                } else {
                    total as int
                },
            r@.len() > 0 ==> r@[r@.len() - 1].1 == start,
            r@.len() > 0 ==> (r@.len() - 1) * c < total,
        decreases total - start,
    {
        let end: usize = if total - start <= c {
            total
        } else {
            start + c
        };
        proof {
            assert((r@.len() + 1) * c == r@.len() * c + c) by (nonlinear_arith);
        }
        r.push((start, end));
        start = end;
    }
    r
}

/// Calls `rayon::current_num_threads`: the number of threads of the current
/// thread pool, or of the global one outside any pool. Its source builds
/// every pool with at least one thread; how many depends on the machine
/// and the environment.
#[verifier::external_body]
fn worker_count() -> (r: usize)
    ensures
        r >= 1,
{
    rayon::current_num_threads()
}

/// Cuts `0..total` into one run of consecutive items per worker of the
/// current thread pool, in order: runs of `total / p` items, rounded up,
/// for the `p >= 1` threads of the pool; the last run may be shorter.
pub fn worker_chunks(total: usize) -> (r: Vec<(usize, usize)>)
    requires
        total > 0,
    ensures
        exists|p: nat| p >= 1 && cut_in_runs(r@, total as nat, #[trigger] run_length(total as nat, p)),
{
    let parts = worker_count();
    let r = chunk_ranges(total, parts);
    assert(cut_in_runs(r@, total as nat, run_length(total as nat, parts as nat)));
    r
}

} // verus!
