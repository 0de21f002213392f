use vstd::prelude::*;
use crate::items::{Item, ItemSet, num_targets, sum_of, lemma_sum_push};
use crate::sampler::seeded_rng;
use crate::trial::{complete, is_trial_result, run_trial, valid_draws};

verus! {

/// How `n` trials are split over `w` workers: each of the first `w - 1` runs
/// `n / w` of them and the last one runs what remains.
pub open spec fn partition_sizes(n: u64, w: u64) -> Seq<u64> {
    Seq::new(
        w as nat,
        |i: int| if i < w - 1 { (n / w) as u64 } else { (n - (n / w) * (w - 1)) as u64 },
    )
}

/// Every value is a possible outcome of one trial on the pool.
pub open spec fn all_trial_results(items: Seq<Item>, v: Seq<u64>) -> bool {
    forall|k: int| 0 <= k < v.len() ==> is_trial_result(items, #[trigger] v[k])
}

/// A sequence holding `c` throughout sums to its length times `c`.
proof fn lemma_sum_constant(s: Seq<u64>, c: u64)
    requires
        forall|i: int| 0 <= i < s.len() ==> s[i] == c,
    ensures
        sum_of(s) == s.len() * c,
    decreases s.len(),
{
    if s.len() > 0 {
        lemma_sum_constant(s.drop_last(), c);
        assert(sum_of(s) == (s.len() - 1) * c + c);
        assert((s.len() - 1) * c + c == s.len() * c) by (nonlinear_arith);
    }
}

/// The first `w - 1` shares never exceed the number of trials.
proof fn lemma_share_fits(n: u64, w: u64)
    requires
        w > 0,
    ensures
        (n / w) * (w - 1) <= n,
{
    let q = n / w;
    assert(q * w <= n) by (nonlinear_arith)
        requires
            q == n / w,
            w > 0,
    ;
    assert(q * (w - 1) <= q * w) by (nonlinear_arith)
        requires
            w > 0,
            q >= 0,
    ;
}

/// The shares of the workers add up to the number of trials asked for.
pub proof fn lemma_partition_total(n: u64, w: u64)
    requires
        w > 0,
    ensures
        partition_sizes(n, w).len() == w,
        sum_of(partition_sizes(n, w)) == n,
{
    let p = partition_sizes(n, w);
    lemma_share_fits(n, w);
    lemma_sum_constant(p.drop_last(), (n / w) as u64);
    assert(sum_of(p) == (w - 1) * (n / w) + (n - (n / w) * (w - 1)));
    assert((w - 1) * (n / w) == (n / w) * (w - 1)) by (nonlinear_arith);
}

/// Splits `n` trials over `w` workers.
pub fn partition(n: u64, w: u64) -> (r: Vec<u64>)
    requires
        w > 0,
    ensures
        r@ == partition_sizes(n, w),
{
    proof {
        lemma_share_fits(n, w);
    }
    let share = n / w;
    let mut r: Vec<u64> = Vec::new();
    let mut i: u64 = 0;
    while i < w
        invariant
            w > 0,
            i <= w,
            share == n / w,
            share * (w - 1) <= n,
            r@ == partition_sizes(n, w).take(i as int),
        decreases w - i,
    {
        if i < w - 1 {
            r.push(share);
        } else {
            r.push(n - share * (w - 1));
        }
        i = i + 1;
        assert(r@ =~= partition_sizes(n, w).take(i as int));
    }
    assert(r@ =~= partition_sizes(n, w));
    r
}

/// Runs `count` trials one after another with the worker's own generator.
/// `None` only if one of them hit the draw limit: `u64::MAX` valid draws
/// that did not collect every target.
pub fn run_worker(set: &ItemSet, count: u64, rng: &mut rand::rngs::StdRng) -> (r: Option<Vec<u64>>)
    requires
        set.wf(),
    ensures
        r matches Some(v) ==> v@.len() == count && all_trial_results(set@, v@),
        num_targets(set@) == 0 ==> (r matches Some(v) && v@ == Seq::new(count as nat, |i: int| 0u64)),
        r is None ==> exists|d: Seq<u64>|
            d.len() == u64::MAX && valid_draws(set@, d) && !complete(set@, d),
{
    let mut v: Vec<u64> = Vec::new();
    let mut i: u64 = 0;
    while i < count
        invariant
            set.wf(),
            i <= count,
            v@.len() == i,
            all_trial_results(set@, v@),
            num_targets(set@) == 0 ==> v@ == Seq::new(i as nat, |k: int| 0u64),
        decreases count - i,
    {
        match run_trial(set, rng) {
            Some(t) => {
                v.push(t);
            },
            None => {
                return None;
            },
        }
        i = i + 1;
        assert(num_targets(set@) == 0 ==> v@ =~= Seq::new(i as nat, |k: int| 0u64));
    }
    Some(v)
}

/// Appends a worker's results to the shared collection in one step.
pub fn merge_into(shared: &mut Vec<u64>, local: Vec<u64>)
    ensures
        final(shared)@ == old(shared)@ + local@,
{
    let mut local = local;
    shared.append(&mut local);
}

/// Runs `n` trials split over `w` workers, one after another, worker `i`
/// drawing from a generator seeded with `seed + i` (wrapping). The results
/// of all workers are merged into one collection; `None` only if a trial
/// hit the draw limit (`u64::MAX` valid draws that did not collect every target).
pub fn run_simulation(set: &ItemSet, n: u64, w: u64, seed: u64) -> (r: Option<Vec<u64>>)
    requires
        set.wf(),
        w > 0,
    ensures
        r matches Some(v) ==> v@.len() == n && all_trial_results(set@, v@),
        num_targets(set@) == 0 ==> (r matches Some(v) && v@ == Seq::new(n as nat, |i: int| 0u64)),
        r is None ==> exists|d: Seq<u64>|
            d.len() == u64::MAX && valid_draws(set@, d) && !complete(set@, d),
{
    let parts = partition(n, w);
    proof {
        lemma_partition_total(n, w);
    }
    let mut results: Vec<u64> = Vec::new();
    let mut i: usize = 0;
    while i < parts.len()
        invariant
            set.wf(),
            i <= parts@.len(),
            parts@ == partition_sizes(n, w),
            sum_of(parts@) == n,
            parts@.len() == w,
            results@.len() == sum_of(parts@.take(i as int)),
            all_trial_results(set@, results@),
            num_targets(set@) == 0 ==> results@ == Seq::new(results@.len(), |k: int| 0u64),
        decreases parts@.len() - i,
    {
        let mut rng = seeded_rng(seed.wrapping_add(i as u64));
        let local = match run_worker(set, parts[i], &mut rng) {
            Some(v) => v,
            None => {
                return None;
            },
        };
        let ghost old_results = results@;
        merge_into(&mut results, local);
        proof {
            lemma_sum_push(parts@, i as int);
            assert forall|k: int| 0 <= k < results@.len() implies is_trial_result(
                set@,
                #[trigger] results@[k],
            ) by {
                if k >= old_results.len() {
                    assert(results@[k] == local@[k - old_results.len()]);
                } else {
                    assert(results@[k] == old_results[k]);
                }
            }
            if num_targets(set@) == 0 {
                assert(results@ =~= Seq::new(results@.len(), |k: int| 0u64));
            }
        }
        i = i + 1;
    }
    assert(parts@.take(i as int) =~= parts@);
    proof {
        if num_targets(set@) == 0 {
            assert(results@ =~= Seq::new(n as nat, |k: int| 0u64));
        }
    }
    Some(results)
}

} // verus!
