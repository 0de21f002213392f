use vstd::prelude::*;
use crate::items::{sum_of, lemma_sum_push};

verus! {

/// The mean of a non-empty collection of draw counts, held exactly as the
/// fraction `total / count`.
#[derive(Debug, Clone, Copy, PartialEq, Eq)]
pub struct Average {
    pub total: u128,
    pub count: u64,
}

/// The exact mean of `results`, or `None` ("no data") when there are none.
pub fn summarize(results: &Vec<u64>) -> (r: Option<Average>)
    ensures
        r is None <==> results@.len() == 0,
        r matches Some(a) ==> a.total == sum_of(results@) && a.count == results@.len(),
{
    if results.len() == 0 {
        return None;
    }
    let mut total: u128 = 0;
    let mut i: usize = 0;
    while i < results.len()
        invariant
            i <= results@.len(),
            total == sum_of(results@.take(i as int)),
            total <= i * (u64::MAX as int),
        decreases results@.len() - i,
    {
        proof {
            lemma_sum_push(results@, i as int);
            let x = results@[i as int] as int;
            let ii = i as int;
            assert(total + x <= (ii + 1) * (u64::MAX as int)) by (nonlinear_arith)
                requires
                    total <= ii * (u64::MAX as int),
                    x <= u64::MAX,
            ;
            assert((ii + 1) * (u64::MAX as int) <= u128::MAX) by (nonlinear_arith)
                requires
                    ii + 1 <= usize::MAX,
            ;
        }
        total = total + results[i] as u128;
        i = i + 1;
    }
    assert(results@.take(i as int) =~= results@);
    Some(Average { total, count: results.len() as u64 })
}

} // verus!
