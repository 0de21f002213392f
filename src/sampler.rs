use rand::Rng;
use rand::SeedableRng;
use vstd::prelude::*;
use crate::items::{
    Item, ItemSet, prefix_weight, total_weight, weights_of, lemma_prefix_step,
};

verus! {

/// rand's standard seedable generator, carried through as an opaque value.
#[verifier::external_type_specification]
#[verifier::external_body]
pub struct ExStdRng(rand::rngs::StdRng);

/// Whether the draw value `r` selects item `j`: `r` falls in the slice of
/// `[1, total_weight]` that belongs to item `j`.
pub open spec fn hits(items: Seq<Item>, j: int, r: int) -> bool {
    &&& 0 <= j < items.len()
    &&& prefix_weight(items, j) < r <= prefix_weight(items, j + 1)
}

/// Relies on rand's `SeedableRng::seed_from_u64`: a generator whose stream
/// depends on the seed alone.
#[verifier::external_body]
pub(crate) fn seeded_rng(seed: u64) -> (r: rand::rngs::StdRng) {
    rand::rngs::StdRng::seed_from_u64(seed)
}

/// Relies on rand's `Rng::gen_range` over an inclusive range: the value lies
/// within the bounds (it panics only on an empty range, which `requires` excludes).
#[verifier::external_body]
fn random_between(rng: &mut rand::rngs::StdRng, lo: u64, hi: u64) -> (r: u64)
    requires
        lo <= hi,
    ensures
        lo <= r <= hi,
{
    rng.gen_range(lo..=hi)
}

/// A uniform draw value in `[1, total]`.
pub fn draw_value(set: &ItemSet, rng: &mut rand::rngs::StdRng) -> (r: u64)
    requires
        set.wf(),
        total_weight(set@) > 0,
    ensures
        1 <= r <= total_weight(set@),
{
    let total = set.weight_sum();
    random_between(rng, 1, total)
}

/// The item selected by draw value `r`: scanning in order and taking away each
/// weight from `r`, the first item whose weight reaches what is left of `r`.
pub fn pick_index(set: &ItemSet, r: u64) -> (j: usize)
    requires
        set.wf(),
        1 <= r <= total_weight(set@),
    ensures
        hits(set@, j as int, r as int),
{
    proof {
        set.lemma_wf();
    }
    let n = set.len();
    let mut rest: u64 = r;
    let mut j: usize = 0;
    proof {
        assert(weights_of(set@).take(0) =~= Seq::<u64>::empty());
    }
    while j < n
        invariant
            set.wf(),
            n == set@.len(),
            j <= n,
            1 <= rest,
            rest == r - prefix_weight(set@, j as int),
            r <= total_weight(set@),
        decreases n - j,
    {
        let w = set.item(j).weight;
        proof {
            lemma_prefix_step(set@, j as int);
        }
        if rest <= w {
            return j;
        }
        rest = rest - w;
        j = j + 1;
    }
    proof {
        assert(weights_of(set@).take(n as int) =~= weights_of(set@));
    }
    0
}

/// Draws one item (by position) with probability proportional to its weight.
pub fn draw(set: &ItemSet, rng: &mut rand::rngs::StdRng) -> (j: usize)
    requires
        set.wf(),
        total_weight(set@) > 0,
    ensures
        exists|r: int| 1 <= r <= total_weight(set@) && hits(set@, j as int, r),
{
    let r = draw_value(set, rng);
    pick_index(set, r)
}


/// Prefix weights never decrease along the pool.
pub proof fn lemma_prefix_monotone(items: Seq<Item>, a: int, b: int)
    requires
        0 <= a <= b <= items.len(),
    ensures
        prefix_weight(items, a) <= prefix_weight(items, b),
    decreases b - a,
{
    if a < b {
        lemma_prefix_step(items, b - 1);
        lemma_prefix_monotone(items, a, b - 1);
    }
}

/// A draw value selects at most one item.
pub proof fn lemma_hits_unique(items: Seq<Item>, i: int, j: int, r: int)
    requires
        hits(items, i, r),
        hits(items, j, r),
    ensures
        i == j,
{
    if i < j {
        lemma_prefix_monotone(items, i + 1, j);
    } else if j < i {
        lemma_prefix_monotone(items, j + 1, i);
    }
}

/// An item of positive weight makes the total positive.
pub proof fn lemma_total_positive(items: Seq<Item>, j: int)
    requires
        0 <= j < items.len(),
        items[j].weight > 0,
    ensures
        total_weight(items) > 0,
{
    lemma_prefix_monotone(items, 0, j);
    lemma_prefix_step(items, j);
    lemma_prefix_monotone(items, j + 1, items.len() as int);
    assert(weights_of(items).take(0) =~= Seq::<u64>::empty());
    assert(weights_of(items).take(items.len() as int) =~= weights_of(items));
}

} // verus!
