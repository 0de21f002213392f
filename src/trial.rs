use vstd::prelude::*;
use crate::items::{Item, ItemSet, num_targets, prefix_weight, total_weight, weights_of, lemma_no_targets};
use crate::sampler::{draw_value, hits, pick_index, lemma_hits_unique, lemma_total_positive};

verus! {

/// Whether the draws `d` have drawn target item `j` at least once.
pub open spec fn collected(items: Seq<Item>, d: Seq<u64>, j: int) -> bool {
    items[j].is_target && exists|k: int| 0 <= k < d.len() && hits(items, j, #[trigger] d[k] as int)
}

/// Whether the draws `d` have collected every target item.
pub open spec fn complete(items: Seq<Item>, d: Seq<u64>) -> bool {
    forall|j: int| 0 <= j < items.len() && #[trigger] items[j].is_target ==> collected(items, d, j)
}

/// Every draw value lies in `[1, total_weight]`.
pub open spec fn valid_draws(items: Seq<Item>, d: Seq<u64>) -> bool {
    forall|k: int| 0 <= k < d.len() ==> 1 <= #[trigger] d[k] <= total_weight(items)
}

/// The draws `d` collect every target, and no shorter prefix of them does:
/// a trial that saw them stops after exactly `d.len()` draws.
pub open spec fn first_complete(items: Seq<Item>, d: Seq<u64>) -> bool {
    &&& complete(items, d)
    &&& forall|m: int| 0 <= m < d.len() ==> !complete(items, #[trigger] d.take(m))
}

/// `n` is a possible outcome of a trial: some sequence of `n` draws first
/// completes the collection at its last draw.
pub open spec fn is_trial_result(items: Seq<Item>, n: u64) -> bool {
    exists|d: Seq<u64>| d.len() == n && valid_draws(items, d) && first_complete(items, d)
}

/// A pool without targets is collected before any draw: the only possible
/// outcome of a trial on it is `0`.
pub proof fn lemma_no_targets_no_draws(items: Seq<Item>, n: u64)
    requires
        num_targets(items) == 0,
        is_trial_result(items, n),
    ensures
        n == 0,
{
    lemma_no_targets(items);
    let d = choose|d: Seq<u64>| d.len() == n && valid_draws(items, d) && first_complete(items, d);
    if n > 0 {
        assert(complete(items, d.take(0)));
    }
}

/// Counting targets: with no item a target, there are none.
proof fn lemma_none_targets(items: Seq<Item>)
    requires
        forall|j: int| 0 <= j < items.len() ==> !#[trigger] items[j].is_target,
    ensures
        num_targets(items) == 0,
    decreases items.len(),
{
    if items.len() > 0 {
        let p = items.drop_last();
        assert forall|j: int| 0 <= j < p.len() implies !#[trigger] p[j].is_target by {
            assert(p[j] == items[j]);
        }
        lemma_none_targets(p);
        assert(!items[items.len() - 1].is_target);
    }
}

/// Item `j` no longer a target.
pub open spec fn untarget(items: Seq<Item>, j: int) -> Seq<Item> {
    items.update(j, Item { is_target: false, ..items[j] })
}

/// Taking one target away lowers the count of targets by one.
proof fn lemma_untarget_count(items: Seq<Item>, j: int)
    requires
        0 <= j < items.len(),
        items[j].is_target,
    ensures
        num_targets(untarget(items, j)) == num_targets(items) - 1,
    decreases items.len(),
{
    let u = untarget(items, j);
    if j == items.len() - 1 {
        assert(u.drop_last() =~= items.drop_last());
    } else {
        assert(u.drop_last() =~= untarget(items.drop_last(), j));
        lemma_untarget_count(items.drop_last(), j);
    }
}

/// Draws that collect every target number at least as many as the targets.
proof fn lemma_complete_needs_draws(items: Seq<Item>, d: Seq<u64>)
    requires
        complete(items, d),
    ensures
        d.len() >= num_targets(items),
    decreases d.len(),
{
    if d.len() == 0 {
        assert forall|j: int| 0 <= j < items.len() implies !#[trigger] items[j].is_target by {
            if items[j].is_target {
                assert(collected(items, d, j));
            }
        }
        lemma_none_targets(items);
    } else {
        let p = d.drop_last();
        let r = d.last();
        if exists|j: int| 0 <= j < items.len() && items[j].is_target && hits(items, j, r as int) {
            let j = choose|j: int| 0 <= j < items.len() && items[j].is_target && hits(items, j, r as int);
            let u = untarget(items, j);
            assert(weights_of(u) =~= weights_of(items));
            assert forall|q: int| 0 <= q < u.len() && #[trigger] u[q].is_target implies collected(u, p, q) by {
                assert(items[q].is_target && q != j);
                assert(collected(items, d, q));
                let k = choose|k: int| 0 <= k < d.len() && hits(items, q, #[trigger] d[k] as int);
                if k == d.len() - 1 {
                    lemma_hits_unique(items, q, j, r as int);
                }
                assert(p[k] == d[k]);
                assert(prefix_weight(u, q) == prefix_weight(items, q));
                assert(prefix_weight(u, q + 1) == prefix_weight(items, q + 1));
                assert(hits(u, q, p[k] as int));
            }
            lemma_complete_needs_draws(u, p);
            lemma_untarget_count(items, j);
        } else {
            assert forall|q: int| 0 <= q < items.len() && #[trigger] items[q].is_target implies collected(items, p, q) by {
                assert(collected(items, d, q));
                let k = choose|k: int| 0 <= k < d.len() && hits(items, q, #[trigger] d[k] as int);
                assert(p[k] == d[k]);
            }
            lemma_complete_needs_draws(items, p);
        }
    }
}

/// Each draw collects at most one item, so every outcome of a trial is at
/// least the number of targets.
pub proof fn lemma_trial_needs_a_draw_per_target(items: Seq<Item>, n: u64)
    requires
        is_trial_result(items, n),
    ensures
        n >= num_targets(items),
{
    let d = choose|d: Seq<u64>| d.len() == n && valid_draws(items, d) && first_complete(items, d);
    lemma_complete_needs_draws(items, d);
}

/// The flags record, for each item, whether the draws `d` collected it.
pub open spec fn tracks(items: Seq<Item>, flags: Seq<bool>, d: Seq<u64>) -> bool {
    &&& flags.len() == items.len()
    &&& forall|j: int| 0 <= j < items.len() ==> #[trigger] flags[j] == collected(items, d, j)
}

/// Whether every target item is flagged: the trial's stopping test.
pub fn all_collected(set: &ItemSet, flags: &Vec<bool>) -> (r: bool)
    requires
        flags@.len() == set@.len(),
    ensures
        r == forall|j: int| 0 <= j < set@.len() && #[trigger] set@[j].is_target ==> flags@[j],
{
    let mut j: usize = 0;
    while j < set.len()
        invariant
            flags@.len() == set@.len(),
            j <= set@.len(),
            forall|q: int| 0 <= q < j && #[trigger] set@[q].is_target ==> flags@[q],
        decreases set@.len() - j,
    {
        if set.item(j).is_target && !flags[j] {
            return false;
        }
        j = j + 1;
    }
    true
}

/// The flags of a trial before its first draw: one per item, none set.
pub fn no_flags(n: usize) -> (r: Vec<bool>)
    ensures
        r@.len() == n,
        forall|j: int| 0 <= j < n ==> !#[trigger] r@[j],
{
    let mut r: Vec<bool> = Vec::new();
    let mut i: usize = 0;
    while i < n
        invariant
            i <= n,
            r@.len() == i,
            forall|j: int| 0 <= j < i ==> !#[trigger] r@[j],
        decreases n - i,
    {
        r.push(false);
        i = i + 1;
    }
    r
}

/// One step of a trial: the item that draw value `r` selects is flagged if
/// it is a target; every other flag stays as it was.
pub fn record_draw(set: &ItemSet, flags: &mut Vec<bool>, r: u64)
    requires
        set.wf(),
        1 <= r <= total_weight(set@),
        old(flags)@.len() == set@.len(),
    ensures
        final(flags)@.len() == set@.len(),
        forall|q: int|
            0 <= q < set@.len() ==> #[trigger] final(flags)@[q] == (old(flags)@[q] || (set@[q].is_target
                && hits(set@, q, r as int))),
{
    let j = pick_index(set, r);
    if set.item(j).is_target {
        flags.set(j, true);
    }
    assert forall|q: int| 0 <= q < set@.len() && q != j implies !hits(set@, q, r as int) by {
        if hits(set@, q, r as int) {
            lemma_hits_unique(set@, q, j as int, r as int);
        }
    }
}

/// A step recorded as `record_draw` states keeps the flags in step with the draws.
pub proof fn lemma_tracks_push(items: Seq<Item>, before: Seq<bool>, after: Seq<bool>, d: Seq<u64>, r: u64)
    requires
        tracks(items, before, d),
        after.len() == items.len(),
        forall|q: int|
            0 <= q < items.len() ==> #[trigger] after[q] == (before[q] || (items[q].is_target && hits(
                items,
                q,
                r as int,
            ))),
    ensures
        tracks(items, after, d.push(r)),
{
    let d2 = d.push(r);
    assert forall|q: int| 0 <= q < items.len() implies #[trigger] after[q] == collected(items, d2, q) by {
        assert(before[q] == collected(items, d, q));
        if items[q].is_target && hits(items, q, r as int) {
            assert(d2[d.len() as int] == r);
        }
        if collected(items, d2, q) && !hits(items, q, r as int) {
            let k = choose|k: int| 0 <= k < d2.len() && hits(items, q, #[trigger] d2[k] as int);
            assert(d[k] == d2[k]);
        }
        if collected(items, d, q) {
            let k = choose|k: int| 0 <= k < d.len() && hits(items, q, #[trigger] d[k] as int);
            assert(d[k] == d2[k]);
        }
    }
}

/// Counts the draws that a trial needs when its draw values are `rs`, in order:
/// the length of the shortest prefix of `rs` that collects every target, or
/// `None` if all of `rs` does not.
pub fn draws_needed(set: &ItemSet, rs: &Vec<u64>) -> (r: Option<usize>)
    requires
        set.wf(),
        valid_draws(set@, rs@),
    ensures
        r matches Some(n) ==> n <= rs@.len() && first_complete(set@, rs@.take(n as int)),
        r is None ==> !complete(set@, rs@),
{
    let mut flags = no_flags(set.len());
    let mut i: usize = 0;
    assert(tracks(set@, flags@, rs@.take(0)));
    while i < rs.len()
        invariant
            set.wf(),
            valid_draws(set@, rs@),
            i <= rs@.len(),
            tracks(set@, flags@, rs@.take(i as int)),
            forall|m: int| 0 <= m < i ==> !complete(set@, #[trigger] rs@.take(m)),
        decreases rs@.len() - i,
    {
        if all_collected(set, &flags) {
            proof {
                assert forall|m: int| 0 <= m < i implies !complete(
                    set@,
                    #[trigger] rs@.take(i as int).take(m),
                ) by {
                    assert(rs@.take(i as int).take(m) =~= rs@.take(m));
                }
            }
            return Some(i);
        }
        let ghost before = rs@.take(i as int);
        let ghost old_flags = flags@;
        record_draw(set, &mut flags, rs[i]);
        proof {
            lemma_tracks_push(set@, old_flags, flags@, before, rs@[i as int]);
        }
        assert(before.push(rs@[i as int]) =~= rs@.take(i + 1));
        i = i + 1;
    }
    assert(rs@.take(i as int) =~= rs@);
    if all_collected(set, &flags) {
        proof {
            assert forall|m: int| 0 <= m < i implies !complete(
                set@,
                #[trigger] rs@.take(i as int).take(m),
            ) by {
                assert(rs@.take(i as int).take(m) =~= rs@.take(m));
            }
        }
        Some(i)
    } else {
        None
    }
}

/// Runs one trial: draws until every target item has been drawn at least
/// once and returns the number of draws. Each step draws a value with `draw_value`,
/// records it with `record_draw` and stops once `all_collected` holds: the
/// steps that `draws_needed` takes over given values. With no targets it returns `0`
/// without drawing. `None` means `u64::MAX` draws went by without collecting
/// every target, which a valid pool makes vanishingly unlikely.
pub fn run_trial(set: &ItemSet, rng: &mut rand::rngs::StdRng) -> (r: Option<u64>)
    requires
        set.wf(),
    ensures
        num_targets(set@) == 0 ==> r == Some(0u64) && *final(rng) == *old(rng),
        r matches Some(n) ==> is_trial_result(set@, n),
        r is None ==> exists|d: Seq<u64>|
            d.len() == u64::MAX && valid_draws(set@, d) && !complete(set@, d),
{
    proof {
        set.lemma_wf();
        if num_targets(set@) == 0 {
            lemma_no_targets(set@);
        }
    }
    let mut flags = no_flags(set.len());
    let ghost mut d: Seq<u64> = Seq::empty();
    assert(tracks(set@, flags@, d));
    if all_collected(set, &flags) {
        assert(complete(set@, d));
        assert(d.len() == 0u64 && valid_draws(set@, d) && first_complete(set@, d));
        assert(is_trial_result(set@, 0u64));
        return Some(0);
    }
    let ghost j0 = choose|j: int| 0 <= j < set@.len() && set@[j].is_target && !flags@[j];
    proof {
        lemma_total_positive(set@, j0);
        if num_targets(set@) == 0 {
            assert(!set@[j0].is_target);
        }
    }
    let mut n: u64 = 0;
    while n < u64::MAX
        invariant
            set.wf(),
            total_weight(set@) > 0,
            num_targets(set@) != 0,
            d.len() == n,
            valid_draws(set@, d),
            tracks(set@, flags@, d),
            forall|m: int| 0 <= m <= n ==> !complete(set@, #[trigger] d.take(m)),
        decreases u64::MAX - n,
    {
        let v = draw_value(set, rng);
        let ghost old_flags = flags@;
        record_draw(set, &mut flags, v);
        proof {
            lemma_tracks_push(set@, old_flags, flags@, d, v);
        }
        let ghost prev = d;
        proof {
            d = d.push(v);
            assert forall|m: int| 0 <= m <= n implies #[trigger] d.take(m) == prev.take(m) by {
                assert(d.take(m) =~= prev.take(m));
            }
            assert(d.take(n + 1) =~= d);
        }
        n = n + 1;
        if all_collected(set, &flags) {
            assert(first_complete(set@, d));
            return Some(n);
        }
    }
    assert(d.take(n as int) =~= d);
    None
}

} // verus!
