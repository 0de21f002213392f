use vstd::prelude::*;
use vstd::string::StringSliceAdditionalSpecFns;
use crate::parse::{parse_list, parsed_list};

verus! {

/// One entry of the pool: its 1-based id, its relative draw weight and
/// whether a trial has to collect it.
#[derive(Debug, Clone, Copy, PartialEq, Eq)]
pub struct Item {
    pub id: u64,
    pub weight: u64,
    pub is_target: bool,
}

/// Why a pool could not be built.
#[derive(Debug, Clone, Copy, PartialEq, Eq)]
pub enum SetupError {
    /// A token of the input is not a non-negative integer.
    Parse,
    /// A target index names no item.
    InvalidSelection,
    /// A target item has weight zero, so no trial could ever finish.
    UnreachableTarget,
    /// The weights add up to more than a `u64` holds.
    WeightOverflow,
}

/// Sum of a sequence of weights.
pub open spec fn sum_of(s: Seq<u64>) -> int
    decreases s.len(),
{
    if s.len() == 0 {
        0
    } else {
        sum_of(s.drop_last()) + s.last()
    }
}

/// The weights of the items, in order.
pub open spec fn weights_of(items: Seq<Item>) -> Seq<u64> {
    items.map_values(|it: Item| it.weight)
}

/// Total weight of the pool.
pub open spec fn total_weight(items: Seq<Item>) -> int {
    sum_of(weights_of(items))
}

/// Weight of the first `i` items: item `i` is drawn by the values in
/// `(prefix_weight(i), prefix_weight(i + 1)]`.
pub open spec fn prefix_weight(items: Seq<Item>, i: int) -> int {
    sum_of(weights_of(items).take(i))
}

/// Number of target items.
pub open spec fn num_targets(items: Seq<Item>) -> nat
    decreases items.len(),
{
    if items.len() == 0 {
        0
    } else {
        num_targets(items.drop_last()) + if items.last().is_target {
            1nat
        } else {
            0nat
        }
    }
}

/// Whether some target index is zero or past the last item.
pub open spec fn bad_selection(n: int, targets: Seq<u64>) -> bool {
    exists|k: int| 0 <= k < targets.len() && (targets[k] == 0 || targets[k] > n)
}

/// Whether some target item has weight zero.
pub open spec fn unreachable_target(weights: Seq<u64>, targets: Seq<u64>) -> bool {
    exists|j: int| 0 <= j < weights.len() && weights[j] == 0 && targets.contains((j + 1) as u64)
}

/// The items described by a weight list and a list of 1-based target indices.
pub open spec fn items_from(weights: Seq<u64>, targets: Seq<u64>) -> Seq<Item> {
    Seq::new(
        weights.len(),
        |j: int| Item { id: (j + 1) as u64, weight: weights[j], is_target: targets.contains((j + 1) as u64) },
    )
}

/// Which error, if any, building a pool from these lists gives: a bad
/// selection first, then an unreachable target, then a weight overflow.
pub open spec fn setup_error(weights: Seq<u64>, targets: Seq<u64>) -> Option<SetupError> {
    if bad_selection(weights.len() as int, targets) {
        Some(SetupError::InvalidSelection)
    } else if unreachable_target(weights, targets) {
        Some(SetupError::UnreachableTarget)
    } else if sum_of(weights) > u64::MAX {
        Some(SetupError::WeightOverflow)
    } else {
        None
    }
}

/// A valid selection that names an item of weight zero is refused as
/// unreachable, before any trial could run on it.
pub proof fn lemma_zero_weight_target_rejected(weights: Seq<u64>, targets: Seq<u64>, j: int)
    requires
        !bad_selection(weights.len() as int, targets),
        0 <= j < weights.len(),
        weights[j] == 0,
        targets.contains((j + 1) as u64),
    ensures
        setup_error(weights, targets) == Some(SetupError::UnreachableTarget),
{
}

/// Ids run 1, 2, ... in order, every target can be drawn and the weights fit a `u64`.
pub open spec fn valid_items(items: Seq<Item>) -> bool {
    &&& forall|j: int| 0 <= j < items.len() ==> #[trigger] items[j].id == j + 1
    &&& forall|j: int| 0 <= j < items.len() && #[trigger] items[j].is_target ==> items[j].weight > 0
    &&& total_weight(items) <= u64::MAX
}

/// Extending a prefix by one element adds that element to its sum.
pub proof fn lemma_sum_push(s: Seq<u64>, i: int)
    requires
        0 <= i < s.len(),
    ensures
        sum_of(s.take(i + 1)) == sum_of(s.take(i)) + s[i],
{
    assert(s.take(i + 1).drop_last() =~= s.take(i));
}

/// Item `i` adds its own weight to the prefix weight.
pub proof fn lemma_prefix_step(items: Seq<Item>, i: int)
    requires
        0 <= i < items.len(),
    ensures
        prefix_weight(items, i + 1) == prefix_weight(items, i) + items[i].weight,
{
    lemma_sum_push(weights_of(items), i);
}

/// Item `i` adds one to the count of targets when it is one.
pub proof fn lemma_targets_push(items: Seq<Item>, i: int)
    requires
        0 <= i < items.len(),
    ensures
        num_targets(items.take(i + 1)) == num_targets(items.take(i)) + if items[i].is_target {
            1nat
        } else {
            0nat
        },
{
    assert(items.take(i + 1).drop_last() =~= items.take(i));
}

/// With no target counted, no item is a target.
pub proof fn lemma_no_targets(items: Seq<Item>)
    requires
        num_targets(items) == 0,
    ensures
        forall|j: int| 0 <= j < items.len() ==> !#[trigger] items[j].is_target,
    decreases items.len(),
{
    if items.len() > 0 {
        lemma_no_targets(items.drop_last());
        assert forall|j: int| 0 <= j < items.len() implies !#[trigger] items[j].is_target by {
            if j < items.len() - 1 {
                assert(items[j] == items.drop_last()[j]);
            }
        }
    }
}

/// The pool: items in draw order, their total weight and how many are targets.
pub struct ItemSet {
    items: Vec<Item>,
    weight_sum: u64,
    target_count: u64,
}

impl View for ItemSet {
    type V = Seq<Item>;

    closed spec fn view(&self) -> Seq<Item> {
        self.items@
    }
}

impl ItemSet {
    /// The pool is consistent: valid items, with the stored totals.
    pub closed spec fn wf(&self) -> bool {
        &&& valid_items(self.items@)
        &&& self.weight_sum == total_weight(self.items@)
        &&& self.target_count == num_targets(self.items@)
    }

    /// Builds the pool: item `i` has weight `weights[i - 1]` and is a target
    /// iff `i` is among `targets`.
    pub fn new(weights: &Vec<u64>, targets: &Vec<u64>) -> (r: Result<ItemSet, SetupError>)
        ensures
            match setup_error(weights@, targets@) {
                Some(e) => r == Err::<ItemSet, SetupError>(e),
                None => r matches Ok(s) && s.wf() && s@ == items_from(weights@, targets@),
            },
    {
        let n = weights.len();
        let mut k: usize = 0;
        while k < targets.len()
            invariant
                k <= targets@.len(),
                n == weights@.len(),
                forall|q: int| 0 <= q < k ==> #[trigger] targets@[q] != 0 && targets@[q] <= n,
            decreases targets@.len() - k,
        {
            let t = targets[k];
            if t == 0 || t as u128 > n as u128 {
                return Err(SetupError::InvalidSelection);
            }
            k = k + 1;
        }
        let mut items: Vec<Item> = Vec::new();
        let mut j: usize = 0;
        while j < n
            invariant
                j <= n,
                n == weights@.len(),
                !bad_selection(n as int, targets@),
                items@ == items_from(weights@, targets@).take(j as int),
                forall|q: int| 0 <= q < j ==> !(weights@[q] == 0 && #[trigger] targets@.contains((q + 1) as u64)),
            decreases n - j,
        {
            let id: u64 = (j as u64) + 1;
            let is_target = contains(targets, id);
            if is_target && weights[j] == 0 {
                return Err(SetupError::UnreachableTarget);
            }
            items.push(Item { id, weight: weights[j], is_target });
            j = j + 1;
            assert(items@ =~= items_from(weights@, targets@).take(j as int));
        }
        assert(items@ =~= items_from(weights@, targets@));
        assert(!unreachable_target(weights@, targets@));
        assert(weights_of(items@) =~= weights@);
        let mut sum: u64 = 0;
        let mut count: u64 = 0;
        let mut i: usize = 0;
        while i < n
            invariant
                i <= n,
                n == weights@.len(),
                items@ == items_from(weights@, targets@),
                weights_of(items@) == weights@,
                sum == sum_of(weights@.take(i as int)),
                count == num_targets(items@.take(i as int)),
                count <= i,
                !bad_selection(n as int, targets@),
                !unreachable_target(weights@, targets@),
            decreases n - i,
        {
            proof {
                lemma_sum_push(weights@, i as int);
                lemma_targets_push(items@, i as int);
            }
            match sum.checked_add(weights[i]) {
                Some(s) => {
                    sum = s;
                },
                None => {
                    proof {
                        lemma_sum_monotone(weights@, i as int + 1);
                    }
                    return Err(SetupError::WeightOverflow);
                },
            }
            if items[i].is_target {
                count = count + 1;
            }
            i = i + 1;
        }
        assert(weights@.take(n as int) =~= weights@);
        assert(items@.take(n as int) =~= items@);
        Ok(ItemSet { items, weight_sum: sum, target_count: count })
    }

    /// Builds the pool from the text of its weight list and of its target
    /// list (see `parse_list`).
    pub fn from_text(weights: &str, targets: &str) -> (r: Result<ItemSet, SetupError>)
        ensures
            match (parsed_list(weights.spec_bytes()), parsed_list(targets.spec_bytes())) {
                (Some(w), Some(t)) => match setup_error(w, t) {
                    Some(e) => r == Err::<ItemSet, SetupError>(e),
                    None => r matches Ok(s) && s.wf() && s@ == items_from(w, t),
                },
                _ => r == Err::<ItemSet, SetupError>(SetupError::Parse),
            },
    {
        let w = parse_list(weights)?;
        let t = parse_list(targets)?;
        ItemSet::new(&w, &t)
    }

    /// Total weight of the pool.
    pub fn weight_sum(&self) -> (r: u64)
        requires
            self.wf(),
        ensures
            r == total_weight(self@),
    {
        self.weight_sum
    }

    /// Number of target items.
    pub fn target_count(&self) -> (r: u64)
        requires
            self.wf(),
        ensures
            r == num_targets(self@),
    {
        self.target_count
    }

    /// Number of items.
    pub fn len(&self) -> (r: usize)
        ensures
            r == self@.len(),
    {
        self.items.len()
    }

    /// The item at position `i` (its id is `i + 1`).
    pub fn item(&self, i: usize) -> (r: Item)
        requires
            i < self@.len(),
        ensures
            r == self@[i as int],
    {
        self.items[i]
    }

    /// A valid pool has valid items.
    pub proof fn lemma_wf(&self)
        requires
            self.wf(),
        ensures
            valid_items(self@),
    {
    }
}

/// Sums of longer prefixes of non-negative weights are no smaller.
pub proof fn lemma_sum_monotone(s: Seq<u64>, i: int)
    requires
        0 <= i <= s.len(),
    ensures
        sum_of(s.take(i)) <= sum_of(s),
    decreases s.len() - i,
{
    if i < s.len() {
        lemma_sum_push(s, i);
        lemma_sum_monotone(s, i + 1);
    } else {
        assert(s.take(i) =~= s);
    }
}

/// Whether `v` holds `x`.
fn contains(v: &Vec<u64>, x: u64) -> (r: bool)
    ensures
        r == v@.contains(x),
{
    let mut i: usize = 0;
    while i < v.len()
        invariant
            i <= v@.len(),
            forall|q: int| 0 <= q < i ==> v@[q] != x,
        decreases v@.len() - i,
    {
        if v[i] == x {
            return true;
        }
        i = i + 1;
    }
    false
}

} // verus!
