//! Grouping of (category, target) rows into runs of equal category.
use vstd::prelude::*;
use vstd::seq_lib::{lemma_fold_right_permutation, lemma_multiset_commutative};
use itertools::Itertools;
use rayon::slice::ParallelSliceMut;
use crate::key::{category_key, order_key};

verus! {

broadcast use vstd::seq_lib::group_to_multiset_ensures;

/// All rows of one category: its key and the targets observed with it.
pub struct Group {
    /// The category's total-order key.
    pub key: u64,
    /// The bit patterns of the targets of the category's rows.
    pub targets: Vec<u64>,
}

/// The rows of a column as (key, target) pairs, in row order.
pub open spec fn keyed_rows(categories: Seq<u64>, targets: Seq<u64>) -> Seq<(u64, u64)> {
    Seq::new(categories.len(), |r: int| (order_key(categories[r]), targets[r]))
}

/// The keys of the categories that occur in a column.
pub open spec fn category_keys(categories: Seq<u64>) -> Set<u64> {
    categories.map_values(|b: u64| order_key(b)).to_set()
}

/// Each target of `targets` paired with `key`.
pub open spec fn tagged(key: u64, targets: Seq<u64>) -> Seq<(u64, u64)> {
    targets.map_values(|t: u64| (key, t))
}

/// The (key, target) pairs of a sequence of groups, group after group.
pub open spec fn pairs_of_groups(groups: Seq<Group>) -> Seq<(u64, u64)>
    decreases groups.len(),
{
    if groups.len() == 0 {
        Seq::empty()
    } else {
        pairs_of_groups(groups.drop_last()) + tagged(groups.last().key, groups.last().targets@)
    }
}

/// The number of rows held by a sequence of groups.
pub open spec fn total_count(groups: Seq<Group>) -> int
    decreases groups.len(),
{
    if groups.len() == 0 {
        0
    } else {
        total_count(groups.drop_last()) + groups.last().targets.len()
    }
}

/// The pairs are in non-decreasing order of key.
pub open spec fn sorted_by_key(pairs: Seq<(u64, u64)>) -> bool {
    forall|i: int, j: int| 0 <= i < j < pairs.len() ==> pairs[i].0 <= pairs[j].0
}

/// `groups` is the grouping of the rows of a column: one non-empty group per
/// category, in increasing order of key, together holding every row once.
pub open spec fn is_grouping(categories: Seq<u64>, targets: Seq<u64>, groups: Seq<Group>) -> bool {
    &&& forall|i: int| 0 <= i < groups.len() ==> #[trigger] groups[i].targets.len() > 0
    &&& forall|i: int, j: int| 0 <= i < j < groups.len() ==> groups[i].key < groups[j].key
    &&& pairs_of_groups(groups).to_multiset() == keyed_rows(categories, targets).to_multiset()
}

/// Relies on rayon's `ParallelSliceMut::par_sort_unstable_by_key`: the pairs
/// are reordered so that their keys (first components) do not decrease.
#[verifier::external_body]
fn sort_by_key(pairs: &mut Vec<(u64, u64)>)
    ensures
        final(pairs)@.to_multiset() == old(pairs)@.to_multiset(),
        sorted_by_key(final(pairs)@),
{
    pairs.par_sort_unstable_by_key(|p| p.0);
}

/// Relies on itertools' `Itertools::group_by`: consecutive pairs with equal
/// keys form one group, the groups follow each other in the order of the
/// pairs, none is empty, and neighbouring groups have different keys.
#[verifier::external_body]
fn runs_by_key(pairs: &Vec<(u64, u64)>) -> (runs: Vec<Group>)
    ensures
        pairs_of_groups(runs@) == pairs@,
        forall|i: int| 0 <= i < runs.len() ==> #[trigger] runs[i].targets.len() > 0,
        forall|i: int| 0 < i < runs.len() ==> #[trigger] runs[i - 1].key != runs[i].key,
{
    let runs = pairs.iter().group_by(|p| p.0);
    let groups = runs.into_iter().map(|(key, run)| Group { key, targets: run.map(|p| p.1).collect() });
    groups.collect()
}

/// The keys of a sequence of groups.
pub open spec fn group_keys(groups: Seq<Group>) -> Set<u64> {
    groups.map_values(|g: Group| g.key).to_set()
}

proof fn lemma_pairs_len(groups: Seq<Group>)
    ensures
        pairs_of_groups(groups).len() == total_count(groups),
    decreases groups.len(),
{
    if groups.len() > 0 {
        lemma_pairs_len(groups.drop_last());
    }
}

/// Where the first target of group `j` stands among the pairs of `groups`.
proof fn lemma_key_in_pairs(groups: Seq<Group>, j: int) -> (idx: int)
    requires
        0 <= j < groups.len(),
        groups[j].targets.len() > 0,
    ensures
        0 <= idx < pairs_of_groups(groups).len(),
        pairs_of_groups(groups)[idx] == (groups[j].key, groups[j].targets@[0]),
        j < groups.len() - 1 ==> idx < pairs_of_groups(groups.drop_last()).len(),
        j == groups.len() - 1 ==> idx == pairs_of_groups(groups.drop_last()).len(),
    decreases groups.len(),
{
    let prefix = pairs_of_groups(groups.drop_last());
    if j == groups.len() - 1 {
        prefix.len() as int
    } else {
        let idx = lemma_key_in_pairs(groups.drop_last(), j);
        idx
    }
}

/// Groups whose pairs are sorted by key have non-decreasing keys.
proof fn lemma_runs_sorted(groups: Seq<Group>)
    requires
        sorted_by_key(pairs_of_groups(groups)),
        forall|i: int| 0 <= i < groups.len() ==> #[trigger] groups[i].targets.len() > 0,
    ensures
        forall|i: int, j: int| 0 <= i < j < groups.len() ==> groups[i].key <= groups[j].key,
    decreases groups.len(),
{
    if groups.len() > 0 {
        let init = groups.drop_last();
        let last = groups.len() - 1;
        assert(sorted_by_key(pairs_of_groups(init))) by {
            assert forall|a: int, b: int|
                0 <= a < b < pairs_of_groups(init).len() implies pairs_of_groups(init)[a].0
                <= pairs_of_groups(init)[b].0 by {
                assert(pairs_of_groups(init)[a] == pairs_of_groups(groups)[a]);
                assert(pairs_of_groups(init)[b] == pairs_of_groups(groups)[b]);
            }
        }
        assert forall|i: int| 0 <= i < init.len() implies #[trigger] init[i].targets.len() > 0 by {
            assert(init[i] == groups[i]);
        }
        lemma_runs_sorted(init);
        assert forall|i: int, j: int| 0 <= i < j < groups.len() implies groups[i].key
            <= groups[j].key by {
            if j < last {
                assert(init[i] == groups[i] && init[j] == groups[j]);
            } else {
                let a = lemma_key_in_pairs(groups, i);
                let b = lemma_key_in_pairs(groups, j);
            }
        }
    }
}

pub(crate) proof fn lemma_tagged_count(key: u64, targets: Seq<u64>, k: u64, t: u64)
    ensures
        tagged(key, targets).to_multiset().count((k, t)) == if k == key {
            targets.to_multiset().count(t)
        } else {
            0
        },
    decreases targets.len(),
{
    if targets.len() == 0 {
        assert(tagged(key, targets) =~= Seq::<(u64, u64)>::empty());
    } else {
        let init = targets.drop_last();
        lemma_tagged_count(key, init, k, t);
        assert(tagged(key, targets) =~= tagged(key, init).push((key, targets.last())));
        assert(targets =~= init.push(targets.last()));
    }
}

/// With keys in increasing order, the pairs of key `k` are those of the one
/// group with that key.
proof fn lemma_pairs_count(groups: Seq<Group>, k: u64, t: u64)
    requires
        forall|i: int, j: int| 0 <= i < j < groups.len() ==> groups[i].key < groups[j].key,
    ensures
        forall|i: int|
            0 <= i < groups.len() && groups[i].key == k ==> pairs_of_groups(groups).to_multiset().count(
                (k, t),
            ) == #[trigger] groups[i].targets@.to_multiset().count(t),
        (forall|i: int| 0 <= i < groups.len() ==> #[trigger] groups[i].key != k) ==> pairs_of_groups(
            groups,
        ).to_multiset().count((k, t)) == 0,
    decreases groups.len(),
{
    if groups.len() > 0 {
        let init = groups.drop_last();
        let last = groups.last();
        lemma_pairs_count(init, k, t);
        lemma_multiset_commutative(pairs_of_groups(init), tagged(last.key, last.targets@));
        lemma_tagged_count(last.key, last.targets@, k, t);
        if last.key == k {
            assert forall|i: int| 0 <= i < init.len() implies #[trigger] init[i].key != k by {
                assert(groups[i].key < groups[groups.len() - 1].key);
            }
        }
        assert forall|i: int|
            0 <= i < groups.len() && groups[i].key == k implies pairs_of_groups(
            groups,
        ).to_multiset().count((k, t)) == #[trigger] groups[i].targets@.to_multiset().count(t) by {
            if i < groups.len() - 1 {
                assert(init[i] == groups[i]);
                assert(groups[i].key < groups[groups.len() - 1].key);
            }
        }
        if forall|i: int| 0 <= i < groups.len() ==> #[trigger] groups[i].key != k {
            assert forall|i: int| 0 <= i < init.len() implies #[trigger] init[i].key != k by {
                assert(init[i] == groups[i]);
            }
            assert(groups[groups.len() - 1].key != k);
        }
    }
}

/// Every pair of `groups` carries the key of one of the groups.
proof fn lemma_pairs_contains(groups: Seq<Group>, p: (u64, u64))
    requires
        pairs_of_groups(groups).contains(p),
    ensures
        exists|i: int| 0 <= i < groups.len() && #[trigger] groups[i].key == p.0,
    decreases groups.len(),
{
    if groups.len() > 0 {
        let init = groups.drop_last();
        let last = groups.last();
        let idx = choose|idx: int|
            0 <= idx < pairs_of_groups(groups).len() && pairs_of_groups(groups)[idx] == p;
        if idx < pairs_of_groups(init).len() {
            assert(pairs_of_groups(init)[idx] == p);
            lemma_pairs_contains(init, p);
            let i = choose|i: int| 0 <= i < init.len() && #[trigger] init[i].key == p.0;
            assert(groups[i] == init[i]);
        } else {
            assert(groups[groups.len() - 1].key == p.0);
        }
    }
}

/// What a grouping holds: exactly the keys of the column's categories, and in
/// the group of key `k` each target as often as the rows of category `k`
/// carry it.
pub proof fn lemma_grouping_contents(categories: Seq<u64>, targets: Seq<u64>, groups: Seq<Group>)
    requires
        categories.len() == targets.len(),
        is_grouping(categories, targets, groups),
    ensures
        group_keys(groups) == category_keys(categories),
        forall|i: int, t: u64|
            0 <= i < groups.len() ==> #[trigger] groups[i].targets@.to_multiset().count(t)
                == keyed_rows(categories, targets).to_multiset().count((groups[i].key, t)),
{
    let rows = keyed_rows(categories, targets);
    let pairs = pairs_of_groups(groups);
    assert forall|i: int, t: u64| 0 <= i < groups.len() implies #[trigger] groups[i].targets@.to_multiset().count(t)
        == rows.to_multiset().count((groups[i].key, t)) by {
        lemma_pairs_count(groups, groups[i].key, t);
    }
    assert forall|k: u64| group_keys(groups).contains(k) implies category_keys(categories).contains(k) by {
        let ks = groups.map_values(|g: Group| g.key);
        let i = choose|i: int| 0 <= i < ks.len() && #[trigger] ks[i] == k;
        let idx = lemma_key_in_pairs(groups, i);
        let p = pairs[idx];
        assert(pairs.contains(p));
        assert(pairs.to_multiset().count(p) > 0);
        assert(rows.contains(p));
        let r = choose|r: int| 0 <= r < rows.len() && rows[r] == p;
        assert(categories.map_values(|b: u64| order_key(b))[r] == k);
    }
    assert forall|k: u64| category_keys(categories).contains(k) implies group_keys(groups).contains(k) by {
        let cs = categories.map_values(|b: u64| order_key(b));
        let r = choose|r: int| 0 <= r < cs.len() && #[trigger] cs[r] == k;
        let p = rows[r];
        assert(rows.contains(p));
        assert(rows.to_multiset().count(p) > 0);
        assert(pairs.contains(p));
        lemma_pairs_contains(groups, p);
        let i = choose|i: int| 0 <= i < groups.len() && #[trigger] groups[i].key == p.0;
        assert(groups.map_values(|g: Group| g.key)[i] == k);
    }
    assert(group_keys(groups) =~= category_keys(categories));
}

/// The sum of `w` over `targets`, where `w` reads a target's bit pattern as a
/// number.
pub open spec fn target_sum(targets: Seq<u64>, w: spec_fn(u64) -> int) -> int
    decreases targets.len(),
{
    if targets.len() == 0 {
        0
    } else {
        target_sum(targets.drop_last(), w) + w(targets.last())
    }
}

/// The sum of `w` over the targets of a sequence of groups, taken group by
/// group: the sum of each group's count times its mean.
pub open spec fn grouped_sum(groups: Seq<Group>, w: spec_fn(u64) -> int) -> int
    decreases groups.len(),
{
    if groups.len() == 0 {
        0
    } else {
        grouped_sum(groups.drop_last(), w) + target_sum(groups.last().targets@, w)
    }
}

spec fn pair_sum(pairs: Seq<(u64, u64)>, w: spec_fn(u64) -> int) -> int
    decreases pairs.len(),
{
    if pairs.len() == 0 {
        0
    } else {
        pair_sum(pairs.drop_last(), w) + w(pairs.last().1)
    }
}

proof fn lemma_pair_sum_concat(a: Seq<(u64, u64)>, b: Seq<(u64, u64)>, w: spec_fn(u64) -> int)
    ensures
        pair_sum(a + b, w) == pair_sum(a, w) + pair_sum(b, w),
    decreases b.len(),
{
    if b.len() == 0 {
        assert(a + b =~= a);
    } else {
        lemma_pair_sum_concat(a, b.drop_last(), w);
        assert((a + b).drop_last() =~= a + b.drop_last());
    }
}

proof fn lemma_pair_sum_tagged(key: u64, targets: Seq<u64>, w: spec_fn(u64) -> int)
    ensures
        pair_sum(tagged(key, targets), w) == target_sum(targets, w),
    decreases targets.len(),
{
    if targets.len() > 0 {
        lemma_pair_sum_tagged(key, targets.drop_last(), w);
        assert(tagged(key, targets).drop_last() =~= tagged(key, targets.drop_last()));
    }
}

proof fn lemma_pair_sum_groups(groups: Seq<Group>, w: spec_fn(u64) -> int)
    ensures
        pair_sum(pairs_of_groups(groups), w) == grouped_sum(groups, w),
    decreases groups.len(),
{
    if groups.len() > 0 {
        let last = groups.last();
        lemma_pair_sum_groups(groups.drop_last(), w);
        lemma_pair_sum_concat(pairs_of_groups(groups.drop_last()), tagged(last.key, last.targets@), w);
        lemma_pair_sum_tagged(last.key, last.targets@, w);
    }
}

proof fn lemma_pair_sum_rows(categories: Seq<u64>, targets: Seq<u64>, w: spec_fn(u64) -> int)
    requires
        categories.len() == targets.len(),
    ensures
        pair_sum(keyed_rows(categories, targets), w) == target_sum(targets, w),
    decreases targets.len(),
{
    if targets.len() > 0 {
        lemma_pair_sum_rows(categories.drop_last(), targets.drop_last(), w);
        assert(keyed_rows(categories, targets).drop_last() =~= keyed_rows(
            categories.drop_last(),
            targets.drop_last(),
        ));
    }
}

proof fn lemma_pair_sum_fold(pairs: Seq<(u64, u64)>, w: spec_fn(u64) -> int, v: int)
    ensures
        pairs.fold_right(|p: (u64, u64), acc: int| acc + w(p.1), v) == v + pair_sum(pairs, w),
    decreases pairs.len(),
{
    if pairs.len() > 0 {
        lemma_pair_sum_fold(pairs.drop_last(), w, v + w(pairs.last().1));
    }
}

/// Summing the targets group by group gives their sum over all rows, for
/// every reading `w` of target bit patterns as exact numbers. As a group's
/// sum is its count times its mean, the count-weighted average of the group
/// means is the mean of all targets, that is the prior.
pub proof fn lemma_grouped_sum(
    categories: Seq<u64>,
    targets: Seq<u64>,
    groups: Seq<Group>,
    w: spec_fn(u64) -> int,
)
    requires
        categories.len() == targets.len(),
        is_grouping(categories, targets, groups),
    ensures
        grouped_sum(groups, w) == target_sum(targets, w),
{
    let f = |p: (u64, u64), acc: int| acc + w(p.1);
    let pairs = pairs_of_groups(groups);
    let rows = keyed_rows(categories, targets);
    lemma_fold_right_permutation(pairs, rows, f, 0);
    lemma_pair_sum_fold(pairs, w, 0);
    lemma_pair_sum_fold(rows, w, 0);
    lemma_pair_sum_groups(groups, w);
    lemma_pair_sum_rows(categories, targets, w);
}

/// No group of non-empty groups holds more than all rows, and where there
/// are two groups or more each holds fewer.
pub proof fn lemma_group_count_bounds(groups: Seq<Group>)
    requires
        forall|i: int| 0 <= i < groups.len() ==> #[trigger] groups[i].targets.len() > 0,
    ensures
        total_count(groups) >= 0,
        groups.len() > 0 ==> total_count(groups) > 0,
        forall|i: int| 0 <= i < groups.len() ==> #[trigger] groups[i].targets.len() <= total_count(groups),
        groups.len() >= 2 ==> forall|i: int|
            0 <= i < groups.len() ==> #[trigger] groups[i].targets.len() < total_count(groups),
        groups.len() == 1 ==> groups[0].targets.len() == total_count(groups),
    decreases groups.len(),
{
    if groups.len() > 0 {
        let init = groups.drop_last();
        assert forall|i: int| 0 <= i < init.len() implies #[trigger] init[i].targets.len() > 0 by {
            assert(init[i] == groups[i]);
        }
        lemma_group_count_bounds(init);
        assert(groups.last().targets.len() > 0);
        assert forall|i: int| 0 <= i < init.len() implies groups[i].targets.len() <= total_count(init) by {
            assert(init[i] == groups[i]);
        }
        if groups.len() == 1 {
            assert(total_count(init) == 0);
        }
    }
}

/// The group counts of a grouping add up to the number of rows.
pub proof fn lemma_grouping_total(categories: Seq<u64>, targets: Seq<u64>, groups: Seq<Group>)
    requires
        categories.len() == targets.len(),
        is_grouping(categories, targets, groups),
    ensures
        total_count(groups) == categories.len(),
{
    lemma_pairs_len(groups);
    assert(pairs_of_groups(groups).to_multiset().len() == keyed_rows(categories, targets).to_multiset().len());
}

/// A grouping has one group per distinct category.
pub proof fn lemma_grouping_size(categories: Seq<u64>, targets: Seq<u64>, groups: Seq<Group>)
    requires
        categories.len() == targets.len(),
        is_grouping(categories, targets, groups),
    ensures
        groups.len() == category_keys(categories).len(),
{
    lemma_grouping_contents(categories, targets, groups);
    let ks = groups.map_values(|g: Group| g.key);
    assert(ks.no_duplicates()) by {
        assert forall|i: int, j: int| 0 <= i < ks.len() && 0 <= j < ks.len() && i != j
            implies ks[i] != ks[j] by {
            if i < j {
                assert(groups[i].key < groups[j].key);
            } else {
                assert(groups[j].key < groups[i].key);
            }
        }
    }
    ks.unique_seq_to_set();
}

/// Groups the rows of a column by category.
///
/// The pairs (key, target) are sorted by key in parallel and then cut into
/// maximal runs of equal key, one group per distinct category.
pub fn group_by_category(categories: &Vec<u64>, targets: &Vec<u64>) -> (groups: Vec<Group>)
    requires
        categories.len() == targets.len(),
    ensures
        is_grouping(categories@, targets@, groups@),
        total_count(groups@) == categories.len(),
{
    let n = categories.len();
    let mut pairs: Vec<(u64, u64)> = Vec::with_capacity(n);
    let mut r: usize = 0;
    while r < n
        invariant
            r <= n,
            n == categories.len(),
            n == targets.len(),
            pairs@ == keyed_rows(categories@, targets@).take(r as int),
        decreases n - r,
    {
        pairs.push((category_key(categories[r]), targets[r]));
        r += 1;
        assert(pairs@ =~= keyed_rows(categories@, targets@).take(r as int));
    }
    assert(pairs@ =~= keyed_rows(categories@, targets@));
    sort_by_key(&mut pairs);
    let groups = runs_by_key(&pairs);
    proof {
        lemma_runs_sorted(groups@);
        assert forall|i: int, j: int| 0 <= i < j < groups.len() implies groups@[i].key
            < groups@[j].key by {
            assert(groups@[i].key <= groups@[j - 1].key);
            assert(groups@[j - 1].key != groups@[j].key);
        }
        lemma_grouping_total(categories@, targets@, groups@);
    }
    groups
}

} // verus!
