//! Target encoding of a single column.
use vstd::prelude::*;
use fnv::FnvHashMap;
use itertools::Itertools;
use crate::error::EncodeError;
use crate::group::{
    category_keys, group_by_category, group_keys, is_grouping, lemma_group_count_bounds,
    lemma_grouping_contents, lemma_grouping_size, lemma_grouping_total, lemma_tagged_count, tagged,
    keyed_rows, total_count, Group,
};
use crate::key::{category_key, order_key};
use crate::strategy::{rule_spec, Encoders, GroupRule};

verus! {

broadcast use vstd::seq_lib::group_to_multiset_ensures;

/// fnv's hasher, declared so that maps hashed with it can be held.
#[verifier::external_type_specification]
#[verifier::external_body]
pub struct ExFnvHasher(fnv::FnvHasher);

/// std's `BuildHasherDefault`, which builds fnv's hasher for `FnvHashMap`.
#[verifier::external_type_specification]
#[verifier::external_body]
#[verifier::reject_recursive_types(H)]
pub struct ExBuildHasherDefault<H>(std::hash::BuildHasherDefault<H>);

/// Relies on itertools' `Itertools::unique`: it yields every distinct key
/// once, so the count is the number of distinct keys.
#[verifier::external_body]
fn distinct_count(keys: &Vec<u64>) -> (k: usize)
    ensures
        k == keys@.to_set().len(),
{
    keys.iter().unique().count()
}

/// Relies on fnv's `FnvHashMap` and std's `HashMap::with_capacity_and_hasher`:
/// the new map is empty.
#[verifier::external_body]
fn new_encoding_map(capacity: usize) -> (m: FnvHashMap<u64, u64>)
    ensures
        m@.dom().is_empty(),
{
    FnvHashMap::with_capacity_and_hasher(capacity, Default::default())
}

/// Relies on std's `HashMap::insert` over fnv's deterministic hasher: `key`
/// is sent to `value`, every other key keeps its value.
#[verifier::external_body]
fn map_insert(m: &mut FnvHashMap<u64, u64>, key: u64, value: u64)
    ensures
        final(m)@ == old(m)@.insert(key, value),
{
    m.insert(key, value);
}

/// Relies on std's `HashMap::get` over fnv's deterministic hasher: the value
/// of `key`, if the map holds it.
#[verifier::external_body]
fn map_get(m: &FnvHashMap<u64, u64>, key: u64) -> (r: Option<u64>)
    ensures
        m@.contains_key(key) ==> r == Some(m@[key]),
        !m@.contains_key(key) ==> r is None,
{
    m.get(&key).copied()
}

/// The groups of a column and the rule that gives each group its value.
pub struct ColumnPlan {
    /// The number of rows the column was fit on.
    pub rows: usize,
    /// One group per category, in increasing order of key.
    pub groups: Vec<Group>,
    /// The rule of each group, index for index.
    pub rules: Vec<GroupRule>,
}

impl ColumnPlan {
    /// One rule per group, and the groups' keys strictly increasing.
    pub open spec fn wf(&self) -> bool {
        &&& self.rules.len() == self.groups.len()
        &&& forall|i: int, j: int|
            0 <= i < j < self.groups.len() ==> self.groups[i].key < self.groups[j].key
    }
}

/// `plan` is the plan of the column `categories` with `targets` under
/// `encoder`: its grouping, and for each group the strategy's rule.
pub open spec fn is_column_plan(
    categories: Seq<u64>,
    targets: Seq<u64>,
    encoder: Encoders,
    plan: ColumnPlan,
) -> bool {
    &&& plan.rows == categories.len()
    &&& is_grouping(categories, targets, plan.groups@)
    &&& plan.rules.len() == plan.groups.len()
    &&& forall|i: int|
        0 <= i < plan.rules.len() ==> rule_spec(
            encoder,
            plan.groups[i].targets.len() as nat,
            categories.len() as nat,
            category_keys(categories).len(),
        ) == Ok::<GroupRule, EncodeError>(#[trigger] plan.rules[i])
}

/// James-Stein shrinkage on a column of exactly two distinct categories.
pub open spec fn shrinkage_degenerate(encoder: Encoders, categories: Seq<u64>) -> bool {
    encoder == Encoders::JamesSteinEncoder && category_keys(categories).len() == 2
}

/// The value a group receives: the prior under rule `Prior`, else the value
/// computed for it by its rule.
pub open spec fn value_of(rule: GroupRule, prior: u64, blended: u64) -> u64 {
    if rule is Prior {
        prior
    } else {
        blended
    }
}

/// `m` is the map fit from `plan`: one entry per group, holding its value.
pub open spec fn is_fitted(m: Map<u64, u64>, plan: ColumnPlan, prior: u64, blended: Seq<u64>) -> bool {
    &&& m.dom() == group_keys(plan.groups@)
    &&& forall|i: int|
        0 <= i < plan.groups.len() ==> m[#[trigger] plan.groups[i].key] == value_of(
            plan.rules[i],
            prior,
            blended[i],
        )
}

/// Every category of `data` has an entry in `m`.
pub open spec fn all_seen(m: Map<u64, u64>, data: Seq<u64>) -> bool {
    forall|i: int| 0 <= i < data.len() ==> m.contains_key(order_key(#[trigger] data[i]))
}

/// `data` with each category replaced by its entry in `m`.
pub open spec fn encoded(m: Map<u64, u64>, data: Seq<u64>) -> Seq<u64> {
    data.map_values(|b: u64| m[order_key(b)])
}

/// The category-to-value map of one column.
pub struct ColumnTargetEncoder {
    encodings: FnvHashMap<u64, u64>,
}

impl View for ColumnTargetEncoder {
    type V = Map<u64, u64>;

    closed spec fn view(&self) -> Map<u64, u64> {
        self.encodings@
    }
}

impl ColumnTargetEncoder {
    /// Groups the column and decides the rule of every group.
    ///
    /// Fails with `EmptyInput` when there are no rows, and with
    /// `DegenerateShrinkage` when James-Stein shrinkage meets a column of two
    /// distinct categories.
    pub fn plan(categories: &Vec<u64>, targets: &Vec<u64>, encoder: &Encoders) -> (r: Result<
        ColumnPlan,
        EncodeError,
    >)
        requires
            categories.len() == targets.len(),
        ensures
            targets.len() == 0 ==> r == Err::<ColumnPlan, EncodeError>(EncodeError::EmptyInput),
            targets.len() > 0 && shrinkage_degenerate(*encoder, categories@) ==> r == Err::<
                ColumnPlan,
                EncodeError,
            >(EncodeError::DegenerateShrinkage),
            targets.len() > 0 && !shrinkage_degenerate(*encoder, categories@) ==> match r {
                Ok(plan) => is_column_plan(categories@, targets@, *encoder, plan),
                Err(_) => false,
            },
    {
        let n = targets.len();
        if n == 0 {
            return Err(EncodeError::EmptyInput);
        }
        let mut keys: Vec<u64> = Vec::with_capacity(n);
        let mut r: usize = 0;
        while r < n
            invariant
                r <= n,
                n == categories.len(),
                keys@ == categories@.take(r as int).map_values(|b: u64| order_key(b)),
            decreases n - r,
        {
            keys.push(category_key(categories[r]));
            r += 1;
            assert(keys@ =~= categories@.take(r as int).map_values(|b: u64| order_key(b)));
        }
        assert(categories@.take(n as int) =~= categories@);
        let k = distinct_count(&keys);
        let groups = group_by_category(categories, targets);
        proof {
            lemma_grouping_size(categories@, targets@, groups@);
            lemma_group_count_bounds(groups@);
        }
        let mut rules: Vec<GroupRule> = Vec::with_capacity(groups.len());
        let mut i: usize = 0;
        while i < groups.len()
            invariant
                i <= groups.len(),
                0 < n,
                n == categories.len(),
                n == targets.len(),
                k == category_keys(categories@).len(),
                k == groups.len(),
                total_count(groups@) == n,
                forall|j: int|
                    0 <= j < groups.len() ==> #[trigger] groups@[j].targets.len() > 0,
                forall|j: int|
                    0 <= j < groups.len() ==> #[trigger] groups@[j].targets.len() <= total_count(
                        groups@,
                    ),
                groups.len() >= 2 ==> forall|j: int|
                    0 <= j < groups.len() ==> #[trigger] groups@[j].targets.len() < total_count(
                        groups@,
                    ),
                groups.len() == 1 ==> groups@[0].targets.len() == total_count(groups@),
                rules.len() == i,
                forall|j: int|
                    0 <= j < i ==> rule_spec(
                        *encoder,
                        groups@[j].targets.len() as nat,
                        n as nat,
                        k as nat,
                    ) == Ok::<GroupRule, EncodeError>(#[trigger] rules@[j]),
            decreases groups.len() - i,
        {
            match encoder.rule_for(groups[i].targets.len(), n, k) {
                Ok(rule) => rules.push(rule),
                Err(e) => {
                    return Err(e);
                },
            }
            i += 1;
        }
        proof {
            if shrinkage_degenerate(*encoder, categories@) {
                assert(groups@[0].targets.len() < total_count(groups@));
                assert(rule_spec(*encoder, groups@[0].targets.len() as nat, n as nat, k as nat)
                    == Ok::<GroupRule, EncodeError>(rules@[0]));
            }
        }
        Ok(ColumnPlan { rows: n, groups, rules })
    }

    /// The encoder of a planned column: every group's key is sent to the
    /// prior where the group's rule is `Prior`, and to its entry of `blended`
    /// otherwise.
    pub fn fit(plan: &ColumnPlan, prior: u64, blended: &Vec<u64>) -> (r: ColumnTargetEncoder)
        requires
            plan.wf(),
            blended.len() == plan.groups.len(),
        ensures
            is_fitted(r@, *plan, prior, blended@),
    {
        let mut encodings = new_encoding_map(plan.groups.len());
        let mut i: usize = 0;
        while i < plan.groups.len()
            invariant
                i <= plan.groups.len(),
                plan.wf(),
                blended.len() == plan.groups.len(),
                forall|k: u64|
                    encodings@.contains_key(k) <==> exists|j: int|
                        0 <= j < i && #[trigger] plan.groups@[j].key == k,
                forall|j: int|
                    0 <= j < i ==> encodings@[#[trigger] plan.groups@[j].key] == value_of(
                        plan.rules@[j],
                        prior,
                        blended@[j],
                    ),
            decreases plan.groups.len() - i,
        {
            let value = match plan.rules[i] {
                GroupRule::Prior => prior,
                _ => blended[i],
            };
            let ghost before = encodings@;
            map_insert(&mut encodings, plan.groups[i].key, value);
            proof {
                assert forall|j: int| 0 <= j < i implies #[trigger] plan.groups@[j].key
                    != plan.groups@[i as int].key by {
                    assert(plan.groups@[j].key < plan.groups@[i as int].key);
                }
            }
            i += 1;
        }
        proof {
            let ks = plan.groups@.map_values(|g: Group| g.key);
            assert forall|k: u64| encodings@.dom().contains(k) <==> group_keys(plan.groups@).contains(k) by {
                if encodings@.contains_key(k) {
                    let j = choose|j: int| 0 <= j < i && #[trigger] plan.groups@[j].key == k;
                    assert(ks[j] == k);
                }
                if group_keys(plan.groups@).contains(k) {
                    let j = choose|j: int| 0 <= j < ks.len() && #[trigger] ks[j] == k;
                    assert(plan.groups@[j].key == k);
                }
            }
            assert(encodings@.dom() =~= group_keys(plan.groups@));
        }
        ColumnTargetEncoder { encodings }
    }

    /// The encoded value of one category, if it was seen at fit time.
    pub fn encode(&self, category: u64) -> (r: Option<u64>)
        ensures
            self@.contains_key(order_key(category)) ==> r == Some(self@[order_key(category)]),
            !self@.contains_key(order_key(category)) ==> r is None,
    {
        map_get(&self.encodings, category_key(category))
    }

    /// Replaces every category of `data` by its encoded value. Fails with
    /// `UnseenCategory` when a category of `data` was not seen at fit time.
    pub fn transform(&self, data: &Vec<u64>) -> (r: Result<Vec<u64>, EncodeError>)
        ensures
            all_seen(self@, data@) ==> match r {
                Ok(out) => out@ == encoded(self@, data@),
                Err(_) => false,
            },
            !all_seen(self@, data@) ==> r == Err::<Vec<u64>, EncodeError>(
                EncodeError::UnseenCategory,
            ),
    {
        let mut out: Vec<u64> = Vec::with_capacity(data.len());
        let mut i: usize = 0;
        while i < data.len()
            invariant
                i <= data.len(),
                all_seen(self@, data@.take(i as int)),
                out@ == encoded(self@, data@.take(i as int)),
            decreases data.len() - i,
        {
            match self.encode(data[i]) {
                Some(v) => out.push(v),
                None => {
                    assert(!all_seen(self@, data@));
                    return Err(EncodeError::UnseenCategory);
                },
            }
            i += 1;
            assert(out@ =~= encoded(self@, data@.take(i as int)));
            assert forall|j: int| 0 <= j < i implies self@.contains_key(
                order_key(#[trigger] data@.take(i as int)[j]),
            ) by {
                if j < i - 1 {
                    assert(data@.take(i as int)[j] == data@.take(i - 1)[j]);
                }
            }
        }
        assert(data@.take(data.len() as int) =~= data@);
        Ok(out)
    }
}

/// The group counts of a column's plan add up to the number of rows.
pub proof fn lemma_plan_counts(
    categories: Seq<u64>,
    targets: Seq<u64>,
    encoder: Encoders,
    plan: ColumnPlan,
)
    requires
        categories.len() == targets.len(),
        is_column_plan(categories, targets, encoder, plan),
    ensures
        total_count(plan.groups@) == plan.rows,
{
    lemma_grouping_total(categories, targets, plan.groups@);
}

/// Planning is determined by the input: two plans of the same column have
/// the same keys, and groups of equal key hold the same targets and follow the
/// same rule.
pub proof fn lemma_plan_determined(
    categories: Seq<u64>,
    targets: Seq<u64>,
    encoder: Encoders,
    first: ColumnPlan,
    second: ColumnPlan,
)
    requires
        categories.len() == targets.len(),
        is_column_plan(categories, targets, encoder, first),
        is_column_plan(categories, targets, encoder, second),
    ensures
        group_keys(first.groups@) == group_keys(second.groups@),
        forall|i: int, j: int|
            0 <= i < first.groups.len() && 0 <= j < second.groups.len()
                && #[trigger] first.groups@[i].key == #[trigger] second.groups@[j].key
                ==> first.groups@[i].targets@.to_multiset()
                == second.groups@[j].targets@.to_multiset() && first.rules@[i] == second.rules@[j],
{
    lemma_grouping_contents(categories, targets, first.groups@);
    lemma_grouping_contents(categories, targets, second.groups@);
    assert forall|i: int, j: int|
        0 <= i < first.groups.len() && 0 <= j < second.groups.len()
            && #[trigger] first.groups@[i].key == #[trigger] second.groups@[j].key
            implies first.groups@[i].targets@.to_multiset()
            == second.groups@[j].targets@.to_multiset() && first.rules@[i] == second.rules@[j] by {
        let a = first.groups@[i].targets@;
        let b = second.groups@[j].targets@;
        assert(a.to_multiset() =~= b.to_multiset()) by {
            assert forall|t: u64| a.to_multiset().count(t) == b.to_multiset().count(t) by {
                assert(first.groups@[i].targets@.to_multiset().count(t) == keyed_rows(
                    categories,
                    targets,
                ).to_multiset().count((first.groups@[i].key, t)));
                assert(second.groups@[j].targets@.to_multiset().count(t) == keyed_rows(
                    categories,
                    targets,
                ).to_multiset().count((second.groups@[j].key, t)));
            }
        }
        assert(a.len() == a.to_multiset().len());
        assert(b.len() == b.to_multiset().len());
        assert(first.rules@[i] == second.rules@[j]) by {
            assert(rule_spec(encoder, a.len() as nat, categories.len() as nat, category_keys(categories).len())
                == Ok::<GroupRule, EncodeError>(first.rules@[i]));
            assert(rule_spec(encoder, b.len() as nat, categories.len() as nat, category_keys(categories).len())
                == Ok::<GroupRule, EncodeError>(second.rules@[j]));
        }
    }
}

/// Fitting twice on the same column gives the same map, provided that the
/// values computed for the groups depend on the group alone (groups of equal
/// key get equal values).
pub proof fn lemma_refit_identical(
    categories: Seq<u64>,
    targets: Seq<u64>,
    encoder: Encoders,
    prior: u64,
    first: ColumnPlan,
    first_blended: Seq<u64>,
    first_map: Map<u64, u64>,
    second: ColumnPlan,
    second_blended: Seq<u64>,
    second_map: Map<u64, u64>,
)
    requires
        categories.len() == targets.len(),
        is_column_plan(categories, targets, encoder, first),
        is_column_plan(categories, targets, encoder, second),
        is_fitted(first_map, first, prior, first_blended),
        is_fitted(second_map, second, prior, second_blended),
        forall|i: int, j: int|
            0 <= i < first.groups.len() && 0 <= j < second.groups.len()
                && #[trigger] first.groups@[i].key == #[trigger] second.groups@[j].key
                ==> first_blended[i] == second_blended[j],
    ensures
        first_map == second_map,
{
    lemma_plan_determined(categories, targets, encoder, first, second);
    assert forall|k: u64| #[trigger] first_map.contains_key(k) implies first_map[k] == second_map[k] by {
        let fk = first.groups@.map_values(|g: Group| g.key);
        let sk = second.groups@.map_values(|g: Group| g.key);
        assert(group_keys(first.groups@).contains(k));
        let i = choose|i: int| 0 <= i < fk.len() && #[trigger] fk[i] == k;
        assert(group_keys(second.groups@).contains(k));
        let j = choose|j: int| 0 <= j < sk.len() && #[trigger] sk[j] == k;
        assert(first.groups@[i].key == second.groups@[j].key);
    }
    assert(first_map =~= second_map);
}

/// A transform is a function of each category alone: rows of equal category
/// get equal values, whatever their position or the rest of the data.
pub proof fn lemma_transform_pointwise(m: Map<u64, u64>, first: Seq<u64>, second: Seq<u64>, i: int, j: int)
    requires
        0 <= i < first.len(),
        0 <= j < second.len(),
        order_key(first[i]) == order_key(second[j]),
    ensures
        encoded(m, first)[i] == encoded(m, second)[j],
{
}

/// A column of a single category forms one group holding every target. Under
/// James-Stein shrinkage (or with a single row) that group follows the prior,
/// so every encoded row equals the prior.
pub proof fn lemma_single_category(
    categories: Seq<u64>,
    targets: Seq<u64>,
    encoder: Encoders,
    plan: ColumnPlan,
    prior: u64,
    blended: Seq<u64>,
    m: Map<u64, u64>,
    data: Seq<u64>,
)
    requires
        categories.len() == targets.len(),
        categories.len() > 0,
        forall|r: int| 0 <= r < categories.len() ==> order_key(#[trigger] categories[r]) == order_key(categories[0]),
        is_column_plan(categories, targets, encoder, plan),
    ensures
        plan.groups.len() == 1,
        plan.groups@[0].key == order_key(categories[0]),
        plan.groups@[0].targets@.to_multiset() == targets.to_multiset(),
        encoder == Encoders::JamesSteinEncoder || categories.len() == 1 ==> plan.rules@[0] is Prior,
        (encoder == Encoders::JamesSteinEncoder || categories.len() == 1) && is_fitted(m, plan, prior, blended)
            && all_seen(m, data) ==> forall|i: int| 0 <= i < data.len() ==> #[trigger] encoded(m, data)[i] == prior,
{
    let k0 = order_key(categories[0]);
    let cs = categories.map_values(|b: u64| order_key(b));
    assert(category_keys(categories) =~= Set::<u64>::empty().insert(k0)) by {
        assert(cs[0] == k0);
    }
    lemma_grouping_size(categories, targets, plan.groups@);
    lemma_grouping_contents(categories, targets, plan.groups@);
    lemma_grouping_total(categories, targets, plan.groups@);
    assert(group_keys(plan.groups@).contains(k0));
    let gk = plan.groups@.map_values(|g: Group| g.key);
    assert(gk[0] == k0);
    assert(keyed_rows(categories, targets) =~= tagged(k0, targets));
    let g = plan.groups@[0].targets@;
    assert(g.to_multiset() =~= targets.to_multiset()) by {
        assert forall|t: u64| g.to_multiset().count(t) == targets.to_multiset().count(t) by {
            lemma_tagged_count(k0, targets, k0, t);
        }
    }
    assert(total_count(plan.groups@) == total_count(plan.groups@.drop_last()) + g.len());
    assert(total_count(plan.groups@.drop_last()) == 0);
    if (encoder == Encoders::JamesSteinEncoder || categories.len() == 1) && is_fitted(m, plan, prior, blended)
        && all_seen(m, data) {
        assert forall|i: int| 0 <= i < data.len() implies #[trigger] encoded(m, data)[i] == prior by {
            assert(m.contains_key(order_key(data[i])));
            assert(group_keys(plan.groups@).contains(order_key(data[i])));
            let j = choose|j: int| 0 <= j < gk.len() && #[trigger] gk[j] == order_key(data[i]);
        }
    }
}

} // verus!
