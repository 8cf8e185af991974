use crate::engine::{
    is_descending_order, levels_in_order, modded_total, plan_redistribution, planned_deltas,
    sum_levels, PlanError,
};
use crate::rules::{conversion_of, conversion_rule};
use vstd::prelude::*;

verus! {

/// Who holds a claim on a building's levels.
pub enum OwnerKind {
    /// Another building, of `building_type`, in `region`.
    Building { building_type: String, region: String },
    /// A country directly.
    Country,
}

/// One claim on a building's levels.
pub struct Owner {
    pub kind: OwnerKind,
    pub country: String,
    pub levels: u32,
}

/// A building as it stands at one location.
pub struct Building {
    pub building_type: String,
    /// Building owners first, then country owners, as declared.
    pub owners: Vec<Owner>,
    pub reserves: String,
}

/// What replaces a split building: the original type, removed and created
/// again with fewer levels, and the target type with the levels taken.
pub struct BuildingSplit {
    pub original_type: String,
    /// Indices of the original owners, by descending levels, ties in their
    /// original order.
    pub order: Vec<usize>,
    /// Every owner, by descending levels, with what it keeps.
    pub reduced_owners: Vec<Owner>,
    pub target_type: String,
    /// The owners that give at least one level, in the same order, with what they give.
    pub target_owners: Vec<Owner>,
    /// Copied from the original building into the target building.
    pub reserves: String,
}

/// The levels of each owner.
pub open spec fn owner_levels(owners: Seq<Owner>) -> Seq<u32> {
    owners.map_values(|o: Owner| o.levels)
}

/// Positions of the positive entries, in order.
pub open spec fn positive_indices(d: Seq<u32>) -> Seq<int>
    decreases d.len(),
{
    if d.len() == 0 {
        Seq::empty()
    } else if d.last() > 0 {
        positive_indices(d.drop_last()).push(d.len() - 1)
    } else {
        positive_indices(d.drop_last())
    }
}

/// `a` is the claim `b` with its building type `from`, if it has one, renamed `to`.
pub open spec fn claim_retyped(a: Owner, b: Owner, from: Seq<char>, to: Seq<char>) -> bool {
    &&& a.country@ == b.country@
    &&& match (a.kind, b.kind) {
        (
            OwnerKind::Building { building_type: at, region: ar },
            OwnerKind::Building { building_type: bt, region: br },
        ) => ar@ == br@ && at@ == (if bt@ == from {
            to
        } else {
            bt@
        }),
        (OwnerKind::Country, OwnerKind::Country) => true,
        _ => false,
    }
}

/// `s` splits `b` into `target` along `order`, converting `modded` levels.
pub open spec fn is_split_of(
    s: BuildingSplit,
    b: Building,
    order: Seq<usize>,
    target: Seq<char>,
    modded: nat,
) -> bool {
    let sorted = levels_in_order(owner_levels(b.owners@), order);
    let d = planned_deltas(sorted, modded);
    let kept = positive_indices(d);
    &&& s.original_type@ == b.building_type@
    &&& s.target_type@ == target
    &&& s.reserves@ == b.reserves@
    &&& s.reduced_owners@.len() == order.len()
    &&& forall|i: int|
        0 <= i < order.len() ==> {
            &&& #[trigger] s.reduced_owners@[i].levels == sorted[i] - d[i]
            &&& claim_retyped(
                s.reduced_owners@[i],
                b.owners@[order[i] as int],
                b.building_type@,
                b.building_type@,
            )
        }
    &&& s.target_owners@.len() == kept.len()
    &&& forall|j: int|
        0 <= j < kept.len() ==> {
            &&& #[trigger] s.target_owners@[j].levels == d[kept[j]]
            &&& claim_retyped(
                s.target_owners@[j],
                b.owners@[order[kept[j]] as int],
                b.building_type@,
                target,
            )
        }
}

proof fn lemma_conversion_ratio_positive(t: Seq<char>)
    ensures
        conversion_of(t) matches Some((ratio, _)) ==> ratio >= 1,
{
}

fn retyped(o: &Owner, from: &String, to: &String, levels: u32) -> (r: Owner)
    ensures
        r.levels == levels,
        claim_retyped(r, *o, from@, to@),
{
    let kind = match &o.kind {
        OwnerKind::Building { building_type, region } => {
            let t = if *building_type == *from {
                to.clone()
            } else {
                building_type.clone()
            };
            OwnerKind::Building { building_type: t, region: region.clone() }
        },
        OwnerKind::Country => OwnerKind::Country,
    };
    Owner { kind, country: o.country.clone(), levels }
}

/// Splits a building whose type the conversion table lists: nothing happens
/// to a type it does not list, nor when no level converts.
pub fn split_building(b: &Building) -> (r: Result<Option<BuildingSplit>, PlanError>)
    ensures
        match conversion_of(b.building_type@) {
            None => r matches Ok(None),
            Some((ratio, target)) => {
                let t = sum_levels(owner_levels(b.owners@));
                &&& (r is Err <==> t > u64::MAX)
                &&& t <= u64::MAX ==> (r matches Ok(None) <==> modded_total(t, ratio) == 0)
                &&& r matches Ok(Some(s)) ==> {
                    &&& is_descending_order(owner_levels(b.owners@), s.order@)
                    &&& is_split_of(s, *b, s.order@, target, modded_total(t, ratio))
                }
            },
        },
{
    let rule = match conversion_rule(&b.building_type) {
        None => {
            return Ok(None);
        },
        Some(c) => c,
    };
    proof {
        lemma_conversion_ratio_positive(b.building_type@);
    }
    let ghost all_levels = owner_levels(b.owners@);
    let mut levels: Vec<u32> = Vec::new();
    let mut i: usize = 0;
    while i < b.owners.len()
        invariant
            all_levels == owner_levels(b.owners@),
            0 <= i <= b.owners@.len(),
            levels@ == all_levels.take(i as int),
        decreases b.owners@.len() - i,
    {
        assert(all_levels.take(i + 1) =~= levels@.push(b.owners@[i as int].levels));
        levels.push(b.owners[i].levels);
        i += 1;
    }
    assert(levels@ =~= all_levels);
    let plan = match plan_redistribution(&levels, rule.ratio) {
        Err(e) => {
            return Err(e);
        },
        Ok(p) => p,
    };
    if plan.modded_levels_total == 0 {
        return Ok(None);
    }
    let ghost order = plan.order@;
    let ghost sorted = levels_in_order(all_levels, order);
    let ghost d = plan.per_owner_delta@;
    let n = plan.order.len();
    let mut reduced: Vec<Owner> = Vec::new();
    let mut k: usize = 0;
    while k < n
        invariant
            n == order.len(),
            order == plan.order@,
            d == plan.per_owner_delta@,
            all_levels == owner_levels(b.owners@),
            is_descending_order(all_levels, order),
            sorted == levels_in_order(all_levels, order),
            d.len() == n,
            forall|i: int| 0 <= i < n ==> #[trigger] d[i] <= all_levels[order[i] as int],
            0 <= k <= n,
            reduced@.len() == k,
            forall|i: int|
                0 <= i < k ==> {
                    &&& #[trigger] reduced@[i].levels == sorted[i] - d[i]
                    &&& claim_retyped(
                        reduced@[i],
                        b.owners@[order[i] as int],
                        b.building_type@,
                        b.building_type@,
                    )
                },
        decreases n - k,
    {
        let o = &b.owners[plan.order[k]];
        let taken = plan.per_owner_delta[k];
        assert(d[k as int] <= all_levels[order[k as int] as int]);
        reduced.push(retyped(o, &b.building_type, &b.building_type, o.levels - taken));
        k += 1;
    }
    let mut added: Vec<Owner> = Vec::new();
    let mut k: usize = 0;
    assert(d.take(0) =~= Seq::<u32>::empty());
    while k < n
        invariant
            n == order.len(),
            order == plan.order@,
            d == plan.per_owner_delta@,
            d.len() == n,
            all_levels == owner_levels(b.owners@),
            is_descending_order(all_levels, order),
            0 <= k <= n,
            added@.len() == positive_indices(d.take(k as int)).len(),
            forall|j: int|
                0 <= j < added@.len() ==> 0 <= #[trigger] positive_indices(d.take(k as int))[j]
                    < k,
            forall|j: int|
                0 <= j < added@.len() ==> {
                    let i = positive_indices(d.take(k as int))[j];
                    &&& #[trigger] added@[j].levels == d[i]
                    &&& claim_retyped(
                        added@[j],
                        b.owners@[order[i] as int],
                        b.building_type@,
                        rule.target@,
                    )
                },
        decreases n - k,
    {
        let taken = plan.per_owner_delta[k];
        assert(d.take(k + 1).drop_last() =~= d.take(k as int));
        if taken > 0 {
            let o = &b.owners[plan.order[k]];
            added.push(retyped(o, &b.building_type, &rule.target, taken));
        }
        k += 1;
    }
    assert(d.take(n as int) =~= d);
    let s = BuildingSplit {
        original_type: b.building_type.clone(),
        order: plan.order,
        reduced_owners: reduced,
        target_type: rule.target,
        target_owners: added,
        reserves: b.reserves.clone(),
    };
    assert(s.order@ == order);
    assert(sorted == levels_in_order(owner_levels(b.owners@), order));
    assert(d == planned_deltas(sorted, plan.modded_levels_total as nat));
    assert(s.reduced_owners@.len() == order.len());
    assert(s.target_owners@.len() == positive_indices(d).len());
    assert(is_split_of(s, *b, order, rule.target@, plan.modded_levels_total as nat));
    Ok(Some(s))
}

proof fn lemma_positive_indices(d: Seq<u32>)
    ensures
        forall|j: int|
            0 <= j < positive_indices(d).len() ==> 0 <= #[trigger] positive_indices(d)[j] < d.len()
                && d[positive_indices(d)[j]] > 0,
    decreases d.len(),
{
    if d.len() > 0 {
        lemma_positive_indices(d.drop_last());
        let p = positive_indices(d.drop_last());
        assert forall|j: int| 0 <= j < p.len() implies d[p[j]] == d.drop_last()[p[j]] by {}
    }
}

/// In a split, every owner of the target building gives at least one level;
/// an owning building of the split type is renamed to the target type in the
/// target building and keeps its type in the reduced original.
pub proof fn lemma_split_owners(
    s: BuildingSplit,
    b: Building,
    order: Seq<usize>,
    target: Seq<char>,
    modded: nat,
)
    requires
        is_split_of(s, b, order, target, modded),
    ensures
        forall|j: int| 0 <= j < s.target_owners@.len() ==> #[trigger] s.target_owners@[j].levels > 0,
        forall|j: int|
            0 <= j < s.target_owners@.len() ==> match #[trigger] s.target_owners@[j].kind {
                OwnerKind::Building { building_type, .. } => {
                    let i = positive_indices(
                        planned_deltas(levels_in_order(owner_levels(b.owners@), order), modded),
                    )[j];
                    b.owners@[order[i] as int].kind matches OwnerKind::Building { building_type: bt, .. }
                        && (bt@ == b.building_type@ ==> building_type@ == target)
                },
                OwnerKind::Country => true,
            },
        forall|i: int|
            0 <= i < s.reduced_owners@.len() ==> match #[trigger] s.reduced_owners@[i].kind {
                OwnerKind::Building { building_type, .. } => b.owners@[order[i] as int].kind matches OwnerKind::Building { building_type: bt, .. }
                    && building_type@ == bt@,
                OwnerKind::Country => true,
            },
{
    let d = planned_deltas(levels_in_order(owner_levels(b.owners@), order), modded);
    lemma_positive_indices(d);
    assert forall|j: int| 0 <= j < s.target_owners@.len() implies #[trigger] s.target_owners@[j].levels > 0 by {
        assert(s.target_owners@[j].levels == d[positive_indices(d)[j]]);
    }
    assert forall|j: int| 0 <= j < s.target_owners@.len() implies match #[trigger] s.target_owners@[j].kind {
        OwnerKind::Building { building_type, .. } => {
            let i = positive_indices(d)[j];
            b.owners@[order[i] as int].kind matches OwnerKind::Building { building_type: bt, .. }
                && (bt@ == b.building_type@ ==> building_type@ == target)
        },
        OwnerKind::Country => true,
    } by {
        assert(s.target_owners@[j].levels == d[positive_indices(d)[j]]);
    }
    assert forall|i: int| 0 <= i < s.reduced_owners@.len() implies match #[trigger] s.reduced_owners@[i].kind {
        OwnerKind::Building { building_type, .. } => b.owners@[order[i] as int].kind matches OwnerKind::Building { building_type: bt, .. }
            && building_type@ == bt@,
        OwnerKind::Country => true,
    } by {
        assert(s.reduced_owners@[i].levels == levels_in_order(owner_levels(b.owners@), order)[i]
            - d[i]);
    }
}

} // verus!
