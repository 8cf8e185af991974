use vstd::arithmetic::div_mod::lemma_fundamental_div_mod;
use vstd::prelude::*;

verus! {

/// Sum of a sequence of level counts.
pub open spec fn sum_levels(s: Seq<u32>) -> nat
    decreases s.len(),
{
    if s.len() == 0 {
        0
    } else {
        sum_levels(s.drop_last()) + s.last() as nat
    }
}

/// Levels that move to the new building type: `round(total / ratio - 0.1)`,
/// rounding halves away from zero, in exact arithmetic.
pub open spec fn modded_total(total: nat, ratio: nat) -> nat
    recommends
        ratio > 0,
{
    ((10 * total + 4 * ratio) / (10 * ratio)) as nat
}

/// An owner's proportional part of `modded` levels: `round(modded * levels / total)`,
/// rounding halves away from zero.
pub open spec fn raw_share(levels: nat, modded: nat, total: nat) -> nat {
    if total == 0 {
        0
    } else {
        ((2 * modded * levels + total) / (2 * total)) as nat
    }
}

/// The proportional parts of every owner. A part never exceeds the owner's
/// levels when `modded <= total`, so it is a `u32` as the levels are.
pub open spec fn raw_shares(levels: Seq<u32>, modded: nat, total: nat) -> Seq<u32> {
    levels.map_values(|l: u32| raw_share(l as nat, modded, total) as u32)
}

/// Number of positive entries.
pub open spec fn count_positive(s: Seq<u32>) -> nat
    decreases s.len(),
{
    if s.len() == 0 {
        0
    } else {
        count_positive(s.drop_last()) + if s.last() > 0 { 1nat } else { 0nat }
    }
}

/// Number of entries strictly below their cap.
pub open spec fn count_below(s: Seq<u32>, caps: Seq<u32>) -> nat
    decreases s.len(),
{
    if s.len() == 0 {
        0
    } else {
        count_below(s.skip(1), caps.skip(1)) + if s[0] < caps[0] { 1nat } else { 0nat }
    }
}

/// Takes one unit from each of the last `k` positive entries.
pub open spec fn trim_back(s: Seq<u32>, k: int) -> Seq<u32>
    decreases s.len(),
{
    if s.len() == 0 || k <= 0 {
        s
    } else if s.last() > 0 {
        trim_back(s.drop_last(), k - 1).push((s.last() - 1) as u32)
    } else {
        trim_back(s.drop_last(), k).push(s.last())
    }
}

/// Adds one unit to each of the first `k` entries that are below their cap.
pub open spec fn pad_front(s: Seq<u32>, caps: Seq<u32>, k: int) -> Seq<u32>
    decreases s.len(),
{
    if s.len() == 0 || k <= 0 {
        s
    } else if s[0] < caps[0] {
        seq![(s[0] + 1) as u32] + pad_front(s.skip(1), caps.skip(1), k - 1)
    } else {
        seq![s[0]] + pad_front(s.skip(1), caps.skip(1), k)
    }
}

/// The levels taken from each owner, for owners already in descending order:
/// the proportional parts, corrected to add up to `modded` by taking the
/// surplus from the smallest owners or giving the shortfall to the largest.
pub open spec fn planned_deltas(sorted: Seq<u32>, modded: nat) -> Seq<u32> {
    let total = sum_levels(sorted);
    let raw = raw_shares(sorted, modded, total);
    if sum_levels(raw) > modded {
        trim_back(raw, sum_levels(raw) - modded)
    } else {
        pad_front(raw, sorted, modded - sum_levels(raw))
    }
}


proof fn lemma_trim_back_unfold(raw: Seq<u32>, i: int, k: int)
    requires
        0 < i <= raw.len(),
        k > 0,
    ensures
        raw.take(i).drop_last() == raw.take(i - 1),
        raw[i - 1] > 0 ==> trim_back(raw.take(i), k) == trim_back(raw.take(i - 1), k - 1).push(
            (raw[i - 1] - 1) as u32,
        ),
        raw[i - 1] == 0 ==> trim_back(raw.take(i), k) == trim_back(raw.take(i - 1), k).push(
            raw[i - 1],
        ),
{
    assert(raw.take(i).drop_last() =~= raw.take(i - 1));
}

/// Takes one unit from each of the last `k` positive entries, walking from the back.
fn trim_back_exec(v: &mut Vec<u32>, k0: u128)
    ensures
        final(v)@ == trim_back(old(v)@, k0 as int),
        final(v)@.len() == old(v)@.len(),
{
    let ghost raw = v@;
    let mut k: u128 = k0;
    let mut i: usize = v.len();
    assert(raw.take(i as int) =~= raw);
    assert(v@.skip(i as int) =~= Seq::<u32>::empty());
    while i > 0 && k > 0
        invariant
            v@.len() == raw.len(),
            0 <= i <= raw.len(),
            v@.take(i as int) == raw.take(i as int),
            trim_back(raw.take(i as int), k as int) + v@.skip(i as int) == trim_back(
                raw,
                k0 as int,
            ),
        decreases i,
    {
        i -= 1;
        proof {
            lemma_trim_back_unfold(raw, i + 1, k as int);
        }
        let x = v[i];
        if x > 0 {
            v.set(i, x - 1);
            k -= 1;
        }
        assert(v@.take(i as int) =~= raw.take(i as int));
        assert(v@.skip(i as int) =~= seq![v@[i as int]] + v@.skip(i + 1));
        assert(trim_back(raw.take(i + 1), k as int + if x > 0 { 1int } else { 0int }) + v@.skip(i + 1) =~= trim_back(raw.take(i as int), k as int) + v@.skip(i as int));
    }
    proof {
        if i == 0 {
            assert(raw.take(0) =~= Seq::<u32>::empty());
            assert(v@.skip(0) =~= v@);
        } else {
            assert(v@.take(i as int) + v@.skip(i as int) =~= v@);
        }
    }
}

proof fn lemma_pad_front_unfold(s: Seq<u32>, caps: Seq<u32>, i: int, k: int)
    requires
        0 <= i < s.len(),
        s.len() == caps.len(),
        k > 0,
    ensures
        s[i] < caps[i] ==> pad_front(s.skip(i), caps.skip(i), k) == seq![(s[i] + 1) as u32]
            + pad_front(s.skip(i + 1), caps.skip(i + 1), k - 1),
        s[i] >= caps[i] ==> pad_front(s.skip(i), caps.skip(i), k) == seq![s[i]] + pad_front(
            s.skip(i + 1),
            caps.skip(i + 1),
            k,
        ),
{
    assert(s.skip(i).skip(1) =~= s.skip(i + 1));
    assert(caps.skip(i).skip(1) =~= caps.skip(i + 1));
}

/// Adds one unit to each of the first `k` entries below their cap, walking from the front.
fn pad_front_exec(v: &mut Vec<u32>, caps: &Vec<u32>, k0: u128)
    requires
        old(v)@.len() == caps@.len(),
    ensures
        final(v)@ == pad_front(old(v)@, caps@, k0 as int),
        final(v)@.len() == old(v)@.len(),
{
    let ghost raw = v@;
    let mut k: u128 = k0;
    let mut i: usize = 0;
    assert(raw.skip(0) =~= raw);
    assert(caps@.skip(0) =~= caps@);
    assert(v@.take(0) =~= Seq::<u32>::empty());
    while i < v.len() && k > 0
        invariant
            v@.len() == raw.len() == caps@.len(),
            0 <= i <= raw.len(),
            v@.skip(i as int) == raw.skip(i as int),
            v@.take(i as int) + pad_front(raw.skip(i as int), caps@.skip(i as int), k as int)
                == pad_front(raw, caps@, k0 as int),
        decreases raw.len() - i,
    {
        proof {
            lemma_pad_front_unfold(raw, caps@, i as int, k as int);
        }
        let x = v[i];
        assert(x == raw[i as int]) by {
            assert(v@.skip(i as int)[0] == v@[i as int]);
        }
        if x < caps[i] {
            v.set(i, x + 1);
            k -= 1;
        }
        i += 1;
        assert(v@.skip(i as int) =~= raw.skip(i as int)) by {
            assert(forall|j: int| 0 <= j < v@.len() - i ==> v@.skip(i as int)[j] == v@.skip(i - 1)[j + 1]);
            assert(forall|j: int| 0 <= j < v@.len() - i ==> raw.skip(i as int)[j] == raw.skip(i - 1)[j + 1]);
        }
        assert(v@.take(i as int) =~= v@.take(i - 1) + seq![v@[i - 1]]);
    }
    proof {
        if i == raw.len() {
            assert(raw.skip(i as int) =~= Seq::<u32>::empty());
            assert(v@.take(i as int) =~= v@);
        } else {
            assert(v@.take(i as int) + v@.skip(i as int) =~= v@);
        }
    }
}

/// Owner `a` comes before owner `b`: more levels, or as many and earlier.
pub open spec fn precedes(levels: Seq<u32>, a: int, b: int) -> bool {
    levels[a] > levels[b] || (levels[a] == levels[b] && a < b)
}

/// `order` lists every owner index once, by descending levels, ties kept in
/// their original order.
pub open spec fn is_descending_order(levels: Seq<u32>, order: Seq<usize>) -> bool {
    &&& order.len() == levels.len()
    &&& forall|i: int| 0 <= i < order.len() ==> order[i] < levels.len()
    &&& forall|i: int, j: int|
        0 <= i < j < order.len() ==> #[trigger] precedes(levels, order[i] as int, order[j] as int)
}

/// The levels of the owners, taken in the given order.
pub open spec fn levels_in_order(levels: Seq<u32>, order: Seq<usize>) -> Seq<u32> {
    order.map_values(|j: usize| levels[j as int])
}

proof fn lemma_sum_levels_insert(s: Seq<u32>, pos: int, x: u32)
    requires
        0 <= pos <= s.len(),
    ensures
        sum_levels(s.insert(pos, x)) == sum_levels(s) + x,
    decreases s.len(),
{
    if pos == s.len() {
        assert(s.insert(pos, x) =~= s.push(x));
        assert(s.push(x).drop_last() =~= s);
    } else {
        assert(s.insert(pos, x).drop_last() =~= s.drop_last().insert(pos, x));
        lemma_sum_levels_insert(s.drop_last(), pos, x);
    }
}

/// Owner indices by descending levels; owners with equal levels keep their
/// relative order.
pub fn descending_order(levels: &Vec<u32>) -> (order: Vec<usize>)
    ensures
        is_descending_order(levels@, order@),
        sum_levels(levels_in_order(levels@, order@)) == sum_levels(levels@),
{
    let mut order: Vec<usize> = Vec::new();
    let mut i: usize = 0;
    assert(levels_in_order(levels@, order@) =~= Seq::<u32>::empty());
    assert(levels@.take(0) =~= Seq::<u32>::empty());
    while i < levels.len()
        invariant
            0 <= i <= levels@.len(),
            order@.len() == i,
            forall|a: int| 0 <= a < order@.len() ==> order@[a] < i,
            forall|a: int, b: int|
                0 <= a < b < order@.len() ==> #[trigger] precedes(
                    levels@,
                    order@[a] as int,
                    order@[b] as int,
                ),
            sum_levels(levels_in_order(levels@, order@)) == sum_levels(levels@.take(i as int)),
        decreases levels@.len() - i,
    {
        let x = levels[i];
        let mut pos: usize = 0;
        while pos < order.len() && levels[order[pos]] >= x
            invariant
                0 <= pos <= order@.len(),
                order@.len() == i,
                i < levels@.len(),
                x == levels@[i as int],
                forall|a: int| 0 <= a < order@.len() ==> order@[a] < i,
                forall|a: int| 0 <= a < pos ==> levels@[order@[a] as int] >= x,
            decreases order@.len() - pos,
        {
            pos += 1;
        }
        proof {
            assert forall|a: int| pos <= a < order@.len() implies levels@[order@[a] as int] < x by {
                if a > pos {
                    assert(precedes(levels@, order@[pos as int] as int, order@[a] as int));
                }
            }
            assert(levels_in_order(levels@, order@.insert(pos as int, i)) =~= levels_in_order(
                levels@,
                order@,
            ).insert(pos as int, x));
            lemma_sum_levels_insert(levels_in_order(levels@, order@), pos as int, x);
            assert(levels@.take(i + 1).drop_last() =~= levels@.take(i as int));
        }
        let ghost old_order = order@;
        order.insert(pos, i);
        assert forall|a: int, b: int| 0 <= a < b < order@.len() implies #[trigger] precedes(
            levels@,
            order@[a] as int,
            order@[b] as int,
        ) by {
            if b < pos {
                assert(precedes(levels@, old_order[a] as int, old_order[b] as int));
            } else if a > pos {
                assert(precedes(levels@, old_order[a - 1] as int, old_order[b - 1] as int));
            } else if a < pos && b > pos {
                assert(levels@[old_order[a] as int] >= x);
                assert(levels@[old_order[b - 1] as int] < x);
            }
        }
        i += 1;
    }
    assert(levels@.take(i as int) =~= levels@);
    order
}

/// How many levels convert to the new building type, and how many are taken
/// from each owner.
pub struct RedistributionPlan {
    /// Levels of the new building type.
    pub modded_levels_total: u64,
    /// Owner indices by descending levels; `per_owner_delta` follows this order.
    pub order: Vec<usize>,
    /// Levels taken from each owner, in the order of `order`.
    pub per_owner_delta: Vec<u32>,
}

/// Why no plan could be made.
#[derive(Debug, Clone, Copy, PartialEq, Eq, Structural)]
pub enum PlanError {
    /// The owners' levels add up to more than a `u64` holds.
    LevelsOverflow,
}

proof fn lemma_sum_levels_prefix(s: Seq<u32>, j: int)
    requires
        0 <= j <= s.len(),
    ensures
        sum_levels(s.take(j)) <= sum_levels(s),
    decreases s.len(),
{
    if j < s.len() {
        assert(s.drop_last().take(j) =~= s.take(j));
        lemma_sum_levels_prefix(s.drop_last(), j);
    } else {
        assert(s.take(j) =~= s);
    }
}

proof fn lemma_modded_total_bound(total: nat, ratio: nat)
    requires
        ratio >= 1,
    ensures
        modded_total(total, ratio) <= total,
{
    let d = 10 * ratio;
    let x = 10 * total + 4 * ratio;
    lemma_fundamental_div_mod(x as int, d as int);
    let q = x / d;
    assert(d * q <= x);
    if total == 0 {
        assert(q == 0) by (nonlinear_arith)
            requires
                d * q <= 4 * ratio,
                d == 10 * ratio,
                ratio >= 1,
                q >= 0,
        ;
    } else {
        assert(q <= total) by (nonlinear_arith)
            requires
                d * q <= 10 * total + 4 * ratio,
                d == 10 * ratio,
                ratio >= 1,
                total >= 1,
                q >= 0,
        ;
    }
}

proof fn lemma_raw_share_bound(levels: nat, modded: nat, total: nat)
    requires
        modded <= total,
    ensures
        raw_share(levels, modded, total) <= levels,
{
    if total > 0 {
        let d = 2 * total;
        let x = 2 * modded * levels + total;
        lemma_fundamental_div_mod(x as int, d as int);
        let q = x / d;
        assert(d * q <= x);
        assert(modded * levels <= total * levels) by (nonlinear_arith)
            requires
                modded <= total,
        ;
        assert(q <= levels) by (nonlinear_arith)
            requires
                d * q <= 2 * modded * levels + total,
                d == 2 * total,
                modded * levels <= total * levels,
                total >= 1,
                q >= 0,
        ;
    }
}

/// Plans the split of a building whose owners hold `levels`, converting
/// roughly one level in `ratio` to the new building type.
pub fn plan_redistribution(levels: &Vec<u32>, ratio: u32) -> (r: Result<RedistributionPlan, PlanError>)
    requires
        ratio >= 1,
    ensures
        r is Err <==> sum_levels(levels@) > u64::MAX,
        r matches Ok(p) ==> {
            &&& p.modded_levels_total == modded_total(sum_levels(levels@), ratio as nat)
            &&& p.modded_levels_total <= sum_levels(levels@)
            &&& p.per_owner_delta@.len() == levels@.len()
            &&& is_descending_order(levels@, p.order@)
            &&& p.per_owner_delta@ == planned_deltas(
                levels_in_order(levels@, p.order@),
                p.modded_levels_total as nat,
            )
            &&& sum_levels(levels@) > 0 ==> sum_levels(p.per_owner_delta@) == p.modded_levels_total
            &&& sum_levels(levels@) > 0 ==> forall|i: int|
                0 <= i < p.order@.len() ==> #[trigger] p.per_owner_delta@[i] <= levels@[p.order@[i] as int]
        },
{
    let order = descending_order(levels);
    let ghost in_order = levels_in_order(levels@, order@);
    let mut sorted: Vec<u32> = Vec::new();
    let mut total: u64 = 0;
    let mut k: usize = 0;
    assert(in_order.take(0) =~= Seq::<u32>::empty());
    while k < order.len()
        invariant
            order@.len() == levels@.len(),
            is_descending_order(levels@, order@),
            in_order == levels_in_order(levels@, order@),
            sum_levels(in_order) == sum_levels(levels@),
            0 <= k <= order@.len(),
            sorted@ == in_order.take(k as int),
            total as nat == sum_levels(sorted@),
        decreases order@.len() - k,
    {
        let l = levels[order[k]];
        assert(in_order.take(k + 1) =~= sorted@.push(l));
        assert(sorted@.push(l).drop_last() =~= sorted@);
        match total.checked_add(l as u64) {
            Some(t) => {
                total = t;
            },
            None => {
                proof {
                    lemma_sum_levels_prefix(in_order, k + 1);
                }
                return Err(PlanError::LevelsOverflow);
            },
        }
        sorted.push(l);
        k += 1;
    }
    assert(sorted@ =~= in_order);
    let modded_wide: u128 = (10 * (total as u128) + 4 * (ratio as u128)) / (10 * (ratio as u128));
    proof {
        lemma_modded_total_bound(total as nat, ratio as nat);
    }
    let modded: u64 = modded_wide as u64;
    let ghost raw_spec = raw_shares(sorted@, modded as nat, total as nat);
    let mut raw: Vec<u32> = Vec::new();
    let mut raw_sum: u128 = 0;
    let mut j: usize = 0;
    assert(raw_spec.take(0) =~= Seq::<u32>::empty());
    while j < sorted.len()
        invariant
            sorted@ == in_order,
            total as nat == sum_levels(sorted@),
            modded <= total,
            raw_spec == raw_shares(sorted@, modded as nat, total as nat),
            0 <= j <= sorted@.len(),
            raw@ == raw_spec.take(j as int),
            raw_sum as nat == sum_levels(raw@),
            raw_sum <= j * 4294967295,
        decreases sorted@.len() - j,
    {
        let l = sorted[j];
        proof {
            lemma_raw_share_bound(l as nat, modded as nat, total as nat);
        }
        assert((modded as u128) * (l as u128) <= 0xffff_ffff_ffff_ffffu128 * 0xffff_ffffu128)
            by (nonlinear_arith)
            requires
                modded <= 0xffff_ffff_ffff_ffffu64,
                l <= 0xffff_ffffu32,
        ;
        let share: u32 = if total == 0 {
            0
        } else {
            let prod: u128 = (modded as u128) * (l as u128);
            assert(2 * prod == 2 * (modded as nat) * (l as nat)) by (nonlinear_arith)
                requires
                    prod == (modded as nat) * (l as nat),
            ;
            ((2 * prod + total as u128) / (2 * (total as u128))) as u32
        };
        assert(raw_spec.take(j + 1) =~= raw@.push(share));
        assert(raw@.push(share).drop_last() =~= raw@);
        raw.push(share);
        raw_sum = raw_sum + share as u128;
        j += 1;
    }
    assert(raw@ =~= raw_spec);
    if raw_sum > modded as u128 {
        trim_back_exec(&mut raw, raw_sum - modded as u128);
    } else {
        pad_front_exec(&mut raw, &sorted, modded as u128 - raw_sum);
    }
    proof {
        if total > 0 {
            lemma_planned_deltas_conserve(sorted@, modded as nat);
            assert forall|i: int| 0 <= i < order@.len() implies #[trigger] raw@[i]
                <= levels@[order@[i] as int] by {
                assert(sorted@[i] == levels@[order@[i] as int]);
            }
        }
    }
    Ok(RedistributionPlan { modded_levels_total: modded, order, per_owner_delta: raw })
}

proof fn lemma_sum_levels_front(s: Seq<u32>)
    requires
        s.len() > 0,
    ensures
        sum_levels(s) == s[0] + sum_levels(s.skip(1)),
    decreases s.len(),
{
    if s.len() > 1 {
        lemma_sum_levels_front(s.drop_last());
        assert(s.drop_last().skip(1) =~= s.skip(1).drop_last());
        assert(s.skip(1).last() == s.last());
    } else {
        assert(s.skip(1) =~= Seq::<u32>::empty());
        assert(s.drop_last() =~= Seq::<u32>::empty());
    }
}

proof fn lemma_trim_back_effect(s: Seq<u32>, k: int)
    requires
        0 <= k <= count_positive(s),
    ensures
        trim_back(s, k).len() == s.len(),
        sum_levels(trim_back(s, k)) + k == sum_levels(s),
        forall|i: int| 0 <= i < s.len() ==> trim_back(s, k)[i] <= s[i],
    decreases s.len(),
{
    if s.len() > 0 && k > 0 {
        let r = trim_back(s, k);
        if s.last() > 0 {
            lemma_trim_back_effect(s.drop_last(), k - 1);
        } else {
            lemma_trim_back_effect(s.drop_last(), k);
        }
        let x = trim_back(s.drop_last(), if s.last() > 0 { k - 1 } else { k });
        assert(r.drop_last() =~= x);
        assert(sum_levels(r) == sum_levels(x) + r.last());
        assert forall|i: int| 0 <= i < s.len() implies r[i] <= s[i] by {
            if i < s.len() - 1 {
                assert(r[i] == x[i]);
                assert(s.drop_last()[i] == s[i]);
            }
        }
    }
}

proof fn lemma_pad_front_effect(s: Seq<u32>, caps: Seq<u32>, k: int)
    requires
        s.len() == caps.len(),
        0 <= k <= count_below(s, caps),
        forall|i: int| 0 <= i < s.len() ==> s[i] <= caps[i],
    ensures
        pad_front(s, caps, k).len() == s.len(),
        sum_levels(pad_front(s, caps, k)) == sum_levels(s) + k,
        forall|i: int| 0 <= i < s.len() ==> pad_front(s, caps, k)[i] <= caps[i],
    decreases s.len(),
{
    if s.len() > 0 && k > 0 {
        let r = pad_front(s, caps, k);
        let k2 = if s[0] < caps[0] { k - 1 } else { k };
        assert forall|i: int| 0 <= i < s.skip(1).len() implies s.skip(1)[i] <= caps.skip(1)[i] by {
            assert(s.skip(1)[i] == s[i + 1]);
        }
        lemma_pad_front_effect(s.skip(1), caps.skip(1), k2);
        let rest = pad_front(s.skip(1), caps.skip(1), k2);
        assert(r.skip(1) =~= rest);
        lemma_sum_levels_front(r);
        lemma_sum_levels_front(s);
        assert forall|i: int| 0 <= i < s.len() implies r[i] <= caps[i] by {
            if i > 0 {
                assert(r[i] == rest[i - 1]);
                assert(caps[i] == caps.skip(1)[i - 1]);
            }
        }
    }
}

proof fn lemma_share_excess(l: nat, m: nat, t: nat)
    requires
        t > 0,
    ensures
        2 * t * raw_share(l, m, t) <= 2 * m * l + t,
        raw_share(l, m, t) == 0 ==> 2 * t * raw_share(l, m, t) <= 2 * m * l,
        2 * t * raw_share(l, m, t) + 2 * t > 2 * m * l + t,
{
    let d = 2 * t;
    let x = 2 * m * l + t;
    lemma_fundamental_div_mod(x as int, d as int);
    assert(d * (x / d) == 2 * t * (x / d)) by (nonlinear_arith)
        requires
            d == 2 * t,
    ;
    assert(2 * m * l >= 0) by (nonlinear_arith);
}

proof fn lemma_excess_sum(s: Seq<u32>, m: nat, t: nat)
    requires
        0 < t,
        m <= t,
    ensures
        2 * t * sum_levels(raw_shares(s, m, t)) <= 2 * m * sum_levels(s) + t * count_positive(
            raw_shares(s, m, t),
        ),
    decreases s.len(),
{
    if s.len() > 0 {
        let raw = raw_shares(s, m, t);
        assert(raw.drop_last() =~= raw_shares(s.drop_last(), m, t));
        lemma_excess_sum(s.drop_last(), m, t);
        let l = s.last() as nat;
        lemma_share_excess(l, m, t);
        let a = sum_levels(raw.drop_last());
        let b = sum_levels(s.drop_last());
        let c = count_positive(raw.drop_last());
        let r = raw_share(l, m, t);
        lemma_raw_share_bound(l, m, t);
        assert(raw.last() as nat == r);
        assert(sum_levels(raw) == a + r);
        assert(sum_levels(s) == b + l);
        assert(2 * t * (a + r) == 2 * t * a + 2 * t * r) by (nonlinear_arith);
        assert(2 * m * (b + l) == 2 * m * b + 2 * m * l) by (nonlinear_arith);
        assert(t * (c + 1) == t * c + t) by (nonlinear_arith);
        let cp = count_positive(raw);
        let e = if r > 0 { t } else { 0 };
        assert(cp == c + if r > 0 { 1nat } else { 0nat });
        assert(t * cp == t * c + e) by (nonlinear_arith)
            requires
                cp == c + if r > 0 { 1nat } else { 0nat },
                e == if r > 0 { t } else { 0 },
        ;
        assert(2 * t * r <= 2 * m * l + e);
        assert(2 * t * sum_levels(raw) == 2 * t * a + 2 * t * r);
        assert(2 * m * sum_levels(s) == 2 * m * b + 2 * m * l);
        assert(2 * t * a <= 2 * m * b + t * c);
        assert(2 * t * sum_levels(raw) <= 2 * m * sum_levels(s) + t * cp);
    } else {
        assert(sum_levels(raw_shares(s, m, t)) == 0);
        assert(2 * t * sum_levels(raw_shares(s, m, t)) == 0) by (nonlinear_arith)
            requires
                sum_levels(raw_shares(s, m, t)) == 0,
        ;
        assert(2 * m * sum_levels(s) + t * count_positive(raw_shares(s, m, t)) >= 0)
            by (nonlinear_arith);
    }
}

proof fn lemma_shortfall_sum(s: Seq<u32>, m: nat, t: nat)
    requires
        0 < t,
        m <= t,
    ensures
        2 * m * sum_levels(s) <= 2 * t * sum_levels(raw_shares(s, m, t)) + t * count_below(
            raw_shares(s, m, t),
            s,
        ),
    decreases s.len(),
{
    let raw = raw_shares(s, m, t);
    if s.len() > 0 {
        assert(raw.skip(1) =~= raw_shares(s.skip(1), m, t));
        lemma_shortfall_sum(s.skip(1), m, t);
        lemma_sum_levels_front(s);
        lemma_sum_levels_front(raw);
        let l = s[0] as nat;
        let r = raw_share(l, m, t);
        lemma_share_excess(l, m, t);
        lemma_raw_share_bound(l, m, t);
        assert(raw[0] as nat == r);
        let a = sum_levels(raw.skip(1));
        let b = sum_levels(s.skip(1));
        let c = count_below(raw.skip(1), s.skip(1));
        let cb = count_below(raw, s);
        let e = if r < l { t } else { 0 };
        assert(cb == c + if r < l { 1nat } else { 0nat });
        assert(t * cb == t * c + e) by (nonlinear_arith)
            requires
                cb == c + if r < l { 1nat } else { 0nat },
                e == if r < l { t } else { 0 },
        ;
        if r == l {
            assert(2 * m * l <= 2 * t * r) by (nonlinear_arith)
                requires
                    m <= t,
                    r == l,
            ;
        }
        assert(2 * m * l <= 2 * t * r + e);
        assert(2 * t * sum_levels(raw) == 2 * t * r + 2 * t * a) by (nonlinear_arith)
            requires
                sum_levels(raw) == r + a,
        ;
        assert(2 * m * sum_levels(s) == 2 * m * l + 2 * m * b) by (nonlinear_arith)
            requires
                sum_levels(s) == l + b,
        ;
    } else {
        assert(sum_levels(s) == 0);
        assert(2 * m * sum_levels(s) == 0) by (nonlinear_arith)
            requires
                sum_levels(s) == 0,
        ;
        assert(2 * t * sum_levels(raw) + t * count_below(raw, s) >= 0) by (nonlinear_arith);
    }
}

proof fn lemma_raw_shares_below_levels(s: Seq<u32>, m: nat, t: nat)
    requires
        m <= t,
    ensures
        forall|i: int| 0 <= i < s.len() ==> raw_shares(s, m, t)[i] <= s[i],
{
    assert forall|i: int| 0 <= i < s.len() implies raw_shares(s, m, t)[i] <= s[i] by {
        lemma_raw_share_bound(s[i] as nat, m, t);
    }
}

proof fn lemma_planned_deltas_conserve(sorted: Seq<u32>, modded: nat)
    requires
        sum_levels(sorted) > 0,
        modded <= sum_levels(sorted),
    ensures
        planned_deltas(sorted, modded).len() == sorted.len(),
        sum_levels(planned_deltas(sorted, modded)) == modded,
        forall|i: int| 0 <= i < sorted.len() ==> planned_deltas(sorted, modded)[i] <= sorted[i],
{
    let t = sum_levels(sorted);
    let raw = raw_shares(sorted, modded, t);
    lemma_raw_shares_below_levels(sorted, modded, t);
    if sum_levels(raw) > modded {
        lemma_excess_sum(sorted, modded, t);
        let k = sum_levels(raw) - modded;
        assert(2 * t * k <= t * count_positive(raw)) by (nonlinear_arith)
            requires
                2 * t * sum_levels(raw) <= 2 * modded * t + t * count_positive(raw),
                k == sum_levels(raw) - modded,
        ;
        assert(k <= count_positive(raw)) by (nonlinear_arith)
            requires
                2 * t * k <= t * count_positive(raw),
                t > 0,
                k > 0,
        ;
        lemma_trim_back_effect(raw, k);
        assert forall|i: int| 0 <= i < sorted.len() implies planned_deltas(sorted, modded)[i]
            <= sorted[i] by {
            assert(trim_back(raw, k)[i] <= raw[i]);
        }
    } else {
        lemma_shortfall_sum(sorted, modded, t);
        let k = modded - sum_levels(raw);
        assert(2 * t * k <= t * count_below(raw, sorted)) by (nonlinear_arith)
            requires
                2 * modded * t <= 2 * t * sum_levels(raw) + t * count_below(raw, sorted),
                k == modded - sum_levels(raw),
        ;
        assert(k <= count_below(raw, sorted)) by (nonlinear_arith)
            requires
                2 * t * k <= t * count_below(raw, sorted),
                t > 0,
                k >= 0,
        ;
        lemma_pad_front_effect(raw, sorted, k);
    }
}

/// Conservation: whatever the order of owners holding `total > 0` levels,
/// and for any ratio of at least one, at most `total` levels convert, the
/// levels taken from the owners add up to exactly that number, and no owner
/// gives more levels than it holds.
pub proof fn lemma_conservation(levels: Seq<u32>, ratio: nat)
    requires
        ratio >= 1,
        sum_levels(levels) > 0,
    ensures
        modded_total(sum_levels(levels), ratio) <= sum_levels(levels),
        planned_deltas(levels, modded_total(sum_levels(levels), ratio)).len() == levels.len(),
        sum_levels(planned_deltas(levels, modded_total(sum_levels(levels), ratio))) == modded_total(
            sum_levels(levels),
            ratio,
        ),
        forall|i: int|
            0 <= i < levels.len() ==> #[trigger] planned_deltas(
                levels,
                modded_total(sum_levels(levels), ratio),
            )[i] <= levels[i],
{
    lemma_modded_total_bound(sum_levels(levels), ratio);
    lemma_planned_deltas_conserve(levels, modded_total(sum_levels(levels), ratio));
}

} // verus!
