//! The mathematical model of a parent relation over the entities `0..n` and of
//! values that move along it, with the lemmas the propagations rest on.
use vstd::prelude::*;
use crate::stat_num::{StatNum, fits};

verus! {

/// True when entity `j` has entity `e` as its parent.
pub open spec fn has_parent(parents: Seq<Option<usize>>, j: int, e: int) -> bool {
    0 <= j < parents.len() && parents[j] is Some && parents[j]->0 as int == e
}

/// True when every parent named lies among the entities.
pub open spec fn parents_valid(parents: Seq<Option<usize>>) -> bool {
    forall|j: int| 0 <= j < parents.len() && #[trigger] parents[j] is Some ==> (parents[j]->0 as int) < parents.len()
}

/// The number of children of `e` among the entities `0..k`.
pub open spec fn count_children(parents: Seq<Option<usize>>, e: int, k: int) -> nat
    decreases k,
{
    if k <= 0 {
        0
    } else {
        count_children(parents, e, k - 1) + if has_parent(parents, k - 1, e) { 1nat } else { 0nat }
    }
}

/// The number of children of `e` among `0..k` that are marked in `marked`.
pub open spec fn count_marked_children(parents: Seq<Option<usize>>, marked: Seq<bool>, e: int, k: int) -> nat
    decreases k,
{
    if k <= 0 {
        0
    } else {
        count_marked_children(parents, marked, e, k - 1) + if has_parent(parents, k - 1, e)
            && marked[k - 1] {
            1nat
        } else {
            0nat
        }
    }
}

/// The number of entries among the first `k` of `s` that are false.
pub open spec fn count_false(s: Seq<bool>, k: int) -> nat
    decreases k,
{
    if k <= 0 {
        0
    } else {
        count_false(s, k - 1) + if !s[k - 1] { 1nat } else { 0nat }
    }
}

/// The sum of the first `k` values of `s`.
pub open spec fn seq_total(s: Seq<int>, k: int) -> int
    decreases k,
{
    if k <= 0 {
        0
    } else {
        seq_total(s, k - 1) + s[k - 1]
    }
}

/// The sum of `values[j]` over the `j < k` with `holder[j] == e`.
pub open spec fn held_sum(values: Seq<int>, holder: Seq<int>, e: int, k: int) -> int
    decreases k,
{
    if k <= 0 {
        0
    } else {
        held_sum(values, holder, e, k - 1) + if holder[k - 1] == e { values[k - 1] } else { 0 }
    }
}

/// `held_sum` summed over the holders `0..m`.
pub open spec fn held_all(values: Seq<int>, holder: Seq<int>, m: int, k: int) -> int
    decreases m,
{
    if m <= 0 {
        0
    } else {
        held_all(values, holder, m - 1, k) + held_sum(values, holder, m - 1, k)
    }
}

/// The sum of `values[j]` over the `j < k` whose holder lies in `0..m`.
pub open spec fn held_below(values: Seq<int>, holder: Seq<int>, m: int, k: int) -> int
    decreases k,
{
    if k <= 0 {
        0
    } else {
        held_below(values, holder, m, k - 1) + if 0 <= holder[k - 1] < m {
            values[k - 1]
        } else {
            0
        }
    }
}

/// One step up the relation: the parent of `x`, or `x` itself where it has none.
pub open spec fn step_up(parents: Seq<Option<usize>>, x: int) -> int {
    if 0 <= x < parents.len() && parents[x] is Some {
        parents[x]->0 as int
    } else {
        x
    }
}

/// Where `s` steps up from `j` lead.
pub open spec fn climb(parents: Seq<Option<usize>>, j: int, s: nat) -> int
    decreases s,
{
    if s == 0 {
        j
    } else {
        step_up(parents, climb(parents, j, (s - 1) as nat))
    }
}

/// The root above `j`: where as many steps up as there are entities lead.
pub open spec fn root_of(parents: Seq<Option<usize>>, j: int) -> int {
    climb(parents, j, parents.len())
}

/// The root of each entity, in order.
pub open spec fn roots(parents: Seq<Option<usize>>) -> Seq<int> {
    Seq::new(parents.len(), |j: int| root_of(parents, j))
}

/// The sum of `values` over the entities whose root is `e`.
pub open spec fn tree_total(parents: Seq<Option<usize>>, values: Seq<int>, e: int) -> int {
    held_sum(values, roots(parents), e, parents.len() as int)
}

/// True when climbing from `j` reaches `e` within as many steps as there are
/// entities: `e` is `j` or one of its ancestors.
pub open spec fn reaches(parents: Seq<Option<usize>>, j: int, e: int) -> bool {
    exists|s: nat| s <= parents.len() && #[trigger] climb(parents, j, s) == e
}

/// The sum of the positive values among the first `k` entities that reach
/// `e`.
pub open spec fn reach_pos(parents: Seq<Option<usize>>, values: Seq<int>, e: int, k: int) -> int
    decreases k,
{
    if k <= 0 {
        0
    } else {
        reach_pos(parents, values, e, k - 1) + if reaches(parents, k - 1, e) && values[k - 1] > 0 {
            values[k - 1]
        } else {
            0
        }
    }
}

/// The sum of the negative values among the first `k` entities that reach
/// `e`.
pub open spec fn reach_neg(parents: Seq<Option<usize>>, values: Seq<int>, e: int, k: int) -> int
    decreases k,
{
    if k <= 0 {
        0
    } else {
        reach_neg(parents, values, e, k - 1) + if reaches(parents, k - 1, e) && values[k - 1] < 0 {
            values[k - 1]
        } else {
            0
        }
    }
}

/// Sums of values of at most 64 bits, over at most `k` of them, stay within
/// `k` times the bounds of 64 bits.
pub proof fn lemma_reach_bounded(parents: Seq<Option<usize>>, values: Seq<int>, e: int, k: int)
    requires
        0 <= k <= values.len(),
        k <= 0xffff_ffff_ffff_ffff,
        forall|j: int| 0 <= j < values.len() ==> -0x8000_0000_0000_0000 <= #[trigger] values[j] <= 0x7fff_ffff_ffff_ffff,
    ensures
        0 <= reach_pos(parents, values, e, k) <= k * 0x7fff_ffff_ffff_ffff,
        -k * 0x8000_0000_0000_0000 <= reach_neg(parents, values, e, k) <= 0,
        i128::MIN <= reach_neg(parents, values, e, k),
        reach_pos(parents, values, e, k) <= i128::MAX,
    decreases k,
{
    if k > 0 {
        lemma_reach_bounded(parents, values, e, k - 1);
        assert(values[k - 1] <= 0x7fff_ffff_ffff_ffff);
    }
}

/// True when, for every entity, the positive values of the entities that
/// reach it add up to a number that fits, and so do the negative ones: then no
/// sum that carrying them up forms overflows.
pub open spec fn reach_totals_fit<T: StatNum>(parents: Seq<Option<usize>>, values: Seq<int>) -> bool {
    forall|e: int|
        0 <= e < parents.len() ==> fits::<T>(#[trigger] reach_pos(parents, values, e, parents.len() as int))
            && fits::<T>(reach_neg(parents, values, e, parents.len() as int))
}

pub proof fn lemma_reach_mono(parents: Seq<Option<usize>>, values: Seq<int>, e: int, k: int, m: int)
    requires
        0 <= k <= m,
    ensures
        0 <= reach_pos(parents, values, e, k) <= reach_pos(parents, values, e, m),
        reach_neg(parents, values, e, m) <= reach_neg(parents, values, e, k) <= 0,
    decreases m,
{
    if k < m {
        lemma_reach_mono(parents, values, e, k, m - 1);
    } else if k > 0 {
        lemma_reach_mono(parents, values, e, k - 1, k - 1);
    }
}

pub proof fn lemma_held_reach(parents: Seq<Option<usize>>, values: Seq<int>, holder: Seq<int>, e: int, k: int)
    requires
        forall|j: int| 0 <= j < k && #[trigger] holder[j] == e ==> reaches(parents, j, e),
    ensures
        reach_neg(parents, values, e, k) <= held_sum(values, holder, e, k) <= reach_pos(parents, values, e, k),
    decreases k,
{
    if k > 0 {
        lemma_held_reach(parents, values, holder, e, k - 1);
    }
}

/// What carrying values up a forest leaves: each root holds the total of its
/// tree, and every other entity zero.
pub open spec fn forest_result(parents: Seq<Option<usize>>, values: Seq<int>) -> Seq<int> {
    Seq::new(
        parents.len(),
        |e: int|
            if parents[e] is None {
                tree_total(parents, values, e)
            } else {
                0
            },
    )
}

/// `rank` grows strictly from each entity to its parent and stays below the
/// number of entities.
pub open spec fn is_rank(parents: Seq<Option<usize>>, rank: Seq<nat>) -> bool {
    &&& rank.len() == parents.len()
    &&& forall|i: int| 0 <= i < parents.len() ==> #[trigger] rank[i] < parents.len()
    &&& forall|i: int|
        0 <= i < parents.len() && #[trigger] parents[i] is Some ==> {
            &&& (parents[i]->0 as int) < parents.len()
            &&& rank[parents[i]->0 as int] > rank[i]
        }
}

/// The parent relation is a forest: every parent named is an entity and no
/// entity is its own ancestor.
pub open spec fn is_forest(parents: Seq<Option<usize>>) -> bool {
    exists|rank: Seq<nat>| is_rank(parents, rank)
}

pub proof fn lemma_forest_valid(parents: Seq<Option<usize>>)
    requires
        is_forest(parents),
    ensures
        parents_valid(parents),
{
    let rank = choose|rank: Seq<nat>| is_rank(parents, rank);
    assert forall|j: int| 0 <= j < parents.len() && #[trigger] parents[j] is Some implies (parents[j]->0 as int)
        < parents.len() by {
    }
}

pub proof fn lemma_count_children_le(parents: Seq<Option<usize>>, e: int, k: int)
    requires
        0 <= k,
    ensures
        count_children(parents, e, k) <= k,
    decreases k,
{
    if k > 0 {
        lemma_count_children_le(parents, e, k - 1);
    }
}

pub proof fn lemma_marked_le(parents: Seq<Option<usize>>, marked: Seq<bool>, e: int, k: int)
    ensures
        count_marked_children(parents, marked, e, k) <= count_children(parents, e, k),
    decreases k,
{
    if k > 0 {
        lemma_marked_le(parents, marked, e, k - 1);
    }
}

pub proof fn lemma_unmarked_child(parents: Seq<Option<usize>>, marked: Seq<bool>, e: int, k: int, j: int)
    requires
        0 <= j < k,
        has_parent(parents, j, e),
        !marked[j],
    ensures
        count_marked_children(parents, marked, e, k) < count_children(parents, e, k),
    decreases k,
{
    if j < k - 1 {
        lemma_unmarked_child(parents, marked, e, k - 1, j);
    } else {
        lemma_marked_le(parents, marked, e, k - 1);
    }
}

pub proof fn lemma_all_marked(parents: Seq<Option<usize>>, marked: Seq<bool>, e: int, k: int)
    requires
        forall|j: int| 0 <= j < k && has_parent(parents, j, e) ==> #[trigger] marked[j],
    ensures
        count_marked_children(parents, marked, e, k) == count_children(parents, e, k),
    decreases k,
{
    if k > 0 {
        lemma_all_marked(parents, marked, e, k - 1);
    }
}

pub proof fn lemma_none_marked(parents: Seq<Option<usize>>, marked: Seq<bool>, e: int, k: int)
    requires
        forall|j: int| 0 <= j < k ==> !#[trigger] marked[j],
    ensures
        count_marked_children(parents, marked, e, k) == 0,
    decreases k,
{
    if k > 0 {
        lemma_none_marked(parents, marked, e, k - 1);
    }
}

pub proof fn lemma_mark_one(parents: Seq<Option<usize>>, marked: Seq<bool>, c: int, x: int, k: int)
    requires
        0 <= c < marked.len(),
        !marked[c],
        k <= marked.len(),
    ensures
        count_marked_children(parents, marked.update(c, true), x, k) == count_marked_children(
            parents,
            marked,
            x,
            k,
        ) + if c < k && has_parent(parents, c, x) { 1nat } else { 0nat },
    decreases k,
{
    if k > 0 {
        lemma_mark_one(parents, marked, c, x, k - 1);
    }
}

pub proof fn lemma_count_false_update(s: Seq<bool>, i: int, k: int)
    requires
        0 <= i < k <= s.len(),
        !s[i],
    ensures
        count_false(s.update(i, true), k) + 1 == count_false(s, k),
    decreases k,
{
    if i < k - 1 {
        lemma_count_false_update(s, i, k - 1);
    } else {
        lemma_count_false_same(s, s.update(i, true), k - 1);
    }
}

pub proof fn lemma_count_false_all(s: Seq<bool>, k: int)
    requires
        0 <= k <= s.len(),
        forall|j: int| 0 <= j < k ==> !#[trigger] s[j],
    ensures
        count_false(s, k) == k,
    decreases k,
{
    if k > 0 {
        lemma_count_false_all(s, k - 1);
    }
}

pub proof fn lemma_count_false_le(s: Seq<bool>, k: int)
    requires
        0 <= k,
    ensures
        count_false(s, k) <= k,
    decreases k,
{
    if k > 0 {
        lemma_count_false_le(s, k - 1);
    }
}

pub proof fn lemma_count_false_same(s: Seq<bool>, t: Seq<bool>, k: int)
    requires
        forall|j: int| 0 <= j < k ==> s[j] == t[j],
    ensures
        count_false(s, k) == count_false(t, k),
    decreases k,
{
    if k > 0 {
        lemma_count_false_same(s, t, k - 1);
    }
}

pub proof fn lemma_held_same(values: Seq<int>, h1: Seq<int>, h2: Seq<int>, e: int, k: int)
    requires
        forall|j: int| 0 <= j < k ==> (#[trigger] h1[j] == e) == (h2[j] == e),
    ensures
        held_sum(values, h1, e, k) == held_sum(values, h2, e, k),
    decreases k,
{
    if k > 0 {
        lemma_held_same(values, h1, h2, e, k - 1);
    }
}

/// The holders after every value held by `c` moves to `e`.
pub open spec fn moved(holder: Seq<int>, c: int, e: int) -> Seq<int> {
    Seq::new(holder.len(), |j: int| if holder[j] == c { e } else { holder[j] })
}

pub proof fn lemma_held_move(values: Seq<int>, holder: Seq<int>, c: int, e: int, x: int, k: int)
    requires
        c != e,
        0 <= k <= holder.len(),
    ensures
        held_sum(values, moved(holder, c, e), x, k) == if x == e {
            held_sum(values, holder, e, k) + held_sum(values, holder, c, k)
        } else if x == c {
            0
        } else {
            held_sum(values, holder, x, k)
        },
    decreases k,
{
    if k > 0 {
        lemma_held_move(values, holder, c, e, x, k - 1);
    }
}

pub proof fn lemma_held_none(values: Seq<int>, holder: Seq<int>, e: int, k: int)
    requires
        forall|j: int| 0 <= j < k ==> #[trigger] holder[j] != e,
    ensures
        held_sum(values, holder, e, k) == 0,
    decreases k,
{
    if k > 0 {
        lemma_held_none(values, holder, e, k - 1);
    }
}

/// The holders at the start: each entity holds its own value.
pub open spec fn own_holders(n: nat) -> Seq<int> {
    Seq::new(n, |j: int| j)
}

pub proof fn lemma_held_own(values: Seq<int>, n: nat, e: int, k: int)
    requires
        0 <= k <= n,
    ensures
        held_sum(values, own_holders(n), e, k) == if 0 <= e < k { values[e] } else { 0 },
    decreases k,
{
    if k > 0 {
        lemma_held_own(values, n, e, k - 1);
    }
}

pub proof fn lemma_held_all_step(values: Seq<int>, holder: Seq<int>, m: int, k: int)
    requires
        0 <= k < holder.len(),
        0 <= m,
    ensures
        held_all(values, holder, m, k + 1) == held_all(values, holder, m, k) + if 0 <= holder[k]
            < m {
            values[k]
        } else {
            0
        },
    decreases m,
{
    if m > 0 {
        lemma_held_all_step(values, holder, m - 1, k);
    }
}

pub proof fn lemma_held_all_below(values: Seq<int>, holder: Seq<int>, m: int, k: int)
    requires
        0 <= k <= holder.len(),
        0 <= m,
    ensures
        held_all(values, holder, m, k) == held_below(values, holder, m, k),
    decreases k,
{
    if k > 0 {
        lemma_held_all_below(values, holder, m, k - 1);
        lemma_held_all_step(values, holder, m, k - 1);
    } else {
        lemma_held_all_zero(values, holder, m);
    }
}

pub proof fn lemma_held_all_zero(values: Seq<int>, holder: Seq<int>, m: int)
    ensures
        held_all(values, holder, m, 0) == 0,
    decreases m,
{
    if m > 0 {
        lemma_held_all_zero(values, holder, m - 1);
    }
}

pub proof fn lemma_held_below_total(values: Seq<int>, holder: Seq<int>, m: int, k: int)
    requires
        0 <= k <= holder.len(),
        forall|j: int| 0 <= j < k ==> 0 <= #[trigger] holder[j] < m,
    ensures
        held_below(values, holder, m, k) == seq_total(values, k),
    decreases k,
{
    if k > 0 {
        lemma_held_below_total(values, holder, m, k - 1);
    }
}

pub proof fn lemma_total_pointwise(s: Seq<int>, values: Seq<int>, holder: Seq<int>, m: int, k: int)
    requires
        0 <= m <= s.len(),
        forall|e: int| 0 <= e < m ==> #[trigger] s[e] == held_sum(values, holder, e, k),
    ensures
        seq_total(s, m) == held_all(values, holder, m, k),
    decreases m,
{
    if m > 0 {
        lemma_total_pointwise(s, values, holder, m - 1, k);
    }
}

pub proof fn lemma_climb_stable(parents: Seq<Option<usize>>, j: int, s: nat, m: nat)
    requires
        step_up(parents, climb(parents, j, s)) == climb(parents, j, s),
    ensures
        climb(parents, j, s + m) == climb(parents, j, s),
    decreases m,
{
    if m > 0 {
        lemma_climb_stable(parents, j, s, (m - 1) as nat);
        assert(climb(parents, j, s + m) == step_up(parents, climb(parents, j, (s + m - 1) as nat)));
    }
}

pub proof fn lemma_climb_rank(parents: Seq<Option<usize>>, rank: Seq<nat>, j: int, s: nat)
    requires
        is_rank(parents, rank),
        0 <= j < parents.len(),
    ensures
        0 <= climb(parents, j, s) < parents.len(),
        parents[climb(parents, j, s)] is None || rank[climb(parents, j, s)] >= rank[j] + s,
    decreases s,
{
    if s > 0 {
        lemma_climb_rank(parents, rank, j, (s - 1) as nat);
        let x = climb(parents, j, (s - 1) as nat);
        if parents[x] is Some {
            assert(rank[x] < parents.len());
        }
    }
}

/// In a forest, steps up from an entity reach a root within as many steps as
/// there are entities, and stay there.
pub proof fn lemma_root_of(parents: Seq<Option<usize>>, j: int, s: nat)
    requires
        is_forest(parents),
        0 <= j < parents.len(),
        parents[climb(parents, j, s)] is None,
    ensures
        root_of(parents, j) == climb(parents, j, s),
        0 <= root_of(parents, j) < parents.len(),
        parents[root_of(parents, j)] is None,
{
    let rank = choose|rank: Seq<nat>| is_rank(parents, rank);
    let n = parents.len();
    lemma_climb_rank(parents, rank, j, n);
    lemma_climb_rank(parents, rank, j, s);
    let r = climb(parents, j, n);
    assert(parents[r] is None) by {
        if parents[r] is Some {
            assert(rank[r] < n);
        }
    }
    if s <= n {
        lemma_climb_stable(parents, j, s, (n - s) as nat);
    } else {
        lemma_climb_stable(parents, j, n, (s - n) as nat);
    }
}

/// True when `e` reports to its parent within `k` rounds: it has a parent,
/// and each of its children reports within `k - 1` rounds.
pub open spec fn reports_within(parents: Seq<Option<usize>>, e: int, k: nat) -> bool
    decreases k, 0nat,
{
    if k == 0 {
        false
    } else {
        0 <= e < parents.len() && parents[e] is Some && children_report(
            parents,
            e,
            (k - 1) as nat,
            parents.len(),
        )
    }
}

/// True when each child of `e` among `0..m` reports within `k` rounds.
pub open spec fn children_report(parents: Seq<Option<usize>>, e: int, k: nat, m: nat) -> bool
    decreases k, m,
{
    if m == 0 {
        true
    } else {
        children_report(parents, e, k, (m - 1) as nat) && (has_parent(parents, m - 1, e)
            ==> reports_within(parents, m - 1, k))
    }
}

pub proof fn lemma_children_report(parents: Seq<Option<usize>>, e: int, k: nat, m: nat)
    ensures
        children_report(parents, e, k, m) <==> forall|j: int|
            0 <= j < m && has_parent(parents, j, e) ==> #[trigger] reports_within(parents, j, k),
    decreases m,
{
    if m > 0 {
        lemma_children_report(parents, e, k, (m - 1) as nat);
        if children_report(parents, e, k, m) {
            assert forall|j: int| 0 <= j < m && has_parent(parents, j, e) implies #[trigger] reports_within(parents, j, k) by {
                if j < m - 1 {
                    assert(children_report(parents, e, k, (m - 1) as nat));
                }
            }
        }
        if forall|j: int| 0 <= j < m && has_parent(parents, j, e) ==> #[trigger] reports_within(parents, j, k) {
            assert(has_parent(parents, m - 1, e) ==> reports_within(parents, m - 1, k));
            assert(children_report(parents, e, k, (m - 1) as nat));
        }
    }
}

/// True when `e` ever reports to its parent: it has one, and all its children
/// report, and so on down; in a forest, every entity with a parent does.
pub open spec fn reports(parents: Seq<Option<usize>>, e: int) -> bool {
    reports_within(parents, e, parents.len())
}

/// What carrying the values up leaves at `e`: nothing where `e` reports to
/// its parent, and otherwise the sum of the values whose destination is `e`.
pub open spec fn carried_value(parents: Seq<Option<usize>>, values: Seq<int>, e: int) -> int {
    if reports(parents, e) {
        0
    } else {
        held_sum(values, destinations(parents), e, parents.len() as int)
    }
}

/// Where the value of `j` ends up: climbing from `j` past every entity that
/// reports, to the first one that does not, or to a parent that is not an
/// entity.
pub open spec fn destination(parents: Seq<Option<usize>>, j: int, k: nat) -> int
    decreases k,
{
    if k == 0 || !(0 <= j < parents.len()) || !reports(parents, j) {
        j
    } else {
        destination(parents, step_up(parents, j), (k - 1) as nat)
    }
}

/// The destination of the value of each entity, in order.
pub open spec fn destinations(parents: Seq<Option<usize>>) -> Seq<int> {
    Seq::new(parents.len(), |j: int| destination(parents, j, parents.len()))
}

pub proof fn lemma_reports_mono(parents: Seq<Option<usize>>, e: int, k: nat, k2: nat)
    requires
        reports_within(parents, e, k),
        k <= k2,
    ensures
        reports_within(parents, e, k2),
    decreases k,
{
    let n = parents.len();
    lemma_children_report(parents, e, (k - 1) as nat, n);
    lemma_children_report(parents, e, (k2 - 1) as nat, n);
    assert forall|j: int| 0 <= j < n && has_parent(parents, j, e) implies #[trigger] reports_within(parents, j, (k2 - 1) as nat) by {
        lemma_reports_mono(parents, j, (k - 1) as nat, (k2 - 1) as nat);
    }
}

pub proof fn lemma_climb_shift(parents: Seq<Option<usize>>, j: int, s: nat)
    ensures
        climb(parents, j, s + 1) == climb(parents, step_up(parents, j), s),
    decreases s,
{
    let j1 = step_up(parents, j);
    if s > 0 {
        lemma_climb_shift(parents, j, (s - 1) as nat);
        assert(climb(parents, j, s + 1) == step_up(parents, climb(parents, j, s)));
        assert(climb(parents, j1, s) == step_up(parents, climb(parents, j1, (s - 1) as nat)));
    } else {
        assert(climb(parents, j, 1) == step_up(parents, climb(parents, j, 0)));
    }
}

pub proof fn lemma_destination(parents: Seq<Option<usize>>, j: int, m: nat, k: nat)
    requires
        forall|s: nat|
            s < m ==> 0 <= #[trigger] climb(parents, j, s) < parents.len() && reports(
                parents,
                climb(parents, j, s),
            ),
        !(0 <= climb(parents, j, m) < parents.len()) || !reports(parents, climb(parents, j, m)),
        m <= k,
    ensures
        destination(parents, j, k) == climb(parents, j, m),
    decreases m,
{
    if m > 0 {
        let j1 = step_up(parents, j);
        assert(0 <= climb(parents, j, 0) < parents.len());
        assert forall|s: nat| s < (m - 1) as nat implies 0 <= #[trigger] climb(parents, j1, s) < parents.len()
            && reports(parents, climb(parents, j1, s)) by {
            lemma_climb_shift(parents, j, s);
            assert(climb(parents, j, s + 1) == climb(parents, j1, s));
        }
        lemma_climb_shift(parents, j, (m - 1) as nat);
        lemma_destination(parents, j1, (m - 1) as nat, (k - 1) as nat);
    }
}

pub proof fn lemma_held_single(values: Seq<int>, holder: Seq<int>, e: int, k: int)
    requires
        0 <= k <= holder.len(),
        k <= values.len(),
        forall|j: int| 0 <= j < k && #[trigger] holder[j] == e && values[j] != 0 ==> j == e,
        0 <= e < holder.len() ==> holder[e] == e,
    ensures
        held_sum(values, holder, e, k) == if 0 <= e < k { values[e] } else { 0 },
    decreases k,
{
    if k > 0 {
        lemma_held_single(values, holder, e, k - 1);
    }
}

/// Carrying values up a forest a second time changes nothing: all of them are
/// already at the roots.
pub proof fn law_forest_result_twice(parents: Seq<Option<usize>>, values: Seq<int>)
    requires
        is_forest(parents),
        values.len() == parents.len(),
    ensures
        forest_result(parents, forest_result(parents, values)) == forest_result(parents, values),
{
    let n = parents.len() as int;
    let f = forest_result(parents, values);
    let rs = roots(parents);
    assert forall|j: int| 0 <= j < n && parents[j] is None implies #[trigger] rs[j] == j by {
        lemma_root_of(parents, j, 0);
    }
    assert forall|e: int| 0 <= e < n && parents[e] is None implies #[trigger] tree_total(parents, f, e) == f[e] by {
        assert forall|j: int| 0 <= j < n && #[trigger] rs[j] == e && f[j] != 0 implies j == e by {
            assert(parents[j] is None);
        }
        lemma_held_single(f, rs, e, n);
    }
    assert(forest_result(parents, f) =~= f);
}

/// In a forest, every entity with a parent reports, within one round more
/// than its rank.
pub proof fn lemma_forest_reports(parents: Seq<Option<usize>>, rank: Seq<nat>, e: int)
    requires
        is_rank(parents, rank),
        0 <= e < parents.len(),
        parents[e] is Some,
    ensures
        reports_within(parents, e, (rank[e] + 1) as nat),
    decreases rank[e],
{
    let n = parents.len();
    assert forall|j: int| 0 <= j < n && has_parent(parents, j, e) implies #[trigger] reports_within(
        parents,
        j,
        rank[e],
    ) by {
        assert(rank[j] < rank[e]);
        lemma_forest_reports(parents, rank, j);
        lemma_reports_mono(parents, j, (rank[j] + 1) as nat, rank[e]);
    }
    lemma_children_report(parents, e, rank[e], n);
}

/// In a forest, the destination of each value is the root of its tree.
pub proof fn lemma_forest_destination(parents: Seq<Option<usize>>, rank: Seq<nat>, j: int, k: nat)
    requires
        is_rank(parents, rank),
        is_forest(parents),
        0 <= j < parents.len(),
        k + rank[j] >= parents.len(),
        forall|e: int| 0 <= e < parents.len() ==> #[trigger] reports(parents, e) == (parents[e] is Some),
    ensures
        destination(parents, j, k) == root_of(parents, j),
        parents[root_of(parents, j)] is None,
    decreases k,
{
    let n = parents.len();
    if parents[j] is None {
        assert(!reports(parents, j));
        lemma_root_of(parents, j, 0);
    } else {
        assert(reports(parents, j));
        let p = parents[j]->0 as int;
        assert(rank[p] > rank[j]);
        lemma_forest_destination(parents, rank, p, (k - 1) as nat);
        assert(step_up(parents, j) == p);
        lemma_climb_shift(parents, j, n);
        lemma_root_of(parents, j, n + 1);
    }
}

/// In a forest, carrying the values up leaves at each root the total of its
/// tree and nothing at any other entity.
pub proof fn law_forest_carried(parents: Seq<Option<usize>>, values: Seq<int>)
    requires
        is_forest(parents),
    ensures
        forall|e: int|
            0 <= e < parents.len() ==> #[trigger] carried_value(parents, values, e) == if parents[e] is None {
                tree_total(parents, values, e)
            } else {
                0
            },
{
    let rank = choose|rank: Seq<nat>| is_rank(parents, rank);
    let n = parents.len();
    assert forall|e: int| 0 <= e < n implies #[trigger] reports(parents, e) == (parents[e] is Some) by {
        if parents[e] is Some {
            lemma_forest_reports(parents, rank, e);
            lemma_reports_mono(parents, e, (rank[e] + 1) as nat, n);
        }
    }
    let d = destinations(parents);
    let rs = roots(parents);
    assert forall|j: int| 0 <= j < n implies #[trigger] d[j] == rs[j] by {
        lemma_forest_destination(parents, rank, j, n);
    }
    assert forall|e: int| 0 <= e < n implies #[trigger] carried_value(parents, values, e) == if parents[e] is None {
        tree_total(parents, values, e)
    } else {
        0
    } by {
        lemma_held_same(values, d, rs, e, n as int);
    }
}

/// Carrying the values up a forest a second time leaves them as the first
/// time left them.
pub proof fn law_carried_twice(parents: Seq<Option<usize>>, values: Seq<int>)
    requires
        is_forest(parents),
        values.len() == parents.len(),
    ensures
        forall|e: int|
            0 <= e < parents.len() ==> #[trigger] carried_value(parents, forest_result(parents, values), e)
                == forest_result(parents, values)[e],
        forall|e: int|
            0 <= e < parents.len() ==> #[trigger] carried_value(parents, values, e) == forest_result(parents, values)[e],
{
    let f = forest_result(parents, values);
    law_forest_carried(parents, values);
    law_forest_carried(parents, f);
    law_forest_result_twice(parents, values);
    assert forall|e: int| 0 <= e < parents.len() implies #[trigger] carried_value(parents, f, e) == f[e] by {
        assert(forest_result(parents, f)[e] == f[e]);
    }
}
} // verus!
