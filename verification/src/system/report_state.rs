//! The state of the upward propagation of changes, and the lemmas that show
//! each of its steps keeps it.
use vstd::prelude::*;
use crate::stat_num::StatNum;
use crate::system::propagation_model::{
    count_children, count_marked_children, held_sum, climb, step_up, parents_valid, is_forest,
    tree_total, seq_total, count_false, moved, has_parent, is_rank, roots,
    reports_within, reports, destination, destinations, lemma_unmarked_child, lemma_mark_one,
    lemma_count_false_update, lemma_held_move, lemma_all_marked, lemma_held_none,
    lemma_total_pointwise, lemma_held_all_below, lemma_held_below_total, lemma_root_of,
    lemma_forest_valid, lemma_marked_le, lemma_count_false_le, lemma_reports_mono,
    lemma_children_report, lemma_destination, lemma_held_same, reaches,
};

verus! {

/// How the counter of `e` stands, given how many of its children have
/// reported: a node with a parent reports once all its children have.
pub open spec fn counter_ok(
    parents: Seq<Option<usize>>,
    counts: Seq<usize>,
    delivered: Seq<bool>,
    sent: Seq<bool>,
    waiting: Map<usize, usize>,
    e: int,
) -> bool {
    let d = count_marked_children(parents, delivered, e, parents.len() as int);
    if parents[e] is None {
        !sent[e] && !waiting.contains_key(e as usize)
    } else if counts[e] == 0 {
        sent[e] && !waiting.contains_key(e as usize)
    } else if d == 0 {
        !sent[e] && !waiting.contains_key(e as usize)
    } else if d < counts[e] {
        !sent[e] && waiting.contains_key(e as usize) && waiting[e as usize] == counts[e] - d
    } else {
        sent[e] && !waiting.contains_key(e as usize)
    }
}

/// The state of the propagation: which values each node holds, which node
/// holds each initial value, and how far each counter stands.
pub open spec fn state_ok(
    parents: Seq<Option<usize>>,
    counts: Seq<usize>,
    waiting: Map<usize, usize>,
    init: Seq<int>,
    vals: Seq<int>,
    sent: Seq<bool>,
    delivered: Seq<bool>,
    holder: Seq<int>,
    steps: Seq<nat>,
) -> bool {
    let n = parents.len() as int;
    &&& counts.len() == n
    &&& vals.len() == n
    &&& init.len() == n
    &&& sent.len() == n
    &&& delivered.len() == n
    &&& holder.len() == n
    &&& steps.len() == n
    &&& forall|e: int| 0 <= e < n ==> #[trigger] counts[e] == count_children(parents, e, n)
    &&& forall|e: int| 0 <= e < n && #[trigger] delivered[e] ==> sent[e]
    &&& forall|e: int| 0 <= e < n && #[trigger] sent[e] ==> vals[e] == 0
    &&& forall|e: int| 0 <= e < n && !#[trigger] sent[e] ==> vals[e] == held_sum(init, holder, e, n)
    &&& forall|j: int| 0 <= j < n ==> 0 <= #[trigger] holder[j] <= n
    &&& forall|j: int| 0 <= j < n && #[trigger] holder[j] < n ==> !delivered[holder[j]]
    &&& forall|j: int|
        0 <= j < n && #[trigger] holder[j] < n ==> holder[j] == climb(parents, j, steps[j])
    &&& parents_valid(parents) ==> forall|j: int| 0 <= j < n ==> #[trigger] holder[j] < n
    &&& forall|k: usize| #[trigger] waiting.contains_key(k) ==> (k as int) < n
    &&& forall|e: int|
        0 <= e < n ==> #[trigger] counter_ok(parents, counts, delivered, sent, waiting, e)
}

/// The reports on their way up: `pend[i]` is the node that sent `tasks[i]`,
/// which carries all that node holds to its parent.
pub open spec fn tasks_ok<T: StatNum>(
    parents: Seq<Option<usize>>,
    init: Seq<int>,
    holder: Seq<int>,
    sent: Seq<bool>,
    delivered: Seq<bool>,
    pend: Seq<int>,
    tasks: Seq<(usize, T)>,
) -> bool {
    let n = parents.len() as int;
    &&& pend.len() == tasks.len()
    &&& pend.no_duplicates()
    &&& forall|i: int|
        0 <= i < pend.len() ==> {
            &&& 0 <= #[trigger] pend[i] < n
            &&& sent[pend[i]]
            &&& !delivered[pend[i]]
            &&& parents[pend[i]] == Some(tasks[i].0)
            &&& tasks[i].1.as_int() == held_sum(init, holder, pend[i], n)
        }
    &&& forall|e: int| 0 <= e < n && #[trigger] sent[e] && !delivered[e] ==> pend.contains(e)
}

/// The order in which nodes report: each node that has reported did so after
/// all its children, within as many rounds as nodes have reported, and each
/// value has climbed only past nodes that have reported.
pub open spec fn order_ok(
    parents: Seq<Option<usize>>,
    sent: Seq<bool>,
    level: Seq<nat>,
    holder: Seq<int>,
    steps: Seq<nat>,
) -> bool {
    let n = parents.len() as int;
    let ns = (n - count_false(sent, n)) as nat;
    &&& level.len() == n
    &&& forall|e: int|
        0 <= e < n && #[trigger] sent[e] ==> 1 <= level[e] <= ns && reports_within(parents, e, ns)
    &&& forall|x: int|
        0 <= x < n && #[trigger] sent[x] ==> {
            &&& parents[x] is Some
            &&& ((parents[x]->0 as int) < n && sent[parents[x]->0 as int] ==> level[x] < level[parents[x]->0 as int])
        }
    &&& forall|j: int, s: nat|
        0 <= j < n && s < steps[j] ==> {
            &&& 0 <= #[trigger] climb(parents, j, s) < n
            &&& sent[climb(parents, j, s)]
            &&& level[climb(parents, j, s)] >= s + 1
        }
    &&& forall|j: int| 0 <= j < n && #[trigger] holder[j] == n ==> climb(parents, j, steps[j]) >= n
}

/// The value held by a node that has reported, carried one step further up,
/// has climbed past that node too.
pub(crate) proof fn lemma_climb_past(
    parents: Seq<Option<usize>>,
    counts: Seq<usize>,
    w0: Map<usize, usize>,
    init: Seq<int>,
    vals0: Seq<int>,
    sent0: Seq<bool>,
    del0: Seq<bool>,
    h0: Seq<int>,
    st0: Seq<nat>,
    level0: Seq<nat>,
    c: int,
    j: int,
)
    requires
        state_ok(parents, counts, w0, init, vals0, sent0, del0, h0, st0),
        order_ok(parents, sent0, level0, h0, st0),
        0 <= c < parents.len(),
        sent0[c],
        0 <= j < parents.len(),
        h0[j] == c,
    ensures
        climb(parents, j, st0[j]) == c,
        level0[c] >= st0[j] + 1,
{
    if st0[j] > 0 {
        let x = climb(parents, j, (st0[j] - 1) as nat);
        assert(0 <= x < parents.len() && sent0[x] && level0[x] >= st0[j]);
        assert(climb(parents, j, st0[j]) == step_up(parents, x));
        assert(parents[x] is Some);
    }
}

/// Delivering a report keeps the order of reports.
#[verifier::spinoff_prover]
#[verifier::rlimit(60)]
pub(crate) proof fn lemma_order_deliver<T: StatNum>(
    parents: Seq<Option<usize>>,
    counts: Seq<usize>,
    init: Seq<int>,
    w0: Map<usize, usize>,
    vals0: Seq<int>,
    sent0: Seq<bool>,
    sent1: Seq<bool>,
    del0: Seq<bool>,
    h0: Seq<int>,
    st0: Seq<nat>,
    level0: Seq<nat>,
    level1: Seq<nat>,
    pend: Seq<int>,
    ptasks: Seq<(usize, T)>,
    e: int,
    spread: bool,
)
    requires
        state_ok(parents, counts, w0, init, vals0, sent0, del0, h0, st0),
        tasks_ok(parents, init, h0, sent0, del0, pend, ptasks),
        order_ok(parents, sent0, level0, h0, st0),
        pend.len() > 0,
        e == ptasks[0].0 as int,
        0 <= e < parents.len(),
        spread == (parents[e] is Some && count_marked_children(parents, del0.update(pend[0], true), e, parents.len() as int) == counts[e]),
        sent1 == if spread { sent0.update(e, true) } else { sent0 },
        level1 == if spread {
            level0.update(e, (parents.len() - count_false(sent1, parents.len() as int)) as nat)
        } else {
            level0
        },
    ensures
        order_ok(parents, sent1, level1, moved(h0, pend[0], e), stepped(h0, st0, pend[0])),
{
    let n = parents.len() as int;
    let c = pend[0];
    let del1 = del0.update(c, true);
    let h1 = moved(h0, c, e);
    let st1 = stepped(h0, st0, c);
    let ns0 = (n - count_false(sent0, n)) as nat;
    let ns1 = (n - count_false(sent1, n)) as nat;
    lemma_unmarked_child(parents, del0, e, n, c);
    assert(counter_ok(parents, counts, del0, sent0, w0, e));
    assert(counter_ok(parents, counts, del0, sent0, w0, c));
    assert(c != e);
    assert(!sent0[e]);
    lemma_count_false_le(sent0, n);
    if spread {
        lemma_count_false_update(sent0, e, n);
    }
    assert(ns0 <= ns1);
    if spread {
        // every child of e has delivered its report
        assert forall|j: int| 0 <= j < n && has_parent(parents, j, e) implies #[trigger] del1[j] by {
            if !del1[j] {
                lemma_unmarked_child(parents, del1, e, n, j);
            }
        }
        assert forall|j: int| 0 <= j < n && has_parent(parents, j, e) implies #[trigger] reports_within(parents, j, ns0) by {
            assert(del1[j]);
            assert(sent0[j]);
        }
        lemma_children_report(parents, e, ns0, n as nat);
        assert(ns1 == ns0 + 1);
        assert(reports_within(parents, e, ns1));
    }
    assert forall|x: int| 0 <= x < n && #[trigger] sent1[x] implies 1 <= level1[x] <= ns1 && reports_within(parents, x, ns1) by {
        if x != e || !spread {
            lemma_reports_mono(parents, x, ns0, ns1);
        }
    }
    assert forall|x: int| 0 <= x < n && #[trigger] sent1[x] implies {
        &&& parents[x] is Some
        &&& ((parents[x]->0 as int) < n && sent1[parents[x]->0 as int] ==> level1[x] < level1[parents[x]->0 as int])
    } by {
        if spread && x == e {
            let p = parents[e]->0 as int;
            if p < n && sent1[p] {
                if p == e {
                    assert(has_parent(parents, e, e));
                    lemma_unmarked_child(parents, del1, e, n, e);
                }
                assert(sent0[p]);
                assert(counter_ok(parents, counts, del0, sent0, w0, p));
                lemma_unmarked_child(parents, del0, p, n, e);
            }
        } else if spread && (parents[x]->0 as int) == e {
            assert(has_parent(parents, x, e));
            if !del1[x] {
                lemma_unmarked_child(parents, del1, e, n, x);
            }
        }
    }
    assert forall|j: int, s: nat| 0 <= j < n && s < st1[j] implies {
        &&& 0 <= #[trigger] climb(parents, j, s) < n
        &&& sent1[climb(parents, j, s)]
        &&& level1[climb(parents, j, s)] >= s + 1
    } by {
        if h0[j] == c && s == st0[j] {
            lemma_climb_past(parents, counts, w0, init, vals0, sent0, del0, h0, st0, level0, c, j);
        } else {
            assert(s < st0[j]);
            assert(sent0[climb(parents, j, s)]);
        }
    }
    assert forall|j: int| 0 <= j < n && #[trigger] h1[j] == n implies climb(parents, j, st1[j]) >= n by {
        assert(h0[j] == n);
    }
}

/// Dropping a report keeps the order of reports.
pub(crate) proof fn lemma_order_lose<T: StatNum>(
    parents: Seq<Option<usize>>,
    counts: Seq<usize>,
    init: Seq<int>,
    w0: Map<usize, usize>,
    vals0: Seq<int>,
    sent0: Seq<bool>,
    del0: Seq<bool>,
    h0: Seq<int>,
    st0: Seq<nat>,
    level0: Seq<nat>,
    pend: Seq<int>,
    ptasks: Seq<(usize, T)>,
)
    requires
        state_ok(parents, counts, w0, init, vals0, sent0, del0, h0, st0),
        tasks_ok(parents, init, h0, sent0, del0, pend, ptasks),
        order_ok(parents, sent0, level0, h0, st0),
        pend.len() > 0,
        ptasks[0].0 as int >= parents.len(),
    ensures
        order_ok(parents, sent0, level0, moved(h0, pend[0], parents.len() as int), stepped(h0, st0, pend[0])),
{
    let n = parents.len() as int;
    let c = pend[0];
    let h1 = moved(h0, c, n);
    let st1 = stepped(h0, st0, c);
    assert forall|j: int, s: nat| 0 <= j < n && s < st1[j] implies {
        &&& 0 <= #[trigger] climb(parents, j, s) < n
        &&& sent0[climb(parents, j, s)]
        &&& level0[climb(parents, j, s)] >= s + 1
    } by {
        if h0[j] == c && s == st0[j] {
            lemma_climb_past(parents, counts, w0, init, vals0, sent0, del0, h0, st0, level0, c, j);
        } else {
            assert(s < st0[j]);
        }
    }
    assert forall|j: int| 0 <= j < n && #[trigger] h1[j] == n implies climb(parents, j, st1[j]) >= n by {
        if h0[j] == c {
            lemma_climb_past(parents, counts, w0, init, vals0, sent0, del0, h0, st0, level0, c, j);
            assert(climb(parents, j, st1[j]) == step_up(parents, c));
        }
    }
}

/// Once the propagation is over, in a forest every node with a parent has
/// reported.
pub(crate) proof fn lemma_all_sent(
    parents: Seq<Option<usize>>,
    counts: Seq<usize>,
    delivered: Seq<bool>,
    sent: Seq<bool>,
    waiting: Map<usize, usize>,
    rank: Seq<nat>,
    v: nat,
)
    requires
        is_rank(parents, rank),
        counts.len() == parents.len(),
        sent.len() == parents.len(),
        delivered.len() == parents.len(),
        forall|e: int| 0 <= e < parents.len() ==> #[trigger] counts[e] == count_children(parents, e, parents.len() as int),
        forall|e: int| 0 <= e < parents.len() ==> #[trigger] counter_ok(parents, counts, delivered, sent, waiting, e),
        forall|e: int| 0 <= e < parents.len() && #[trigger] sent[e] ==> delivered[e],
    ensures
        forall|e: int| 0 <= e < parents.len() && rank[e] <= v && #[trigger] parents[e] is Some ==> sent[e],
    decreases v,
{
    let n = parents.len() as int;
    if v > 0 {
        lemma_all_sent(parents, counts, delivered, sent, waiting, rank, (v - 1) as nat);
    }
    assert forall|e: int| 0 <= e < n && rank[e] <= v && #[trigger] parents[e] is Some implies sent[e] by {
        assert forall|j: int| 0 <= j < n && has_parent(parents, j, e) implies #[trigger] delivered[j] by {
            assert(parents[j] is Some);
            assert(rank[j] < rank[e]);
        }
        lemma_all_marked(parents, delivered, e, n);
        assert(counter_ok(parents, counts, delivered, sent, waiting, e));
    }
}

/// A leaf with a parent reporting first keeps the order of reports.
pub(crate) proof fn lemma_leaf_order(
    parents: Seq<Option<usize>>,
    counts: Seq<usize>,
    sent0: Seq<bool>,
    level0: Seq<nat>,
    holder0: Seq<int>,
    steps0: Seq<nat>,
    i: int,
)
    requires
        order_ok(parents, sent0, level0, holder0, steps0),
        holder0.len() == parents.len(),
        forall|j: int| 0 <= j < parents.len() ==> #[trigger] holder0[j] == j,
        steps0.len() == parents.len(),
        forall|j: int| 0 <= j < parents.len() ==> #[trigger] steps0[j] == 0,
        counts.len() == parents.len(),
        sent0.len() == parents.len(),
        forall|e: int| 0 <= e < parents.len() ==> #[trigger] counts[e] == count_children(parents, e, parents.len() as int),
        forall|e: int| 0 <= e < parents.len() && #[trigger] sent0[e] ==> parents[e] is Some && counts[e] == 0,
        0 <= i < parents.len(),
        !sent0[i],
        parents[i] is Some,
        counts[i] == 0,
    ensures
        count_false(sent0.update(i, true), parents.len() as int) + 1 == count_false(sent0, parents.len() as int),
        order_ok(
            parents,
            sent0.update(i, true),
            level0.update(i, (parents.len() - count_false(sent0.update(i, true), parents.len() as int)) as nat),
            holder0,
            steps0,
        ),
{
    let n = parents.len() as int;
    let none: Seq<bool> = Seq::new(n as nat, |x: int| false);
    let sent1 = sent0.update(i, true);
    lemma_count_false_update(sent0, i, n);
    lemma_count_false_le(sent0, n);
    let ns0 = (n - count_false(sent0, n)) as nat;
    let ns1 = (n - count_false(sent1, n)) as nat;
    let level1 = level0.update(i, ns1);
    // a node without children has none to wait for
    assert forall|e: int, x: int| 0 <= e < n && 0 <= x < n && counts[e] == 0 implies !has_parent(parents, x, e) by {
        if has_parent(parents, x, e) {
            lemma_unmarked_child(parents, none, e, n, x);
        }
    }
    lemma_children_report(parents, i, (ns1 - 1) as nat, n as nat);
    assert(reports_within(parents, i, ns1));
    assert forall|x: int| 0 <= x < n && #[trigger] sent1[x] implies 1 <= level1[x] <= ns1 && reports_within(parents, x, ns1) by {
        if x != i {
            lemma_reports_mono(parents, x, ns0, ns1);
        }
    }
    assert forall|x: int| 0 <= x < n && #[trigger] sent1[x] implies {
        &&& parents[x] is Some
        &&& ((parents[x]->0 as int) < n && sent1[parents[x]->0 as int] ==> level1[x] < level1[parents[x]->0 as int])
    } by {
        if (parents[x]->0 as int) < n && sent1[parents[x]->0 as int] {
            let p = parents[x]->0 as int;
            assert(has_parent(parents, x, p));
            assert(counts[p] == 0);
        }
    }
}

/// Once no report is on its way, every node that reports within `k` rounds
/// has reported.
pub(crate) proof fn lemma_reported(
    parents: Seq<Option<usize>>,
    counts: Seq<usize>,
    delivered: Seq<bool>,
    sent: Seq<bool>,
    waiting: Map<usize, usize>,
    e: int,
    k: nat,
)
    requires
        counts.len() == parents.len(),
        sent.len() == parents.len(),
        delivered.len() == parents.len(),
        forall|x: int| 0 <= x < parents.len() ==> #[trigger] counts[x] == count_children(parents, x, parents.len() as int),
        forall|x: int| 0 <= x < parents.len() ==> #[trigger] counter_ok(parents, counts, delivered, sent, waiting, x),
        forall|x: int| 0 <= x < parents.len() && #[trigger] sent[x] ==> delivered[x],
        reports_within(parents, e, k),
    ensures
        sent[e],
    decreases k,
{
    let n = parents.len() as int;
    lemma_children_report(parents, e, (k - 1) as nat, n as nat);
    assert forall|j: int| 0 <= j < n && has_parent(parents, j, e) implies #[trigger] delivered[j] by {
        lemma_reported(parents, counts, delivered, sent, waiting, j, (k - 1) as nat);
    }
    lemma_all_marked(parents, delivered, e, n);
    assert(counter_ok(parents, counts, delivered, sent, waiting, e));
}

/// What the state says once no report is on its way.
pub(crate) proof fn lemma_finish(
    parents: Seq<Option<usize>>,
    counts: Seq<usize>,
    waiting: Map<usize, usize>,
    init: Seq<int>,
    vals: Seq<int>,
    sent: Seq<bool>,
    delivered: Seq<bool>,
    holder: Seq<int>,
    steps: Seq<nat>,
    level: Seq<nat>,
)
    requires
        state_ok(parents, counts, waiting, init, vals, sent, delivered, holder, steps),
        order_ok(parents, sent, level, holder, steps),
        forall|e: int| 0 <= e < parents.len() && #[trigger] sent[e] ==> delivered[e],
    ensures
        forall|e: int|
            0 <= e < parents.len() ==> #[trigger] vals[e] == if reports(parents, e) {
                0
            } else {
                held_sum(init, destinations(parents), e, parents.len() as int)
            },
        parents_valid(parents) ==> seq_total(vals, parents.len() as int) == seq_total(init, parents.len() as int),
        is_forest(parents) ==> forall|e: int|
            0 <= e < parents.len() ==> #[trigger] vals[e] == if parents[e] is None {
                tree_total(parents, init, e)
            } else {
                0
            },
{
    let n = parents.len() as int;
    assert forall|e: int| 0 <= e < n implies #[trigger] vals[e] == held_sum(init, holder, e, n) by {
        if sent[e] {
            assert forall|j: int| 0 <= j < n implies #[trigger] holder[j] != e by {
                if holder[j] == e {
                    assert(holder[j] < n);
                }
            }
            lemma_held_none(init, holder, e, n);
        }
    }
    // the nodes that have reported are those that report at all
    lemma_count_false_le(sent, n);
    assert forall|e: int| 0 <= e < n implies #[trigger] sent[e] == reports(parents, e) by {
        if sent[e] {
            lemma_reports_mono(parents, e, (n - count_false(sent, n)) as nat, n as nat);
        } else if reports(parents, e) {
            lemma_reported(parents, counts, delivered, sent, waiting, e, n as nat);
        }
    }
    // each value ends at its destination
    assert forall|j: int| 0 <= j < n implies (#[trigger] holder[j] == n && destination(parents, j, n as nat) >= n)
        || holder[j] == destination(parents, j, n as nat) by {
        assert forall|s: nat| s < steps[j] implies 0 <= #[trigger] climb(parents, j, s) < n && reports(parents, climb(parents, j, s)) by {
            assert(sent[climb(parents, j, s)]);
        }
        if steps[j] > 0 {
            assert(level[climb(parents, j, (steps[j] - 1) as nat)] >= steps[j]);
            assert(sent[climb(parents, j, (steps[j] - 1) as nat)]);
        }
        if holder[j] < n {
            assert(!delivered[holder[j]]);
            assert(climb(parents, j, steps[j]) == holder[j]);
            assert(!sent[holder[j]]);
            assert(sent[holder[j]] == reports(parents, holder[j]));
        } else {
            assert(holder[j] == n);
            assert(climb(parents, j, steps[j]) >= n);
        }
        lemma_destination(parents, j, steps[j], n as nat);
    }
    assert forall|e: int| 0 <= e < n implies #[trigger] held_sum(init, holder, e, n) == held_sum(init, destinations(parents), e, n) by {
        lemma_held_same(init, holder, destinations(parents), e, n);
    }
    if parents_valid(parents) {
        lemma_total_pointwise(vals, init, holder, n, n);
        lemma_held_all_below(init, holder, n, n);
        lemma_held_below_total(init, holder, n, n);
    }
    if is_forest(parents) {
        lemma_forest_valid(parents);
        let rank = choose|rank: Seq<nat>| is_rank(parents, rank);
        lemma_all_sent(parents, counts, delivered, sent, waiting, rank, n as nat);
        assert forall|j: int| 0 <= j < n implies #[trigger] holder[j] == roots(parents)[j] by {
            let h = holder[j];
            assert(h < n);
            assert(!delivered[h]);
            assert(parents[h] is None) by {
                if parents[h] is Some {
                    assert(rank[h] < n);
                    assert(sent[h]);
                }
            }
            lemma_root_of(parents, j, steps[j]);
        }
        assert(holder =~= roots(parents));
    }
}

/// The steps that a report adds to the climb of each value it carries.
pub open spec fn stepped(holder: Seq<int>, steps: Seq<nat>, c: int) -> Seq<nat> {
    Seq::new(steps.len(), |j: int| if holder[j] == c { steps[j] + 1 } else { steps[j] })
}

/// Delivering the first report on its way, sent by `c`, to its parent `e`.
pub(crate) proof fn lemma_deliver<T: StatNum>(
    parents: Seq<Option<usize>>,
    counts: Seq<usize>,
    init: Seq<int>,
    w0: Map<usize, usize>,
    w1: Map<usize, usize>,
    vals0: Seq<int>,
    vals1: Seq<int>,
    sent0: Seq<bool>,
    sent1: Seq<bool>,
    del0: Seq<bool>,
    h0: Seq<int>,
    st0: Seq<nat>,
    pend: Seq<int>,
    pend1: Seq<int>,
    ptasks: Seq<(usize, T)>,
    ptasks1: Seq<(usize, T)>,
    e: int,
    spread: bool,
    up: T,
)
    requires
        state_ok(parents, counts, w0, init, vals0, sent0, del0, h0, st0),
        tasks_ok(parents, init, h0, sent0, del0, pend, ptasks),
        pend.len() > 0,
        parents.len() <= usize::MAX,
        e == ptasks[0].0 as int,
        0 <= e < parents.len(),
        spread == (parents[e] is Some && count_marked_children(parents, del0.update(pend[0], true), e, parents.len() as int) == counts[e]),
        w1 == if parents[e] is None {
            w0
        } else if spread {
            w0.remove(e as usize)
        } else {
            w0.insert(e as usize, (counts[e] - count_marked_children(parents, del0.update(pend[0], true), e, parents.len() as int)) as usize)
        },
        sent1 == if spread { sent0.update(e, true) } else { sent0 },
        vals1 == if spread { vals0.update(e, 0) } else { vals0.update(e, vals0[e] + ptasks[0].1.as_int()) },
        up.as_int() == vals0[e] + ptasks[0].1.as_int(),
        pend1 == if spread { pend.drop_first().push(e) } else { pend.drop_first() },
        ptasks1 == if spread { ptasks.drop_first().push((parents[e]->0, up)) } else { ptasks.drop_first() },
    ensures
        state_ok(parents, counts, w1, init, vals1, sent1, del0.update(pend[0], true), moved(h0, pend[0], e), stepped(h0, st0, pend[0])),
        tasks_ok(parents, init, moved(h0, pend[0], e), sent1, del0.update(pend[0], true), pend1, ptasks1),
{
    let n = parents.len() as int;
    let c = pend[0];
    let del1 = del0.update(c, true);
    let h1 = moved(h0, c, e);
    let st1 = stepped(h0, st0, c);
    lemma_unmarked_child(parents, del0, e, n, c);
    assert(counter_ok(parents, counts, del0, sent0, w0, e));
    assert(counter_ok(parents, counts, del0, sent0, w0, c));
    assert(c != e);
    assert(!sent0[e]);
    assert(!del0[e]);
    assert forall|x: int| 0 <= x < n implies #[trigger] held_sum(init, h1, x, n) == if x == e {
        held_sum(init, h0, e, n) + held_sum(init, h0, c, n)
    } else if x == c {
        0
    } else {
        held_sum(init, h0, x, n)
    } by {
        lemma_held_move(init, h0, c, e, x, n);
    }
    assert forall|x: int| 0 <= x < n implies #[trigger] count_marked_children(parents, del1, x, n) == count_marked_children(parents, del0, x, n) + if has_parent(parents, c, x) { 1nat } else { 0nat } by {
        lemma_mark_one(parents, del0, c, x, n);
    }
    // the state
    assert forall|x: int| 0 <= x < n implies #[trigger] counter_ok(parents, counts, del1, sent1, w1, x) by {
        assert(counter_ok(parents, counts, del0, sent0, w0, x));
        if x != e {
            assert(!has_parent(parents, c, x));
            assert(x as usize != e as usize);
            assert(w1.contains_key(x as usize) == w0.contains_key(x as usize));
            assert(sent1[x] == sent0[x]);
            if w0.contains_key(x as usize) {
                assert(w1[x as usize] == w0[x as usize]);
            }
        } else {
            lemma_marked_le(parents, del1, e, n);
            assert(has_parent(parents, c, e));
        }
    }
    assert forall|j: int| 0 <= j < n && #[trigger] h1[j] < n implies !del1[h1[j]] by {
    }
    assert forall|j: int| 0 <= j < n && #[trigger] h1[j] < n implies h1[j] == climb(parents, j, st1[j]) by {
        if h0[j] == c {
            assert(climb(parents, j, st1[j]) == step_up(parents, climb(parents, j, st0[j])));
        }
    }
    assert forall|e2: int| 0 <= e2 < n && !#[trigger] sent1[e2] implies vals1[e2] == held_sum(init, h1, e2, n) by {
    }
    assert(state_ok(parents, counts, w1, init, vals1, sent1, del1, h1, st1));
    // the reports
    assert forall|i: int| 0 <= i < pend1.len() implies {
        &&& 0 <= #[trigger] pend1[i] < n
        &&& sent1[pend1[i]]
        &&& !del1[pend1[i]]
        &&& parents[pend1[i]] == Some(ptasks1[i].0)
        &&& ptasks1[i].1.as_int() == held_sum(init, h1, pend1[i], n)
    } by {
        if i < pend.len() - 1 {
            assert(pend1[i] == pend[i + 1]);
            assert(ptasks1[i] == ptasks[i + 1]);
            assert(pend[i + 1] != pend[0]);
            assert(sent0[pend[i + 1]]);
        }
    }
    assert forall|x: int| 0 <= x < n && #[trigger] sent1[x] && !del1[x] implies pend1.contains(x) by {
        if x == e && spread {
            assert(pend1[pend1.len() - 1] == x);
        } else {
            assert(pend.contains(x));
            let i = choose|i: int| 0 <= i < pend.len() && pend[i] == x;
            assert(i != 0);
            assert(pend1[i - 1] == x);
        }
    }
    assert(pend1.no_duplicates()) by {
        assert forall|i: int, j: int| 0 <= i < pend1.len() && 0 <= j < pend1.len() && i != j implies pend1[i] != pend1[j] by {
            if i < pend.len() - 1 && j < pend.len() - 1 {
                assert(pend[i + 1] != pend[j + 1]);
            } else if i < pend.len() - 1 {
                assert(sent0[pend[i + 1]]);
            } else {
                assert(sent0[pend[j + 1]]);
            }
        }
    }
}

/// Dropping the first report on its way, addressed to a parent that is not an
/// entity: what it carries is lost.
pub(crate) proof fn lemma_lose<T: StatNum>(
    parents: Seq<Option<usize>>,
    counts: Seq<usize>,
    init: Seq<int>,
    w0: Map<usize, usize>,
    vals0: Seq<int>,
    sent0: Seq<bool>,
    del0: Seq<bool>,
    h0: Seq<int>,
    st0: Seq<nat>,
    pend: Seq<int>,
    ptasks: Seq<(usize, T)>,
)
    requires
        state_ok(parents, counts, w0, init, vals0, sent0, del0, h0, st0),
        tasks_ok(parents, init, h0, sent0, del0, pend, ptasks),
        pend.len() > 0,
        ptasks[0].0 as int >= parents.len(),
    ensures
        !parents_valid(parents),
        state_ok(parents, counts, w0, init, vals0, sent0, del0.update(pend[0], true), moved(h0, pend[0], parents.len() as int), stepped(h0, st0, pend[0])),
        tasks_ok(parents, init, moved(h0, pend[0], parents.len() as int), sent0, del0.update(pend[0], true), pend.drop_first(), ptasks.drop_first()),
{
    let n = parents.len() as int;
    let c = pend[0];
    let del1 = del0.update(c, true);
    let h1 = moved(h0, c, n);
    assert(parents[c] is Some);
    assert(!parents_valid(parents));
    assert forall|x: int| 0 <= x < n implies #[trigger] held_sum(init, h1, x, n) == if x == c {
        0
    } else {
        held_sum(init, h0, x, n)
    } by {
        lemma_held_move(init, h0, c, n, x, n);
    }
    assert forall|x: int| 0 <= x < n implies #[trigger] count_marked_children(parents, del1, x, n) == count_marked_children(parents, del0, x, n) by {
        lemma_mark_one(parents, del0, c, x, n);
        assert(!has_parent(parents, c, x));
    }
    assert forall|x: int| 0 <= x < n implies #[trigger] counter_ok(parents, counts, del1, sent0, w0, x) by {
        assert(counter_ok(parents, counts, del0, sent0, w0, x));
    }
    assert forall|e2: int| 0 <= e2 < n && !#[trigger] sent0[e2] implies vals0[e2] == held_sum(init, h1, e2, n) by {
    }
    let st1 = stepped(h0, st0, c);
    assert forall|j: int| 0 <= j < n && #[trigger] h1[j] < n implies h1[j] == climb(parents, j, st1[j]) by {
        assert(h0[j] != c);
    }
    assert(state_ok(parents, counts, w0, init, vals0, sent0, del1, h1, st1));
    let pend1 = pend.drop_first();
    let ptasks1 = ptasks.drop_first();
    assert forall|i: int| 0 <= i < pend1.len() implies {
        &&& 0 <= #[trigger] pend1[i] < n
        &&& sent0[pend1[i]]
        &&& !del1[pend1[i]]
        &&& parents[pend1[i]] == Some(ptasks1[i].0)
        &&& ptasks1[i].1.as_int() == held_sum(init, h1, pend1[i], n)
    } by {
        assert(pend1[i] == pend[i + 1]);
        assert(ptasks1[i] == ptasks[i + 1]);
        assert(pend[i + 1] != pend[0]);
    }
    assert forall|x: int| 0 <= x < n && #[trigger] sent0[x] && !del1[x] implies pend1.contains(x) by {
        assert(pend.contains(x));
        let i = choose|i: int| 0 <= i < pend.len() && pend[i] == x;
        assert(i != 0);
        assert(pend1[i - 1] == x);
    }
    assert(pend1.no_duplicates()) by {
        assert forall|i: int, j: int| 0 <= i < pend1.len() && 0 <= j < pend1.len() && i != j implies pend1[i] != pend1[j] by {
            assert(pend[i + 1] != pend[j + 1]);
        }
    }
}

/// Every value that delivering the first report brings to its parent comes
/// from an entity that reaches that parent.
pub(crate) proof fn lemma_reach_holders<T: StatNum>(
    parents: Seq<Option<usize>>,
    counts: Seq<usize>,
    w0: Map<usize, usize>,
    init: Seq<int>,
    vals0: Seq<int>,
    sent0: Seq<bool>,
    del0: Seq<bool>,
    h0: Seq<int>,
    st0: Seq<nat>,
    level0: Seq<nat>,
    pend: Seq<int>,
    ptasks: Seq<(usize, T)>,
)
    requires
        state_ok(parents, counts, w0, init, vals0, sent0, del0, h0, st0),
        order_ok(parents, sent0, level0, h0, st0),
        tasks_ok(parents, init, h0, sent0, del0, pend, ptasks),
        pend.len() > 0,
        (ptasks[0].0 as int) < parents.len(),
    ensures
        forall|j: int|
            0 <= j < parents.len() && #[trigger] moved(h0, pend[0], ptasks[0].0 as int)[j] == ptasks[0].0 as int
                ==> reaches(parents, j, ptasks[0].0 as int),
{
    let n = parents.len() as int;
    let c = pend[0];
    let e = ptasks[0].0 as int;
    lemma_count_false_le(sent0, n);
    assert forall|j: int| 0 <= j < n && #[trigger] moved(h0, c, e)[j] == e implies reaches(parents, j, e) by {
        if h0[j] == c {
            lemma_climb_past(parents, counts, w0, init, vals0, sent0, del0, h0, st0, level0, c, j);
            assert(climb(parents, j, st0[j] + 1) == step_up(parents, c));
            assert(climb(parents, j, (st0[j] + 1) as nat) == e);
        } else {
            assert(h0[j] == e);
            assert(climb(parents, j, st0[j]) == e);
            if st0[j] > 0 {
                assert(sent0[climb(parents, j, (st0[j] - 1) as nat)]);
            }
        }
    }
}

} // verus!
