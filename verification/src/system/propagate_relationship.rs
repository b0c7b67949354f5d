//! Moving changes along a parent relation over the entities `0..n`, where
//! `parents[j]` names the parent of entity `j`, if it has one.
use vstd::prelude::*;
use dashmap::DashMap;
use crate::stat_num::{StatNum, Widen, fits};
use crate::stat_component::change::Change;
use crate::system::report_state::{
    lemma_reach_holders,
    state_ok, tasks_ok, order_ok, counter_ok, stepped, lemma_deliver, lemma_lose, lemma_order_deliver,
    lemma_order_lose, lemma_leaf_order, lemma_finish,
};
use crate::system::descent_state::{
    descent_ok, descent_partial, parent_expanded, fuel_of, lemma_visit, lemma_push_child,
    lemma_partial_done, lemma_descent_done,
};
use crate::system::propagation_model::{
    count_children, count_marked_children, held_sum, parents_valid, is_forest,
    forest_result, seq_total, count_false, own_holders, moved,
    lemma_count_children_le, lemma_unmarked_child, lemma_none_marked, lemma_mark_one,
    lemma_count_false_update, lemma_held_move, lemma_held_own, has_parent, roots, lemma_marked_le, lemma_count_false_all, reports, destination, destinations, reach_totals_fit, reach_pos, reach_neg, lemma_held_reach, carried_value, lemma_reach_bounded,
};

verus! {

#[verifier::external_type_specification]
#[verifier::external_body]
#[verifier::reject_recursive_types(K)]
#[verifier::reject_recursive_types(V)]
#[verifier::reject_recursive_types(S)]
pub struct ExDashMap<K, V, S>(DashMap<K, V, S>);

/// A map from each entity to the number of reports it still waits for.
pub type WaitingMap = DashMap<usize, usize>;

/// What a map from entity to the number of reports it still waits for holds.
pub uninterp spec fn waiting_counts(m: DashMap<usize, usize>) -> Map<usize, usize>;

/// `DashMap::new`: a map with nothing in it.
#[verifier::external_body]
fn waiting_new() -> (r: WaitingMap)
    ensures
        waiting_counts(r).dom() == Set::<usize>::empty(),
{
    DashMap::new()
}

/// `DashMap::get`, copying the value out: the value stored under `k`, if any.
#[verifier::external_body]
fn waiting_get(m: &WaitingMap, k: usize) -> (r: Option<usize>)
    ensures
        r == if waiting_counts(*m).contains_key(k) {
            Some(waiting_counts(*m)[k])
        } else {
            None
        },
{
    match m.get(&k) {
        Some(v) => Some(*v),
        None => None,
    }
}

/// `DashMap::insert`: stores `v` under `k`, in place of what was there.
#[verifier::external_body]
fn waiting_insert(m: &mut WaitingMap, k: usize, v: usize)
    ensures
        waiting_counts(*final(m)) == waiting_counts(*old(m)).insert(k, v),
{
    m.insert(k, v);
}

/// `DashMap::remove`: takes the entry under `k` out, if there is one.
#[verifier::external_body]
fn waiting_remove(m: &mut WaitingMap, k: usize)
    ensures
        waiting_counts(*final(m)) == waiting_counts(*old(m)).remove(k),
{
    m.remove(&k);
}

/// A value that carrying changes up a hierarchy leaves at some entity does
/// not fit the number type of the changes.
#[derive(Debug, Clone, Copy, PartialEq, Eq)]
pub struct Overflow;

/// The changes carried up a hierarchy: what a node takes from its change and
/// hands to its parent.
#[derive(Clone, Copy, Debug)]
pub struct PropagateChangeLeafToRoot<T>(pub T);

impl<T: StatNum> PropagateChangeLeafToRoot<T> {
    /// Takes the whole change of a node, leaving zero there.
    pub fn from_data(values: &mut Change<T>) -> (r: Self)
        ensures
            r.0 == old(values).0,
            final(values).0.as_int() == 0,
    {
        PropagateChangeLeafToRoot(values.get_and_reset())
    }

    /// Adds what was carried to the change of a node.
    pub fn apply_to_data(self, values: &mut Change<T>)
        requires
            fits::<T>(old(values).0.as_int() + self.0.as_int()),
        ensures
            final(values).0.as_int() == old(values).0.as_int() + self.0.as_int(),
    {
        values.add_change(self.0);
    }
}

/// The integers that a sequence of changes holds.
pub open spec fn change_ints<T: StatNum>(s: Seq<Change<T>>) -> Seq<int> {
    Seq::new(s.len(), |i: int| s[i].0.as_int())
}

/// The number of children of each entity.
fn child_counts(parents: &Vec<Option<usize>>) -> (counts: Vec<usize>)
    ensures
        counts.len() == parents.len(),
        forall|e: int|
            0 <= e < parents.len() ==> #[trigger] counts[e] == count_children(
                parents@,
                e,
                parents.len() as int,
            ),
{
    let n: usize = parents.len();
    let mut counts: Vec<usize> = Vec::new();
    let mut i: usize = 0;
    while i < n
        invariant
            counts.len() == i,
            i <= n,
            forall|e: int| 0 <= e < i ==> #[trigger] counts[e] == 0,
        decreases n - i,
    {
        counts.push(0);
        i = i + 1;
    }
    let mut j: usize = 0;
    while j < n
        invariant
            n == parents.len(),
            counts.len() == n,
            j <= n,
            forall|e: int| 0 <= e < n ==> #[trigger] counts[e] == count_children(parents@, e, j as int),
        decreases n - j,
    {
        if let Some(p) = parents[j] {
            if p < n {
                proof {
                    lemma_count_children_le(parents@, p as int, j as int);
                }
                let c: usize = counts[p] + 1;
                counts.set(p, c);
            }
        }
        j = j + 1;
    }
    counts
}

/// Carries the changes of a hierarchy up to its roots.
///
/// Every node with a parent and no children hands its whole change to its
/// parent. A node with children adds up what its children hand it; once all of
/// them have reported, a node with a parent hands its whole change on in turn.
/// Roots keep what reaches them. A report addressed to a parent that is not an
/// entity is lost.
///
/// Each node that reports ends with zero, and each other node with the sum of
/// the changes whose destination it is. In a forest, each root ends up with
/// the sum of the changes of its whole tree and every other node with zero.
/// Whenever every parent named is an entity, the total of all changes is kept.
///
/// The sums are formed in 128 bits, where none of them overflows. The call
/// fails with `Overflow`, and leaves the changes as they were, exactly when a
/// value it would leave at some entity does not fit `T`.
pub fn propagate_leaf_to_root<T: Widen>(parents: &Vec<Option<usize>>, changes: &mut Vec<Change<T>>) -> (r: Result<
    (),
    Overflow,
>)
    requires
        old(changes).len() == parents.len(),
    ensures
        final(changes).len() == old(changes).len(),
        r is Ok <==> forall|e: int|
            0 <= e < parents.len() ==> fits::<T>(#[trigger] carried_value(parents@, change_ints(old(changes)@), e)),
        r is Ok ==> forall|e: int|
            0 <= e < parents.len() ==> #[trigger] change_ints(final(changes)@)[e] == carried_value(
                parents@,
                change_ints(old(changes)@),
                e,
            ),
        r is Ok && parents_valid(parents@) ==> seq_total(change_ints(final(changes)@), parents.len() as int)
            == seq_total(change_ints(old(changes)@), parents.len() as int),
        r is Ok && is_forest(parents@) ==> change_ints(final(changes)@) == forest_result(
            parents@,
            change_ints(old(changes)@),
        ),
        r is Err ==> final(changes)@ == old(changes)@,
{
    let n: usize = parents.len();
    let ghost init = change_ints(changes@);
    let mut wide: Vec<Change<i128>> = Vec::new();
    let mut i: usize = 0;
    while i < n
        invariant
            n == parents.len(),
            changes.len() == n,
            changes@ == old(changes)@,
            init == change_ints(changes@),
            wide.len() == i,
            i <= n,
            forall|k: int| 0 <= k < i ==> (#[trigger] wide@[k]).0 as int == init[k],
        decreases n - i,
    {
        wide.push(Change(changes[i].0.widen()));
        i = i + 1;
    }
    proof {
        assert(change_ints(wide@) =~= init);
        assert forall|k: int| 0 <= k < n implies -0x8000_0000_0000_0000 <= #[trigger] init[k] <= 0x7fff_ffff_ffff_ffff by {
            T::lemma_within_64_bits(changes@[k].0);
        }
        assert forall|e: int| 0 <= e < n implies fits::<i128>(#[trigger] reach_pos(parents@, init, e, n as int))
            && fits::<i128>(reach_neg(parents@, init, e, n as int)) by {
            lemma_reach_bounded(parents@, init, e, n as int);
        }
    }
    carry_up(parents, &mut wide);
    let mut out: Vec<Change<T>> = Vec::new();
    let mut j: usize = 0;
    while j < n
        invariant
            n == parents.len(),
            changes@ == old(changes)@,
            init == change_ints(old(changes)@),
            wide.len() == n,
            forall|e: int| 0 <= e < n ==> #[trigger] change_ints(wide@)[e] == carried_value(parents@, init, e),
            out.len() == j,
            j <= n,
            forall|k: int| 0 <= k < j ==> (#[trigger] out@[k]).0.as_int() == carried_value(parents@, init, k),
        decreases n - j,
    {
        match T::narrow(wide[j].0) {
            Some(v) => {
                proof {
                    assert(change_ints(wide@)[j as int] == carried_value(parents@, init, j as int));
                }
                out.push(Change(v));
            },
            None => {
                proof {
                    assert(change_ints(wide@)[j as int] == carried_value(parents@, init, j as int));
                }
                return Err(Overflow);
            },
        }
        j = j + 1;
    }
    proof {
        assert forall|e: int| 0 <= e < n implies fits::<T>(#[trigger] carried_value(parents@, init, e)) by {
            T::lemma_bounds(out@[e].0);
        }
        assert(change_ints(out@) =~= change_ints(wide@));
    }
    *changes = out;
    Ok(())
}

/// Carries the changes of a hierarchy up to its roots, in a number type wide
/// enough that no sum formed on the way overflows (see `reach_totals_fit`).
fn carry_up<T: StatNum>(parents: &Vec<Option<usize>>, changes: &mut Vec<Change<T>>)
    requires
        old(changes).len() == parents.len(),
        reach_totals_fit::<T>(parents@, change_ints(old(changes)@)),
    ensures
        final(changes).len() == old(changes).len(),
        forall|e: int|
            0 <= e < parents.len() ==> #[trigger] change_ints(final(changes)@)[e] == carried_value(
                parents@,
                change_ints(old(changes)@),
                e,
            ),
        parents_valid(parents@) ==> seq_total(change_ints(final(changes)@), parents.len() as int)
            == seq_total(change_ints(old(changes)@), parents.len() as int),
        is_forest(parents@) ==> change_ints(final(changes)@) == forest_result(parents@, change_ints(old(changes)@)),
{
    let n: usize = parents.len();
    let counts = child_counts(parents);
    let mut waiting = waiting_new();
    let ghost init = change_ints(changes@);
    let ghost mut sent: Seq<bool> = Seq::new(n as nat, |i: int| false);
    let ghost delivered0: Seq<bool> = Seq::new(n as nat, |i: int| false);
    let ghost holder0: Seq<int> = own_holders(n as nat);
    let ghost steps0: Seq<nat> = Seq::new(n as nat, |i: int| 0nat);
    let ghost mut senders: Seq<int> = Seq::empty();
    let ghost mut level: Seq<nat> = Seq::new(n as nat, |i: int| 0nat);
    let mut tasks: Vec<(usize, T)> = Vec::new();
    // the leaves report first
    let mut i: usize = 0;
    while i < n
        invariant
            n == parents.len(),
            changes.len() == n,
            i <= n,
            counts.len() == n,
            forall|e: int| 0 <= e < n ==> #[trigger] counts[e] == count_children(parents@, e, n as int),
            init == change_ints(old(changes)@),
            init.len() == n,
            sent.len() == n,
            waiting_counts(waiting).dom() == Set::<usize>::empty(),
            forall|e: int| 0 <= e < i ==> #[trigger] sent[e] == (parents@[e] is Some && counts[e] == 0),
            forall|e: int| i <= e < n ==> !#[trigger] sent[e],
            forall|e: int| 0 <= e < n ==> #[trigger] change_ints(changes@)[e] == if sent[e] { 0 } else { init[e] },
            senders.len() == tasks.len(),
            senders.no_duplicates(),
            forall|k: int| 0 <= k < senders.len() ==> {
                &&& 0 <= #[trigger] senders[k] < i
                &&& sent[senders[k]]
                &&& parents@[senders[k]] == Some(tasks@[k].0)
                &&& tasks@[k].1.as_int() == init[senders[k]]
            },
            forall|e: int| 0 <= e < i && #[trigger] sent[e] ==> senders.contains(e),
            holder0 == own_holders(n as nat),
            steps0.len() == n,
            forall|j: int| 0 <= j < n ==> #[trigger] steps0[j] == 0,
            order_ok(parents@, sent, level, holder0, steps0),
        decreases n - i,
    {
        let ghost pre = changes@;
        let ghost pre_sent = sent;
        let ghost pre_senders = senders;
        assert(change_ints(pre)[i as int] == init[i as int]);
        if let Some(p) = parents[i] {
            if counts[i] == 0 {
                let mut c = changes[i];
                let t = PropagateChangeLeafToRoot::from_data(&mut c);
                changes.set(i, c);
                tasks.push((p, t.0));
                proof {
                    lemma_leaf_order(parents@, counts@, sent, level, holder0, steps0, i as int);
                    level = level.update(i as int, (n - count_false(sent.update(i as int, true), n as int)) as nat);
                    sent = sent.update(i as int, true);
                    senders = senders.push(i as int);
                    assert(senders[senders.len() - 1] == i as int);
                }
            }
        }
        proof {
            assert forall|e: int| 0 <= e < n implies #[trigger] change_ints(changes@)[e] == if sent[e] { 0 } else { init[e] } by {
                assert(change_ints(pre)[e] == if pre_sent[e] { 0 } else { init[e] });
                if e != i {
                    assert(changes@[e] == pre[e]);
                }
            }
            assert forall|e: int| 0 <= e <= i && #[trigger] sent[e] implies senders.contains(e) by {
                if e < i {
                    assert(pre_senders.contains(e));
                    let k = choose|k: int| 0 <= k < pre_senders.len() && pre_senders[k] == e;
                    assert(senders[k] == e);
                } else {
                    assert(senders[senders.len() - 1] == e);
                }
            }
        }
        i = i + 1;
    }
    let ghost mut delivered: Seq<bool> = delivered0;
    let ghost mut holder: Seq<int> = holder0;
    let ghost mut steps: Seq<nat> = steps0;
    proof {
        assert forall|e: int| 0 <= e < n implies #[trigger] counter_ok(parents@, counts@, delivered, sent, waiting_counts(waiting), e) by {
            lemma_none_marked(parents@, delivered, e, n as int);
        }
        assert forall|e: int| 0 <= e < n && !#[trigger] sent[e] implies change_ints(changes@)[e] == held_sum(init, holder, e, n as int) by {
            lemma_held_own(init, n as nat, e, n as int);
        }
        assert forall|k: int| 0 <= k < senders.len() implies tasks@[k].1.as_int() == held_sum(init, holder, senders[k], n as int) by {
            lemma_held_own(init, n as nat, senders[k], n as int);
        }
        assert(state_ok(parents@, counts@, waiting_counts(waiting), init, change_ints(changes@), sent, delivered, holder, steps));
        assert(tasks_ok(parents@, init, holder, sent, delivered, senders, tasks@));
    }
    // each wave delivers the reports of the previous one
    while tasks.len() > 0
        invariant
            n == parents.len(),
            changes.len() == n,
            counts.len() == n,
            init == change_ints(old(changes)@),
            reach_totals_fit::<T>(parents@, init),
            state_ok(parents@, counts@, waiting_counts(waiting), init, change_ints(changes@), sent, delivered, holder, steps),
            order_ok(parents@, sent, level, holder, steps),
            tasks_ok(parents@, init, holder, sent, delivered, senders, tasks@),
        decreases count_false(sent, n as int), tasks.len(),
    {
        let ghost sent0 = sent;
        let ghost tasks0 = tasks@;
        let mut next: Vec<(usize, T)> = Vec::new();
        let ghost mut next_senders: Seq<int> = Seq::empty();
        let mut k: usize = 0;
        proof {
            assert(senders.subrange(0, senders.len() as int) + next_senders =~= senders);
            assert(tasks@.subrange(0, tasks.len() as int) + next@ =~= tasks@);
        }
        while k < tasks.len()
            invariant
                n == parents.len(),
                changes.len() == n,
                counts.len() == n,
                tasks@ == tasks0,
                tasks0.len() > 0,
                senders.len() == tasks.len(),
                k <= tasks.len(),
                init == change_ints(old(changes)@),
                reach_totals_fit::<T>(parents@, init),
                state_ok(parents@, counts@, waiting_counts(waiting), init, change_ints(changes@), sent, delivered, holder, steps),
                order_ok(parents@, sent, level, holder, steps),
                tasks_ok(parents@, init, holder, sent, delivered,
                    senders.subrange(k as int, senders.len() as int) + next_senders,
                    tasks@.subrange(k as int, tasks.len() as int) + next@),
                sent.len() == n,
                count_false(sent, n as int) + next.len() == count_false(sent0, n as int),
            decreases tasks.len() - k,
        {
            let ghost pend = senders.subrange(k as int, senders.len() as int) + next_senders;
            let ghost ptasks = tasks@.subrange(k as int, tasks.len() as int) + next@;
            let ghost c: int = pend[0];
            let (e, t) = tasks[k];
            proof {
                assert(ptasks[0] == (e, t));
                assert(pend.drop_first() =~= senders.subrange(k as int + 1, senders.len() as int) + next_senders);
                assert(ptasks.drop_first() =~= tasks@.subrange(k as int + 1, tasks.len() as int) + next@);
            }
            if e < n {
                proof {
                    lemma_unmarked_child(parents@, delivered, e as int, n as int, c);
                    assert(counter_ok(parents@, counts@, delivered, sent, waiting_counts(waiting), e as int));
                    assert(counter_ok(parents@, counts@, delivered, sent, waiting_counts(waiting), c));
                    assert(c != e as int);
                    assert(!sent[e as int]);
                    lemma_held_move(init, holder, c, e as int, e as int, n as int);
                    lemma_reach_holders(parents@, counts@, waiting_counts(waiting), init, change_ints(changes@), sent, delivered, holder, steps, level, pend, ptasks);
                    lemma_held_reach(parents@, init, moved(holder, c, e as int), e as int, n as int);
                }
                let ghost vals_pre = change_ints(changes@);
                let ghost sent_pre = sent;
                let ghost w_pre = waiting_counts(waiting);
                let ghost level_pre = level;
                let ghost next_pre = next_senders;
                let mut ce = changes[e];
                PropagateChangeLeafToRoot(t).apply_to_data(&mut ce);
                changes.set(e, ce);
                let ghost up: T = ce.0;
                let ghost d1 = count_marked_children(parents@, delivered.update(c, true), e as int, n as int);
                proof {
                    lemma_mark_one(parents@, delivered, c, e as int, n as int);
                    lemma_marked_le(parents@, delivered.update(c, true), e as int, n as int);
                }
                let mut spread: bool = false;
                proof {
                    assert(counter_ok(parents@, counts@, delivered, sent, w_pre, e as int));
                    assert(has_parent(parents@, c, e as int));
                    assert(d1 == count_marked_children(parents@, delivered, e as int, n as int) + 1);
                }
                if let Some(at) = parents[e] {
                    match waiting_get(&waiting, e) {
                        Some(v) => {
                            let left: usize = v - 1;
                            if left == 0 {
                                waiting_remove(&mut waiting, e);
                                spread = true;
                            } else {
                                waiting_insert(&mut waiting, e, left);
                            }
                        },
                        None => {
                            let left: usize = counts[e] - 1;
                            if left == 0 {
                                spread = true;
                            } else {
                                waiting_insert(&mut waiting, e, left);
                            }
                        },
                    }
                    if spread {
                        let mut ce2 = changes[e];
                        let taken = PropagateChangeLeafToRoot::from_data(&mut ce2);
                        changes.set(e, ce2);
                        next.push((at, taken.0));
                        proof {
                            sent = sent.update(e as int, true);
                            level = level.update(e as int, (n - count_false(sent, n as int)) as nat);
                            next_senders = next_senders.push(e as int);
                            lemma_count_false_update(sent_pre, e as int, n as int);
                        }
                    }
                }
                proof {
                    assert(waiting_counts(waiting) == if parents@[e as int] is None {
                        w_pre
                    } else if spread {
                        w_pre.remove(e)
                    } else {
                        w_pre.insert(e, (counts[e as int] - d1) as usize)
                    });
                    assert(change_ints(changes@) =~= if spread { vals_pre.update(e as int, 0) } else { vals_pre.update(e as int, vals_pre[e as int] + t.as_int()) });
                    let pend1 = senders.subrange(k as int + 1, senders.len() as int) + next_senders;
                    let ptasks1 = tasks@.subrange(k as int + 1, tasks.len() as int) + next@;
                    if spread {
                        assert(pend1 =~= pend.drop_first().push(e as int));
                        assert(ptasks1 =~= ptasks.drop_first().push((parents@[e as int]->0, up)));
                    } else {
                        assert(pend1 =~= pend.drop_first());
                        assert(ptasks1 =~= ptasks.drop_first());
                    }
                    lemma_deliver(parents@, counts@, init, w_pre, waiting_counts(waiting), vals_pre, change_ints(changes@), sent_pre, sent, delivered, holder, steps, pend, pend1, ptasks, ptasks1, e as int, spread, up);
                    lemma_order_deliver(parents@, counts@, init, w_pre, vals_pre, sent_pre, sent, delivered, holder, steps, level_pre, level, pend, ptasks, e as int, spread);
                    steps = stepped(holder, steps, c);
                    holder = moved(holder, c, e as int);
                    delivered = delivered.update(c, true);
                }
            } else {
                proof {
                    lemma_lose(parents@, counts@, init, waiting_counts(waiting), change_ints(changes@), sent, delivered, holder, steps, pend, ptasks);
                    lemma_order_lose(parents@, counts@, init, waiting_counts(waiting), change_ints(changes@), sent, delivered, holder, steps, level, pend, ptasks);
                    steps = stepped(holder, steps, c);
                    holder = moved(holder, c, n as int);
                    delivered = delivered.update(c, true);
                }
            }
            k = k + 1;
        }
        tasks = next;
        proof {
            senders = next_senders;
        }
    }
    proof {
        lemma_finish(parents@, counts@, waiting_counts(waiting), init, change_ints(changes@), sent, delivered, holder, steps, level);
    }

}

/// A value handed down a hierarchy: each root makes one from its data, and
/// each node below takes what its parent hands it and works its own data in.
pub trait PropagateRootToLeaf: Sized {
    /// The data a root makes the value from.
    type DataBegin;

    /// The data each node works in.
    type Data;

    /// The value a root makes from its data.
    spec fn spec_from_data(values: Self::DataBegin) -> Self;

    /// The value once a node has worked its data in.
    spec fn spec_process_data(self, values: Self::Data) -> Self;

    fn from_data(values: &Self::DataBegin) -> (r: Self)
        ensures
            r == Self::spec_from_data(*values),
    ;

    fn process_data(&mut self, values: &Self::Data)
        ensures
            *final(self) == (*old(self)).spec_process_data(*values),
    ;

    /// A copy of the value, handed to each child.
    fn clone_value(&self) -> (r: Self)
        ensures
            r == *self,
    ;
}

/// A flag that holds below a root only where it holds at every node on the
/// way down: a node ends up with its flag set only if the root's flag and the
/// flags of all nodes from the root down to it are set.
#[derive(Debug, Clone, Copy)]
pub struct InheritedFlag(pub bool);

impl PropagateRootToLeaf for InheritedFlag {
    type DataBegin = bool;

    type Data = bool;

    open spec fn spec_from_data(values: bool) -> Self {
        InheritedFlag(values)
    }

    open spec fn spec_process_data(self, values: bool) -> Self {
        InheritedFlag(self.0 && values)
    }

    fn from_data(values: &bool) -> (r: Self) {
        InheritedFlag(*values)
    }

    fn process_data(&mut self, values: &bool) {
        self.0 = self.0 && *values;
    }

    fn clone_value(&self) -> (r: Self) {
        InheritedFlag(self.0)
    }
}

/// The value after each of `ds` is worked in, in turn, starting from `t`.
pub open spec fn worked_in<T: PropagateRootToLeaf>(t: T, ds: Seq<T::Data>) -> T
    decreases ds.len(),
{
    if ds.len() == 0 {
        t
    } else {
        worked_in(t, ds.drop_last()).spec_process_data(ds.last())
    }
}

/// A flag made from `b` and handed down through nodes with the flags `ds`
/// stays set exactly when `b` and every one of `ds` are set.
pub proof fn law_inherited_flag_needs_all(b: bool, ds: Seq<bool>)
    ensures
        worked_in(InheritedFlag::spec_from_data(b), ds).0 <==> (b && forall|i: int| 0 <= i < ds.len() ==> #[trigger] ds[i]),
    decreases ds.len(),
{
    if ds.len() > 0 {
        law_inherited_flag_needs_all(b, ds.drop_last());
        if b && forall|i: int| 0 <= i < ds.len() ==> #[trigger] ds[i] {
            assert forall|i: int| 0 <= i < ds.drop_last().len() implies #[trigger] ds.drop_last()[i] by {
                assert(ds[i]);
            }
        }
        if worked_in(InheritedFlag::spec_from_data(b), ds).0 {
            assert forall|i: int| 0 <= i < ds.len() implies #[trigger] ds[i] by {
                if i < ds.len() - 1 {
                    assert(ds.drop_last()[i]);
                }
            }
        }
    }
}

/// What node `p` hands to its children: a root hands the value made from its
/// data; any other node hands what its parent handed it, with its own data
/// worked in. `None` where more than `fuel` steps up are needed to reach a
/// root, or no root is ever reached.
pub open spec fn handed_down<T: PropagateRootToLeaf>(
    parents: Seq<Option<usize>>,
    begin: Seq<T::DataBegin>,
    data: Seq<T::Data>,
    p: int,
    fuel: nat,
) -> Option<T>
    decreases fuel,
{
    if !(0 <= p < parents.len()) {
        None
    } else if parents[p] is None {
        Some(T::spec_from_data(begin[p]))
    } else if fuel == 0 {
        None
    } else {
        match handed_down::<T>(parents, begin, data, parents[p]->0 as int, (fuel - 1) as nat) {
            Some(t) => Some(t.spec_process_data(data[p])),
            None => None,
        }
    }
}

/// What node `x` ends up with: nothing for a root, and for any other node the
/// value it hands down, where a root above it reaches it.
pub open spec fn reached_value<T: PropagateRootToLeaf>(
    parents: Seq<Option<usize>>,
    begin: Seq<T::DataBegin>,
    data: Seq<T::Data>,
    x: int,
) -> Option<T> {
    if parents[x] is None {
        None
    } else {
        handed_down::<T>(parents, begin, data, x, parents.len())
    }
}

pub proof fn lemma_handed_down_stable<T: PropagateRootToLeaf>(
    parents: Seq<Option<usize>>,
    begin: Seq<T::DataBegin>,
    data: Seq<T::Data>,
    p: int,
    f: nat,
    g: nat,
)
    requires
        handed_down::<T>(parents, begin, data, p, f) is Some,
        f <= g,
    ensures
        handed_down::<T>(parents, begin, data, p, g) == handed_down::<T>(parents, begin, data, p, f),
    decreases f,
{
    if 0 <= p < parents.len() && parents[p] is Some && f > 0 {
        lemma_handed_down_stable::<T>(parents, begin, data, parents[p]->0 as int, (f - 1) as nat, (g - 1) as nat);
    }
}

/// Hands values down a hierarchy, from its roots to its leaves.
///
/// Each root with children makes a value from its data and hands a copy to
/// each child; each node reached works its own data into what it was handed
/// and hands a copy of the result to each of its children. The result holds,
/// for each node, the value it ended with, or `None` where the node is a root
/// or no root above it reaches it.
pub fn propagate_root_to_leaf<T: PropagateRootToLeaf>(
    parents: &Vec<Option<usize>>,
    begin: &Vec<T::DataBegin>,
    data: &Vec<T::Data>,
) -> (results: Vec<Option<T>>)
    requires
        begin.len() == parents.len(),
        data.len() == parents.len(),
    ensures
        results.len() == parents.len(),
        forall|x: int|
            0 <= x < parents.len() ==> #[trigger] results@[x] == reached_value::<T>(parents@, begin@, data@, x),
{
    let n: usize = parents.len();
    let counts = child_counts(parents);
    let mut results: Vec<Option<T>> = Vec::new();
    let mut i: usize = 0;
    while i < n
        invariant
            results.len() == i,
            i <= n,
            forall|x: int| 0 <= x < i ==> #[trigger] results@[x] is None,
        decreases n - i,
    {
        results.push(None);
        i = i + 1;
    }
    let ghost mut visited: Seq<bool> = Seq::new(n as nat, |x: int| false);
    let ghost mut fuel: Seq<nat> = Seq::new(n as nat, |x: int| 0nat);
    proof {
        assert(count_false(visited, n as int) == n) by {
            lemma_count_false_all(visited, n as int);
        }
    }
    let mut tasks: Vec<(usize, T)> = Vec::new();
    // each root with children hands its value to them
    let mut r: usize = 0;
    while r < n
        invariant
            n == parents.len(),
            r <= n,
            counts.len() == n,
            forall|e: int| 0 <= e < n ==> #[trigger] counts[e] == count_children(parents@, e, n as int),
            begin.len() == n,
            data.len() == n,
            results.len() == n,
            forall|x: int| 0 <= x < n ==> #[trigger] results@[x] is None,
            visited.len() == n,
            fuel.len() == n,
            forall|x: int| 0 <= x < n ==> !#[trigger] visited[x],
            count_false(visited, n as int) == n,
            forall|i: int|
                0 <= i < tasks.len() ==> {
                    &&& 0 <= (#[trigger] tasks@[i]).0 < n
                    &&& parent_expanded(parents@, visited, tasks@[i].0 as int)
                    &&& handed_down::<T>(parents@, begin@, data@, parents@[tasks@[i].0 as int]->0 as int, 0)
                        == Some(tasks@[i].1)
                },
            forall|i: int, i2: int| 0 <= i < i2 < tasks.len() ==> (#[trigger] tasks@[i]).0 != (#[trigger] tasks@[i2]).0,
            forall|i: int| 0 <= i < tasks.len() ==> (parents@[(#[trigger] tasks@[i]).0 as int]->0 as int) < r,
            forall|x: int|
                0 <= x < n && parent_expanded(parents@, visited, x) && (parents@[x]->0 as int) < r
                    ==> exists|i: int| 0 <= i < tasks.len() && (#[trigger] tasks@[i]).0 == x,
        decreases n - r,
    {
        if parents[r].is_none() && counts[r] > 0 {
            let t = T::from_data(&begin[r]);
            let mut j: usize = 0;
            while j < n
                invariant
                    n == parents.len(),
                    r < n,
                    j <= n,
                    parents@[r as int] is None,
                    t == T::spec_from_data(begin@[r as int]),
                    begin.len() == n,
                    data.len() == n,
                    results.len() == n,
                    forall|x: int| 0 <= x < n ==> #[trigger] results@[x] is None,
                    visited.len() == n,
                    fuel.len() == n,
                    forall|x: int| 0 <= x < n ==> !#[trigger] visited[x],
                    count_false(visited, n as int) == n,
                    forall|i: int|
                        0 <= i < tasks.len() ==> {
                            &&& 0 <= (#[trigger] tasks@[i]).0 < n
                            &&& parent_expanded(parents@, visited, tasks@[i].0 as int)
                            &&& handed_down::<T>(parents@, begin@, data@, parents@[tasks@[i].0 as int]->0 as int, 0)
                                == Some(tasks@[i].1)
                        },
                    forall|i: int, i2: int| 0 <= i < i2 < tasks.len() ==> (#[trigger] tasks@[i]).0 != (#[trigger] tasks@[i2]).0,
                    forall|i: int| 0 <= i < tasks.len() ==> {
                        ||| (parents@[(#[trigger] tasks@[i]).0 as int]->0 as int) < r
                        ||| ((parents@[tasks@[i].0 as int]->0 as int) == r && (tasks@[i].0 as int) < j)
                    },
                    forall|x: int|
                        0 <= x < n && parent_expanded(parents@, visited, x) && ((parents@[x]->0 as int) < r
                            || ((parents@[x]->0 as int) == r && x < j))
                            ==> exists|i: int| 0 <= i < tasks.len() && (#[trigger] tasks@[i]).0 == x,
                decreases n - j,
            {
                if let Some(q) = parents[j] {
                    if q == r {
                        let ghost pre = tasks@;
                        tasks.push((j, t.clone_value()));
                        proof {
                            assert forall|x: int|
                                0 <= x < n && parent_expanded(parents@, visited, x) && ((parents@[x]->0 as int) < r
                                    || ((parents@[x]->0 as int) == r && x < j + 1))
                                    implies exists|i: int| 0 <= i < tasks.len() && (#[trigger] tasks@[i]).0 == x by {
                                if x == j {
                                    assert(tasks@[tasks.len() - 1].0 == x);
                                } else {
                                    let i = choose|i: int| 0 <= i < pre.len() && (#[trigger] pre[i]).0 == x;
                                    assert(tasks@[i].0 == x);
                                }
                            }
                        }
                    }
                }
                j = j + 1;
            }
        } else {
            proof {
                assert forall|x: int|
                    0 <= x < n && parent_expanded(parents@, visited, x) && (parents@[x]->0 as int) < r + 1
                        implies exists|i: int| 0 <= i < tasks.len() && (#[trigger] tasks@[i]).0 == x by {
                    if parents@[x]->0 as int == r {
                        lemma_unmarked_child(parents@, visited, r as int, n as int, x);
                    }
                }
            }
        }
        r = r + 1;
    }
    proof {
        assert forall|i: int| 0 <= i < tasks.len() implies fuel_of(parents@, fuel, parents@[(#[trigger] tasks@[i]).0 as int]->0 as int) == 0 by {
        }
        assert(descent_ok::<T>(parents@, begin@, data@, results@, visited, fuel, tasks@));
    }
    // each node reached works its data in and hands the result to its children
    while tasks.len() > 0
        invariant
            n == parents.len(),
            descent_ok::<T>(parents@, begin@, data@, results@, visited, fuel, tasks@),
        decreases count_false(visited, n as int), tasks.len(),
    {
        let ghost pend0 = tasks@;
        let popped = tasks.pop();
        if let Some((e, t0)) = popped {
            let mut t = t0;
            let ghost p: int = parents@[e as int]->0 as int;
            let ghost fp: nat = fuel_of(parents@, fuel, p);
            let ghost results0 = results@;
            proof {
                assert(pend0[pend0.len() - 1] == (e, t0));
                assert(tasks@ =~= pend0.drop_last());
            }
            t.process_data(&data[e]);
            results.set(e, Some(t.clone_value()));
            proof {
                lemma_visit::<T>(parents@, begin@, data@, results0, visited, fuel, pend0, results@, t);
                visited = visited.update(e as int, true);
                fuel = fuel.update(e as int, fp + 1);
            }
            let mut j: usize = 0;
            while j < n
                invariant
                    n == parents.len(),
                    j <= n,
                    0 <= e < n,
                    visited[e as int],
                    parents@[e as int] is Some,
                    fuel[e as int] >= 1,
                    handed_down::<T>(parents@, begin@, data@, e as int, fuel[e as int]) == Some(t),
                    fuel[e as int] <= n - count_false(visited, n as int),
                    descent_partial::<T>(parents@, begin@, data@, results@, visited, fuel, tasks@, e as int, j as int),
                decreases n - j,
            {
                if let Some(q) = parents[j] {
                    if q == e {
                        let ghost pre = tasks@;
                        tasks.push((j, t.clone_value()));
                        proof {
                            lemma_push_child::<T>(parents@, begin@, data@, results@, visited, fuel, pre, tasks@, e as int, j as int, t);
                        }
                    }
                }
                j = j + 1;
            }
            proof {
                lemma_partial_done::<T>(parents@, begin@, data@, results@, visited, fuel, tasks@, e as int);
            }
        }
    }
    proof {
        lemma_descent_done::<T>(parents@, begin@, data@, results@, visited, fuel);
    }
    results
}

} // verus!
