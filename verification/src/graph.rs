//! The link graph as mathematics: which targets a target waits for, who
//! is told when a target is done, and what it means to be free of cycles.

use vstd::prelude::*;
use crate::model::Collection;

verus! {

/// The position of each target path. Where two targets share a path, the
/// later one has it.
pub open spec fn positions(paths: Seq<Seq<char>>) -> Map<Seq<char>, usize>
    decreases paths.len(),
{
    if paths.len() == 0 {
        Map::empty()
    } else {
        positions(paths.drop_last()).insert(paths.last(), (paths.len() - 1) as usize)
    }
}

/// The paths of a list, as a set.
pub open spec fn members(paths: Seq<Seq<char>>) -> Set<Seq<char>>
    decreases paths.len(),
{
    if paths.len() == 0 {
        Set::empty()
    } else {
        members(paths.drop_last()).insert(paths.last())
    }
}

/// The positions that a list of dependency identifiers names, in order.
/// An identifier that names no target contributes nothing.
pub open spec fn resolved(names: Seq<Seq<char>>, index: Map<Seq<char>, usize>) -> Seq<usize>
    decreases names.len(),
{
    if names.len() == 0 {
        Seq::empty()
    } else if index.contains_key(names.last()) {
        resolved(names.drop_last(), index).push(index[names.last()])
    } else {
        resolved(names.drop_last(), index)
    }
}

/// For each target of a collection, the positions of the targets that it
/// lists as dependencies.
pub open spec fn link_edges(c: Collection) -> Seq<Seq<usize>> {
    Seq::new(
        c.scripts@.len(),
        |i: int| resolved(c.dependency_lists()[i], positions(c.target_paths())),
    )
}

/// Every edge leads to a position of the graph.
pub open spec fn edges_in_range(edges: Seq<Seq<usize>>) -> bool {
    forall|i: int, k: int|
        0 <= i < edges.len() && 0 <= k < edges[i].len() ==> (#[trigger] edges[i][k]) < edges.len()
}

/// How often `x` occurs in `s`.
pub open spec fn occurrences(s: Seq<usize>, x: usize) -> nat
    decreases s.len(),
{
    if s.len() == 0 {
        0
    } else {
        occurrences(s.drop_last(), x) + if s.last() == x {
            1nat
        } else {
            0nat
        }
    }
}

/// How many entries of `deps` name a target that is not done.
pub open spec fn pending(deps: Seq<usize>, done: Seq<bool>) -> nat
    decreases deps.len(),
{
    if deps.len() == 0 {
        0
    } else {
        pending(deps.drop_last(), done) + if done[deps.last() as int] {
            0nat
        } else {
            1nat
        }
    }
}

/// How many flags are set.
pub open spec fn count_true(done: Seq<bool>) -> nat
    decreases done.len(),
{
    if done.len() == 0 {
        0
    } else {
        count_true(done.drop_last()) + if done.last() {
            1nat
        } else {
            0nat
        }
    }
}

/// The targets to tell when target `j` is done: each target that lists
/// `j`, once for every time it lists it, by ascending position.
pub open spec fn notify_list(edges: Seq<Seq<usize>>, j: usize) -> Seq<usize>
    decreases edges.len(),
{
    if edges.len() == 0 {
        Seq::empty()
    } else {
        notify_list(edges.drop_last(), j) + Seq::new(
            occurrences(edges.last(), j),
            |k: int| (edges.len() - 1) as usize,
        )
    }
}

/// The targets that a round of notifications sets free, in the order in
/// which they become free: a target is free at the notification that
/// brings its count of unsatisfied dependencies to zero.
pub open spec fn released(notified: Seq<usize>, waiting: Seq<nat>) -> Seq<usize>
    decreases notified.len(),
{
    if notified.len() == 0 {
        Seq::empty()
    } else if waiting[notified.last() as int] == occurrences(notified, notified.last()) {
        released(notified.drop_last(), waiting).push(notified.last())
    } else {
        released(notified.drop_last(), waiting)
    }
}

/// The targets that wait for nothing, by ascending position.
pub open spec fn initially_ready(edges: Seq<Seq<usize>>) -> Seq<usize>
    decreases edges.len(),
{
    if edges.len() == 0 {
        Seq::empty()
    } else if edges.last().len() == 0 {
        initially_ready(edges.drop_last()).push((edges.len() - 1) as usize)
    } else {
        initially_ready(edges.drop_last())
    }
}

/// `rank` numbers the targets so that each target has a higher number
/// than every target it depends on.
pub open spec fn is_ranking(edges: Seq<Seq<usize>>, rank: Seq<nat>) -> bool {
    &&& rank.len() == edges.len()
    &&& forall|i: int, k: int|
        0 <= i < edges.len() && 0 <= k < edges[i].len() ==> rank[(#[trigger] edges[i][k]) as int]
            < rank[i]
}

/// A graph is acyclic when its targets can be numbered so that every
/// dependency has a lower number than the target that lists it.
pub open spec fn acyclic(edges: Seq<Seq<usize>>) -> bool {
    exists|rank: Seq<nat>| is_ranking(edges, rank)
}

/// Every recorded position is a position of the list.
pub proof fn lemma_positions_in_range(paths: Seq<Seq<char>>, path: Seq<char>)
    requires
        paths.len() <= usize::MAX,
        positions(paths).contains_key(path),
    ensures
        positions(paths)[path] < paths.len(),
    decreases paths.len(),
{
    if paths.len() > 0 && path != paths.last() {
        lemma_positions_in_range(paths.drop_last(), path);
    }
}

/// Every resolved position is a position of the list of targets.
pub proof fn lemma_resolved_in_range(names: Seq<Seq<char>>, paths: Seq<Seq<char>>, k: int)
    requires
        paths.len() <= usize::MAX,
        0 <= k < resolved(names, positions(paths)).len(),
    ensures
        resolved(names, positions(paths))[k] < paths.len(),
    decreases names.len(),
{
    if names.len() > 0 {
        let index = positions(paths);
        let rest = resolved(names.drop_last(), index);
        if k < rest.len() {
            lemma_resolved_in_range(names.drop_last(), paths, k);
        } else {
            lemma_positions_in_range(paths, names.last());
        }
    }
}

/// Whether `order` lists targets of the graph, none twice, each after all
/// the targets that it depends on.
pub open spec fn is_link_order(order: Seq<usize>, edges: Seq<Seq<usize>>) -> bool {
    &&& order.no_duplicates()
    &&& forall|p: int| 0 <= p < order.len() ==> (#[trigger] order[p]) < edges.len()
    &&& forall|p: int, k: int|
        0 <= p < order.len() && 0 <= k < edges[order[p] as int].len() ==> comes_before(
            order,
            #[trigger] edges[order[p] as int][k],
            p,
        )
}

/// Whether `target` stands in `order` before place `p`.
pub open spec fn comes_before(order: Seq<usize>, target: usize, p: int) -> bool {
    exists|q: int| 0 <= q < p && q < order.len() && order[q] == target
}

/// Whether a target outside `order` has a dependency outside it too, so
/// that `order` leaves out no target that could be linked after it.
pub open spec fn is_full_order(order: Seq<usize>, edges: Seq<Seq<usize>>) -> bool {
    forall|i: int|
        0 <= i < edges.len() && !order.contains(i as usize) ==> needs_one_outside(
            order,
            #[trigger] edges[i],
        )
}

/// Whether some entry of `deps` is not in `order`.
pub open spec fn needs_one_outside(order: Seq<usize>, deps: Seq<usize>) -> bool {
    exists|k: int| 0 <= k < deps.len() && !order.contains(#[trigger] deps[k])
}

/// A graph whose targets can all be put in a link order is acyclic.
pub proof fn lemma_order_gives_ranking(order: Seq<usize>, edges: Seq<Seq<usize>>)
    requires
        edges.len() <= usize::MAX,
        is_link_order(order, edges),
        forall|i: usize| i < edges.len() ==> order.contains(i),
    ensures
        acyclic(edges),
{
    let rank = Seq::new(
        edges.len(),
        |i: int| (choose|q: int| 0 <= q < order.len() && order[q] == i as usize) as nat,
    );
    assert forall|i: int, k: int| 0 <= i < edges.len() && 0 <= k < edges[i].len() implies rank[(
    #[trigger] edges[i][k]) as int] < rank[i] by {
        assert(order.contains(i as usize));
        let p = choose|q: int| 0 <= q < order.len() && order[q] == i as usize;
        assert(rank[i] == p);
        let d = edges[i][k];
        assert(d == edges[order[p] as int][k]);
        assert(comes_before(order, d, p));
        let q = choose|q: int| 0 <= q < p && q < order.len() && order[q] == d;
        assert(order.contains(d));
        let r = choose|r: int| 0 <= r < order.len() && order[r] == d as int as usize;
        assert(r == q);
        assert(d < edges.len());
        assert(rank[d as int] == r);
    }
    assert(is_ranking(edges, rank));
}

/// One more entry is one more occurrence of it and of nothing else.
pub proof fn lemma_occurrences_push(s: Seq<usize>, y: usize, x: usize)
    ensures
        occurrences(s.push(y), x) == occurrences(s, x) + if y == x {
            1nat
        } else {
            0nat
        },
{
    assert(s.push(y).drop_last() =~= s);
}

/// A value occurs in the beginning of a list no more often than in the
/// list.
pub proof fn lemma_occurrences_take(s: Seq<usize>, m: int, x: usize)
    requires
        0 <= m <= s.len(),
    ensures
        occurrences(s.take(m), x) <= occurrences(s, x),
    decreases s.len() - m,
{
    if m < s.len() {
        lemma_occurrences_take(s, m + 1, x);
        assert(s.take(m + 1).drop_last() =~= s.take(m));
    } else {
        assert(s.take(m) =~= s);
    }
}

/// In a list of one value repeated, that value occurs as often as the
/// list is long, and no other value occurs.
pub proof fn lemma_occurrences_repeat(n: nat, v: usize, x: usize)
    ensures
        occurrences(Seq::new(n, |k: int| v), x) == if v == x {
            n
        } else {
            0
        },
    decreases n,
{
    if n > 0 {
        lemma_occurrences_repeat((n - 1) as nat, v, x);
        assert(Seq::new(n, |k: int| v).drop_last() =~= Seq::new((n - 1) as nat, |k: int| v));
    }
}

/// The occurrences in two lists joined are those in each.
pub proof fn lemma_occurrences_concat(a: Seq<usize>, b: Seq<usize>, x: usize)
    ensures
        occurrences(a + b, x) == occurrences(a, x) + occurrences(b, x),
    decreases b.len(),
{
    if b.len() == 0 {
        assert(a + b =~= a);
    } else {
        lemma_occurrences_concat(a, b.drop_last(), x);
        assert((a + b).drop_last() =~= a + b.drop_last());
    }
}

/// A target is told of `j` exactly as often as it lists `j`.
pub proof fn lemma_notify_occurrences(edges: Seq<Seq<usize>>, j: usize, i: usize)
    requires
        edges.len() <= usize::MAX,
    ensures
        occurrences(notify_list(edges, j), i) == if i < edges.len() {
            occurrences(edges[i as int], j)
        } else {
            0
        },
    decreases edges.len(),
{
    if edges.len() > 0 {
        let last = (edges.len() - 1) as usize;
        lemma_notify_occurrences(edges.drop_last(), j, i);
        lemma_occurrences_repeat(occurrences(edges.last(), j), last, i);
        lemma_occurrences_concat(
            notify_list(edges.drop_last(), j),
            Seq::new(occurrences(edges.last(), j), |k: int| last),
            i,
        );
    }
}

/// Every entry of a notification list is a position of the graph.
pub proof fn lemma_notify_in_range(edges: Seq<Seq<usize>>, j: usize, m: int)
    requires
        edges.len() <= usize::MAX,
        0 <= m < notify_list(edges, j).len(),
    ensures
        notify_list(edges, j)[m] < edges.len(),
    decreases edges.len(),
{
    if edges.len() > 0 {
        if m < notify_list(edges.drop_last(), j).len() {
            lemma_notify_in_range(edges.drop_last(), j, m);
        }
    }
}

/// Marking `t` done lowers the pending count by the number of times that
/// `t` is listed.
pub proof fn lemma_pending_mark(deps: Seq<usize>, done: Seq<bool>, t: usize)
    requires
        t < done.len(),
        !done[t as int],
        forall|k: int| 0 <= k < deps.len() ==> (#[trigger] deps[k]) < done.len(),
    ensures
        pending(deps, done.update(t as int, true)) + occurrences(deps, t) == pending(deps, done),
    decreases deps.len(),
{
    if deps.len() > 0 {
        let rest = deps.drop_last();
        assert forall|k: int| 0 <= k < rest.len() implies (#[trigger] rest[k]) < done.len() by {
            assert(rest[k] == deps[k]);
        }
        lemma_pending_mark(rest, done, t);
        assert(deps.last() == deps[deps.len() - 1]);
    }
}

/// With nothing done, every entry is pending.
pub proof fn lemma_pending_none_done(deps: Seq<usize>, done: Seq<bool>)
    requires
        forall|k: int| 0 <= k < deps.len() ==> (#[trigger] deps[k]) < done.len(),
        forall|i: int| 0 <= i < done.len() ==> !#[trigger] done[i],
    ensures
        pending(deps, done) == deps.len(),
    decreases deps.len(),
{
    if deps.len() > 0 {
        let rest = deps.drop_last();
        assert forall|k: int| 0 <= k < rest.len() implies (#[trigger] rest[k]) < done.len() by {
            assert(rest[k] == deps[k]);
        }
        lemma_pending_none_done(rest, done);
        assert(deps.last() == deps[deps.len() - 1]);
    }
}

/// Nothing is pending exactly when every listed target is done.
pub proof fn lemma_pending_zero(deps: Seq<usize>, done: Seq<bool>)
    ensures
        pending(deps, done) == 0 <==> forall|k: int|
            0 <= k < deps.len() ==> done[(#[trigger] deps[k]) as int],
    decreases deps.len(),
{
    if deps.len() > 0 {
        let rest = deps.drop_last();
        lemma_pending_zero(rest, done);
        assert(deps.last() == deps[deps.len() - 1]);
        if pending(deps, done) == 0 {
            assert forall|k: int| 0 <= k < deps.len() implies done[(#[trigger] deps[k]) as int] by {
                if k < rest.len() {
                    assert(rest[k] == deps[k]);
                }
            }
        } else {
            if pending(rest, done) != 0 {
                let k = choose|k: int| 0 <= k < rest.len() && !done[(#[trigger] rest[k]) as int];
                assert(rest[k] == deps[k]);
            }
        }
    }
}

/// Setting a flag that is not set raises the count by one.
pub proof fn lemma_count_true_mark(done: Seq<bool>, t: int)
    requires
        0 <= t < done.len(),
        !done[t],
    ensures
        count_true(done.update(t, true)) == count_true(done) + 1,
    decreases done.len(),
{
    let marked = done.update(t, true);
    if t == done.len() - 1 {
        assert(marked.drop_last() =~= done.drop_last());
    } else {
        lemma_count_true_mark(done.drop_last(), t);
        assert(marked.drop_last() =~= done.drop_last().update(t, true));
    }
}

/// No more flags are set than there are, and all are set exactly when the
/// count equals the length.
pub proof fn lemma_count_true_bound(done: Seq<bool>)
    ensures
        count_true(done) <= done.len(),
        count_true(done) == done.len() <==> forall|i: int| 0 <= i < done.len() ==> #[trigger] done[i],
        count_true(done) == 0 <==> forall|i: int| 0 <= i < done.len() ==> !#[trigger] done[i],
    decreases done.len(),
{
    if done.len() > 0 {
        let rest = done.drop_last();
        lemma_count_true_bound(rest);
        assert(done.last() == done[done.len() - 1]);
        assert forall|i: int| 0 <= i < rest.len() implies rest[i] == done[i] by {}
        if count_true(done) == done.len() {
            assert forall|i: int| 0 <= i < done.len() implies #[trigger] done[i] by {
                if i < rest.len() {
                    assert(rest[i]);
                }
            }
        }
        if count_true(done) == 0 {
            assert forall|i: int| 0 <= i < done.len() implies !#[trigger] done[i] by {
                if i < rest.len() {
                    assert(!rest[i]);
                }
            }
        }
        if forall|i: int| 0 <= i < done.len() ==> #[trigger] done[i] {
            assert forall|i: int| 0 <= i < rest.len() implies #[trigger] rest[i] by {
                assert(done[i]);
            }
        }
        if forall|i: int| 0 <= i < done.len() ==> !#[trigger] done[i] {
            assert forall|i: int| 0 <= i < rest.len() implies !#[trigger] rest[i] by {
                assert(!done[i]);
            }
        }
    }
}

} // verus!
