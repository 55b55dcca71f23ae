//! The dependency-driven link scheduler.
//!
//! A target may be linked once every target that it lists as a dependency
//! has been linked. The scheduler hands out targets that are ready, and is
//! told when a target is done; it then tells the targets that waited for
//! it. Whoever drives it decides how many links run at once.

use vstd::prelude::*;
use crossbeam::queue::SegQueue;
use crate::graph::{
    acyclic, comes_before, count_true, edges_in_range, initially_ready, is_full_order,
    is_link_order, is_ranking, lemma_count_true_bound, lemma_order_gives_ranking,
    needs_one_outside,
    lemma_count_true_mark, lemma_notify_in_range, lemma_notify_occurrences,
    lemma_occurrences_push, lemma_occurrences_take, lemma_pending_mark,
    lemma_pending_none_done, lemma_pending_zero, lemma_resolved_in_range, link_edges, members,
    notify_list, occurrences, pending, positions, released, resolved,
};
use crate::index::{PathIndex, PathSet};
use crate::model::{texts, Collection, Target};
use crate::queue::{dequeue, enqueue, new_queue, queued};
use crate::store::{
    insert_ascending, lemma_ascending_unique, lemma_store_paths_distinct, store_path,
    store_path_of, strictly_ascending,
};
use vstd::string::*;

verus! {

/// Where a target stands in a link run.
#[derive(Clone, Copy, Debug, PartialEq, Eq, Structural)]
pub enum TargetState {
    /// Some dependency has not been linked yet.
    Blocked,
    /// Every dependency is linked; the target waits in the ready queue.
    Ready,
    /// The target was handed out and its link has not been reported.
    Linking,
    /// The target's artifact exists.
    Linked,
}

/// For each target, whether it is linked.
pub open spec fn done_flags(states: Seq<TargetState>) -> Seq<bool> {
    Seq::new(states.len(), |i: int| states[i] == TargetState::Linked)
}

/// The states before anything was linked: a target is ready exactly when
/// it waits for nothing.
pub open spec fn initial_states(edges: Seq<Seq<usize>>) -> Seq<TargetState> {
    Seq::new(
        edges.len(),
        |i: int|
            if edges[i].len() == 0 {
                TargetState::Ready
            } else {
                TargetState::Blocked
            },
    )
}

/// The states after target `t` is reported linked: `t` is linked, and a
/// blocked target whose last unlinked dependency was `t` is ready.
pub open spec fn states_after(
    states: Seq<TargetState>,
    edges: Seq<Seq<usize>>,
    t: usize,
) -> Seq<TargetState> {
    let done = done_flags(states).update(t as int, true);
    Seq::new(
        states.len(),
        |i: int|
            if i == t {
                TargetState::Linked
            } else if states[i] == TargetState::Blocked && pending(edges[i], done) == 0 {
                TargetState::Ready
            } else {
                states[i]
            },
    )
}

/// Whether a dependency identifier names a target or a leaf object.
pub open spec fn is_known_name(
    name: Seq<char>,
    targets: Map<Seq<char>, usize>,
    objects: Set<Seq<char>>,
) -> bool {
    targets.contains_key(name) || objects.contains(name)
}

/// Whether `x` is the store path of a known dependency among `names`.
pub open spec fn is_link_input(
    x: Seq<char>,
    names: Seq<Seq<char>>,
    targets: Map<Seq<char>, usize>,
    objects: Set<Seq<char>>,
    dir: Seq<char>,
) -> bool {
    exists|k: int|
        0 <= k < names.len() && is_known_name(#[trigger] names[k], targets, objects) && x
            == store_path_of(dir, names[k])
}

/// Whether `args` is the argument list of the link of a target: the store
/// paths of its known dependencies, each once and in ascending order,
/// then `-o` and the store path of the target itself.
pub open spec fn is_link_command(
    args: Seq<Seq<char>>,
    names: Seq<Seq<char>>,
    targets: Map<Seq<char>, usize>,
    objects: Set<Seq<char>>,
    dir: Seq<char>,
    output: Seq<char>,
) -> bool {
    &&& args.len() >= 2
    &&& args[args.len() - 2] == seq!['-', 'o']
    &&& args[args.len() - 1] == store_path_of(dir, output)
    &&& strictly_ascending(args.take(args.len() - 2))
    &&& forall|x: Seq<char>|
        args.take(args.len() - 2).contains(x) <==> is_link_input(x, names, targets, objects, dir)
}

/// There is one argument list for the link of a target.
pub proof fn lemma_link_command_unique(
    a: Seq<Seq<char>>,
    b: Seq<Seq<char>>,
    names: Seq<Seq<char>>,
    targets: Map<Seq<char>, usize>,
    objects: Set<Seq<char>>,
    dir: Seq<char>,
    output: Seq<char>,
)
    requires
        is_link_command(a, names, targets, objects, dir, output),
        is_link_command(b, names, targets, objects, dir, output),
    ensures
        a == b,
{
    let ia = a.take(a.len() - 2);
    let ib = b.take(b.len() - 2);
    assert forall|x: Seq<char>| ia.contains(x) <==> ib.contains(x) by {
        assert(ia.contains(x) <==> is_link_input(x, names, targets, objects, dir));
        assert(ib.contains(x) <==> is_link_input(x, names, targets, objects, dir));
    }
    lemma_ascending_unique(ia, ib);
    assert(a =~= ia.push(a[a.len() - 2]).push(a[a.len() - 1]));
    assert(b =~= ib.push(b[b.len() - 2]).push(b[b.len() - 1]));
}

/// The links of two targets with different paths write different files:
/// what follows `-o` differs.
pub proof fn lemma_outputs_distinct(
    a: Seq<Seq<char>>,
    b: Seq<Seq<char>>,
    names_a: Seq<Seq<char>>,
    names_b: Seq<Seq<char>>,
    targets: Map<Seq<char>, usize>,
    objects: Set<Seq<char>>,
    dir: Seq<char>,
    output_a: Seq<char>,
    output_b: Seq<char>,
)
    requires
        is_link_command(a, names_a, targets, objects, dir, output_a),
        is_link_command(b, names_b, targets, objects, dir, output_b),
        output_a != output_b,
    ensures
        a.last() != b.last(),
{
    lemma_store_paths_distinct(dir, output_a, output_b);
}

/// What to do with a target that was handed out.
#[derive(Debug)]
pub enum LinkAction {
    /// The artifact is in the store already: the link tool is not run.
    UseCached,
    /// Run the link tool with these arguments.
    Invoke(Vec<String>),
}

/// The scheduling state of one link run.
pub struct LinkScheduler {
    index: PathIndex,
    objects: PathSet,
    waiting: Vec<usize>,
    dependents: Vec<Vec<usize>>,
    state: Vec<TargetState>,
    ready: SegQueue<usize>,
    finished: usize,
    edges: Ghost<Seq<Seq<usize>>>,
}

impl LinkScheduler {
    /// For each target, the positions of the targets it depends on.
    pub closed spec fn edges(&self) -> Seq<Seq<usize>> {
        self.edges@
    }

    /// The state of each target.
    pub closed spec fn states(&self) -> Seq<TargetState> {
        self.state@
    }

    /// The ready queue, oldest first.
    pub closed spec fn ready(&self) -> Seq<usize> {
        queued(self.ready)
    }

    /// How many targets are linked.
    pub closed spec fn finished(&self) -> nat {
        self.finished as nat
    }

    /// The position of each target path.
    pub closed spec fn targets(&self) -> Map<Seq<char>, usize> {
        self.index@
    }

    /// The paths of the leaf objects.
    pub closed spec fn objects(&self) -> Set<Seq<char>> {
        self.objects@
    }

    /// For each target, how many of its dependencies are not linked yet.
    pub open spec fn waiting(&self) -> Seq<nat> {
        Seq::new(
            self.edges().len(),
            |i: int| pending(self.edges()[i], done_flags(self.states())),
        )
    }

    /// The invariant of the scheduler.
    pub closed spec fn wf(&self) -> bool {
        let n = self.state@.len();
        &&& n <= usize::MAX
        &&& self.edges@.len() == n
        &&& self.waiting@.len() == n
        &&& self.dependents@.len() == n
        &&& edges_in_range(self.edges@)
        &&& forall|j: int|
            0 <= j < n ==> (#[trigger] self.dependents@[j])@ == notify_list(self.edges@, j as usize)
        &&& forall|i: int|
            0 <= i < n ==> (#[trigger] self.waiting@[i]) == pending(
                self.edges@[i],
                done_flags(self.state@),
            )
        &&& forall|i: int|
            0 <= i < n ==> ((#[trigger] self.state@[i]) == TargetState::Blocked <==> self.waiting@[i]
                > 0)
        &&& queued(self.ready).no_duplicates()
        &&& forall|x: usize|
            queued(self.ready).contains(x) <==> (x < n && self.state@[x as int]
                == TargetState::Ready)
        &&& self.finished == count_true(done_flags(self.state@))
    }

    /// The scheduler for a collection, before anything is linked.
    pub fn new(collection: &Collection) -> (s: LinkScheduler)
        ensures
            s.wf(),
            s.targets() == positions(collection.target_paths()),
            s.objects() == members(collection.object_paths()),
            s.edges() == link_edges(*collection),
            s.states() == initial_states(s.edges()),
            s.ready() == initially_ready(s.edges()),
            s.finished() == 0,
    {
        let n = collection.scripts.len();
        let ghost paths = collection.target_paths();
        let ghost lists = collection.dependency_lists();
        let mut index = PathIndex::new();
        assert(index@ =~= positions(paths.take(0)));
        let mut i: usize = 0;
        while i < n
            invariant
                i <= n,
                n == collection.scripts@.len(),
                paths == collection.target_paths(),
                index@ == positions(paths.take(i as int)),
            decreases n - i,
        {
            index.insert(collection.scripts[i].target.abs_path.clone(), i);
            proof {
                assert(paths.take(i + 1).drop_last() =~= paths.take(i as int));
            }
            i += 1;
        }
        assert(paths.take(n as int) =~= paths);

        let ghost leaves = collection.object_paths();
        let mut objects = PathSet::new();
        assert(objects@ =~= members(leaves.take(0)));
        let mut i: usize = 0;
        while i < collection.objects.len()
            invariant
                i <= collection.objects@.len(),
                leaves == collection.object_paths(),
                objects@ == members(leaves.take(i as int)),
            decreases collection.objects@.len() - i,
        {
            objects.insert(collection.objects[i].abs_path.clone());
            proof {
                assert(leaves.take(i + 1).drop_last() =~= leaves.take(i as int));
            }
            i += 1;
        }
        assert(leaves.take(collection.objects@.len() as int) =~= leaves);

        let mut waiting: Vec<usize> = Vec::new();
        let mut dependents: Vec<Vec<usize>> = Vec::new();
        let mut i: usize = 0;
        while i < n
            invariant
                i <= n,
                waiting@.len() == i,
                dependents@.len() == i,
                forall|j: int| 0 <= j < i ==> waiting@[j] == 0,
                forall|j: int| 0 <= j < i ==> (#[trigger] dependents@[j])@ == Seq::<usize>::empty(),
            decreases n - i,
        {
            waiting.push(0);
            dependents.push(Vec::new());
            i += 1;
        }

        let ghost mut edges: Seq<Seq<usize>> = Seq::empty();
        let mut i: usize = 0;
        while i < n
            invariant
                i <= n,
                n == collection.scripts@.len(),
                paths == collection.target_paths(),
                lists == collection.dependency_lists(),
                index@ == positions(paths),
                edges.len() == i,
                waiting@.len() == n,
                dependents@.len() == n,
                forall|r: int| 0 <= r < i ==> #[trigger] edges[r] == resolved(lists[r], index@),
                forall|r: int| 0 <= r < i ==> #[trigger] waiting@[r] == edges[r].len(),
                forall|r: int| i <= r < n ==> #[trigger] waiting@[r] == 0,
                forall|j: int|
                    0 <= j < n ==> (#[trigger] dependents@[j])@ == notify_list(edges, j as usize),
            decreases n - i,
        {
            let deps = &collection.scripts[i].target.dependencies;
            let ghost names = lists[i as int];
            let ghost mut row: Seq<usize> = Seq::empty();
            let mut k: usize = 0;
            proof {
                assert forall|j: int| 0 <= j < n implies (#[trigger] dependents@[j])@
                    == notify_list(edges, j as usize) + Seq::new(
                    occurrences(row, j as usize),
                    |m: int| i,
                ) by {
                    assert(Seq::new(occurrences(row, j as usize), |m: int| i) =~= Seq::empty());
                    assert(notify_list(edges, j as usize) + Seq::<usize>::empty() =~= notify_list(
                        edges,
                        j as usize,
                    ));
                }
            }
            while k < deps.len()
                invariant
                    i < n,
                    k <= deps@.len(),
                    n == collection.scripts@.len(),
                    paths == collection.target_paths(),
                    paths.len() == n,
                    index@ == positions(paths),
                    names == crate::model::texts(deps@),
                    row == resolved(names.take(k as int), index@),
                    row.len() <= k,
                    edges.len() == i,
                    waiting@.len() == n,
                    dependents@.len() == n,
                    waiting@[i as int] == row.len(),
                    forall|r: int| 0 <= r < i ==> #[trigger] waiting@[r] == edges[r].len(),
                    forall|r: int| i < r < n ==> #[trigger] waiting@[r] == 0,
                    forall|j: int|
                        0 <= j < n ==> (#[trigger] dependents@[j])@ == notify_list(edges, j as usize)
                            + Seq::new(occurrences(row, j as usize), |m: int| i),
                decreases deps@.len() - k,
            {
                let found = index.get(deps[k].as_str());
                proof {
                    assert(names.take(k + 1).drop_last() =~= names.take(k as int));
                    assert(names.take(k + 1).last() == deps@[k as int]@);
                }
                match found {
                    Some(j) => {
                        proof {
                            crate::graph::lemma_positions_in_range(paths, deps@[k as int]@);
                        }
                        let ghost before = dependents@;
                        let ghost old_row = row;
                        dependents[j].push(i);
                        waiting.set(i, waiting[i] + 1);
                        proof {
                            row = row.push(j);
                            assert forall|t: int| 0 <= t < n implies (#[trigger] dependents@[t])@
                                == notify_list(edges, t as usize) + Seq::new(
                                occurrences(row, t as usize),
                                |m: int| i,
                            ) by {
                                crate::graph::lemma_occurrences_push(old_row, j, t as usize);
                                if t == j {
                                    assert(before[t]@.push(i) =~= notify_list(edges, t as usize)
                                        + Seq::new(occurrences(row, t as usize), |m: int| i));
                                } else {
                                    assert(dependents@[t] == before[t]);
                                }
                            }
                        }
                    },
                    None => {},
                }
                k += 1;
            }
            proof {
                assert(names.take(k as int) =~= names);
                let grown = edges.push(row);
                assert(grown.drop_last() =~= edges);
                edges = grown;
            }
            i += 1;
        }

        let mut state: Vec<TargetState> = Vec::new();
        let mut ready = new_queue();
        let ghost none_done = Seq::new(n as nat, |r: int| false);
        let mut i: usize = 0;
        proof {
            assert(edges =~= link_edges(*collection));
            assert(edges.take(0) =~= Seq::<Seq<usize>>::empty());
            assert(edges_in_range(edges)) by {
                assert forall|r: int, k: int|
                    0 <= r < edges.len() && 0 <= k < edges[r].len() implies (#[trigger] edges[r][k])
                    < edges.len() by {
                    lemma_resolved_in_range(lists[r], paths, k);
                }
            }
        }
        while i < n
            invariant
                i <= n,
                edges.len() == n,
                waiting@.len() == n,
                state@.len() == i,
                forall|r: int| 0 <= r < n ==> #[trigger] waiting@[r] == edges[r].len(),
                state@ == initial_states(edges.take(i as int)),
                queued(ready) == initially_ready(edges.take(i as int)),
                queued(ready).no_duplicates(),
                forall|x: usize|
                    queued(ready).contains(x) <==> (x < i && state@[x as int] == TargetState::Ready),
            decreases n - i,
        {
            let ghost before = queued(ready);
            proof {
                assert(edges.take(i + 1).drop_last() =~= edges.take(i as int));
                assert(edges.take(i + 1).last() == edges[i as int]);
            }
            if waiting[i] == 0 {
                state.push(TargetState::Ready);
                enqueue(&mut ready, i);
                proof {
                    assert(!before.contains(i));
                    assert(queued(ready).no_duplicates());
                    assert forall|x: usize|
                        queued(ready).contains(x) <==> (x < i + 1 && state@[x as int]
                            == TargetState::Ready) by {
                        if queued(ready).contains(x) {
                            let m = choose|m: int| 0 <= m < queued(ready).len() && queued(ready)[m] == x;
                            if m < before.len() {
                                assert(before[m] == x);
                                assert(before.contains(x));
                            }
                        }
                        if x < i + 1 && state@[x as int] == TargetState::Ready {
                            if x < i {
                                assert(before.contains(x));
                                let m = choose|m: int| 0 <= m < before.len() && before[m] == x;
                                assert(queued(ready)[m] == x);
                            } else {
                                assert(queued(ready)[before.len() as int] == x);
                            }
                        }
                    }
                }
            } else {
                state.push(TargetState::Blocked);
                proof {
                    assert forall|x: usize|
                        queued(ready).contains(x) <==> (x < i + 1 && state@[x as int]
                            == TargetState::Ready) by {
                        if queued(ready).contains(x) {
                            assert(x < i);
                        }
                    }
                }
            }
            proof {
                assert(state@ =~= initial_states(edges.take(i + 1)));
            }
            i += 1;
        }
        proof {
            assert(edges.take(n as int) =~= edges);
            assert(done_flags(state@) =~= none_done);
            lemma_count_true_bound(none_done);
            assert forall|r: int| 0 <= r < n implies (#[trigger] waiting@[r]) == pending(
                edges[r],
                done_flags(state@),
            ) by {
                lemma_pending_none_done(edges[r], none_done);
            }
        }
        LinkScheduler {
            index,
            objects,
            waiting,
            dependents,
            state,
            ready,
            finished: 0,
            edges: Ghost(edges),
        }
    }

    /// The number of link targets.
    pub fn total(&self) -> (n: usize)
        requires
            self.wf(),
        ensures
            n == self.states().len(),
    {
        self.state.len()
    }

    /// The number of targets linked so far.
    pub fn finished_count(&self) -> (n: usize)
        ensures
            n == self.finished(),
    {
        self.finished
    }

    /// Whether every target is linked.
    pub fn is_complete(&self) -> (complete: bool)
        requires
            self.wf(),
        ensures
            complete == (self.finished() == self.states().len()),
            complete == (forall|i: int|
                0 <= i < self.states().len() ==> self.states()[i] == TargetState::Linked),
    {
        proof {
            lemma_count_true_bound(done_flags(self.state@));
            if forall|i: int| 0 <= i < self.state@.len() ==> self.state@[i] == TargetState::Linked {
                assert forall|i: int| 0 <= i < self.state@.len() implies #[trigger] done_flags(
                    self.state@,
                )[i] by {}
            } else {
                let i = choose|i: int|
                    0 <= i < self.state@.len() && self.state@[i] != TargetState::Linked;
                assert(!done_flags(self.state@)[i]);
            }
        }
        self.finished == self.state.len()
    }

    /// The state of the target at a position, if there is one.
    pub fn state_of(&self, target: usize) -> (state: Option<TargetState>)
        ensures
            state == (if target < self.states().len() {
                Some(self.states()[target as int])
            } else {
                None
            }),
    {
        if target < self.state.len() {
            Some(self.state[target])
        } else {
            None
        }
    }

    /// The position of the target with the given path, if there is one.
    pub fn position_of(&self, path: &str) -> (position: Option<usize>)
        ensures
            position == (if self.targets().contains_key(path@) {
                Some(self.targets()[path@])
            } else {
                None
            }),
    {
        self.index.get(path)
    }

    /// Whether a dependency identifier names a target or a leaf object.
    pub fn is_known(&self, name: &str) -> (known: bool)
        ensures
            known == (self.targets().contains_key(name@) || self.objects().contains(name@)),
    {
        match self.index.get(name) {
            Some(_) => true,
            None => self.objects.contains(name),
        }
    }

    /// The arguments for the link of a target whose artifacts lie under
    /// `objects_dir`.
    pub fn link_command(&self, target: &Target, objects_dir: &str) -> (args: Vec<String>)
        ensures
            is_link_command(
                texts(args@),
                target.dependency_names(),
                self.targets(),
                self.objects(),
                objects_dir@,
                target.abs_path@,
            ),
    {
        let ghost names = target.dependency_names();
        let mut args: Vec<String> = Vec::new();
        let mut k: usize = 0;
        proof {
            assert forall|x: Seq<char>| !texts(args@).contains(x) by {}
        }
        while k < target.dependencies.len()
            invariant
                k <= target.dependencies@.len(),
                names == target.dependency_names(),
                strictly_ascending(texts(args@)),
                forall|x: Seq<char>|
                    texts(args@).contains(x) <==> is_link_input(
                        x,
                        names.take(k as int),
                        self.targets(),
                        self.objects(),
                        objects_dir@,
                    ),
            decreases target.dependencies@.len() - k,
        {
            let name = target.dependencies[k].as_str();
            let ghost held = texts(args@);
            let ghost seen = names.take(k as int);
            let ghost more = names.take(k + 1);
            proof {
                assert(name@ == names[k as int]);
                assert(more =~= seen.push(name@));
            }
            let known = self.is_known(name);
            if known {
                let path = store_path(objects_dir, name);
                insert_ascending(&mut args, path);
            }
            proof {
                let now = texts(args@);
                assert forall|x: Seq<char>|
                    now.contains(x) <==> is_link_input(
                        x,
                        more,
                        self.targets(),
                        self.objects(),
                        objects_dir@,
                    ) by {
                    let wanted = store_path_of(objects_dir@, name@);
                    if is_link_input(x, seen, self.targets(), self.objects(), objects_dir@) {
                        let j = choose|j: int|
                            0 <= j < seen.len() && is_known_name(
                                #[trigger] seen[j],
                                self.targets(),
                                self.objects(),
                            ) && x == store_path_of(objects_dir@, seen[j]);
                        assert(more[j] == seen[j]);
                    }
                    if known && x == wanted {
                        assert(more[k as int] == name@);
                    }
                    if is_link_input(x, more, self.targets(), self.objects(), objects_dir@) {
                        let j = choose|j: int|
                            0 <= j < more.len() && is_known_name(
                                #[trigger] more[j],
                                self.targets(),
                                self.objects(),
                            ) && x == store_path_of(objects_dir@, more[j]);
                        if j < k {
                            assert(seen[j] == more[j]);
                        }
                    }
                }
            }
            k += 1;
        }
        let ghost inputs = texts(args@);
        proof {
            assert(names.take(k as int) =~= names);
            reveal_strlit("-o");
            assert("-o"@ =~= seq!['-', 'o']);
        }
        args.push("-o".to_owned());
        args.push(store_path(objects_dir, target.abs_path.as_str()));
        proof {
            let all = texts(args@);
            assert(all.take(all.len() - 2) =~= inputs);
        }
        args
    }

    /// What a worker does with a target it was handed: nothing but the
    /// report when the artifact is in the store, else the link.
    pub fn link_action(&self, target: &Target, objects_dir: &str, cached: bool) -> (action:
        LinkAction)
        ensures
            cached ==> action is UseCached,
            !cached ==> action is Invoke && is_link_command(
                texts(action->Invoke_0@),
                target.dependency_names(),
                self.targets(),
                self.objects(),
                objects_dir@,
                target.abs_path@,
            ),
    {
        if cached {
            LinkAction::UseCached
        } else {
            LinkAction::Invoke(self.link_command(target, objects_dir))
        }
    }

    /// Takes the oldest ready target out of the queue and marks it as
    /// being linked. Every target that it depends on is linked by then.
    pub fn next_ready(&mut self) -> (next: Option<usize>)
        requires
            old(self).wf(),
        ensures
            final(self).wf(),
            final(self).edges() == old(self).edges(),
            final(self).targets() == old(self).targets(),
            final(self).objects() == old(self).objects(),
            final(self).finished() == old(self).finished(),
            match next {
                Some(t) => {
                    &&& old(self).ready().len() > 0
                    &&& t == old(self).ready()[0]
                    &&& final(self).ready() == old(self).ready().drop_first()
                    &&& t < old(self).states().len()
                    &&& old(self).states()[t as int] == TargetState::Ready
                    &&& final(self).states() == old(self).states().update(
                        t as int,
                        TargetState::Linking,
                    )
                    &&& forall|k: int|
                        0 <= k < old(self).edges()[t as int].len() ==> old(self).states()[(
                        #[trigger] old(self).edges()[t as int][k]) as int] == TargetState::Linked
                },
                None => {
                    &&& old(self).ready().len() == 0
                    &&& final(self).ready() == old(self).ready()
                    &&& final(self).states() == old(self).states()
                },
            },
    {
        let ghost r0 = queued(self.ready);
        let ghost s0 = self.state@;
        let head = dequeue(&mut self.ready);
        match head {
            Some(t) => {
                proof {
                    assert(r0.contains(t));
                    lemma_pending_zero(self.edges@[t as int], done_flags(s0));
                    assert forall|k: int| 0 <= k < self.edges@[t as int].len() implies s0[(
                    #[trigger] self.edges@[t as int][k]) as int] == TargetState::Linked by {
                        let d = self.edges@[t as int][k];
                        assert(done_flags(s0)[d as int]);
                    }
                }
                self.state.set(t, TargetState::Linking);
                proof {
                    let r1 = queued(self.ready);
                    assert(done_flags(self.state@) =~= done_flags(s0));
                    assert(r1.no_duplicates());
                    assert forall|x: usize|
                        r1.contains(x) <==> (x < s0.len() && self.state@[x as int]
                            == TargetState::Ready) by {
                        if r1.contains(x) {
                            let m = choose|m: int| 0 <= m < r1.len() && r1[m] == x;
                            assert(r0[m + 1] == x);
                            assert(r0.contains(x));
                        }
                        if x < s0.len() && self.state@[x as int] == TargetState::Ready {
                            assert(r0.contains(x));
                            let m = choose|m: int| 0 <= m < r0.len() && r0[m] == x;
                            assert(r1[m - 1] == x);
                        }
                    }
                }
            },
            None => {},
        }
        head
    }

    /// Reports that the link of a target is done: its artifact was found
    /// in the store, or the link tool ran and succeeded. Each target that
    /// waited for it is told, and those that wait for nothing more join
    /// the ready queue. A report on a target that is not being linked is
    /// refused and changes nothing.
    pub fn finish(&mut self, target: usize) -> (accepted: bool)
        requires
            old(self).wf(),
        ensures
            final(self).wf(),
            final(self).edges() == old(self).edges(),
            final(self).targets() == old(self).targets(),
            final(self).objects() == old(self).objects(),
            accepted == (target < old(self).states().len() && old(self).states()[target as int]
                == TargetState::Linking),
            accepted ==> final(self).states() == states_after(
                old(self).states(),
                old(self).edges(),
                target,
            ),
            accepted ==> final(self).ready() == old(self).ready() + released(
                notify_list(old(self).edges(), target),
                old(self).waiting(),
            ),
            accepted ==> final(self).finished() == old(self).finished() + 1,
            !accepted ==> final(self).states() == old(self).states(),
            !accepted ==> final(self).ready() == old(self).ready(),
            !accepted ==> final(self).finished() == old(self).finished(),
    {
        if target >= self.state.len() {
            return false;
        }
        match self.state[target] {
            TargetState::Linking => {},
            _ => {
                return false;
            },
        }
        let ghost n = self.state@.len();
        let ghost s0 = self.state@;
        let ghost w0 = self.waiting@;
        let ghost r0 = queued(self.ready);
        let ghost edges = self.edges@;
        let ghost deps0 = self.dependents@;
        let ghost list = self.dependents@[target as int]@;
        let ghost done0 = done_flags(s0);
        let ghost done1 = done0.update(target as int, true);
        let ghost wn = old(self).waiting();
        proof {
            lemma_count_true_mark(done0, target as int);
            lemma_count_true_bound(done1);
            assert forall|i: int| 0 <= i < n implies (#[trigger] w0[i]) >= occurrences(
                list,
                i as usize,
            ) && w0[i] == pending(edges[i], done1) + occurrences(list, i as usize) by {
                lemma_notify_occurrences(edges, target, i as usize);
                lemma_pending_mark(edges[i], done0, target);
            }
            assert forall|m: int| 0 <= m < list.len() implies (#[trigger] list[m]) < n by {
                lemma_notify_in_range(edges, target, m);
            }
            assert(wn =~= Seq::new(n, |i: int| w0[i] as nat));
        }
        self.state.set(target, TargetState::Linked);
        self.finished = self.finished + 1;
        let count = self.dependents[target].len();
        let mut m: usize = 0;
        proof {
            assert(list.take(0) =~= Seq::<usize>::empty());
            assert(r0 + released(list.take(0), wn) =~= r0);
            assert forall|x: usize|
                queued(self.ready).contains(x) <==> (x < n && self.state@[x as int]
                    == TargetState::Ready) by {}
        }
        while m < count
            invariant
                m <= count,
                count == list.len(),
                target < n,
                n <= usize::MAX,
                n == s0.len(),
                self.state@.len() == n,
                self.waiting@.len() == n,
                w0.len() == n,
                wn.len() == n,
                self.edges@ == edges,
                self.dependents@ == deps0,
                deps0.len() == n,
                list == deps0[target as int]@,
                self.index == old(self).index,
                self.objects == old(self).objects,
                self.finished == old(self).finished + 1,
                s0[target as int] == TargetState::Linking,
                forall|i: int| 0 <= i < n ==> wn[i] == #[trigger] w0[i],
                forall|i: int| 0 <= i < n ==> (#[trigger] w0[i]) >= occurrences(list, i as usize),
                forall|i: int| 0 <= i < n ==> ((#[trigger] s0[i]) == TargetState::Blocked <==> w0[i] > 0),
                forall|k: int| 0 <= k < list.len() ==> (#[trigger] list[k]) < n,
                forall|i: int|
                    0 <= i < n ==> (#[trigger] self.waiting@[i]) + occurrences(
                        list.take(m as int),
                        i as usize,
                    ) == w0[i],
                forall|i: int|
                    0 <= i < n ==> (#[trigger] self.state@[i]) == (if i == target {
                        TargetState::Linked
                    } else if s0[i] == TargetState::Blocked && self.waiting@[i] == 0 {
                        TargetState::Ready
                    } else {
                        s0[i]
                    }),
                queued(self.ready) == r0 + released(list.take(m as int), wn),
                queued(self.ready).no_duplicates(),
                forall|x: usize|
                    queued(self.ready).contains(x) <==> (x < n && self.state@[x as int]
                        == TargetState::Ready),
            decreases count - m,
        {
            let d = self.dependents[target][m];
            let ghost pre = list.take(m as int);
            let ghost cur = list.take(m + 1);
            let ghost rq = queued(self.ready);
            let ghost sq = self.state@;
            let ghost wq = self.waiting@;
            proof {
                assert(d == list[m as int]);
                assert(cur =~= pre.push(d));
                assert(cur.drop_last() =~= pre);
                lemma_occurrences_take(list, m + 1, d);
                lemma_occurrences_push(pre, d, d);
                assert(wq[d as int] + occurrences(pre, d) == w0[d as int]);
                assert(w0[d as int] >= occurrences(list, d));
                assert(wq[d as int] >= 1);
            }
            let w = self.waiting[d] - 1;
            self.waiting.set(d, w);
            proof {
                assert(w0[d as int] > 0);
                assert(s0[d as int] == TargetState::Blocked);
                assert(d != target);
                assert(sq[d as int] == TargetState::Blocked);
                assert forall|i: int| 0 <= i < n implies (#[trigger] self.waiting@[i])
                    + occurrences(cur, i as usize) == w0[i] by {
                    lemma_occurrences_push(pre, d, i as usize);
                    assert(wq[i] + occurrences(pre, i as usize) == w0[i]);
                }
            }
            if w == 0 {
                self.state.set(d, TargetState::Ready);
                enqueue(&mut self.ready, d);
                proof {
                    let rn = queued(self.ready);
                    assert(!rq.contains(d));
                    assert(rn =~= r0 + released(cur, wn));
                    assert(rn.no_duplicates());
                    assert forall|x: usize|
                        rn.contains(x) <==> (x < n && self.state@[x as int]
                            == TargetState::Ready) by {
                        if rn.contains(x) {
                            let j = choose|j: int| 0 <= j < rn.len() && rn[j] == x;
                            if j < rq.len() {
                                assert(rq[j] == x);
                                assert(rq.contains(x));
                            }
                        }
                        if x < n && self.state@[x as int] == TargetState::Ready {
                            if x != d {
                                assert(rq.contains(x));
                                let j = choose|j: int| 0 <= j < rq.len() && rq[j] == x;
                                assert(rn[j] == x);
                            } else {
                                assert(rn[rq.len() as int] == x);
                            }
                        }
                    }
                }
            } else {
                proof {
                    assert(queued(self.ready) =~= r0 + released(cur, wn));
                }
            }
            m += 1;
        }
        proof {
            assert(list.take(m as int) =~= list);
            assert(done_flags(self.state@) =~= done1);
            assert(self.state@ =~= states_after(s0, edges, target));
        }
        true
    }

    /// What holds of a scheduler at all times: a target is blocked exactly
    /// while it waits for a dependency; the ready queue holds the ready
    /// targets and each of them once; the counter counts the linked
    /// targets.
    pub proof fn lemma_invariant(self)
        requires
            self.wf(),
        ensures
            self.states().len() == self.edges().len(),
            self.states().len() <= usize::MAX,
            edges_in_range(self.edges()),
            forall|i: int|
                0 <= i < self.states().len() ==> ((#[trigger] self.states()[i])
                    == TargetState::Blocked <==> self.waiting()[i] > 0),
            self.ready().no_duplicates(),
            forall|x: usize|
                self.ready().contains(x) <==> (x < self.states().len() && self.states()[x as int]
                    == TargetState::Ready),
            self.finished() == count_true(done_flags(self.states())),
            self.finished() <= self.states().len(),
    {
        lemma_count_true_bound(done_flags(self.state@));
        assert forall|i: int| 0 <= i < self.states().len() implies ((#[trigger] self.states()[i])
            == TargetState::Blocked <==> self.waiting()[i] > 0) by {
            assert(self.waiting@[i] == self.waiting()[i]);
        }
    }

    /// A target that is not blocked has all its dependencies linked.
    pub proof fn lemma_dependencies_linked(self, i: int, k: int)
        requires
            self.wf(),
            0 <= i < self.states().len(),
            self.states()[i] != TargetState::Blocked,
            0 <= k < self.edges()[i].len(),
        ensures
            self.edges()[i][k] < self.states().len(),
            self.states()[self.edges()[i][k] as int] == TargetState::Linked,
    {
        lemma_pending_zero(self.edges@[i], done_flags(self.state@));
        let d = self.edges@[i][k];
        assert(self.waiting@[i] == 0);
        assert(done_flags(self.state@)[d as int]);
    }

    /// While targets remain in an acyclic graph, there is work to hand
    /// out or work under way: if nothing is being linked, a target is
    /// ready.
    pub proof fn lemma_progress(self)
        requires
            self.wf(),
            acyclic(self.edges()),
            self.finished() < self.states().len(),
            forall|i: int|
                0 <= i < self.states().len() ==> self.states()[i] != TargetState::Linking,
        ensures
            self.ready().len() > 0,
    {
        let done = done_flags(self.state@);
        lemma_count_true_bound(done);
        let i = choose|i: int| 0 <= i < done.len() && !done[i];
        if self.state@[i] == TargetState::Ready {
            assert(queued(self.ready).contains(i as usize));
        } else {
            let rank = choose|rank: Seq<nat>| is_ranking(self.edges@, rank);
            let r = self.lemma_blocked_reaches_ready(rank, i);
            assert(queued(self.ready).contains(r as usize));
        }
    }

    /// From a blocked target, following dependencies that are not
    /// linked leads to a ready target, if the graph is acyclic and
    /// nothing is being linked.
    proof fn lemma_blocked_reaches_ready(self, rank: Seq<nat>, i: int) -> (r: int)
        requires
            self.wf(),
            is_ranking(self.edges(), rank),
            0 <= i < self.states().len(),
            self.states()[i] == TargetState::Blocked,
            forall|j: int|
                0 <= j < self.states().len() ==> self.states()[j] != TargetState::Linking,
        ensures
            0 <= r < self.states().len(),
            self.states()[r] == TargetState::Ready,
        decreases rank[i],
    {
        let done = done_flags(self.state@);
        lemma_pending_zero(self.edges@[i], done);
        assert(self.waiting@[i] > 0);
        let k = choose|k: int|
            0 <= k < self.edges@[i].len() && !done[(#[trigger] self.edges@[i][k]) as int];
        let j = self.edges@[i][k] as int;
        assert(j < self.state@.len());
        if self.state@[j] == TargetState::Ready {
            j
        } else {
            self.lemma_blocked_reaches_ready(rank, j)
        }
    }
}

/// The targets of each step of a plan, in order.
pub open spec fn plan_order(plan: Seq<(usize, LinkAction)>) -> Seq<usize> {
    plan.map_values(|step: (usize, LinkAction)| step.0)
}

/// Whether the artifact of the target at a position is in the store.
pub open spec fn is_cached(cached: Seq<bool>, target: usize) -> bool {
    target < cached.len() && cached[target as int]
}

/// Whether a step does for its target what is to be done: nothing when
/// the artifact is in the store, else the link of the target.
pub open spec fn is_planned_step(
    step: (usize, LinkAction),
    c: Collection,
    dir: Seq<char>,
    cached: Seq<bool>,
) -> bool {
    let target = step.0;
    &&& target < c.scripts@.len()
    &&& is_cached(cached, target) ==> step.1 is UseCached
    &&& !is_cached(cached, target) ==> step.1 is Invoke && is_link_command(
        texts(step.1->Invoke_0@),
        c.scripts@[target as int].target.dependency_names(),
        positions(c.target_paths()),
        members(c.object_paths()),
        dir,
        c.scripts@[target as int].target.abs_path@,
    )
}

/// The steps of a link run that links one target after the other: the
/// targets in the order in which the scheduler hands them out when each
/// link is reported before the next target is taken, each with what is
/// done for it. `cached` tells for each position whether the target's
/// artifact is in the store; a position beyond its end counts as absent.
///
/// A target whose artifact is in the store is not linked, and the targets
/// that depend on it are planned all the same. Every target comes after
/// the targets it depends on. The plan holds every target exactly when
/// the graph is acyclic; in a graph with a cycle it leaves out the
/// targets on a cycle and those that depend on them.
pub fn plan_links(collection: &Collection, objects_dir: &str, cached: &Vec<bool>) -> (plan: Vec<
    (usize, LinkAction),
>)
    ensures
        is_link_order(plan_order(plan@), link_edges(*collection)),
        is_full_order(plan_order(plan@), link_edges(*collection)),
        forall|p: int|
            0 <= p < plan@.len() ==> is_planned_step(
                #[trigger] plan@[p],
                *collection,
                objects_dir@,
                cached@,
            ),
        plan@.len() <= collection.scripts@.len(),
        plan@.len() == collection.scripts@.len() <==> acyclic(link_edges(*collection)),
{
    let mut s = LinkScheduler::new(collection);
    let ghost edges = link_edges(*collection);
    let n = s.total();
    let mut plan: Vec<(usize, LinkAction)> = Vec::new();
    let ghost mut order: Seq<usize> = Seq::empty();
    let mut done = false;
    proof {
        lemma_count_true_bound(done_flags(s.state@));
        assert forall|i: int| 0 <= i < n implies s.state@[i] != TargetState::Linked by {
            assert(!done_flags(s.state@)[i]);
        }
        assert(order =~= plan_order(plan@));
    }
    while !done
        invariant
            s.wf(),
            s.edges@ == edges,
            s.targets() == positions(collection.target_paths()),
            s.objects() == members(collection.object_paths()),
            n == edges.len(),
            n == s.state@.len(),
            n == collection.scripts@.len(),
            order == plan_order(plan@),
            forall|i: int| 0 <= i < n ==> s.state@[i] != TargetState::Linking,
            forall|i: int|
                0 <= i < n ==> (order.contains(i as usize) <==> s.state@[i] == TargetState::Linked),
            is_link_order(order, edges),
            forall|p: int|
                0 <= p < plan@.len() ==> is_planned_step(
                    #[trigger] plan@[p],
                    *collection,
                    objects_dir@,
                    cached@,
                ),
            order.len() == s.finished,
            s.finished <= n,
            done ==> queued(s.ready).len() == 0,
        decreases n - s.finished + if done { 0int } else { 1int },
    {
        let ghost before = order;
        let ghost steps = plan@;
        let ghost s0 = s.state@;
        match s.next_ready() {
            Some(t) => {
                let hit = t < cached.len() && cached[t];
                let action = s.link_action(&collection.scripts[t].target, objects_dir, hit);
                plan.push((t, action));
                let accepted = s.finish(t);
                proof {
                    order = before.push(t);
                    assert(order =~= plan_order(plan@));
                    assert forall|p: int| 0 <= p < plan@.len() implies is_planned_step(
                        #[trigger] plan@[p],
                        *collection,
                        objects_dir@,
                        cached@,
                    ) by {
                        if p < steps.len() {
                            assert(plan@[p] == steps[p]);
                        }
                    }
                    let s1 = s0.update(t as int, TargetState::Linking);
                    assert(s.state@ == states_after(s1, edges, t));
                    lemma_count_true_bound(done_flags(s.state@));
                    assert(!before.contains(t));
                    assert(order.no_duplicates());
                    assert forall|i: int| 0 <= i < n implies (order.contains(i as usize)
                        <==> s.state@[i] == TargetState::Linked) by {
                        if order.contains(i as usize) {
                            let q = choose|q: int| 0 <= q < order.len() && order[q] == i as usize;
                            if q < before.len() {
                                assert(before[q] == i as usize);
                                assert(before.contains(i as usize));
                            }
                        }
                        if s.state@[i] == TargetState::Linked {
                            if i != t {
                                assert(before.contains(i as usize));
                                let q = choose|q: int|
                                    0 <= q < before.len() && before[q] == i as usize;
                                assert(order[q] == i as usize);
                            } else {
                                assert(order[before.len() as int] == t);
                            }
                        }
                    }
                    assert forall|p: int, k: int|
                        0 <= p < order.len() && 0 <= k < edges[order[p] as int].len() implies comes_before(
                        order,
                        #[trigger] edges[order[p] as int][k],
                        p,
                    ) by {
                        let d = edges[order[p] as int][k];
                        if p < before.len() {
                            assert(before[p] == order[p]);
                            assert(comes_before(before, edges[before[p] as int][k], p));
                            let q = choose|q: int| 0 <= q < p && q < before.len() && before[q] == d;
                            assert(order[q] == d);
                        } else {
                            assert(d == edges[t as int][k]);
                            assert(s0[d as int] == TargetState::Linked);
                            assert(before.contains(d));
                            let q = choose|q: int| 0 <= q < before.len() && before[q] == d;
                            assert(order[q] == d);
                        }
                    }
                }
            },
            None => {
                done = true;
            },
        }
    }
    proof {
        assert forall|i: int|
            0 <= i < edges.len() && !order.contains(i as usize) implies needs_one_outside(
            order,
            #[trigger] edges[i],
        ) by {
            if s.state@[i] == TargetState::Ready {
                assert(queued(s.ready).contains(i as usize));
            }
            assert(s.state@[i] == TargetState::Blocked);
            lemma_pending_zero(edges[i], done_flags(s.state@));
            let k = choose|k: int|
                0 <= k < edges[i].len() && !done_flags(s.state@)[(#[trigger] edges[i][k]) as int];
            assert(edges[i][k] < n);
            assert(!order.contains(edges[i][k]));
        }
        if acyclic(edges) && s.finished < n {
            s.lemma_progress();
        }
        if order.len() == n {
            lemma_count_true_bound(done_flags(s.state@));
            assert forall|i: usize| i < edges.len() implies order.contains(i) by {
                assert(done_flags(s.state@)[i as int]);
                assert(s.state@[i as int] == TargetState::Linked);
            }
            lemma_order_gives_ranking(order, edges);
        }
    }
    plan
}

} // verus!
