//! Runs playouts on a search tree and reads the result off it.
use vstd::prelude::*;
use crate::mcts::{CycleBehaviour, Evaluator, GameState, Mcts, Move, TranspositionHash};
use crate::mcts::node::{MoveInfo, NodeView};
use crate::mcts::search_tree::{
    Memory, PlayoutOutcome, SearchSettings, SearchTree, given_by, grown_from, is_most_visited, made_of,
    most_visited, moves_along, played, root_walked, variation, visited_once, visits_kept,
    lemma_grown_twice,
};
use crate::mcts::transposition_table::ApproxTable;
use crate::mcts::tree_policy::{UCTPolicy, visits_upto};

verus! {

/// How often the moves were visited, all together.
pub open spec fn total_visits<M>(moves: Seq<MoveInfo<M>>) -> nat {
    visits_upto(moves, moves.len())
}

proof fn lemma_visits_kept_upto<M>(before: Seq<MoveInfo<M>>, after: Seq<MoveInfo<M>>, n: nat)
    requires
        visits_kept(before, after),
        n <= before.len(),
    ensures
        visits_upto(after, n) == visits_upto(before, n),
    decreases n,
{
    if n > 0 {
        lemma_visits_kept_upto(before, after, (n - 1) as nat);
        assert(after[n - 1].visits == before[n - 1].visits);
    }
}

proof fn lemma_visited_once_upto<M>(
    before: Seq<MoveInfo<M>>,
    after: Seq<MoveInfo<M>>,
    choice: int,
    n: nat,
)
    requires
        visited_once(before, after, choice),
        n <= before.len(),
    ensures
        visits_upto(before, n) <= visits_upto(after, n) <= visits_upto(before, n) + 1,
        before[choice].visits < u64::MAX
            ==> visits_upto(after, n) == visits_upto(before, n) + if choice
            < n {
            1nat
        } else {
            0
        },
        choice < n ==> visits_upto(before, n) >= before[choice].visits,
    decreases n,
{
    if n > 0 {
        lemma_visited_once_upto(before, after, choice, (n - 1) as nat);
        if choice != n - 1 {
            assert(after[n - 1].visits == before[n - 1].visits);
        }
    }
}

/// A playout that counts one visit at the root adds one to the visits of
/// the root's moves, unless the count of the move is at its cap.
pub proof fn lemma_one_more_visit<M>(before: Seq<MoveInfo<M>>, after: Seq<MoveInfo<M>>, choice: int)
    requires
        visited_once(before, after, choice),
    ensures
        total_visits(before) <= total_visits(after) <= total_visits(before) + 1,
        total_visits(before) < u64::MAX ==> total_visits(after) == total_visits(before) + 1,
{
    lemma_visited_once_upto(before, after, choice, before.len());
}

/// The playout at `k` makes the tree and the table after it of the tree and
/// the table before it, and walks the path at `k`. It finishes, unless it is
/// the last; the last ends as `last` says.
pub open spec fn round<State: GameState + TranspositionHash, Eval: Evaluator<State>>(
    root: State,
    eval: &Eval,
    policy: UCTPolicy,
    settings: SearchSettings,
    trees: Seq<Seq<NodeView<State::Move>>>,
    memories: Seq<Memory>,
    paths: Seq<Seq<(usize, usize)>>,
    last: PlayoutOutcome,
    k: int,
) -> bool {
    played::<State, Eval>(
        root,
        eval,
        policy,
        settings,
        trees[k],
        memories[k],
        trees[k + 1],
        memories[k + 1],
        if k + 1 < paths.len() {
            PlayoutOutcome::Finished
        } else {
            last
        },
        paths[k],
    )
}

/// The trees and the memories are those that playouts make one of the other,
/// one playout for each path; all of them finish but the last, which ends
/// as `last` says.
#[verifier::opaque]
pub open spec fn rounds<State: GameState + TranspositionHash, Eval: Evaluator<State>>(
    root: State,
    eval: &Eval,
    policy: UCTPolicy,
    settings: SearchSettings,
    trees: Seq<Seq<NodeView<State::Move>>>,
    memories: Seq<Memory>,
    paths: Seq<Seq<(usize, usize)>>,
    last: PlayoutOutcome,
) -> bool {
    &&& trees.len() == paths.len() + 1
    &&& memories.len() == paths.len() + 1
    &&& forall|k: int|
        0 <= k < paths.len() ==> #[trigger] round::<State, Eval>(
            root,
            eval,
            policy,
            settings,
            trees,
            memories,
            paths,
            last,
            k,
        )
}

/// The tree `after`, what the search remembers after, `memory_after`, and
/// the outcome are what a search of `n` playouts makes of the tree `start`
/// and of `memory`: playout after playout, each on the tree and with the
/// memory that the one before it has left, until `n` playouts have finished
/// or one of them is given up, which ends the search with the outcome of
/// that playout.
pub open spec fn searched<State: GameState + TranspositionHash, Eval: Evaluator<State>>(
    root: State,
    eval: &Eval,
    policy: UCTPolicy,
    settings: SearchSettings,
    start: Seq<NodeView<State::Move>>,
    memory: Memory,
    after: Seq<NodeView<State::Move>>,
    memory_after: Memory,
    n: nat,
    outcome: PlayoutOutcome,
) -> bool {
    exists|
        trees: Seq<Seq<NodeView<State::Move>>>,
        memories: Seq<Memory>,
        paths: Seq<Seq<(usize, usize)>>,
    | #[trigger]
        rounds::<State, Eval>(root, eval, policy, settings, trees, memories, paths, outcome)
            && trees[0] == start && trees.last() == after && memories[0] == memory && memories.last()
            == memory_after && paths.len() <= n && (outcome == PlayoutOutcome::Finished
            ==> paths.len() == n) && (outcome != PlayoutOutcome::Finished ==> paths.len() >= 1)
}

proof fn lemma_rounds_start<State: GameState + TranspositionHash, Eval: Evaluator<State>>(
    root: State,
    eval: &Eval,
    policy: UCTPolicy,
    settings: SearchSettings,
    start: Seq<NodeView<State::Move>>,
    memory: Memory,
)
    ensures
        rounds::<State, Eval>(
            root,
            eval,
            policy,
            settings,
            seq![start],
            seq![memory],
            Seq::<Seq<(usize, usize)>>::empty(),
            PlayoutOutcome::Finished,
        ),
{
    reveal(rounds);
}

proof fn lemma_rounds_push<State: GameState + TranspositionHash, Eval: Evaluator<State>>(
    root: State,
    eval: &Eval,
    policy: UCTPolicy,
    settings: SearchSettings,
    trees: Seq<Seq<NodeView<State::Move>>>,
    memories: Seq<Memory>,
    paths: Seq<Seq<(usize, usize)>>,
    after: Seq<NodeView<State::Move>>,
    memory_after: Memory,
    outcome: PlayoutOutcome,
    path: Seq<(usize, usize)>,
)
    requires
        rounds::<State, Eval>(
            root,
            eval,
            policy,
            settings,
            trees,
            memories,
            paths,
            PlayoutOutcome::Finished,
        ),
        played::<State, Eval>(
            root,
            eval,
            policy,
            settings,
            trees.last(),
            memories.last(),
            after,
            memory_after,
            outcome,
            path,
        ),
    ensures
        rounds::<State, Eval>(
            root,
            eval,
            policy,
            settings,
            trees.push(after),
            memories.push(memory_after),
            paths.push(path),
            outcome,
        ),
{
    reveal(rounds);
    let more_trees = trees.push(after);
    let more_memories = memories.push(memory_after);
    let more_paths = paths.push(path);
    assert forall|k: int| 0 <= k < more_paths.len() implies #[trigger] round::<State, Eval>(
        root,
        eval,
        policy,
        settings,
        more_trees,
        more_memories,
        more_paths,
        outcome,
        k,
    ) by {
        if k < paths.len() {
            assert(round::<State, Eval>(
                root,
                eval,
                policy,
                settings,
                trees,
                memories,
                paths,
                PlayoutOutcome::Finished,
                k,
            ));
            assert(more_trees[k] == trees[k]);
            assert(more_trees[k + 1] == trees[k + 1]);
            assert(more_memories[k] == memories[k]);
            assert(more_memories[k + 1] == memories[k + 1]);
            assert(more_paths[k] == paths[k]);
        } else {
            assert(more_trees[k] == trees.last());
            assert(more_trees[k + 1] == after);
            assert(more_memories[k] == memories.last());
            assert(more_memories[k + 1] == memory_after);
            assert(more_paths[k] == path);
        }
    }
}

/// The move makes `after` of a copy of the position `before`, in which it
/// can be made.
pub open spec fn step_made<State: GameState>(before: State, mov: State::Move, after: State) -> bool {
    exists|copy: State|
        #![trigger call_ensures(<State as Clone>::clone, (&before,), copy)]
        call_ensures(<State as Clone>::clone, (&before,), copy) && copy.accepts(&mov)
            && State::moved(&copy, &mov, &after)
}

/// The move cannot be made in a copy of the position `before`.
pub open spec fn step_refused<State: GameState>(before: State, mov: State::Move) -> bool {
    exists|copy: State|
        #![trigger call_ensures(<State as Clone>::clone, (&before,), copy)]
        call_ensures(<State as Clone>::clone, (&before,), copy) && !copy.accepts(&mov)
}

/// The search: a tree and the playouts on it.
pub struct MctsManager<Spec: Mcts, Eval: Evaluator<Spec::State>> {
    search_tree: SearchTree<Spec, Eval>,
    print_on_playout_error: bool,
}

impl<Spec: Mcts, Eval: Evaluator<Spec::State>> MctsManager<Spec, Eval> {
    /// The tree of the search.
    pub closed spec fn view_tree(&self) -> SearchTree<Spec, Eval> {
        self.search_tree
    }

    /// The tree of the search is in order.
    pub open spec fn wf(&self) -> bool {
        self.view_tree().wf()
    }

    /// The nodes of the tree; the first is the root.
    pub open spec fn nodes(&self) -> Seq<NodeView<Move<Spec>>> {
        self.view_tree().nodes()
    }

    /// A search from `state`, with nothing searched yet.
    pub fn new(
        state: Spec::State,
        manager: Spec,
        eval: Eval,
        tree_policy: UCTPolicy,
        table: ApproxTable,
    ) -> (search: Self)
        requires
            table.wf(),
        ensures
            search.wf(),
            search.view_tree().root() == state,
            search.view_tree().evaluator() == eval,
            made_of(search.nodes()[0], &state, &eval),
            given_by(&manager, search.view_tree().settings()),
            search.view_tree().policy() == tree_policy,
            search.view_tree().table_capacity() == table@.len(),
            search.nodes().len() == 1,
            total_visits(search.nodes()[0].moves) == 0,
            search.view_tree().table_entries() == 0,
            search.view_tree().table_hits() == 0,
            search.reports_errors(),
    {
        let search_tree = SearchTree::new(state, manager, tree_policy, eval, table);
        proof {
            lemma_fresh_visits(search_tree.nodes()[0].moves, search_tree.nodes()[0].moves.len());
            search_tree.lemma_root_moves();
        }
        MctsManager { search_tree, print_on_playout_error: true }
    }

    /// A search from `state` with the settings given, with nothing searched yet.
    pub fn with_settings(
        state: Spec::State,
        settings: SearchSettings,
        eval: Eval,
        tree_policy: UCTPolicy,
        table: ApproxTable,
    ) -> (search: Self)
        requires
            table.wf(),
        ensures
            search.wf(),
            search.view_tree().root() == state,
            search.view_tree().evaluator() == eval,
            made_of(search.nodes()[0], &state, &eval),
            search.view_tree().settings() == settings,
            search.view_tree().policy() == tree_policy,
            search.view_tree().table_capacity() == table@.len(),
            search.nodes().len() == 1,
            total_visits(search.nodes()[0].moves) == 0,
            search.view_tree().table_entries() == 0,
            search.view_tree().table_hits() == 0,
            search.reports_errors(),
    {
        let search_tree = SearchTree::with_settings(state, settings, tree_policy, eval, table);
        proof {
            lemma_fresh_visits(search_tree.nodes()[0].moves, search_tree.nodes()[0].moves.len());
            search_tree.lemma_root_moves();
        }
        MctsManager { search_tree, print_on_playout_error: true }
    }

    /// Whether a playout that was given up is to be reported by whoever
    /// runs the search.
    pub closed spec fn reports_errors(&self) -> bool {
        self.print_on_playout_error
    }

    /// Says whether a playout that was given up is to be reported by whoever
    /// runs the search; it is, unless this says otherwise.
    pub fn print_on_playout_error(&mut self, v: bool) -> (search: &mut Self)
        ensures
            *final(self) == *final(search),
            search.reports_errors() == v,
            search.view_tree() == old(self).view_tree(),
    {
        self.print_on_playout_error = v;
        self
    }

    pub fn get_print_on_playout_error(&self) -> (reports: bool)
        ensures
            reports == self.reports_errors(),
    {
        self.print_on_playout_error
    }

    /// One playout.
    pub fn playout(&mut self) -> (outcome: PlayoutOutcome)
        requires
            old(self).wf(),
        ensures
            final(self).wf(),
            final(self).view_tree().same_search(&old(self).view_tree()),
            old(self).view_tree().table_entries() <= final(self).view_tree().table_entries()
                <= old(self).view_tree().table_entries() + final(self).nodes().len() - old(self).nodes().len(),
            final(self).reports_errors() == old(self).reports_errors(),
            grown_from(old(self).nodes(), final(self).nodes()),
            old(self).view_tree().settings().visits_before_expansion >= 1
                ==> final(self).nodes().len() <= old(self).nodes().len() + 1,
            outcome == PlayoutOutcome::NodeLimitReached
                <==> old(self).nodes().len() >= old(self).view_tree().settings().node_limit,
            outcome == PlayoutOutcome::NodeLimitReached
                ==> final(self).nodes() == old(self).nodes(),
            outcome == PlayoutOutcome::CycleDetected
                ==> old(self).view_tree().settings().cycle_behaviour
                    == CycleBehaviour::PanicWhenCycleDetected,
            outcome == PlayoutOutcome::LengthExceeded && !(
            old(self).view_tree().settings().cycle_behaviour is Ignore)
                ==> old(self).view_tree().settings().max_playout_length
                    <= final(self).nodes().len(),
            old(self).nodes()[0].moves.len() == 0
                && old(self).nodes().len() < old(self).view_tree().settings().node_limit
                ==> outcome == PlayoutOutcome::Finished,
            total_visits(old(self).nodes()[0].moves) <= total_visits(final(self).nodes()[0].moves)
                <= total_visits(old(self).nodes()[0].moves) + 1,
            outcome == PlayoutOutcome::Finished && old(self).nodes()[0].moves.len() > 0
                && total_visits(old(self).nodes()[0].moves) < u64::MAX ==> total_visits(
                final(self).nodes()[0].moves,
            ) == total_visits(old(self).nodes()[0].moves) + 1,
            exists|path: Seq<(usize, usize)>| #[trigger]
                played::<Spec::State, Eval>(
                    old(self).view_tree().root(),
                    &old(self).view_tree().evaluator(),
                    old(self).view_tree().policy(),
                    old(self).view_tree().settings(),
                    old(self).nodes(),
                    old(self).view_tree().memory(),
                    final(self).nodes(),
                    final(self).view_tree().memory(),
                    outcome,
                    path,
                ),
    {
        let ghost before = self.search_tree.nodes();
        let settings = self.search_tree.get_settings();
        proof {
            self.search_tree.lemma_root_moves();
        }
        let ghost earlier = self.search_tree;
        let outcome = self.search_tree.playout();
        proof {
            let after = self.search_tree.nodes();
            self.search_tree.lemma_root_moves();
            let path = choose|path: Seq<(usize, usize)>| #[trigger]
                played::<Spec::State, Eval>(
                    earlier.root(),
                    &earlier.evaluator(),
                    earlier.policy(),
                    earlier.settings(),
                    earlier.nodes(),
                    earlier.memory(),
                    after,
                    self.search_tree.memory(),
                    outcome,
                    path,
                );
            assert(played::<Spec::State, Eval>(
                old(self).view_tree().root(),
                &old(self).view_tree().evaluator(),
                old(self).view_tree().policy(),
                old(self).view_tree().settings(),
                old(self).nodes(),
                old(self).view_tree().memory(),
                self.nodes(),
                self.view_tree().memory(),
                outcome,
                path,
            ));
            if outcome != PlayoutOutcome::NodeLimitReached {
                if before[0].moves.len() == 0 || settings.max_playout_length == 0 || (outcome
                    == PlayoutOutcome::MoveRefused && visits_kept(
                    before[0].moves,
                    after[0].moves,
                )) {
                    lemma_visits_kept_upto(before[0].moves, after[0].moves, before[0].moves.len());
                } else {
                    let first = choose|first: int|
                        #[trigger] root_walked(
                            old(self).view_tree().policy(),
                            before,
                            after,
                            1,
                            first,
                        );
                    lemma_one_more_visit(before[0].moves, after[0].moves, first);
                }
            }
        }
        outcome
    }

    /// Up to `n` playouts, one after the other; the first that does not
    /// finish ends the run. Returns how the last playout ended, or
    /// `Finished` if none was asked for.
    pub fn playout_n(&mut self, n: u64) -> (outcome: PlayoutOutcome)
        requires
            old(self).wf(),
        ensures
            final(self).wf(),
            final(self).view_tree().same_search(&old(self).view_tree()),
            old(self).view_tree().table_entries() <= final(self).view_tree().table_entries()
                <= old(self).view_tree().table_entries() + final(self).nodes().len() - old(self).nodes().len(),
            final(self).reports_errors() == old(self).reports_errors(),
            grown_from(old(self).nodes(), final(self).nodes()),
            old(self).view_tree().settings().visits_before_expansion >= 1
                ==> final(self).nodes().len() <= old(self).nodes().len() + n,
            n == 0
                ==> outcome == PlayoutOutcome::Finished && final(self).nodes() == old(self).nodes(),
            outcome == PlayoutOutcome::NodeLimitReached
                ==> final(self).nodes().len() >= old(self).view_tree().settings().node_limit,
            n > 0 && old(self).nodes().len() >= old(self).view_tree().settings().node_limit
                ==> outcome == PlayoutOutcome::NodeLimitReached
                    && final(self).nodes() == old(self).nodes(),
            outcome == PlayoutOutcome::CycleDetected
                ==> old(self).view_tree().settings().cycle_behaviour
                    == CycleBehaviour::PanicWhenCycleDetected,
            outcome == PlayoutOutcome::LengthExceeded && !(
            old(self).view_tree().settings().cycle_behaviour is Ignore)
                ==> old(self).view_tree().settings().max_playout_length
                    <= final(self).nodes().len(),
            total_visits(old(self).nodes()[0].moves) <= total_visits(final(self).nodes()[0].moves)
                <= total_visits(old(self).nodes()[0].moves) + n,
            outcome == PlayoutOutcome::Finished && old(self).nodes()[0].moves.len() > 0
                && total_visits(old(self).nodes()[0].moves) + n <= u64::MAX ==> total_visits(
                final(self).nodes()[0].moves,
            ) == total_visits(old(self).nodes()[0].moves) + n,
            searched::<Spec::State, Eval>(
                old(self).view_tree().root(),
                &old(self).view_tree().evaluator(),
                old(self).view_tree().policy(),
                old(self).view_tree().settings(),
                old(self).nodes(),
                old(self).view_tree().memory(),
                final(self).nodes(),
                final(self).view_tree().memory(),
                n as nat,
                outcome,
            ),
    {
        let ghost start = self.search_tree.nodes();
        proof {
            self.search_tree.lemma_same_search();
            self.search_tree.lemma_root_moves();
            lemma_grown_twice(start, start, start);
            lemma_rounds_start::<Spec::State, Eval>(
                self.search_tree.root(),
                &self.search_tree.evaluator(),
                self.search_tree.policy(),
                self.search_tree.settings(),
                start,
                self.search_tree.memory(),
            );
        }
        let ghost mut trees: Seq<Seq<NodeView<<Spec::State as GameState>::Move>>> = seq![start];
        let ghost mut memories: Seq<Memory> = seq![self.search_tree.memory()];
        let ghost mut paths: Seq<Seq<(usize, usize)>> = Seq::empty();
        let mut done: u64 = 0;
        while done < n
            invariant
                done <= n,
                rounds::<Spec::State, Eval>(
                    old(self).view_tree().root(),
                    &old(self).view_tree().evaluator(),
                    old(self).view_tree().policy(),
                    old(self).view_tree().settings(),
                    trees,
                    memories,
                    paths,
                    PlayoutOutcome::Finished,
                ),
                trees.len() == paths.len() + 1,
                memories.len() == paths.len() + 1,
                trees[0] == start,
                trees.last() == self.nodes(),
                memories[0] == old(self).view_tree().memory(),
                memories.last() == self.view_tree().memory(),
                paths.len() == done,
                self.wf(),
                self.view_tree().same_search(&old(self).view_tree()),
                self.reports_errors() == old(self).reports_errors(),
                start == old(self).nodes(),
                start.len() >= 1,
                grown_from(start, self.nodes()),
                old(self).view_tree().table_entries() <= self.view_tree().table_entries()
                    <= old(self).view_tree().table_entries() + self.nodes().len() - start.len(),
                done == 0 ==> self.nodes() == start,
                old(self).view_tree().settings().visits_before_expansion >= 1
                    ==> self.nodes().len() <= start.len() + done,
                done > 0 ==> start.len() < old(self).view_tree().settings().node_limit,
                self.view_tree().settings() == old(self).view_tree().settings(),
                total_visits(start[0].moves) <= total_visits(self.nodes()[0].moves)
                    <= total_visits(start[0].moves) + done,
                start[0].moves.len() > 0 && total_visits(start[0].moves) + n <= u64::MAX
                    ==> total_visits(self.nodes()[0].moves) == total_visits(start[0].moves) + done,
            decreases n - done,
        {
            let ghost before = self.search_tree.nodes();
            let ghost earlier = self.search_tree;
            assert(crate::mcts::search_tree::node_kept(start[0], before[0]));
            let outcome = self.playout();
            proof {
                lemma_grown_twice(start, before, self.nodes());
                self.search_tree.lemma_same_search_twice(&earlier, &old(self).view_tree());
                old(self).view_tree().lemma_same_search();
                earlier.lemma_same_search_twice(&old(self).view_tree(), &old(self).view_tree());
                let path = choose|path: Seq<(usize, usize)>| #[trigger]
                    played::<Spec::State, Eval>(
                        earlier.root(),
                        &earlier.evaluator(),
                        earlier.policy(),
                        earlier.settings(),
                        before,
                        earlier.memory(),
                        self.nodes(),
                        self.view_tree().memory(),
                        outcome,
                        path,
                    );
                assert(played::<Spec::State, Eval>(
                    old(self).view_tree().root(),
                    &old(self).view_tree().evaluator(),
                    old(self).view_tree().policy(),
                    old(self).view_tree().settings(),
                    before,
                    earlier.memory(),
                    self.nodes(),
                    self.view_tree().memory(),
                    outcome,
                    path,
                ) && grown_from(start, before));
                lemma_rounds_push::<Spec::State, Eval>(
                    old(self).view_tree().root(),
                    &old(self).view_tree().evaluator(),
                    old(self).view_tree().policy(),
                    old(self).view_tree().settings(),
                    trees,
                    memories,
                    paths,
                    self.nodes(),
                    self.view_tree().memory(),
                    outcome,
                    path,
                );
                trees = trees.push(self.nodes());
                memories = memories.push(self.view_tree().memory());
                paths = paths.push(path);
            }
            if outcome != PlayoutOutcome::Finished {
                return outcome;
            }
            done += 1;
        }
        PlayoutOutcome::Finished
    }

    /// The tree of the search.
    pub fn tree(&self) -> (tree: &SearchTree<Spec, Eval>)
        ensures
            *tree == self.view_tree(),
    {
        &self.search_tree
    }

    /// The line of play that the search recommends, at most `num_moves`
    /// long: what the search knows of each move on it.
    pub fn principal_variation_info(&self, num_moves: usize) -> (line: Vec<&MoveInfo<Move<Spec>>>)
        requires
            self.wf(),
        ensures
            line.len() == variation(self.nodes(), 0, num_moves as nat).len(),
            forall|k: int|
                0 <= k < line.len() ==> *(#[trigger] line[k]) == self.nodes()[variation(
                    self.nodes(),
                    0,
                    num_moves as nat,
                )[k].0].moves[variation(self.nodes(), 0, num_moves as nat)[k].1],
    {
        let steps = self.search_tree.principal_variation(num_moves);
        let nodes = self.search_tree.get_nodes();
        let mut line: Vec<&MoveInfo<Move<Spec>>> = Vec::new();
        let mut k: usize = 0;
        while k < steps.len()
            invariant
                k <= steps.len(),
                line.len() == k,
                crate::mcts::node::nodes_view(nodes@) == self.nodes(),
                forall|j: int|
                    0 <= j < steps.len()
                        ==> (#[trigger] steps[j]).0 < self.nodes().len() && steps[j].1
                        < self.nodes()[steps[j].0 as int].moves.len(),
                forall|j: int|
                    0 <= j < k
                        ==> *(#[trigger] line[j])
                            == self.nodes()[steps[j].0 as int].moves[steps[j].1 as int],
            decreases steps.len() - k,
        {
            let (node, place) = steps[k];
            assert(nodes[node as int]@ == self.nodes()[node as int]);
            line.push(&nodes[node].moves[place]);
            k += 1;
        }
        line
    }

    /// The line of play that the search recommends, at most `num_moves` long.
    pub fn principal_variation(&self, num_moves: usize) -> (line: Vec<Move<Spec>>)
        requires
            self.wf(),
        ensures
            line@ == moves_along(self.nodes(), variation(self.nodes(), 0, num_moves as nat)),
    {
        let infos = self.principal_variation_info(num_moves);
        let mut line: Vec<Move<Spec>> = Vec::new();
        let mut k: usize = 0;
        while k < infos.len()
            invariant
                k <= infos.len(),
                line.len() == k,
                forall|j: int| 0 <= j < k ==> line[j] == (#[trigger] infos[j]).mov,
            decreases infos.len() - k,
        {
            line.push(infos[k].mov);
            k += 1;
        }
        proof {
            let wanted = moves_along(self.nodes(), variation(self.nodes(), 0, num_moves as nat));
            assert(line.len() == wanted.len());
            assert forall|j: int| 0 <= j < line.len() implies line[j] == wanted[j] by {
                assert(line[j] == infos[j].mov);
            }
            assert(line@ =~= wanted);
        }
        line
    }

    /// The positions along the line of play that the search recommends: a
    /// copy of the root position, then for each move of the line the position
    /// that the move makes of a copy of the position before. The positions
    /// end before a move that cannot be made in the position before it.
    pub fn principal_variation_states(&self, num_moves: usize) -> (states: Vec<Spec::State>)
        requires
            self.wf(),
        ensures
            1 <= states.len() <= variation(self.nodes(), 0, num_moves as nat).len() + 1,
            call_ensures(
                <Spec::State as Clone>::clone,
                (&self.view_tree().root(),),
                states[0],
            ),
            forall|k: int|
                0 <= k < states.len() - 1 ==> step_made(
                    states[k],
                    moves_along(self.nodes(), variation(self.nodes(), 0, num_moves as nat))[k],
                    #[trigger] states[k + 1],
                ),
            states.len() <= variation(self.nodes(), 0, num_moves as nat).len() ==> step_refused(
                states[states.len() - 1],
                moves_along(
                    self.nodes(),
                    variation(self.nodes(), 0, num_moves as nat),
                )[states.len() - 1],
            ),
    {
        let moves = self.principal_variation(num_moves);
        proof {
            self.search_tree.lemma_root_moves();
        }
        let mut states: Vec<Spec::State> = Vec::new();
        states.push(self.search_tree.root_state().clone());
        let mut k: usize = 0;
        while k < moves.len()
            invariant
                k <= moves.len(),
                states.len() == k + 1,
                call_ensures(
                    <Spec::State as Clone>::clone,
                    (&self.view_tree().root(),),
                    states[0],
                ),
                forall|j: int|
                    0 <= j < k ==> step_made(states[j], moves[j], #[trigger] states[j + 1]),
            ensures
                states.len() == k + 1,
                k <= moves.len(),
                k < moves.len() ==> step_refused(states[k as int], moves[k as int]),
                call_ensures(
                    <Spec::State as Clone>::clone,
                    (&self.view_tree().root(),),
                    states[0],
                ),
                forall|j: int|
                    0 <= j < k ==> step_made(states[j], moves[j], #[trigger] states[j + 1]),
            decreases moves.len() - k,
        {
            let mut state = states[k].clone();
            let ghost copy = state;
            if !state.can_make(&moves[k]) {
                assert(step_refused(states[k as int], moves[k as int]));
                break;
            }
            state.make_move(&moves[k]);
            assert(step_made(states[k as int], moves[k as int], state));
            let ghost made = states@;
            states.push(state);
            assert forall|j: int| 0 <= j < k + 1 implies step_made(
                states[j],
                moves[j],
                #[trigger] states[j + 1],
            ) by {
                if j < k {
                    assert(states[j] == made[j]);
                    assert(states[j + 1] == made[j + 1]);
                }
            }
            k += 1;
        }
        states
    }

    /// The move that the search recommends: of the moves at the root the
    /// last of those that playouts took most often. None if the root
    /// position has no moves.
    pub fn best_move(&self) -> (best: Option<Move<Spec>>)
        requires
            self.wf(),
        ensures
            self.nodes()[0].moves.len() == 0 ==> best is None,
            self.nodes()[0].moves.len() > 0 ==> best == Some(
                self.nodes()[0].moves[most_visited(self.nodes()[0].moves)].mov,
            ) && is_most_visited(self.nodes()[0].moves, most_visited(self.nodes()[0].moves)),
    {
        proof {
            self.search_tree.lemma_root_moves();
        }
        let nodes = self.search_tree.get_nodes();
        assert(nodes[0]@ == self.nodes()[0]);
        if nodes[0].moves.len() == 0 {
            None
        } else {
            let best = SearchTree::<Spec, Eval>::select_child_after_search(&nodes[0].moves);
            Some(nodes[0].moves[best].mov)
        }
    }

    /// The search from the same position with the same settings, with
    /// nothing searched: a tree with nothing but the root and an empty
    /// table.
    pub fn reset(self) -> (search: Self)
        requires
            self.wf(),
        ensures
            search.wf(),
            search.view_tree().root() == self.view_tree().root(),
            search.view_tree().evaluator() == self.view_tree().evaluator(),
            made_of(
                search.nodes()[0],
                &self.view_tree().root(),
                &self.view_tree().evaluator(),
            ),
            search.view_tree().settings() == self.view_tree().settings(),
            search.view_tree().policy() == self.view_tree().policy(),
            search.view_tree().table_capacity() == self.view_tree().table_capacity(),
            search.reports_errors() == self.reports_errors(),
            search.nodes().len() == 1,
            total_visits(search.nodes()[0].moves) == 0,
            search.view_tree().table_entries() == 0,
            search.view_tree().table_hits() == 0,
    {
        let print_on_playout_error = self.print_on_playout_error;
        let search_tree = self.search_tree.reset();
        proof {
            lemma_fresh_visits(search_tree.nodes()[0].moves, search_tree.nodes()[0].moves.len());
        }
        MctsManager { search_tree, print_on_playout_error }
    }
}

proof fn lemma_fresh_visits<M>(moves: Seq<MoveInfo<M>>, n: nat)
    requires
        n <= moves.len(),
        forall|m: int| 0 <= m < moves.len() ==> (#[trigger] moves[m]).visits == 0,
    ensures
        visits_upto(moves, n) == 0,
    decreases n,
{
    if n > 0 {
        lemma_fresh_visits(moves, (n - 1) as nat);
    }
}

} // verus!
