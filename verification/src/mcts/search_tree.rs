//! The search tree: its nodes, how a playout walks and grows it, and which
//! moves it recommends in the end.
use vstd::prelude::*;
use crate::mcts::{CycleBehaviour, Evaluator, GameState, Mcts, Move, Player, TranspositionHash};
use crate::mcts::node::{
    MoveInfo, NodeView, SearchNode, add_capped, capped_sum, nodes_view, one_more, sub_capped,
};
use crate::mcts::transposition_table::{
    ApproxTable, Slot, holds_value, insert_in, lookup_in, occupied_upto,
};
use crate::mcts::tree_policy::{UCTPolicy, is_choice};

verus! {

/// The settings of a search, as its `Mcts` gave them when the tree was made.
#[derive(Debug, Copy, Clone, PartialEq, Eq, Structural)]
pub struct SearchSettings {
    pub virtual_loss: i64,
    pub visits_before_expansion: u64,
    pub node_limit: usize,
    pub max_playout_length: usize,
    pub cycle_behaviour: CycleBehaviour,
}

/// How a playout ended.
#[derive(Debug, Copy, Clone, PartialEq, Eq, Structural)]
pub enum PlayoutOutcome {
    /// It came to an end and its evaluation was taken back up its path.
    Finished,
    /// It did not start: the tree holds as many nodes as it may.
    NodeLimitReached,
    /// It was given up: it would have made more moves than a playout may.
    LengthExceeded,
    /// It was given up: it came to a position for the second time, in a
    /// search that takes this for an error.
    CycleDetected,
    /// It was given up: the move that it was to make next cannot be made in
    /// the position that it had come to.
    MoveRefused,
}

/// Every move that leads to a node leads to one of the tree, and never to
/// the root.
pub open spec fn links_valid<M>(nodes: Seq<NodeView<M>>) -> bool {
    forall|n: int, m: int|
        0 <= n < nodes.len() && 0 <= m < nodes[n].moves.len() && (
        #[trigger] nodes[n].moves[m]).child is Some ==> 1 <= nodes[n].moves[m].child.unwrap()
            < nodes.len()
}

/// A move is what it was, or what it was with more learned of it.
pub open spec fn move_kept<M>(before: MoveInfo<M>, after: MoveInfo<M>) -> bool {
    &&& after.mov == before.mov
    &&& after.visits >= before.visits
    &&& before.child is Some ==> after.child == before.child
}

/// A node is what it was, or what it was with more learned of it.
pub open spec fn node_kept<M>(before: NodeView<M>, after: NodeView<M>) -> bool {
    &&& after.moves.len() == before.moves.len()
    &&& after.evaln == before.evaln
    &&& after.visits >= before.visits
    &&& forall|m: int|
        0 <= m < before.moves.len() ==> move_kept(before.moves[m], #[trigger] after.moves[m])
}

/// The tree `after` is the tree `before`, grown: no node is lost, no move
/// changed, no link redirected, no count lowered.
pub open spec fn grown_from<M>(before: Seq<NodeView<M>>, after: Seq<NodeView<M>>) -> bool {
    &&& before.len() <= after.len()
    &&& forall|n: int| 0 <= n < before.len() ==> node_kept(before[n], #[trigger] after[n])
}

/// Growing is transitive.
pub proof fn lemma_grown_twice<M>(
    first: Seq<NodeView<M>>,
    second: Seq<NodeView<M>>,
    third: Seq<NodeView<M>>,
)
    requires
        grown_from(first, second),
        grown_from(second, third),
    ensures
        grown_from(first, third),
{
    assert forall|n: int| 0 <= n < first.len() implies node_kept(first[n], #[trigger] third[n]) by {
        assert(node_kept(first[n], second[n]));
        assert(node_kept(second[n], third[n]));
        assert forall|m: int| 0 <= m < first[n].moves.len() implies move_kept(
            first[n].moves[m],
            #[trigger] third[n].moves[m],
        ) by {
            assert(move_kept(first[n].moves[m], second[n].moves[m]));
            assert(move_kept(second[n].moves[m], third[n].moves[m]));
        }
    }
}

/// The moves were visited as often after as before.
pub open spec fn visits_kept<M>(before: Seq<MoveInfo<M>>, after: Seq<MoveInfo<M>>) -> bool {
    &&& after.len() == before.len()
    &&& forall|m: int| 0 <= m < before.len() ==> (#[trigger] after[m]).visits == before[m].visits
}

/// The move at `choice` was visited once more, the others as often as before.
pub open spec fn visited_once<M>(
    before: Seq<MoveInfo<M>>,
    after: Seq<MoveInfo<M>>,
    choice: int,
) -> bool {
    &&& after.len() == before.len()
    &&& 0 <= choice < before.len()
    &&& after[choice].visits == one_more(before[choice].visits)
    &&& forall|m: int|
        0 <= m < before.len() && m != choice ==> (#[trigger] after[m]).visits == before[m].visits
}

/// No move was visited more often than the move at `i`, and none after it
/// as often.
pub open spec fn is_most_visited<M>(moves: Seq<MoveInfo<M>>, i: int) -> bool {
    &&& 0 <= i < moves.len()
    &&& forall|j: int| 0 <= j < moves.len() ==> (#[trigger] moves[j]).visits <= moves[i].visits
    &&& forall|j: int| i < j < moves.len() ==> (#[trigger] moves[j]).visits < moves[i].visits
}

/// The place of the move that the search recommends among `moves`: the
/// last of those that were visited most.
pub open spec fn most_visited<M>(moves: Seq<MoveInfo<M>>) -> int {
    choose|i: int| is_most_visited(moves, i)
}

/// Only one move is the last of those visited most.
pub proof fn lemma_most_visited_unique<M>(moves: Seq<MoveInfo<M>>, i: int)
    requires
        is_most_visited(moves, i),
    ensures
        most_visited(moves) == i,
{
    let k = most_visited(moves);
    if k < i {
        assert(moves[i].visits < moves[k].visits);
        assert(moves[k].visits <= moves[i].visits);
    }
    if i < k {
        assert(moves[k].visits < moves[i].visits);
        assert(moves[i].visits <= moves[k].visits);
    }
}

/// The line of play that the search recommends from the node `node`, at
/// most `length` moves long: each step is a node and the place of its most
/// visited move. The line ends where a node has no moves or a move has not
/// been made yet.
pub open spec fn variation<M>(nodes: Seq<NodeView<M>>, node: int, length: nat) -> Seq<(int, int)>
    decreases length,
{
    if length == 0 || !(0 <= node < nodes.len()) || nodes[node].moves.len() == 0 {
        Seq::empty()
    } else {
        let best = most_visited(nodes[node].moves);
        let rest = match nodes[node].moves[best].child {
            None => Seq::empty(),
            Some(child) => variation(nodes, child as int, (length - 1) as nat),
        };
        seq![(node, best)] + rest
    }
}

/// The moves along a line of play.
pub open spec fn moves_along<M>(nodes: Seq<NodeView<M>>, line: Seq<(int, int)>) -> Seq<M> {
    Seq::new(line.len(), |k: int| nodes[line[k].0].moves[line[k].1].mov)
}

/// The tree after the evaluations of a playout were taken back up its
/// path: each move on the path has the value for its step, and the virtual
/// loss that the playout took on its way, added to its total. A step that
/// names no move of the tree changes nothing.
pub open spec fn recorded<M>(
    nodes: Seq<NodeView<M>>,
    path: Seq<(usize, usize)>,
    values: Seq<i64>,
    virtual_loss: i64,
    steps: nat,
) -> Seq<NodeView<M>>
    decreases steps,
{
    if steps == 0 {
        nodes
    } else {
        let before = recorded(nodes, path, values, virtual_loss, (steps - 1) as nat);
        let (node, place) = path[path.len() - steps];
        if node < before.len() && place < before[node as int].moves.len() {
            let edge = before[node as int].moves[place as int];
            let value = capped_sum(values[path.len() - steps] as int, virtual_loss as int);
            before.update(
                node as int,
                NodeView {
                    moves: before[node as int].moves.update(
                        place as int,
                        MoveInfo {
                            sum_evaluations: capped_sum(edge.sum_evaluations as int, value as int),
                            ..edge
                        },
                    ),
                    ..before[node as int]
                },
            )
        } else {
            before
        }
    }
}

/// The node is new: it holds the moves `moves`, none of them tried, none of
/// them leading to a node yet, and it was never visited.
pub open spec fn is_new_node<M>(node: NodeView<M>, moves: Seq<M>) -> bool {
    &&& node.visits == 0
    &&& node.moves.len() == moves.len()
    &&& forall|m: int|
        0 <= m < node.moves.len() ==> (#[trigger] node.moves[m]).mov == moves[m]
            && node.moves[m].child is None && node.moves[m].visits == 0
            && node.moves[m].sum_evaluations == 0
}

/// The node is what a search makes of the position `state` when it sees it
/// for the first time: a new node with the moves that the position says are
/// open, judged as the evaluator judges the position with these moves.
pub open spec fn made_of<State: GameState, Eval: Evaluator<State>>(
    node: NodeView<State::Move>,
    state: &State,
    eval: &Eval,
) -> bool {
    exists|moves: Vec<State::Move>|
        #![trigger call_ensures(State::available_moves, (state,), moves)]
        call_ensures(State::available_moves, (state,), moves) && is_new_node(node, moves@)
            && call_ensures(Eval::evaluate_new_state, (eval, state, &moves), node.evaln)
}

/// The tree with the move at `place` of the node `node` changed to `edge`.
pub open spec fn with_move<M>(
    nodes: Seq<NodeView<M>>,
    node: int,
    place: int,
    edge: MoveInfo<M>,
) -> Seq<NodeView<M>> {
    nodes.update(node, NodeView { moves: nodes[node].moves.update(place, edge), ..nodes[node] })
}

/// The tree after a playout has taken the move at `place` of the node
/// `node`: the move was visited once more, and the virtual loss is taken
/// from its total.
pub open spec fn taken<M>(
    nodes: Seq<NodeView<M>>,
    node: int,
    place: int,
    virtual_loss: i64,
) -> Seq<NodeView<M>> {
    let edge = nodes[node].moves[place];
    with_move(
        nodes,
        node,
        place,
        MoveInfo {
            visits: one_more(edge.visits),
            sum_evaluations: capped_sum(edge.sum_evaluations as int, -(virtual_loss as int)),
            ..edge
        },
    )
}

/// The tree in which the move at `place` of the node `node` leads to the
/// node `child`.
pub open spec fn linked<M>(
    nodes: Seq<NodeView<M>>,
    node: int,
    place: int,
    child: usize,
) -> Seq<NodeView<M>> {
    with_move(nodes, node, place, MoveInfo { child: Some(child), ..nodes[node].moves[place] })
}

/// The tree with one more visit of the node `node` counted.
pub open spec fn counted<M>(nodes: Seq<NodeView<M>>, node: int) -> Seq<NodeView<M>> {
    nodes.update(node, NodeView { visits: one_more(nodes[node].visits), ..nodes[node] })
}

/// The tree with the node `fresh` added at its end, if there is one.
pub open spec fn with_node<M>(
    nodes: Seq<NodeView<M>>,
    fresh: Option<NodeView<M>>,
) -> Seq<NodeView<M>> {
    match fresh {
        Some(node) => nodes.push(node),
        None => nodes,
    }
}

/// What a search remembers of the positions that it has met: the slots of
/// its transposition table, and how often the table had a node for a
/// position that a move had led to.
pub struct Memory {
    pub slots: Seq<Slot>,
    pub hits: usize,
}

/// One more, capped at the largest `usize`.
pub open spec fn one_more_hit(hits: usize) -> usize {
    if hits == usize::MAX {
        usize::MAX
    } else {
        (hits + 1) as usize
    }
}

/// What the search does for the position `state` under the key `key` when a
/// move that has no node yet has led to it, with the table as `memory` has
/// it: the move is given the node `child` that the table has for the key,
/// which leaves the table as it was and is counted as a hit; or else, where
/// the table has none, the new node `fresh`, made of the position and put at
/// the end of a tree of `nodes_before` nodes, and that node is offered to
/// the table under the key.
pub open spec fn keyed<State: GameState + TranspositionHash, Eval: Evaluator<State>>(
    state: &State,
    eval: &Eval,
    nodes_before: nat,
    memory: Memory,
    child: usize,
    fresh: Option<NodeView<State::Move>>,
    memory_after: Memory,
    key: u64,
) -> bool {
    &&& call_ensures(State::hash, (state,), key)
    &&& match lookup_in(memory.slots, key) {
        Some(known) => child == known && fresh is None && memory_after == (Memory {
            slots: memory.slots,
            hits: one_more_hit(memory.hits),
        }),
        None => child == nodes_before && memory_after == (Memory {
            slots: insert_in(memory.slots, key, child),
            hits: memory.hits,
        }) && (fresh matches Some(node) && made_of(node, state, eval)),
    }
}

/// Where a move leads that was made in a playout, and what the search does
/// for it, in the tree `nodes` and with what it remembers; `state` is the
/// position that the move has made. A move that has a node leads to it. One
/// that has none leads to the node that the table has for the position,
/// under the key that the position gives for itself, or else to a new node,
/// made of the position, which is offered to the table under that key.
pub open spec fn led_to<State: GameState + TranspositionHash, Eval: Evaluator<State>>(
    state: &State,
    eval: &Eval,
    nodes: Seq<NodeView<State::Move>>,
    memory: Memory,
    node: int,
    place: int,
    child: usize,
    fresh: Option<NodeView<State::Move>>,
    memory_after: Memory,
) -> bool {
    match nodes[node].moves[place].child {
        Some(known) => child == known && fresh is None && memory_after == memory,
        None => exists|key: u64| #[trigger]
            keyed::<State, Eval>(
                state,
                eval,
                nodes.len(),
                memory,
                child,
                fresh,
                memory_after,
                key,
            ),
    }
}

/// The settings are those that `manager` gives: each is what the manager
/// answers when it is asked for it.
pub open spec fn given_by<Spec: Mcts>(manager: &Spec, settings: SearchSettings) -> bool {
    &&& call_ensures(Spec::virtual_loss, (manager,), settings.virtual_loss)
    &&& call_ensures(
        Spec::visits_before_expansion,
        (manager,),
        settings.visits_before_expansion,
    )
    &&& call_ensures(Spec::node_limit, (manager,), settings.node_limit)
    &&& call_ensures(Spec::max_playout_length, (manager,), settings.max_playout_length)
    &&& call_ensures(Spec::cycle_behaviour, (manager,), settings.cycle_behaviour)
}

/// The tree of a search.
pub struct SearchTree<Spec: Mcts, Eval: Evaluator<Spec::State>> {
    root_state: Spec::State,
    nodes: Vec<SearchNode<Move<Spec>>>,
    tree_policy: UCTPolicy,
    table: ApproxTable,
    eval: Eval,
    settings: SearchSettings,
    transposition_table_hits: usize,
}

impl<Spec: Mcts, Eval: Evaluator<Spec::State>> SearchTree<Spec, Eval> {
    /// The nodes of the tree; the first is the root.
    pub closed spec fn nodes(&self) -> Seq<NodeView<Move<Spec>>> {
        nodes_view(self.nodes@)
    }

    pub closed spec fn settings(&self) -> SearchSettings {
        self.settings
    }

    pub closed spec fn policy(&self) -> UCTPolicy {
        self.tree_policy
    }

    /// How often a playout found its position in the transposition table,
    /// capped at the largest count.
    pub closed spec fn table_hits(&self) -> usize {
        self.transposition_table_hits
    }

    /// What the search remembers of the positions that it has met.
    pub open spec fn memory(&self) -> Memory {
        Memory { slots: self.table_slots(), hits: self.table_hits() }
    }

    /// The slots of the transposition table.
    pub closed spec fn table_slots(&self) -> Seq<Slot> {
        self.table@
    }

    /// The number of positions that the transposition table remembers: the
    /// number of its slots that hold an entry.
    pub open spec fn table_entries(&self) -> nat {
        occupied_upto(self.table_slots(), self.table_slots().len())
    }

    /// The number of slots of the transposition table.
    pub closed spec fn table_capacity(&self) -> nat {
        self.table@.len()
    }

    pub closed spec fn root(&self) -> Spec::State {
        self.root_state
    }

    pub closed spec fn evaluator(&self) -> Eval {
        self.eval
    }

    /// The tree has a root, its links lead to its nodes, and so does what its
    /// transposition table remembers.
    pub closed spec fn wf(&self) -> bool {
        &&& self.nodes@.len() >= 1
        &&& links_valid(self.nodes())
        &&& self.table.wf()
        &&& forall|v: usize| #[trigger] holds_value(self.table@, v) ==> 1 <= v < self.nodes@.len()
    }
}

/// Taking evaluations back up a path changes totals and nothing else.
pub proof fn lemma_recorded_keeps<M>(
    nodes: Seq<NodeView<M>>,
    path: Seq<(usize, usize)>,
    values: Seq<i64>,
    virtual_loss: i64,
    steps: nat,
)
    requires
        steps <= path.len(),
    ensures
        ({
            let after = recorded(nodes, path, values, virtual_loss, steps);
            &&& after.len() == nodes.len()
            &&& grown_from(nodes, after)
            &&& links_valid(nodes) ==> links_valid(after)
            &&& forall|n: int|
                0 <= n < nodes.len() ==> visits_kept(nodes[n].moves, (#[trigger] after[n]).moves)
                    && after[n].visits == nodes[n].visits
            &&& forall|n: int, m: int|
                0 <= n < nodes.len() && 0 <= m < nodes[n].moves.len() ==> (
                #[trigger] after[n].moves[m]).child == nodes[n].moves[m].child
        }),
    decreases steps,
{
    if steps > 0 {
        lemma_recorded_keeps(nodes, path, values, virtual_loss, (steps - 1) as nat);
        let before = recorded(nodes, path, values, virtual_loss, (steps - 1) as nat);
        let after = recorded(nodes, path, values, virtual_loss, steps);
        assert forall|n: int| 0 <= n < nodes.len() implies node_kept(nodes[n], #[trigger] after[n])
            && visits_kept(nodes[n].moves, after[n].moves) && after[n].visits
            == nodes[n].visits by {
            assert(node_kept(nodes[n], before[n]));
            assert(visits_kept(nodes[n].moves, before[n].moves));
            assert forall|m: int| 0 <= m < nodes[n].moves.len() implies move_kept(
                nodes[n].moves[m],
                #[trigger] after[n].moves[m],
            ) && after[n].moves[m].visits == nodes[n].moves[m].visits by {
                assert(move_kept(nodes[n].moves[m], before[n].moves[m]));
                assert(before[n].moves[m].child == nodes[n].moves[m].child);
            }
        }
        assert forall|n: int, m: int|
            0 <= n < nodes.len() && 0 <= m < nodes[n].moves.len() implies (
        #[trigger] after[n].moves[m]).child == nodes[n].moves[m].child by {
            assert(before[n].moves[m].child == nodes[n].moves[m].child);
        }
        if links_valid(nodes) {
            assert forall|n: int, m: int|
                0 <= n < after.len() && 0 <= m < after[n].moves.len() && (
                #[trigger] after[n].moves[m]).child is Some implies 1
                <= after[n].moves[m].child.unwrap() < after.len() by {
                assert(after[n].moves[m].child == nodes[n].moves[m].child);
                assert(visits_kept(nodes[n].moves, after[n].moves));
            }
        }
    }
}

impl<Spec: Mcts, Eval: Evaluator<Spec::State>> SearchTree<Spec, Eval> {
    /// A node for a position that the search has not seen before: its moves,
    /// none of them tried, and what the evaluator makes of it.
    fn make_node(state: &Spec::State, eval: &Eval) -> (node: SearchNode<Move<Spec>>)
        ensures
            node.visits == 0,
            made_of(node@, state, eval),
            forall|m: int|
                0 <= m < node.moves.len() ==> (#[trigger] node.moves[m]).child is None
                    && node.moves[m].visits == 0 && node.moves[m].sum_evaluations == 0,
    {
        let moves = state.available_moves();
        let evaln = eval.evaluate_new_state(state, &moves);
        let mut infos: Vec<MoveInfo<Move<Spec>>> = Vec::new();
        let mut i: usize = 0;
        while i < moves.len()
            invariant
                i <= moves.len(),
                infos.len() == i,
                forall|m: int|
                    0 <= m < i ==> (#[trigger] infos[m]).child is None && infos[m].visits == 0
                        && infos[m].sum_evaluations == 0 && infos[m].mov == moves[m],
            decreases moves.len() - i,
        {
            infos.push(MoveInfo { mov: moves[i], child: None, visits: 0, sum_evaluations: 0 });
            i += 1;
        }
        let node = SearchNode { moves: infos, evaln, visits: 0 };
        assert(is_new_node(node@, moves@));
        node
    }

    /// The settings that `manager` gives.
    pub fn settings_of(manager: &Spec) -> (settings: SearchSettings)
        ensures
            given_by(manager, settings),
    {
        SearchSettings {
            virtual_loss: manager.virtual_loss(),
            visits_before_expansion: manager.visits_before_expansion(),
            node_limit: manager.node_limit(),
            max_playout_length: manager.max_playout_length(),
            cycle_behaviour: manager.cycle_behaviour(),
        }
    }

    /// A tree with nothing but the root, for a search from `state` with the
    /// settings that `manager` gives. A table that holds entries is replaced
    /// by an empty one of its size.
    pub fn new(
        state: Spec::State,
        manager: Spec,
        tree_policy: UCTPolicy,
        eval: Eval,
        table: ApproxTable,
    ) -> (tree: Self)
        requires
            table.wf(),
        ensures
            tree.wf(),
            tree.root() == state,
            tree.evaluator() == eval,
            made_of(tree.nodes()[0], &state, &eval),
            given_by(&manager, tree.settings()),
            tree.policy() == tree_policy,
            tree.table_capacity() == table@.len(),
            tree.table_hits() == 0,
            tree.table_entries() == 0,
            tree.nodes().len() == 1,
            tree.nodes()[0].visits == 0,
            forall|m: int|
                0 <= m < tree.nodes()[0].moves.len() ==> (#[trigger] tree.nodes()[0].moves[m]).child
                    is None && tree.nodes()[0].moves[m].visits == 0
                    && tree.nodes()[0].moves[m].sum_evaluations == 0,
    {
        let settings = Self::settings_of(&manager);
        Self::with_settings(state, settings, tree_policy, eval, table)
    }

    /// A tree with nothing but the root, for a search from `state` with the
    /// settings given. A table that holds entries is replaced by an empty
    /// one of its size.
    pub fn with_settings(
        state: Spec::State,
        settings: SearchSettings,
        tree_policy: UCTPolicy,
        eval: Eval,
        table: ApproxTable,
    ) -> (tree: Self)
        requires
            table.wf(),
        ensures
            tree.wf(),
            tree.root() == state,
            tree.evaluator() == eval,
            made_of(tree.nodes()[0], &state, &eval),
            tree.settings() == settings,
            tree.policy() == tree_policy,
            tree.table_capacity() == table@.len(),
            tree.table_hits() == 0,
            tree.table_entries() == 0,
            tree.nodes().len() == 1,
            tree.nodes()[0].visits == 0,
            forall|m: int|
                0 <= m < tree.nodes()[0].moves.len() ==> (#[trigger] tree.nodes()[0].moves[m]).child
                    is None && tree.nodes()[0].moves[m].visits == 0
                    && tree.nodes()[0].moves[m].sum_evaluations == 0,
    {
        let table = if table.len() == 0 {
            table
        } else {
            ApproxTable::with_slots(table.capacity())
        };
        let root = Self::make_node(&state, &eval);
        let mut nodes: Vec<SearchNode<Move<Spec>>> = Vec::new();
        nodes.push(root);
        let tree = SearchTree {
            root_state: state,
            nodes,
            tree_policy,
            table,
            eval,
            settings,
            transposition_table_hits: 0,
        };
        proof {
            crate::mcts::transposition_table::lemma_empty_holds_nothing(tree.table@);
        }
        tree
    }

    pub fn get_settings(&self) -> (settings: SearchSettings)
        ensures
            settings == self.settings(),
    {
        self.settings
    }

    pub fn get_policy(&self) -> (policy: UCTPolicy)
        ensures
            policy == self.policy(),
    {
        self.tree_policy
    }

    pub fn root_state(&self) -> (state: &Spec::State)
        ensures
            *state == self.root(),
    {
        &self.root_state
    }

    /// The nodes of the tree; the first is the root.
    pub fn get_nodes(&self) -> (nodes: &Vec<SearchNode<Move<Spec>>>)
        ensures
            nodes_view(nodes@) == self.nodes(),
    {
        &self.nodes
    }

    pub fn num_nodes(&self) -> (count: usize)
        ensures
            count == self.nodes().len(),
    {
        self.nodes.len()
    }

    /// How often a playout found its position in the transposition table.
    pub fn transposition_table_hits(&self) -> (hits: usize)
        ensures
            hits == self.table_hits(),
    {
        self.transposition_table_hits
    }

    /// The number of slots of the transposition table.
    pub fn get_table_capacity(&self) -> (capacity: usize)
        ensures
            capacity == self.table_capacity(),
    {
        self.table.capacity()
    }

    /// The number of positions that the transposition table remembers.
    pub fn table_len(&self) -> (count: usize)
        requires
            self.wf(),
        ensures
            count == self.table_entries(),
            count <= self.table_capacity(),
            self.table_slots().len() == self.table_capacity(),
    {
        self.table.len()
    }
}

impl<Spec: Mcts, Eval: Evaluator<Spec::State>> SearchTree<Spec, Eval> {
    /// Everything but the nodes and what the table holds is as it was.
    pub closed spec fn same_search(&self, before: &Self) -> bool {
        &&& self.root_state == before.root_state
        &&& self.eval == before.eval
        &&& self.settings == before.settings
        &&& self.tree_policy == before.tree_policy
        &&& self.table@.len() == before.table@.len()
    }

    /// Counts a visit of the move at `place` of the node `node` and takes
    /// the virtual loss from its total.
    fn step_down(&mut self, node: usize, place: usize)
        requires
            old(self).wf(),
            node < old(self).nodes().len(),
            place < old(self).nodes()[node as int].moves.len(),
        ensures
            final(self).wf(),
            final(self).same_search(old(self)),
            final(self).table_slots() == old(self).table_slots(),
            final(self).table_hits() == old(self).table_hits(),
            final(self).nodes().len() == old(self).nodes().len(),
            grown_from(old(self).nodes(), final(self).nodes()),
            visited_once(
                old(self).nodes()[node as int].moves,
                final(self).nodes()[node as int].moves,
                place as int,
            ),
            final(self).nodes()[node as int].moves[place as int].mov
                == old(self).nodes()[node as int].moves[place as int].mov,
            final(self).nodes() == taken(
                old(self).nodes(),
                node as int,
                place as int,
                old(self).settings().virtual_loss,
            ),
            forall|n: int|
                0 <= n < old(self).nodes().len() && n != node
                    ==> (#[trigger] final(self).nodes()[n]) == old(self).nodes()[n],
    {
        let visits = self.nodes[node].moves[place].visits;
        let total = self.nodes[node].moves[place].sum_evaluations;
        self.nodes[node].moves[place].visits = if visits == u64::MAX {
            u64::MAX
        } else {
            visits + 1
        };
        self.nodes[node].moves[place].sum_evaluations = sub_capped(
            total,
            self.settings.virtual_loss,
        );
        proof {
            let before = old(self).nodes();
            let after = self.nodes();
            assert forall|n: int| 0 <= n < before.len() implies node_kept(
                before[n],
                #[trigger] after[n],
            ) by {}
            assert forall|n: int, m: int|
                0 <= n < after.len() && 0 <= m < after[n].moves.len() && (
                #[trigger] after[n].moves[m]).child is Some implies 1
                <= after[n].moves[m].child.unwrap() < after.len() by {
                assert(after[n].moves[m].child == before[n].moves[m].child);
            }
            let expected = taken(before, node as int, place as int, old(self).settings().virtual_loss);
            assert(after[node as int].moves =~= expected[node as int].moves);
            assert(after =~= expected);
        }
    }

    /// Counts a visit of the node `node`.
    fn touch(&mut self, node: usize)
        requires
            old(self).wf(),
            1 <= node < old(self).nodes().len(),
        ensures
            final(self).wf(),
            final(self).same_search(old(self)),
            final(self).table_slots() == old(self).table_slots(),
            final(self).table_hits() == old(self).table_hits(),
            final(self).nodes().len() == old(self).nodes().len(),
            grown_from(old(self).nodes(), final(self).nodes()),
            final(self).nodes()[node as int].visits == one_more(
                old(self).nodes()[node as int].visits,
            ),
            final(self).nodes() == counted(old(self).nodes(), node as int),
            forall|n: int|
                0 <= n < old(self).nodes().len() ==> (#[trigger] final(self).nodes()[n]).moves
                    == old(self).nodes()[n].moves,
    {
        let visits = self.nodes[node].visits;
        self.nodes[node].visits = if visits == u64::MAX {
            u64::MAX
        } else {
            visits + 1
        };
        proof {
            let before = old(self).nodes();
            let after = self.nodes();
            assert forall|n: int| 0 <= n < before.len() implies node_kept(
                before[n],
                #[trigger] after[n],
            ) && after[n].moves == before[n].moves by {}
            assert forall|n: int, m: int|
                0 <= n < after.len() && 0 <= m < after[n].moves.len() && (
                #[trigger] after[n].moves[m]).child is Some implies 1
                <= after[n].moves[m].child.unwrap() < after.len() by {
                assert(after[n].moves[m] == before[n].moves[m]);
            }
            assert(after =~= counted(before, node as int));
        }
    }

    /// The node that the move at `place` of the node `node` leads to, for
    /// the position `state` that the move has made. Where the move has no
    /// node yet, it gets the one that the transposition table remembers for
    /// the position, or else a new one. Says whether the node is new.
    fn descend(&mut self, state: &Spec::State, node: usize, place: usize) -> (found: (usize, bool))
        requires
            old(self).wf(),
            node < old(self).nodes().len(),
            place < old(self).nodes()[node as int].moves.len(),
        ensures
            final(self).wf(),
            final(self).same_search(old(self)),
            grown_from(old(self).nodes(), final(self).nodes()),
            final(self).nodes().len() == old(self).nodes().len() + if found.1 {
                1int
            } else {
                0
            },
            found.1 ==> found.0 == old(self).nodes().len(),
            found.1 ==> final(self).nodes()[found.0 as int].visits == 0,
            led_to::<Spec::State, Eval>(
                state,
                &old(self).evaluator(),
                old(self).nodes(),
                old(self).memory(),
                node as int,
                place as int,
                found.0,
                if found.1 {
                    Some(final(self).nodes()[found.0 as int])
                } else {
                    None
                },
                final(self).memory(),
            ),
            final(self).nodes() == linked(
                with_node(
                    old(self).nodes(),
                    if found.1 {
                        Some(final(self).nodes()[found.0 as int])
                    } else {
                        None
                    },
                ),
                node as int,
                place as int,
                found.0,
            ),
            old(self).table_entries() <= final(self).table_entries() <= old(self).table_entries()
                + if found.1 {
                1int
            } else {
                0
            },
            1 <= found.0 < final(self).nodes().len(),
            final(self).nodes()[node as int].moves[place as int].child == Some(found.0),
            forall|n: int|
                0 <= n < old(self).nodes().len() && n != node
                    ==> (#[trigger] final(self).nodes()[n]) == old(self).nodes()[n],
            forall|n: int|
                0 <= n < old(self).nodes().len() ==> visits_kept(
                    old(self).nodes()[n].moves,
                    (#[trigger] final(self).nodes()[n]).moves,
                ),
    {
        let ghost before = self.nodes();
        match self.nodes[node].moves[place].child {
            Some(child) => {
                assert(before[node as int].moves[place as int].child is Some);
                assert forall|n: int| 0 <= n < before.len() implies node_kept(
                    before[n],
                    #[trigger] before[n],
                ) by {}
                proof {
                    let same = linked(before, node as int, place as int, child);
                    assert(same[node as int].moves =~= before[node as int].moves);
                    assert(same =~= before);
                }
                (child, false)
            },
            None => {
                let key = state.hash();
                let child = match self.table.lookup(key) {
                    Some(known) => {
                        if self.transposition_table_hits < usize::MAX {
                            self.transposition_table_hits = self.transposition_table_hits + 1;
                        }
                        (known, false)
                    },
                    None => {
                        let fresh = Self::make_node(state, &self.eval);
                        let made = self.nodes.len();
                        self.nodes.push(fresh);
                        proof {
                            crate::mcts::transposition_table::lemma_insert_counts(
                                self.table@,
                                key,
                                made,
                            );
                        }
                        let _ = self.table.insert(key, made);
                        (made, true)
                    },
                };
                self.nodes[node].moves[place].child = Some(child.0);
                proof {
                    let after = self.nodes();
                    let fresh = if child.1 {
                        Some(after[child.0 as int])
                    } else {
                        None
                    };
                    assert(keyed::<Spec::State, Eval>(
                        state,
                        &old(self).evaluator(),
                        before.len(),
                        old(self).memory(),
                        child.0,
                        fresh,
                        self.memory(),
                        key,
                    ));
                    let expected = linked(
                        with_node(before, fresh),
                        node as int,
                        place as int,
                        child.0,
                    );
                    assert(after[node as int].moves =~= expected[node as int].moves);
                    assert(after =~= expected);
                    assert forall|n: int| 0 <= n < before.len() implies node_kept(
                        before[n],
                        #[trigger] after[n],
                    ) && visits_kept(before[n].moves, after[n].moves) by {}
                    assert forall|n: int, m: int|
                        0 <= n < after.len() && 0 <= m < after[n].moves.len() && (
                        #[trigger] after[n].moves[m]).child is Some implies 1
                        <= after[n].moves[m].child.unwrap() < after.len() by {
                        if n < before.len() {
                            if n == node && m == place {
                            } else {
                                assert(after[n].moves[m].child == before[n].moves[m].child);
                            }
                        }
                    }
                }
                child
            },
        }
    }

    /// Takes the evaluations of a playout back up its path: each move on
    /// the path, from the last to the first, has the value for its step, and
    /// the virtual loss, added to its total.
    pub fn backpropagate(&mut self, path: &Vec<(usize, usize)>, values: &Vec<i64>)
        requires
            old(self).wf(),
            values.len() == path.len(),
        ensures
            final(self).wf(),
            final(self).same_search(old(self)),
            final(self).table_slots() == old(self).table_slots(),
            final(self).table_hits() == old(self).table_hits(),
            final(self).nodes() == recorded(
                old(self).nodes(),
                path@,
                values@,
                old(self).settings().virtual_loss,
                path.len() as nat,
            ),
    {
        let ghost before = self.nodes();
        let virtual_loss = self.settings.virtual_loss;
        let mut done: usize = 0;
        while done < path.len()
            invariant
                done <= path.len() == values.len(),
                self.wf(),
                self.same_search(old(self)),
                self.table_slots() == old(self).table_slots(),
                self.table_hits() == old(self).table_hits(),
                before == old(self).nodes(),
                virtual_loss == old(self).settings.virtual_loss,
                self.nodes() == recorded(before, path@, values@, virtual_loss, done as nat),
            decreases path.len() - done,
        {
            let k = path.len() - 1 - done;
            let (node, place) = path[k];
            let ghost current = self.nodes();
            proof {
                lemma_recorded_keeps(before, path@, values@, virtual_loss, (done + 1) as nat);
                lemma_recorded_keeps(before, path@, values@, virtual_loss, done as nat);
            }
            if node < self.nodes.len() {
                if place < self.nodes[node].moves.len() {
                    let value = add_capped(values[k], virtual_loss);
                    let total = self.nodes[node].moves[place].sum_evaluations;
                    self.nodes[node].moves[place].sum_evaluations = add_capped(total, value);
                    assert(self.nodes()[node as int].moves =~= current[node as int].moves.update(
                        place as int,
                        MoveInfo {
                            sum_evaluations: capped_sum(total as int, value as int),
                            ..current[node as int].moves[place as int]
                        },
                    ));
                }
            }
            assert(self.nodes() =~= recorded(
                before,
                path@,
                values@,
                virtual_loss,
                (done + 1) as nat,
            ));
            done += 1;
        }
    }

    /// The place of the move that the search recommends among `moves`: the
    /// last of those that were visited most.
    pub fn select_child_after_search(moves: &Vec<MoveInfo<Move<Spec>>>) -> (best: usize)
        requires
            moves.len() > 0,
        ensures
            is_most_visited(moves@, best as int),
            best == most_visited(moves@),
    {
        let mut best: usize = 0;
        let mut i: usize = 1;
        while i < moves.len()
            invariant
                1 <= i <= moves.len(),
                best < i,
                forall|j: int| 0 <= j < i
                    ==> (#[trigger] moves[j]).visits <= moves[best as int].visits,
                forall|j: int| best < j < i
                    ==> (#[trigger] moves[j]).visits < moves[best as int].visits,
            decreases moves.len() - i,
        {
            if moves[i].visits >= moves[best].visits {
                best = i;
            }
            i += 1;
        }
        proof {
            lemma_most_visited_unique(moves@, best as int);
        }
        best
    }

    /// The line of play that the search recommends from the root, at most
    /// `num_moves` long: for each step the node and the place of the move.
    pub fn principal_variation(&self, num_moves: usize) -> (line: Vec<(usize, usize)>)
        requires
            self.wf(),
        ensures
            line.len() <= num_moves,
            line@.len() == variation(self.nodes(), 0, num_moves as nat).len(),
            forall|k: int|
                0 <= k < line.len() ==> (#[trigger] line[k]).0 as int == variation(
                    self.nodes(),
                    0,
                    num_moves as nat,
                )[k].0 && line[k].1 as int == variation(self.nodes(), 0, num_moves as nat)[k].1,
            forall|k: int|
                0 <= k < line.len() ==> (#[trigger] line[k]).0 < self.nodes().len() && line[k].1
                    < self.nodes()[line[k].0 as int].moves.len(),
    {
        let ghost nodes = self.nodes();
        let ghost wanted = variation(nodes, 0, num_moves as nat);
        let mut line: Vec<(usize, usize)> = Vec::new();
        let mut current: usize = 0;
        let mut open = true;
        while open && line.len() < num_moves && self.nodes[current].moves.len() != 0
            invariant
                self.wf(),
                nodes == self.nodes(),
                wanted == variation(nodes, 0, num_moves as nat),
                line.len() <= num_moves,
                current < self.nodes@.len(),
                forall|k: int|
                    0 <= k < line.len() ==> (#[trigger] line[k]).0 < nodes.len() && line[k].1
                        < nodes[line[k].0 as int].moves.len(),
                forall|k: int|
                    0 <= k < line.len() ==> k < wanted.len() && (#[trigger] line[k]).0 as int
                        == wanted[k].0 && line[k].1 as int == wanted[k].1,
                open ==> wanted =~= Seq::new(line.len() as nat, |k: int| wanted[k]) + variation(
                    nodes,
                    current as int,
                    (num_moves - line.len()) as nat,
                ),
                !open ==> wanted.len() == line.len(),
            decreases num_moves - line.len(), open as int,
        {
            let ghost done = Seq::new(line.len() as nat, |k: int| wanted[k]);
            let ghost rest = variation(nodes, current as int, (num_moves - line.len()) as nat);
            let best = Self::select_child_after_search(&self.nodes[current].moves);
            assert(rest[0] == (current as int, best as int));
            assert(wanted[line.len() as int] == rest[0]);
            line.push((current, best));
            match self.nodes[current].moves[best].child {
                None => {
                    assert(rest.len() == 1);
                    open = false;
                },
                Some(child) => {
                    assert(nodes[current as int].moves[best as int].child is Some);
                    let ghost tail = variation(
                        nodes,
                        child as int,
                        (num_moves - line.len()) as nat,
                    );
                    assert(rest =~= seq![(current as int, best as int)] + tail);
                    assert(wanted =~= Seq::new(line.len() as nat, |k: int| wanted[k]) + tail);
                    current = child;
                },
            }
        }
        proof {
            if open {
                let rest = variation(nodes, current as int, (num_moves - line.len()) as nat);
                assert(rest.len() == 0);
            }
        }
        line
    }
}

/// Whether `node` is among `seen`.
fn seen_before(seen: &Vec<usize>, node: usize) -> (found: bool)
    ensures
        found == seen@.contains(node),
{
    let mut i: usize = 0;
    while i < seen.len()
        invariant
            i <= seen.len(),
            forall|j: int| 0 <= j < i ==> seen[j] != node,
        decreases seen.len() - i,
    {
        if seen[i] == node {
            return true;
        }
        i += 1;
    }
    false
}

/// The path is a walk down the tree: it starts at the root, each step takes
/// a move that has been taken at least once and that leads to a node, and
/// each step but the last leads to the node of the next.
#[verifier::opaque]
pub open spec fn is_walk<M>(nodes: Seq<NodeView<M>>, path: Seq<(usize, usize)>) -> bool {
    &&& path.len() > 0 ==> path[0].0 == 0
    &&& forall|k: int|
        0 <= k < path.len() ==> (#[trigger] path[k]).0 < nodes.len() && path[k].1
            < nodes[path[k].0 as int].moves.len()
            && nodes[path[k].0 as int].moves[path[k].1 as int].child is Some
            && nodes[path[k].0 as int].moves[path[k].1 as int].visits >= 1
    &&& forall|k: int|
        0 <= k < path.len() - 1
            ==> nodes[(#[trigger] path[k]).0 as int].moves[path[k].1 as int].child
            == Some(path[k + 1].0)
}

/// A walk down a tree is a walk down the tree grown.
pub proof fn lemma_walk_kept<M>(
    before: Seq<NodeView<M>>,
    after: Seq<NodeView<M>>,
    path: Seq<(usize, usize)>,
)
    requires
        is_walk(before, path),
        grown_from(before, after),
    ensures
        is_walk(after, path),
        path.len() > 0 ==> after[path.last().0 as int].moves[path.last().1 as int].child
            == before[path.last().0 as int].moves[path.last().1 as int].child,
{
    reveal(is_walk);
    assert forall|k: int| 0 <= k < path.len() implies (#[trigger] path[k]).0 < after.len()
        && path[k].1 < after[path[k].0 as int].moves.len()
        && after[path[k].0 as int].moves[path[k].1 as int].child
        == before[path[k].0 as int].moves[path[k].1 as int].child
        && after[path[k].0 as int].moves[path[k].1 as int].visits >= 1 by {
        let n = path[k].0 as int;
        let m = path[k].1 as int;
        assert(node_kept(before[n], after[n]));
        assert(move_kept(before[n].moves[m], after[n].moves[m]));
    }
}

/// The path without steps is a walk.
pub proof fn lemma_walk_starts<M>(nodes: Seq<NodeView<M>>)
    ensures
        is_walk(nodes, Seq::<(usize, usize)>::empty()),
{
    reveal(is_walk);
}

/// A walk goes on with a step from the node that it has led to, or from the
/// root if it has led nowhere yet, by a move that was taken and that leads
/// to a node.
pub proof fn lemma_walk_step<M>(
    entered: Seq<NodeView<M>>,
    now: Seq<NodeView<M>>,
    walked: Seq<(usize, usize)>,
    step: (usize, usize),
)
    requires
        is_walk(entered, walked),
        grown_from(entered, now),
        walked.len() == 0 ==> step.0 == 0,
        walked.len() > 0 ==> entered[walked.last().0 as int].moves[walked.last().1 as int].child
            == Some(step.0),
        step.0 < now.len(),
        step.1 < now[step.0 as int].moves.len(),
        now[step.0 as int].moves[step.1 as int].child is Some,
        now[step.0 as int].moves[step.1 as int].visits >= 1,
    ensures
        is_walk(now, walked.push(step)),
{
    lemma_walk_kept(entered, now, walked);
    reveal(is_walk);
    let longer = walked.push(step);
    assert forall|k: int| 0 <= k < longer.len() implies (#[trigger] longer[k]).0 < now.len()
        && longer[k].1 < now[longer[k].0 as int].moves.len()
        && now[longer[k].0 as int].moves[longer[k].1 as int].child is Some
        && now[longer[k].0 as int].moves[longer[k].1 as int].visits >= 1 by {
        if k < walked.len() {
            assert(longer[k] == walked[k]);
        }
    }
    assert forall|k: int| 0 <= k < longer.len() - 1 implies now[(
    #[trigger] longer[k]).0 as int].moves[longer[k].1 as int].child == Some(longer[k + 1].0) by {
        assert(longer[k] == walked[k]);
        if k < walked.len() - 1 {
            assert(longer[k + 1] == walked[k + 1]);
        }
    }
    if walked.len() > 0 {
        assert(longer[0] == walked[0]);
    }
}

/// No step of the path starts at the node `n`.
pub open spec fn off_path(path: Seq<(usize, usize)>, n: int) -> bool {
    forall|j: int| 0 <= j < path.len() ==> (#[trigger] path[j]).0 != n
}

/// Every step of the path that is the first to start at its node, a node
/// of the tree `before`, takes the move that the policy chooses there in
/// that tree.
#[verifier::opaque]
pub open spec fn steps_by_policy<M>(
    policy: UCTPolicy,
    before: Seq<NodeView<M>>,
    path: Seq<(usize, usize)>,
) -> bool {
    forall|k: int|
        0 <= k < path.len() && (#[trigger] path[k]).0 < before.len() && off_path(
            path.take(k),
            path[k].0 as int,
        ) ==> is_choice(policy.constant(), before[path[k].0 as int].moves, path[k].1 as int)
}

/// The nodes of the tree `before` at which no step of the path starts have
/// in the tree `after` the moves they had, with all that was known of them.
#[verifier::opaque]
pub open spec fn untouched_off_path<M>(
    before: Seq<NodeView<M>>,
    after: Seq<NodeView<M>>,
    path: Seq<(usize, usize)>,
) -> bool {
    forall|n: int|
        0 <= n < before.len() && n < after.len() && off_path(path, n) ==> (#[trigger] after[n]).moves
            == before[n].moves
}

proof fn lemma_step_by_policy<M>(
    policy: UCTPolicy,
    before: Seq<NodeView<M>>,
    path: Seq<(usize, usize)>,
    step: (usize, usize),
)
    requires
        steps_by_policy(policy, before, path),
        step.0 < before.len() && off_path(path, step.0 as int) ==> is_choice(
            policy.constant(),
            before[step.0 as int].moves,
            step.1 as int,
        ),
    ensures
        steps_by_policy(policy, before, path.push(step)),
{
    reveal(steps_by_policy);
    let longer = path.push(step);
    assert forall|k: int|
        0 <= k < longer.len() && (#[trigger] longer[k]).0 < before.len() && off_path(
            longer.take(k),
            longer[k].0 as int,
        ) implies is_choice(
        policy.constant(),
        before[longer[k].0 as int].moves,
        longer[k].1 as int,
    ) by {
        if k < path.len() {
            assert(longer.take(k) =~= path.take(k));
            assert(longer[k] == path[k]);
        } else {
            assert(longer.take(k) =~= path);
        }
    }
}

proof fn lemma_untouched_step<M>(
    before: Seq<NodeView<M>>,
    entered: Seq<NodeView<M>>,
    after: Seq<NodeView<M>>,
    path: Seq<(usize, usize)>,
    step: (usize, usize),
)
    requires
        untouched_off_path(before, entered, path),
        before.len() <= entered.len() <= after.len(),
        forall|n: int|
            0 <= n < entered.len() && n != step.0 ==> (#[trigger] after[n]).moves
                == entered[n].moves,
    ensures
        untouched_off_path(before, after, path.push(step)),
{
    reveal(untouched_off_path);
    let longer = path.push(step);
    assert forall|n: int| 0 <= n < before.len() && n < after.len() && off_path(longer, n) implies (
    #[trigger] after[n]).moves == before[n].moves by {
        assert(longer[path.len() as int] == step);
        assert(n != step.0);
        assert forall|j: int| 0 <= j < path.len() implies (#[trigger] path[j]).0 != n by {
            assert(longer[j] == path[j]);
        }
        assert(entered[n].moves == before[n].moves);
    }
}

proof fn lemma_untouched_starts<M>(policy: UCTPolicy, before: Seq<NodeView<M>>)
    ensures
        untouched_off_path(before, before, Seq::<(usize, usize)>::empty()),
        steps_by_policy(policy, before, Seq::<(usize, usize)>::empty()),
{
    reveal(untouched_off_path);
    reveal(steps_by_policy);
}

proof fn lemma_untouched_at<M>(
    before: Seq<NodeView<M>>,
    after: Seq<NodeView<M>>,
    path: Seq<(usize, usize)>,
    n: int,
)
    requires
        untouched_off_path(before, after, path),
        0 <= n < before.len(),
        n < after.len(),
        off_path(path, n),
    ensures
        after[n].moves == before[n].moves,
{
    reveal(untouched_off_path);
}

proof fn lemma_untouched_same<M>(
    before: Seq<NodeView<M>>,
    entered: Seq<NodeView<M>>,
    after: Seq<NodeView<M>>,
    path: Seq<(usize, usize)>,
)
    requires
        untouched_off_path(before, entered, path),
        before.len() <= entered.len() <= after.len(),
        forall|n: int| 0 <= n < entered.len() ==> (#[trigger] after[n]).moves == entered[n].moves,
    ensures
        untouched_off_path(before, after, path),
{
    reveal(untouched_off_path);
    assert forall|n: int| 0 <= n < before.len() && n < after.len() && off_path(path, n) implies (
    #[trigger] after[n]).moves == before[n].moves by {
        assert(entered[n].moves == before[n].moves);
    }
}

/// The node that a walk has led to: the root, if it has led nowhere yet.
pub open spec fn walk_end<M>(nodes: Seq<NodeView<M>>, path: Seq<(usize, usize)>) -> int {
    if path.len() == 0 {
        0
    } else {
        nodes[path.last().0 as int].moves[path.last().1 as int].child.unwrap() as int
    }
}

/// The walk has been at the node `n` before: one of its steps but the first
/// starts there.
#[verifier::opaque]
pub open spec fn came_before(path: Seq<(usize, usize)>, n: int) -> bool {
    exists|j: int| 1 <= j < path.len() && (#[trigger] path[j]).0 == n
}

/// The playout that has walked the path goes on to another step: the node
/// that it has come to has moves and, unless it is the root, was visited
/// more often than the settings ask before a node is searched further, and
/// the walk has not been there before or the settings ignore that.
pub open spec fn goes_on<M>(
    nodes: Seq<NodeView<M>>,
    settings: SearchSettings,
    path: Seq<(usize, usize)>,
) -> bool {
    let end = walk_end(nodes, path);
    &&& nodes[end].moves.len() > 0
    &&& path.len() > 0 ==> nodes[end].visits > settings.visits_before_expansion && (
    settings.cycle_behaviour is Ignore || !came_before(path, end))
}

/// How a playout ends that has walked the path in a tree that had
/// `nodes_before` nodes when it started and has the nodes `nodes` now. It does
/// not start in a tree that is full. It is given up for its length when it
/// has made as many moves as it may and would go on; for a cycle when it has
/// come to a node where it has been before and the settings take that for an
/// error; for a refused move when it would go on and does not. It finishes
/// where it would not go on.
pub open spec fn ends_as<M>(
    outcome: PlayoutOutcome,
    nodes_before: nat,
    nodes: Seq<NodeView<M>>,
    settings: SearchSettings,
    path: Seq<(usize, usize)>,
) -> bool {
    let cycle = settings.cycle_behaviour is PanicWhenCycleDetected && came_before(
        path,
        walk_end(nodes, path),
    );
    match outcome {
        PlayoutOutcome::NodeLimitReached => nodes_before >= settings.node_limit,
        PlayoutOutcome::LengthExceeded => nodes_before < settings.node_limit && path.len()
            == settings.max_playout_length && goes_on(nodes, settings, path),
        PlayoutOutcome::MoveRefused => nodes_before < settings.node_limit && path.len()
            < settings.max_playout_length && goes_on(nodes, settings, path),
        PlayoutOutcome::CycleDetected => nodes_before < settings.node_limit && cycle,
        PlayoutOutcome::Finished => nodes_before < settings.node_limit && !cycle && !goes_on(
            nodes,
            settings,
            path,
        ),
    }
}

/// The nodes that a walk has come to after each of its steps, the last of
/// them `node`, are those in `trail`.
#[verifier::opaque]
pub open spec fn trailed(trail: Seq<usize>, path: Seq<(usize, usize)>, node: int) -> bool {
    &&& trail.len() == path.len()
    &&& forall|i: int|
        0 <= i < trail.len() ==> #[trigger] trail[i] == if i + 1 < path.len() {
            path[i + 1].0 as int
        } else {
            node
        }
}

proof fn lemma_trail_starts()
    ensures
        trailed(Seq::<usize>::empty(), Seq::<(usize, usize)>::empty(), 0),
        forall|n: int| !came_before(Seq::<(usize, usize)>::empty(), n),
{
    reveal(trailed);
    reveal(came_before);
}

proof fn lemma_trail_seen(
    trail: Seq<usize>,
    path: Seq<(usize, usize)>,
    node: int,
    step: (usize, usize),
    child: usize,
)
    requires
        trailed(trail, path, node),
        step.0 == node,
    ensures
        trail.contains(child) <==> came_before(path.push(step), child as int),
        trailed(trail.push(child), path.push(step), child as int),
{
    reveal(trailed);
    reveal(came_before);
    let longer = path.push(step);
    if trail.contains(child) {
        let i = choose|i: int| 0 <= i < trail.len() && trail[i] == child;
        assert(longer[i + 1].0 == child);
    }
    if came_before(longer, child as int) {
        let j = choose|j: int| 1 <= j < longer.len() && (#[trigger] longer[j]).0 == child;
        assert(trail[j - 1] == child);
    }
    let further = trail.push(child);
    assert forall|i: int| 0 <= i < further.len() implies #[trigger] further[i] == if i + 1
        < longer.len() {
        longer[i + 1].0 as int
    } else {
        child as int
    } by {
        if i < trail.len() {
            assert(further[i] == trail[i]);
        }
    }
}

/// The value at `k` is what the evaluator makes of the evaluation for the
/// player whose turn it is in the position at `k`.
pub open spec fn valued<State: GameState, Eval: Evaluator<State>>(
    eval: &Eval,
    states: Seq<State>,
    evaluation: i64,
    values: Seq<i64>,
    k: int,
) -> bool {
    exists|player: State::Player|
        #![trigger call_ensures(State::current_player, (&states[k],), player)]
        call_ensures(State::current_player, (&states[k],), player) && call_ensures(
            Eval::interpret_evaluation_for_player,
            (eval, evaluation, &player),
            values[k],
        )
}

/// Each player is the one whose turn it is in the position of the same
/// place.
#[verifier::opaque]
pub open spec fn players_of<State: GameState>(
    states: Seq<State>,
    players: Seq<State::Player>,
) -> bool {
    &&& players.len() < states.len()
    &&& forall|k: int|
        0 <= k < players.len() ==> call_ensures(
            State::current_player,
            (&#[trigger] states[k],),
            players[k],
        )
}

proof fn lemma_players_start<State: GameState>(state: State)
    ensures
        players_of(seq![state], Seq::<State::Player>::empty()),
{
    reveal(players_of);
}

proof fn lemma_players_step<State: GameState>(
    states: Seq<State>,
    players: Seq<State::Player>,
    player: State::Player,
    after: State,
)
    requires
        players_of(states, players),
        states.len() == players.len() + 1,
        call_ensures(State::current_player, (&states.last(),), player),
    ensures
        players_of(states.push(after), players.push(player)),
{
    reveal(players_of);
    let further = states.push(after);
    let more = players.push(player);
    assert forall|k: int| 0 <= k < more.len() implies call_ensures(
        State::current_player,
        (&#[trigger] further[k],),
        more[k],
    ) by {
        if k < players.len() {
            assert(further[k] == states[k]);
            assert(more[k] == players[k]);
        } else {
            assert(further[k] == states.last());
            assert(more[k] == player);
        }
    }
}

/// The tree `after` is the tree `walked` with one evaluation taken back up
/// the path: each move on the path has what the evaluator makes of the
/// evaluation for the player who made it, the one whose turn it was in the
/// position before the move, and the virtual loss, added to its total.
pub open spec fn taken_back<State: GameState, Eval: Evaluator<State>>(
    eval: &Eval,
    states: Seq<State>,
    walked: Seq<NodeView<State::Move>>,
    after: Seq<NodeView<State::Move>>,
    path: Seq<(usize, usize)>,
    values: Seq<i64>,
    evaluation: i64,
    virtual_loss: i64,
) -> bool {
    &&& values.len() == path.len()
    &&& forall|k: int|
        0 <= k < values.len() ==> #[trigger] valued::<State, Eval>(
            eval,
            states,
            evaluation,
            values,
            k,
        )
    &&& is_walk(walked, path)
    &&& after == recorded(walked, path, values, virtual_loss, path.len())
}

/// `evaluation` is what a playout takes back that has walked the path to
/// the position `state`, in the tree `walked` that its walk has left; `made`
/// says whether its last step has made the node that it came to. Where the
/// walk has come to a node for the second time and the settings name an
/// evaluation for that, it is the one they name. Otherwise it is the
/// evaluation that the node at the end of the walk was made with, where the
/// last step has made that node, and else what the evaluator makes of that
/// evaluation for the position that the walk has come to.
pub open spec fn judged<State: GameState, Eval: Evaluator<State>>(
    eval: &Eval,
    settings: SearchSettings,
    made: bool,
    walked: Seq<NodeView<State::Move>>,
    path: Seq<(usize, usize)>,
    state: State,
    evaluation: i64,
) -> bool {
    let end = walk_end(walked, path);
    if settings.cycle_behaviour is UseThisEvalWhenCycleDetected && came_before(path, end) {
        settings.cycle_behaviour == CycleBehaviour::UseThisEvalWhenCycleDetected(evaluation)
    } else if made {
        evaluation == walked[end].evaln
    } else {
        call_ensures(Eval::evaluate_existing_state, (eval, &state, walked[end].evaln), evaluation)
    }
}

/// The tree `after` is what a playout that finishes makes of the tree
/// `walked` that its walk along the path has left; `states` are the
/// positions that the walk has come to, and `made` says whether its last
/// step has made the node that it came to. The evaluation of the playout is
/// taken back up the path, for each step as the player of the position sees
/// it that the step was made in.
pub open spec fn backed_up<State: GameState, Eval: Evaluator<State>>(
    eval: &Eval,
    settings: SearchSettings,
    made: bool,
    states: Seq<State>,
    walked: Seq<NodeView<State::Move>>,
    after: Seq<NodeView<State::Move>>,
    path: Seq<(usize, usize)>,
) -> bool {
    exists|values: Seq<i64>, evaluation: i64| #[trigger]
        taken_back::<State, Eval>(
            eval,
            states,
            walked,
            after,
            path,
            values,
            evaluation,
            settings.virtual_loss,
        ) && judged::<State, Eval>(eval, settings, made, walked, path, states.last(), evaluation)
}

/// No two steps of the path start at the same node.
#[verifier::opaque]
pub open spec fn clear_walk(path: Seq<(usize, usize)>) -> bool {
    forall|i: int, j: int|
        0 <= i < j < path.len() ==> (#[trigger] path[i]).0 != (#[trigger] path[j]).0
}

proof fn lemma_clear_starts()
    ensures
        clear_walk(Seq::<(usize, usize)>::empty()),
{
    reveal(clear_walk);
}

proof fn lemma_clear_step(path: Seq<(usize, usize)>, step: (usize, usize))
    requires
        clear_walk(path),
        !came_before(path, step.0 as int),
        path.len() > 0 ==> path[0].0 == 0 && step.0 >= 1,
    ensures
        clear_walk(path.push(step)),
{
    reveal(clear_walk);
    reveal(came_before);
    let longer = path.push(step);
    assert forall|i: int, j: int| 0 <= i < j < longer.len() implies (#[trigger] longer[i]).0 != (
    #[trigger] longer[j]).0 by {
        if j < path.len() {
            assert(longer[i] == path[i]);
            assert(longer[j] == path[j]);
        } else {
            assert(longer[i] == path[i]);
            if i >= 1 {
                assert(path[i].0 != step.0);
            }
        }
    }
}

proof fn lemma_distinct_bound(starts: Seq<usize>, bound: nat)
    requires
        forall|i: int, j: int| 0 <= i < j < starts.len() ==> starts[i] != starts[j],
        forall|i: int| 0 <= i < starts.len() ==> starts[i] < bound,
    ensures
        starts.len() <= bound,
    decreases bound,
{
    if bound == 0 {
        if starts.len() > 0 {
            assert(starts[0] < bound);
        }
    } else if exists|k: int| 0 <= k < starts.len() && starts[k] == bound - 1 {
        let k = choose|k: int| 0 <= k < starts.len() && starts[k] == bound - 1;
        let rest = starts.remove(k);
        assert forall|i: int| 0 <= i < rest.len() implies rest[i] < bound - 1 by {
            if i < k {
                assert(rest[i] == starts[i]);
                assert(starts[i] != starts[k]);
            } else {
                assert(rest[i] == starts[i + 1]);
                assert(starts[k] != starts[i + 1]);
            }
        }
        assert forall|i: int, j: int| 0 <= i < j < rest.len() implies rest[i] != rest[j] by {
            let a = if i < k { i } else { i + 1 };
            let b = if j < k { j } else { j + 1 };
            assert(rest[i] == starts[a]);
            assert(rest[j] == starts[b]);
        }
        lemma_distinct_bound(rest, (bound - 1) as nat);
    } else {
        assert forall|i: int| 0 <= i < starts.len() implies starts[i] < bound - 1 by {
            assert(starts[i] != bound - 1);
        }
        lemma_distinct_bound(starts, (bound - 1) as nat);
    }
}

/// A walk that starts at no node twice is no longer than the tree.
pub proof fn lemma_clear_bound<M>(nodes: Seq<NodeView<M>>, path: Seq<(usize, usize)>)
    requires
        is_walk(nodes, path),
        clear_walk(path),
    ensures
        path.len() <= nodes.len(),
{
    reveal(is_walk);
    reveal(clear_walk);
    let starts = Seq::new(path.len(), |k: int| path[k].0);
    assert forall|i: int, j: int| 0 <= i < j < starts.len() implies starts[i] != starts[j] by {
        assert(path[i].0 != path[j].0);
    }
    assert forall|i: int| 0 <= i < starts.len() implies starts[i] < nodes.len() by {
        assert(path[i].0 < nodes.len());
    }
    lemma_distinct_bound(starts, nodes.len());
}

/// The moves that the steps of a path take.
pub open spec fn moves_on<M>(nodes: Seq<NodeView<M>>, path: Seq<(usize, usize)>) -> Seq<M> {
    Seq::new(path.len(), |k: int| nodes[path[k].0 as int].moves[path[k].1 as int].mov)
}

/// The move at `k` is accepted by the position at `k` and makes the position
/// after it.
pub open spec fn turn<State: GameState>(moves: Seq<State::Move>, states: Seq<State>, k: int) -> bool {
    states[k].accepts(&moves[k]) && State::moved(&states[k], &moves[k], &states[k + 1])
}

/// The positions are those that the moves make, one after the other, of a
/// copy of the position `root`: the first is the copy, and each move is
/// accepted by the position before it and makes the position after it.
pub open spec fn made_in_turn<State: GameState>(
    root: State,
    moves: Seq<State::Move>,
    states: Seq<State>,
) -> bool {
    &&& states.len() == moves.len() + 1
    &&& call_ensures(<State as Clone>::clone, (&root,), states[0])
    &&& forall|k: int| 0 <= k < moves.len() ==> #[trigger] turn(moves, states, k)
}

/// `state` is a position that the moves, one after the other, make of a copy
/// of the position `root`, each of them accepted by the position that it is
/// made in.
pub open spec fn walked_to<State: GameState>(
    root: State,
    moves: Seq<State::Move>,
    state: State,
) -> bool {
    exists|states: Seq<State>| #[trigger]
        made_in_turn(root, moves, states) && states.last() == state
}

/// `state` is a position that the playout has come to that has walked the
/// path from a copy of the position `root`.
#[verifier::opaque]
pub open spec fn arrived<State: GameState>(
    root: State,
    nodes: Seq<NodeView<State::Move>>,
    path: Seq<(usize, usize)>,
    state: State,
) -> bool {
    walked_to(root, moves_on(nodes, path), state)
}

proof fn lemma_moves_on_kept<M>(
    before: Seq<NodeView<M>>,
    after: Seq<NodeView<M>>,
    path: Seq<(usize, usize)>,
)
    requires
        is_walk(before, path),
        grown_from(before, after),
    ensures
        moves_on(after, path) == moves_on(before, path),
{
    reveal(is_walk);
    assert forall|k: int| 0 <= k < path.len() implies after[path[k].0 as int].moves[path[k].1 as int].mov
        == before[path[k].0 as int].moves[path[k].1 as int].mov by {
        let n = path[k].0 as int;
        let m = path[k].1 as int;
        assert(node_kept(before[n], after[n]));
        assert(move_kept(before[n].moves[m], after[n].moves[m]));
    }
    assert(moves_on(after, path) =~= moves_on(before, path));
}

proof fn lemma_turns_start<State: GameState>(
    root: State,
    nodes: Seq<NodeView<State::Move>>,
    state: State,
)
    requires
        call_ensures(<State as Clone>::clone, (&root,), state),
    ensures
        made_in_turn(root, moves_on(nodes, Seq::<(usize, usize)>::empty()), seq![state]),
{
}

proof fn lemma_turns_step<State: GameState>(
    root: State,
    entered: Seq<NodeView<State::Move>>,
    now: Seq<NodeView<State::Move>>,
    walked: Seq<(usize, usize)>,
    step: (usize, usize),
    states: Seq<State>,
    after: State,
)
    requires
        made_in_turn(root, moves_on(entered, walked), states),
        is_walk(entered, walked),
        grown_from(entered, now),
        step.0 < now.len(),
        step.1 < now[step.0 as int].moves.len(),
        states.last().accepts(&now[step.0 as int].moves[step.1 as int].mov),
        State::moved(&states.last(), &now[step.0 as int].moves[step.1 as int].mov, &after),
    ensures
        made_in_turn(root, moves_on(now, walked.push(step)), states.push(after)),
{
    lemma_moves_on_kept(entered, now, walked);
    let shorter = moves_on(now, walked);
    let longer = moves_on(now, walked.push(step));
    let further = states.push(after);
    assert(walked.push(step)[walked.len() as int] == step);
    assert forall|k: int| 0 <= k < walked.len() implies longer[k] == shorter[k] by {
        assert(walked.push(step)[k] == walked[k]);
    }
    assert forall|k: int| 0 <= k < longer.len() implies #[trigger] turn(longer, further, k) by {
        if k < shorter.len() {
            assert(further[k] == states[k]);
            assert(further[k + 1] == states[k + 1]);
            assert(turn(shorter, states, k));
        } else {
            assert(further[k] == states.last());
            assert(further[k + 1] == after);
        }
    }
    assert(further[0] == states[0]);
}

/// What a step of a playout comes to.
pub struct Arrival<M> {
    /// The node that the move of the step leads to.
    pub child: usize,
    /// The node that was made for the move, if one was.
    pub fresh: Option<NodeView<M>>,
    /// Whether the visit of the node was counted.
    pub counted: bool,
}

/// The tree after one step of a playout: the move of the step is taken, the
/// node that was made for it, if one was, is added to the tree, the move
/// leads to the node that the step comes to, and the visit of that node is
/// counted, unless the playout stops there for a cycle.
pub open spec fn stepped<M>(
    nodes: Seq<NodeView<M>>,
    step: (usize, usize),
    arrival: Arrival<M>,
    virtual_loss: i64,
) -> Seq<NodeView<M>> {
    let led = linked(
        with_node(taken(nodes, step.0 as int, step.1 as int, virtual_loss), arrival.fresh),
        step.0 as int,
        step.1 as int,
        arrival.child,
    );
    if arrival.counted {
        counted(led, arrival.child as int)
    } else {
        led
    }
}

/// The tree after the first `steps` steps of the path, each with its
/// arrival.
pub open spec fn walked_tree<M>(
    before: Seq<NodeView<M>>,
    path: Seq<(usize, usize)>,
    arrivals: Seq<Arrival<M>>,
    virtual_loss: i64,
    steps: nat,
) -> Seq<NodeView<M>>
    decreases steps,
{
    if steps == 0 {
        before
    } else {
        stepped(
            walked_tree(before, path, arrivals, virtual_loss, (steps - 1) as nat),
            path[steps - 1],
            arrivals[steps - 1],
            virtual_loss,
        )
    }
}

proof fn lemma_walked_agrees<M>(
    before: Seq<NodeView<M>>,
    path: Seq<(usize, usize)>,
    longer: Seq<(usize, usize)>,
    arrivals: Seq<Arrival<M>>,
    more: Seq<Arrival<M>>,
    virtual_loss: i64,
    steps: nat,
)
    requires
        forall|k: int| 0 <= k < steps ==> longer[k] == path[k] && more[k] == arrivals[k],
    ensures
        walked_tree(before, longer, more, virtual_loss, steps) == walked_tree(
            before,
            path,
            arrivals,
            virtual_loss,
            steps,
        ),
    decreases steps,
{
    if steps > 0 {
        lemma_walked_agrees(before, path, longer, arrivals, more, virtual_loss, (steps - 1) as nat);
    }
}

/// The step at `k` of a playout is what it should be: it takes the move that
/// the policy chooses at its node in the tree as it is when the step is
/// made, the move leads where that tree and the table, as it is then, have
/// it lead for the position that the move has made, and the visit of the
/// node that it leads to is counted unless the walk has been at that node
/// and cycles are not ignored.
pub open spec fn arrives<State: GameState + TranspositionHash, Eval: Evaluator<State>>(
    eval: &Eval,
    policy: UCTPolicy,
    cycles: CycleBehaviour,
    before: Seq<NodeView<State::Move>>,
    path: Seq<(usize, usize)>,
    states: Seq<State>,
    arrivals: Seq<Arrival<State::Move>>,
    memories: Seq<Memory>,
    virtual_loss: i64,
    k: int,
) -> bool {
    let at = walked_tree(before, path, arrivals, virtual_loss, k as nat);
    &&& path[k].0 < at.len()
    &&& path[k].1 < at[path[k].0 as int].moves.len()
    &&& is_choice(policy.constant(), at[path[k].0 as int].moves, path[k].1 as int)
    &&& led_to::<State, Eval>(
        &states[k + 1],
        eval,
        at,
        memories[k],
        path[k].0 as int,
        path[k].1 as int,
        arrivals[k].child,
        arrivals[k].fresh,
        memories[k + 1],
    )
    &&& arrivals[k].counted <==> cycles is Ignore || !came_before(
        path.take(k + 1),
        arrivals[k].child as int,
    )
}

/// Each step of the path comes to what it should, in the tree and with the
/// table that the steps before it have left.
#[verifier::opaque]
pub open spec fn arrivals_right<State: GameState + TranspositionHash, Eval: Evaluator<State>>(
    eval: &Eval,
    policy: UCTPolicy,
    cycles: CycleBehaviour,
    before: Seq<NodeView<State::Move>>,
    path: Seq<(usize, usize)>,
    states: Seq<State>,
    arrivals: Seq<Arrival<State::Move>>,
    memories: Seq<Memory>,
    virtual_loss: i64,
) -> bool {
    &&& arrivals.len() == path.len()
    &&& states.len() == path.len() + 1
    &&& memories.len() == path.len() + 1
    &&& forall|k: int|
        0 <= k < path.len() ==> #[trigger] arrives::<State, Eval>(
            eval,
            policy,
            cycles,
            before,
            path,
            states,
            arrivals,
            memories,
            virtual_loss,
            k,
        )
}

proof fn lemma_arrivals_start<State: GameState + TranspositionHash, Eval: Evaluator<State>>(
    eval: &Eval,
    policy: UCTPolicy,
    cycles: CycleBehaviour,
    before: Seq<NodeView<State::Move>>,
    state: State,
    memory: Memory,
    virtual_loss: i64,
)
    ensures
        arrivals_right::<State, Eval>(
            eval,
            policy,
            cycles,
            before,
            Seq::<(usize, usize)>::empty(),
            seq![state],
            Seq::<Arrival<State::Move>>::empty(),
            seq![memory],
            virtual_loss,
        ),
{
    reveal(arrivals_right);
}

proof fn lemma_arrivals_step<State: GameState + TranspositionHash, Eval: Evaluator<State>>(
    eval: &Eval,
    policy: UCTPolicy,
    cycles: CycleBehaviour,
    before: Seq<NodeView<State::Move>>,
    path: Seq<(usize, usize)>,
    step: (usize, usize),
    states: Seq<State>,
    state: State,
    arrivals: Seq<Arrival<State::Move>>,
    arrival: Arrival<State::Move>,
    memories: Seq<Memory>,
    memory: Memory,
    virtual_loss: i64,
)
    requires
        arrivals_right::<State, Eval>(
            eval,
            policy,
            cycles,
            before,
            path,
            states,
            arrivals,
            memories,
            virtual_loss,
        ),
        step.0 < walked_tree(before, path, arrivals, virtual_loss, path.len()).len(),
        step.1 < walked_tree(
            before,
            path,
            arrivals,
            virtual_loss,
            path.len(),
        )[step.0 as int].moves.len(),
        is_choice(
            policy.constant(),
            walked_tree(before, path, arrivals, virtual_loss, path.len())[step.0 as int].moves,
            step.1 as int,
        ),
        led_to::<State, Eval>(
            &state,
            eval,
            walked_tree(before, path, arrivals, virtual_loss, path.len()),
            memories.last(),
            step.0 as int,
            step.1 as int,
            arrival.child,
            arrival.fresh,
            memory,
        ),
        arrival.counted <==> cycles is Ignore || !came_before(
            path.push(step),
            arrival.child as int,
        ),
    ensures
        arrivals_right::<State, Eval>(
            eval,
            policy,
            cycles,
            before,
            path.push(step),
            states.push(state),
            arrivals.push(arrival),
            memories.push(memory),
            virtual_loss,
        ),
{
    reveal(arrivals_right);
    let longer = path.push(step);
    let further = states.push(state);
    let more = arrivals.push(arrival);
    let later = memories.push(memory);
    assert forall|k: int| 0 <= k < longer.len() implies #[trigger] arrives::<State, Eval>(
        eval,
        policy,
        cycles,
        before,
        longer,
        further,
        more,
        later,
        virtual_loss,
        k,
    ) by {
        lemma_walked_agrees(before, path, longer, arrivals, more, virtual_loss, k as nat);
        if k < path.len() {
            assert(arrives::<State, Eval>(
                eval,
                policy,
                cycles,
                before,
                path,
                states,
                arrivals,
                memories,
                virtual_loss,
                k,
            ));
            assert(longer.take(k + 1) =~= path.take(k + 1));
            assert(longer[k] == path[k]);
            assert(further[k + 1] == states[k + 1]);
            assert(more[k] == arrivals[k]);
            assert(later[k] == memories[k]);
            assert(later[k + 1] == memories[k + 1]);
        } else {
            assert(longer.take(k + 1) =~= longer);
            assert(longer[k] == step);
            assert(further[k + 1] == state);
            assert(more[k] == arrival);
            assert(later[k] == memories.last());
            assert(later[k + 1] == memory);
        }
    }
}

/// The playout that has walked the path was refused the move that it was to
/// make next: the position that it had come to does not accept the move that
/// the policy chooses at the node that it had come to.
pub open spec fn refused<State: GameState>(
    root: State,
    policy: UCTPolicy,
    nodes: Seq<NodeView<State::Move>>,
    path: Seq<(usize, usize)>,
) -> bool {
    exists|state: State, choice: int|
        #![trigger arrived(root, nodes, path, state), is_choice(policy.constant(), nodes[walk_end(nodes, path)].moves, choice)]
        arrived(root, nodes, path, state) && is_choice(
            policy.constant(),
            nodes[walk_end(nodes, path)].moves,
            choice,
        ) && !state.accepts(&nodes[walk_end(nodes, path)].moves[choice].mov)
}

/// The last of the steps has made the node that it came to.
pub open spec fn made_last<M>(arrivals: Seq<Arrival<M>>) -> bool {
    arrivals.len() > 0 && arrivals.last().fresh is Some
}

/// The tree `after` and what the search remembers after, `memory_after`,
/// are what a playout that walks the path and ends with the outcome makes
/// of the tree `before` and of `memory_before`. The positions that it comes
/// to are those that the moves of the path make, one after the other, of a
/// copy of the position `root`. Each step of the path is what it should be,
/// in the tree and with the memory that the steps before it have left. The
/// tree after the last step is the tree that the playout leaves, with its
/// evaluation taken back up the path where it finishes.
pub open spec fn carried_out<State: GameState + TranspositionHash, Eval: Evaluator<State>>(
    root: State,
    eval: &Eval,
    policy: UCTPolicy,
    settings: SearchSettings,
    before: Seq<NodeView<State::Move>>,
    memory_before: Memory,
    after: Seq<NodeView<State::Move>>,
    memory_after: Memory,
    outcome: PlayoutOutcome,
    path: Seq<(usize, usize)>,
) -> bool {
    exists|states: Seq<State>, arrivals: Seq<Arrival<State::Move>>, memories: Seq<Memory>|
        #[trigger] arrivals_right::<State, Eval>(
            eval,
            policy,
            settings.cycle_behaviour,
            before,
            path,
            states,
            arrivals,
            memories,
            settings.virtual_loss,
        ) && memories[0] == memory_before && memories.last() == memory_after && walk_done::<State, Eval>(
            root,
            eval,
            policy,
            settings,
            walked_tree(before, path, arrivals, settings.virtual_loss, path.len()),
            after,
            outcome,
            path,
            states,
            made_last(arrivals),
        )
}

/// The position does not accept the move that the policy chooses at the
/// node `node` of the tree.
pub open spec fn turned_down<State: GameState>(
    policy: UCTPolicy,
    nodes: Seq<NodeView<State::Move>>,
    node: int,
    state: State,
) -> bool {
    exists|choice: int| #[trigger]
        is_choice(policy.constant(), nodes[node].moves, choice) && !state.accepts(
            &nodes[node].moves[choice].mov,
        )
}

/// The walk of a playout along the path has left the tree `walked` and come
/// to the positions `states`, which the moves of the path make of a copy of
/// the position `root`, and the playout leaves the tree `after`: the tree
/// `walked`, with its evaluation taken back up the path where the playout
/// finishes. A playout is given up for a refused move where the last of the
/// positions does not accept the move that the policy chooses next.
pub open spec fn walk_done<State: GameState, Eval: Evaluator<State>>(
    root: State,
    eval: &Eval,
    policy: UCTPolicy,
    settings: SearchSettings,
    walked: Seq<NodeView<State::Move>>,
    after: Seq<NodeView<State::Move>>,
    outcome: PlayoutOutcome,
    path: Seq<(usize, usize)>,
    states: Seq<State>,
    made: bool,
) -> bool {
    &&& made_in_turn(root, moves_on(walked, path), states)
    &&& outcome == PlayoutOutcome::MoveRefused ==> turned_down(
        policy,
        walked,
        walk_end(walked, path),
        states.last(),
    )
    &&& if outcome == PlayoutOutcome::Finished {
        backed_up::<State, Eval>(eval, settings, made, states, walked, after, path)
    } else {
        after == walked
    }
}

/// The tree `after`, what the search remembers after, `memory_after`, and
/// the outcome are what a playout makes of the tree `before` and of
/// `memory_before` that walks the path: the path is a walk down the tree,
/// each step takes the move that the policy chooses at its node, the playout
/// ends as the walk and the settings have it end, and the tree and the
/// memory are what the walk has made of them, with an evaluation taken back
/// up the path where the playout finishes. A playout that does not start
/// leaves both as they were.
pub open spec fn played<State: GameState + TranspositionHash, Eval: Evaluator<State>>(
    root: State,
    eval: &Eval,
    policy: UCTPolicy,
    settings: SearchSettings,
    before: Seq<NodeView<State::Move>>,
    memory_before: Memory,
    after: Seq<NodeView<State::Move>>,
    memory_after: Memory,
    outcome: PlayoutOutcome,
    path: Seq<(usize, usize)>,
) -> bool {
    &&& is_walk(after, path)
    &&& steps_by_policy(policy, before, path)
    &&& path.len() <= settings.max_playout_length
    &&& ends_as(outcome, before.len(), after, settings, path)
    &&& outcome == PlayoutOutcome::LengthExceeded <==> before.len() < settings.node_limit
        && path.len() == settings.max_playout_length && goes_on(after, settings, path)
    &&& outcome == PlayoutOutcome::CycleDetected <==> before.len() < settings.node_limit
        && settings.cycle_behaviour is PanicWhenCycleDetected && came_before(
        path,
        walk_end(after, path),
    )
    &&& !(settings.cycle_behaviour is Ignore) ==> path.len() <= after.len()
    &&& outcome == PlayoutOutcome::MoveRefused ==> refused(root, policy, after, path)
    &&& if outcome == PlayoutOutcome::NodeLimitReached {
        after == before && memory_after == memory_before
    } else {
        carried_out::<State, Eval>(
            root,
            eval,
            policy,
            settings,
            before,
            memory_before,
            after,
            memory_after,
            outcome,
            path,
        )
    }
}

/// What a playout has done to the moves of the root when it has made
/// `steps` moves, the first of them the move at `first`: nothing before its
/// first move; after it, the move that the policy chose was visited once
/// more.
pub open spec fn root_walked<M>(
    policy: UCTPolicy,
    before: Seq<NodeView<M>>,
    after: Seq<NodeView<M>>,
    steps: nat,
    first: int,
) -> bool {
    if steps == 0 {
        visits_kept(before[0].moves, after[0].moves)
    } else {
        is_choice(policy.constant(), before[0].moves, first) && visited_once(
            before[0].moves,
            after[0].moves,
            first,
        )
    }
}

impl<Spec: Mcts, Eval: Evaluator<Spec::State>> SearchTree<Spec, Eval> {
    /// One playout. From the root it takes, node by node, the move that the
    /// policy chooses, and makes it on a copy of the root position; a move
    /// that has no node yet gets the one that the transposition table
    /// remembers for the position, or a new one. It stops at a position
    /// without moves, at a node that was visited no more often than the
    /// settings ask before a node is searched further, and where the
    /// settings say so at a position that it has been to. The position where
    /// it stops is evaluated, and the evaluation is taken back up the path.
    ///
    /// No playout starts in a tree that has as many nodes as it may have.
    /// A playout that would make more moves than a playout may is given up,
    /// and so is one that comes to a position twice where the settings take
    /// that for an error; the visits it has counted stay counted.
    pub fn playout(&mut self) -> (outcome: PlayoutOutcome)
        requires
            old(self).wf(),
        ensures
            final(self).wf(),
            final(self).same_search(old(self)),
            old(self).table_entries() <= final(self).table_entries() <= old(self).table_entries()
                + final(self).nodes().len() - old(self).nodes().len(),
            grown_from(old(self).nodes(), final(self).nodes()),
            final(self).nodes().len()
                <= old(self).nodes().len() + old(self).settings().max_playout_length,
            old(self).settings().visits_before_expansion >= 1
                ==> final(self).nodes().len() <= old(self).nodes().len() + 1,
            outcome == PlayoutOutcome::NodeLimitReached
                <==> old(self).nodes().len() >= old(self).settings().node_limit,
            outcome == PlayoutOutcome::NodeLimitReached
                ==> final(self).nodes() == old(self).nodes(),
            outcome == PlayoutOutcome::CycleDetected ==> old(self).settings().cycle_behaviour
                == CycleBehaviour::PanicWhenCycleDetected,
            outcome == PlayoutOutcome::LengthExceeded && !(old(self).settings().cycle_behaviour
                is Ignore) ==> old(self).settings().max_playout_length
                <= final(self).nodes().len(),
            outcome != PlayoutOutcome::NodeLimitReached && (old(self).nodes()[0].moves.len() == 0
                || old(self).settings().max_playout_length == 0) ==> visits_kept(
                old(self).nodes()[0].moves,
                final(self).nodes()[0].moves,
            ),
            outcome != PlayoutOutcome::NodeLimitReached && old(self).nodes()[0].moves.len() > 0
                && old(self).settings().max_playout_length > 0 ==> (outcome
                == PlayoutOutcome::MoveRefused && visits_kept(
                old(self).nodes()[0].moves,
                final(self).nodes()[0].moves,
            )) || (exists|first: int|
                #[trigger] root_walked(
                    old(self).policy(),
                    old(self).nodes(),
                    final(self).nodes(),
                    1,
                    first,
                )),
            old(self).nodes()[0].moves.len() == 0 && old(self).nodes().len() < old(self).settings().node_limit
                ==> outcome == PlayoutOutcome::Finished,
            outcome == PlayoutOutcome::Finished && old(self).nodes()[0].moves.len() > 0
                ==> old(self).settings().max_playout_length > 0,
            exists|path: Seq<(usize, usize)>| #[trigger]
                played::<Spec::State, Eval>(
                    old(self).root(),
                    &old(self).evaluator(),
                    old(self).policy(),
                    old(self).settings(),
                    old(self).nodes(),
                    old(self).memory(),
                    final(self).nodes(),
                    final(self).memory(),
                    outcome,
                    path,
                ),
    {
        let run = self.playout_along();
        proof {
            assert(played::<Spec::State, Eval>(
                old(self).root(),
                &old(self).evaluator(),
                old(self).policy(),
                old(self).settings(),
                old(self).nodes(),
                old(self).memory(),
                self.nodes(),
                self.memory(),
                run.0,
                run.1@,
            ));
            if run.1.len() > 0 {
                assert(root_walked(
                    old(self).policy(),
                    old(self).nodes(),
                    self.nodes(),
                    1,
                    run.1[0].1 as int,
                ));
            }
        }
        run.0
    }

    /// One playout, and the path it took: for each step the node and the
    /// place of the move that was taken there.
    pub fn playout_along(&mut self) -> (run: (PlayoutOutcome, Vec<(usize, usize)>))
        requires
            old(self).wf(),
        ensures
            final(self).wf(),
            final(self).same_search(old(self)),
            grown_from(old(self).nodes(), final(self).nodes()),
            final(self).nodes().len() <= old(self).nodes().len() + run.1.len(),
            old(self).settings().visits_before_expansion >= 1
                ==> final(self).nodes().len() <= old(self).nodes().len() + 1,
            old(self).table_entries() <= final(self).table_entries() <= old(self).table_entries()
                + final(self).nodes().len() - old(self).nodes().len(),
            is_walk(final(self).nodes(), run.1@),
            steps_by_policy(old(self).policy(), old(self).nodes(), run.1@),
            run.1.len() <= old(self).settings().max_playout_length,
            run.0 == PlayoutOutcome::NodeLimitReached || old(self).nodes()[0].moves.len() == 0
                || old(self).settings().max_playout_length == 0 ==> run.1.len() == 0,
            run.1.len() == 0 ==> run.0 == PlayoutOutcome::NodeLimitReached
                || run.0 == PlayoutOutcome::MoveRefused || old(self).nodes()[0].moves.len() == 0
                || old(self).settings().max_playout_length == 0,
            root_walked(
                old(self).policy(),
                old(self).nodes(),
                final(self).nodes(),
                run.1.len() as nat,
                if run.1.len() > 0 {
                    run.1[0].1 as int
                } else {
                    0
                },
            ),
            run.0 == PlayoutOutcome::NodeLimitReached
                <==> old(self).nodes().len() >= old(self).settings().node_limit,
            run.0 == PlayoutOutcome::NodeLimitReached ==> final(self).nodes() == old(self).nodes(),
            ends_as(
                run.0,
                old(self).nodes().len(),
                final(self).nodes(),
                old(self).settings(),
                run.1@,
            ),
            run.0 == PlayoutOutcome::LengthExceeded
                <==> old(self).nodes().len() < old(self).settings().node_limit
                    && run.1.len() == old(self).settings().max_playout_length
                && goes_on(final(self).nodes(), old(self).settings(), run.1@),
            run.0 == PlayoutOutcome::CycleDetected
                <==> old(self).nodes().len() < old(self).settings().node_limit
                    && old(self).settings().cycle_behaviour
                is PanicWhenCycleDetected && came_before(
                run.1@,
                walk_end(final(self).nodes(), run.1@),
            ),
            !(old(self).settings().cycle_behaviour is Ignore) ==> clear_walk(run.1@) && run.1.len()
                <= final(self).nodes().len(),
            run.0 == PlayoutOutcome::MoveRefused ==> refused(
                old(self).root(),
                old(self).policy(),
                final(self).nodes(),
                run.1@,
            ),
            run.0 == PlayoutOutcome::Finished && old(self).nodes()[0].moves.len() > 0
                ==> run.1.len() > 0,
            run.0 == PlayoutOutcome::NodeLimitReached
                ==> final(self).memory() == old(self).memory(),
            run.0 != PlayoutOutcome::NodeLimitReached ==> carried_out::<Spec::State, Eval>(
                old(self).root(),
                &old(self).evaluator(),
                old(self).policy(),
                old(self).settings(),
                old(self).nodes(),
                old(self).memory(),
                final(self).nodes(),
                final(self).memory(),
                run.0,
                run.1@,
            ),
            old(self).nodes()[0].moves.len() == 0 && old(self).nodes().len() < old(self).settings().node_limit
                ==> run.0 == PlayoutOutcome::Finished,
    {
        let ghost start = self.nodes();
        let settings = self.settings;
        if self.nodes.len() >= settings.node_limit {
            assert(grown_from(start, start)) by {
                assert forall|n: int| 0 <= n < start.len() implies node_kept(
                    start[n],
                    #[trigger] start[n],
                ) by {}
            }
            proof {
                lemma_walk_starts(start);
                lemma_untouched_starts(self.tree_policy, start);
                lemma_trail_starts();
                lemma_clear_starts();
            }
            return (PlayoutOutcome::NodeLimitReached, Vec::new());
        }
        let mut state = self.root_state.clone();
        let ghost mut states: Seq<Spec::State> = seq![state];
        let ghost mut arrivals: Seq<Arrival<Move<Spec>>> = Seq::empty();
        let ghost mut memories: Seq<Memory> = seq![self.memory()];
        proof {
            lemma_turns_start(self.root_state, start, state);
            lemma_players_start(state);
            lemma_arrivals_start::<Spec::State, Eval>(
                &self.eval,
                self.tree_policy,
                settings.cycle_behaviour,
                start,
                state,
                self.memory(),
                settings.virtual_loss,
            );
        }
        let mut node: usize = 0;
        let mut path: Vec<(usize, usize)> = Vec::new();
        let mut players: Vec<Player<Spec>> = Vec::new();
        let mut node_path: Vec<usize> = Vec::new();
        let mut created = false;
        let mut forced: Option<i64> = None;
        proof {
            assert forall|n: int| 0 <= n < start.len() implies node_kept(
                start[n],
                #[trigger] start[n],
            ) by {}
            lemma_walk_starts(start);
            lemma_untouched_starts(self.tree_policy, start);
            lemma_trail_starts();
            lemma_clear_starts();
        }
        loop
            invariant_except_break
                settings.visits_before_expansion >= 1 ==> self.nodes().len() == start.len(),
                trailed(node_path@, path@, node as int),
                path.len() > 0 ==> self.nodes()[node as int].visits
                    > settings.visits_before_expansion,
                settings.cycle_behaviour is Ignore || !came_before(path@, node as int),
                forced is None,
            invariant
                created == made_last(arrivals),
                self.wf(),
                self.same_search(old(self)),
                start == old(self).nodes(),
                settings == old(self).settings,
                start.len() >= 1,
                start.len() < settings.node_limit,
                grown_from(start, self.nodes()),
                self.nodes().len() <= start.len() + path.len(),
                old(self).table_entries() <= self.table_entries() <= old(self).table_entries()
                    + self.nodes().len() - start.len(),
                node < self.nodes().len(),
                path.len() == players.len(),
                path.len() <= settings.max_playout_length,
                path.len() == 0 ==> node == 0 && self.nodes() == start,
                path.len() > 0 ==> path[0].0 == 0 && node >= 1,
                root_walked(
                    self.tree_policy,
                    start,
                    self.nodes(),
                    path.len() as nat,
                    if path.len() > 0 {
                        path[0].1 as int
                    } else {
                        0
                    },
                ),
                is_walk(self.nodes(), path@),
                !(settings.cycle_behaviour is Ignore) ==> clear_walk(path@),
                made_in_turn(self.root_state, moves_on(self.nodes(), path@), states),
                states.len() == path.len() + 1,
                states.last() == state,
                players_of(states, players@),
                arrivals_right::<Spec::State, Eval>(
                    &old(self).evaluator(),
                    old(self).policy(),
                    settings.cycle_behaviour,
                    start,
                    path@,
                    states,
                    arrivals,
                    memories,
                    settings.virtual_loss,
                ),
                arrivals.len() == path.len(),
                memories.len() == path.len() + 1,
                memories[0] == old(self).memory(),
                memories.last() == self.memory(),
                self.nodes() == walked_tree(
                    start,
                    path@,
                    arrivals,
                    settings.virtual_loss,
                    path.len() as nat,
                ),
                steps_by_policy(self.tree_policy, start, path@),
                untouched_off_path(start, self.nodes(), path@),
                path.len() > 0
                    ==> self.nodes()[path@.last().0 as int].moves[path@.last().1 as int].child
                    == Some(node),
                path.len() == 0 ==> node_path.len() == 0,
            ensures
                path.len() == 0 ==> start[0].moves.len() == 0,
                settings.visits_before_expansion >= 1 ==> self.nodes().len() <= start.len() + 1,
                self.nodes()[node as int].moves.len() == 0
                    || (path.len() > 0 && (self.nodes()[node as int].visits
                    <= settings.visits_before_expansion || (!(settings.cycle_behaviour is Ignore)
                    && came_before(path@, node as int)))),
                settings.cycle_behaviour is PanicWhenCycleDetected ==> !came_before(
                    path@,
                    node as int,
                ),
                forced matches Some(given) ==> settings.cycle_behaviour
                    == CycleBehaviour::UseThisEvalWhenCycleDetected(given) && came_before(
                    path@,
                    node as int,
                ),
                forced is None ==> !(settings.cycle_behaviour is UseThisEvalWhenCycleDetected
                    && came_before(path@, node as int)),
            decreases settings.max_playout_length - path.len(),
        {
            if self.nodes[node].moves.len() == 0 {
                break;
            }
            if path.len() >= settings.max_playout_length {
                proof {
                    if path.len() > 0 {
                        assert(root_walked(
                            old(self).policy(),
                            old(self).nodes(),
                            self.nodes(),
                            1,
                            path[0].1 as int,
                        ));
                    }
                }
                proof {
                    if !(settings.cycle_behaviour is Ignore) {
                        lemma_clear_bound(self.nodes(), path@);
                    }
                    assert(walk_done::<Spec::State, Eval>(
                        old(self).root(),
                        &old(self).evaluator(),
                        old(self).policy(),
                        settings,
                        self.nodes(),
                        self.nodes(),
                        PlayoutOutcome::LengthExceeded,
                        path@,
                        states,
                        made_last(arrivals),
                    ));
                    assert(carried_out::<Spec::State, Eval>(
                        old(self).root(),
                        &old(self).evaluator(),
                        old(self).policy(),
                        settings,
                        start,
                        old(self).memory(),
                        self.nodes(),
                        self.memory(),
                        PlayoutOutcome::LengthExceeded,
                        path@,
                    ));
                }
                return (PlayoutOutcome::LengthExceeded, path);
            }
            let ghost entered = self.nodes();
            let ghost walked_so_far = path@;
            let choice = self.tree_policy.choose_child(&self.nodes[node].moves);
            if !state.can_make(&self.nodes[node].moves[choice].mov) {
                assert(arrived(self.root_state, self.nodes(), path@, state)) by {
                    reveal(arrived);
                }
                assert(refused(self.root_state, self.tree_policy, self.nodes(), path@));
                proof {
                    if !(settings.cycle_behaviour is Ignore) {
                        lemma_clear_bound(self.nodes(), path@);
                    }
                    assert(walk_done::<Spec::State, Eval>(
                        old(self).root(),
                        &old(self).evaluator(),
                        old(self).policy(),
                        settings,
                        self.nodes(),
                        self.nodes(),
                        PlayoutOutcome::MoveRefused,
                        path@,
                        states,
                        made_last(arrivals),
                    ));
                    assert(carried_out::<Spec::State, Eval>(
                        old(self).root(),
                        &old(self).evaluator(),
                        old(self).policy(),
                        settings,
                        start,
                        old(self).memory(),
                        self.nodes(),
                        self.memory(),
                        PlayoutOutcome::MoveRefused,
                        path@,
                    ));
                }
                return (PlayoutOutcome::MoveRefused, path);
            }
            self.step_down(node, choice);
            let ghost taken_down = self.nodes();
            let ghost players_entered = players@;
            players.push(state.current_player());
            path.push((node, choice));
            let ghost states_entered = states;
            state.make_move(&self.nodes[node].moves[choice].mov);
            let (child, made) = self.descend(&state, node, choice);
            created = made;
            let ghost led = self.nodes();
            let ghost fresh = if made {
                Some(led[child as int])
            } else {
                None
            };
            proof {
                lemma_grown_twice(entered, taken_down, self.nodes());
                lemma_turns_step(
                    self.root_state,
                    entered,
                    self.nodes(),
                    walked_so_far,
                    (node, choice),
                    states,
                    state,
                );
                lemma_players_step(states, players_entered, players@.last(), state);
                states = states.push(state);
                assert(players@ =~= players_entered.push(players@.last()));
                assert(path@ =~= walked_so_far.push((node, choice)));
                if !(settings.cycle_behaviour is Ignore) {
                    lemma_clear_step(walked_so_far, (node, choice));
                }
                assert(node_kept(taken_down[node as int], self.nodes()[node as int]));
                assert(move_kept(
                    taken_down[node as int].moves[choice as int],
                    self.nodes()[node as int].moves[choice as int],
                ));
                lemma_grown_twice(entered, taken_down, self.nodes());
                assert(path@ =~= walked_so_far.push((node, choice)));
                if node < start.len() && off_path(walked_so_far, node as int) {
                    lemma_untouched_at(start, entered, walked_so_far, node as int);
                }
                lemma_step_by_policy(self.tree_policy, start, walked_so_far, (node, choice));
                assert forall|n: int| 0 <= n < entered.len() && n != node implies (
                #[trigger] self.nodes()[n]).moves == entered[n].moves by {
                    assert(taken_down[n] == entered[n]);
                    assert(self.nodes()[n] == taken_down[n]);
                }
                lemma_untouched_step(start, entered, self.nodes(), walked_so_far, (node, choice));
                lemma_grown_twice(start, entered, taken_down);
                lemma_grown_twice(start, taken_down, self.nodes());
                lemma_grown_twice(entered, taken_down, self.nodes());
                assert(node_kept(taken_down[node as int], self.nodes()[node as int]));
                assert(move_kept(
                    taken_down[node as int].moves[choice as int],
                    self.nodes()[node as int].moves[choice as int],
                ));
                lemma_walk_step(entered, self.nodes(), walked_so_far, (node, choice));
                assert(visits_kept(taken_down[0].moves, self.nodes()[0].moves));
                if path.len() == 1 {
                    assert(entered == start);
                    assert(visited_once(start[0].moves, taken_down[0].moves, choice as int));
                } else {
                    assert(node != 0);
                    assert(taken_down[0] == entered[0]);
                }
            }
            let seen = seen_before(&node_path, child);
            let ghost arrival = Arrival {
                child,
                fresh,
                counted: settings.cycle_behaviour is Ignore || !seen,
            };
            let ghost arrivals_entered = arrivals;
            proof {
                lemma_trail_seen(node_path@, walked_so_far, node as int, (node, choice), child);
                assert(led_to::<Spec::State, Eval>(
                    &state,
                    &old(self).evaluator(),
                    entered,
                    memories.last(),
                    node as int,
                    choice as int,
                    child,
                    fresh,
                    self.memory(),
                ));
                lemma_arrivals_step::<Spec::State, Eval>(
                    &old(self).evaluator(),
                    old(self).policy(),
                    settings.cycle_behaviour,
                    start,
                    walked_so_far,
                    (node, choice),
                    states_entered,
                    state,
                    arrivals,
                    arrival,
                    memories,
                    self.memory(),
                    settings.virtual_loss,
                );
                arrivals = arrivals.push(arrival);
                memories = memories.push(self.memory());
                lemma_walked_agrees(
                    start,
                    walked_so_far,
                    path@,
                    arrivals_entered,
                    arrivals,
                    settings.virtual_loss,
                    walked_so_far.len(),
                );
                assert(path@[path.len() - 1] == (node, choice));
                assert(arrivals[path.len() - 1] == arrival);
                assert(led == linked(
                    with_node(
                        taken(entered, node as int, choice as int, settings.virtual_loss),
                        fresh,
                    ),
                    node as int,
                    choice as int,
                    child,
                ));
                assert(walked_tree(
                    start,
                    path@,
                    arrivals,
                    settings.virtual_loss,
                    path.len() as nat,
                ) == stepped(entered, (node, choice), arrival, settings.virtual_loss));
            }
            if seen {
                match settings.cycle_behaviour {
                    CycleBehaviour::Ignore => {},
                    CycleBehaviour::PanicWhenCycleDetected => {
                        assert(root_walked(
                            old(self).policy(),
                            old(self).nodes(),
                            self.nodes(),
                            1,
                            path[0].1 as int,
                        ));
                        proof {
                            if !(settings.cycle_behaviour is Ignore) {
                                lemma_clear_bound(self.nodes(), path@);
                            }
                            assert(walk_done::<Spec::State, Eval>(
                                old(self).root(),
                                &old(self).evaluator(),
                                old(self).policy(),
                                settings,
                                self.nodes(),
                                self.nodes(),
                                PlayoutOutcome::CycleDetected,
                                path@,
                                states,
                                made_last(arrivals),
                            ));
                            assert(carried_out::<Spec::State, Eval>(
                                old(self).root(),
                                &old(self).evaluator(),
                                old(self).policy(),
                                settings,
                                start,
                                old(self).memory(),
                                self.nodes(),
                                self.memory(),
                                PlayoutOutcome::CycleDetected,
                                path@,
                            ));
                        }
                        return (PlayoutOutcome::CycleDetected, path);
                    },
                    CycleBehaviour::UseCurrentEvalWhenCycleDetected => {
                        node = child;
                        break;
                    },
                    CycleBehaviour::UseThisEvalWhenCycleDetected(evaluation) => {
                        forced = Some(evaluation);
                        node = child;
                        break;
                    },
                }
            }
            node_path.push(child);
            let ghost descended = self.nodes();
            self.touch(child);
            node = child;
            proof {
                lemma_grown_twice(start, descended, self.nodes());
                lemma_moves_on_kept(descended, self.nodes(), path@);
                lemma_walk_kept(descended, self.nodes(), path@);
                lemma_untouched_same(start, descended, self.nodes(), path@);
            }
            if self.nodes[node].visits <= settings.visits_before_expansion {
                break;
            }
        }
        let ghost reached = self.nodes();
        assert(walk_end(reached, path@) == node);
        let evaluation = match forced {
            Some(evaluation) => evaluation,
            None => {
                if created {
                    self.nodes[node].evaln
                } else {
                    self.eval.evaluate_existing_state(&state, self.nodes[node].evaln)
                }
            },
        };
        assert(judged::<Spec::State, Eval>(
            &self.eval,
            settings,
            created,
            reached,
            path@,
            state,
            evaluation,
        ));
        let mut values: Vec<i64> = Vec::new();
        let mut k: usize = 0;
        while k < players.len()
            invariant
                k <= players.len(),
                values.len() == k,
                players_of(states, players@),
                forall|j: int|
                    0 <= j < k ==> #[trigger] valued::<Spec::State, Eval>(
                        &self.eval,
                        states,
                        evaluation,
                        values@,
                        j,
                    ),
            decreases players.len() - k,
        {
            let value = self.eval.interpret_evaluation_for_player(evaluation, &players[k]);
            let ghost so_far = values@;
            values.push(value);
            proof {
                reveal(players_of);
                assert(call_ensures(
                    <Spec::State as GameState>::current_player,
                    (&states[k as int],),
                    players[k as int],
                ));
                assert forall|j: int| 0 <= j < k + 1 implies #[trigger] valued::<Spec::State, Eval>(
                    &self.eval,
                    states,
                    evaluation,
                    values@,
                    j,
                ) by {
                    if j < k {
                        assert(valued::<Spec::State, Eval>(
                            &self.eval,
                            states,
                            evaluation,
                            so_far,
                            j,
                        ));
                        assert(values@[j] == so_far[j]);
                    } else {
                        assert(values@[j] == value);
                    }
                }
            }
            k += 1;
        }
        let ghost walked = self.nodes();
        self.backpropagate(&path, &values);
        proof {
            lemma_recorded_keeps(
                walked,
                path@,
                values@,
                settings.virtual_loss,
                path.len() as nat,
            );
            lemma_grown_twice(start, walked, self.nodes());
            lemma_walk_kept(walked, self.nodes(), path@);
            assert(visits_kept(walked[0].moves, self.nodes()[0].moves));
            assert(visits_kept(walked[node as int].moves, self.nodes()[node as int].moves));
            assert(self.eval == old(self).evaluator());
            assert(taken_back::<Spec::State, Eval>(
                &old(self).evaluator(),
                states,
                walked,
                self.nodes(),
                path@,
                values@,
                evaluation,
                old(self).settings().virtual_loss,
            ) && judged::<Spec::State, Eval>(
                &old(self).evaluator(),
                settings,
                made_last(arrivals),
                walked,
                path@,
                states.last(),
                evaluation,
            ));
            assert(backed_up::<Spec::State, Eval>(
                &old(self).evaluator(),
                settings,
                made_last(arrivals),
                states,
                walked,
                self.nodes(),
                path@,
            ));
            if path.len() > 0 {
                assert(root_walked(
                    old(self).policy(),
                    old(self).nodes(),
                    self.nodes(),
                    1,
                    path[0].1 as int,
                ));
            }
        }
        proof {
            if !(settings.cycle_behaviour is Ignore) {
                lemma_clear_bound(self.nodes(), path@);
            }
            lemma_moves_on_kept(walked, self.nodes(), path@);
            assert(walk_done::<Spec::State, Eval>(
                old(self).root(),
                &old(self).evaluator(),
                old(self).policy(),
                settings,
                walked,
                self.nodes(),
                PlayoutOutcome::Finished,
                path@,
                states,
                made_last(arrivals),
            ));
            assert(carried_out::<Spec::State, Eval>(
                old(self).root(),
                &old(self).evaluator(),
                old(self).policy(),
                settings,
                start,
                old(self).memory(),
                self.nodes(),
                self.memory(),
                PlayoutOutcome::Finished,
                path@,
            ));
        }
        (PlayoutOutcome::Finished, path)
    }
}

impl<Spec: Mcts, Eval: Evaluator<Spec::State>> SearchTree<Spec, Eval> {
    /// A tree has a root.
    pub proof fn lemma_root_moves(&self)
        requires
            self.wf(),
        ensures
            self.nodes().len() >= 1,
    {
    }

    /// A search is the same search as itself.
    pub proof fn lemma_same_search(&self)
        ensures
            self.same_search(self),
    {
    }

    /// Being the same search is transitive.
    pub proof fn lemma_same_search_twice(&self, second: &Self, first: &Self)
        requires
            self.same_search(second),
            second.same_search(first),
        ensures
            self.same_search(first),
            self.root() == first.root(),
            self.evaluator() == first.evaluator(),
            self.settings() == first.settings(),
            self.policy() == first.policy(),
            self.table_capacity() == first.table_capacity(),
    {
    }

    /// The tree of a search from the same position with the same settings,
    /// with nothing searched: nothing but the root, and an empty table of
    /// the same size.
    pub fn reset(self) -> (tree: Self)
        requires
            self.wf(),
        ensures
            tree.wf(),
            tree.root() == self.root(),
            tree.evaluator() == self.evaluator(),
            made_of(tree.nodes()[0], &self.root(), &self.evaluator()),
            tree.settings() == self.settings(),
            tree.policy() == self.policy(),
            tree.table_capacity() == self.table_capacity(),
            tree.table_hits() == 0,
            tree.table_entries() == 0,
            tree.nodes().len() == 1,
            tree.nodes()[0].visits == 0,
            forall|m: int|
                0 <= m < tree.nodes()[0].moves.len() ==> (#[trigger] tree.nodes()[0].moves[m]).child
                    is None && tree.nodes()[0].moves[m].visits == 0
                    && tree.nodes()[0].moves[m].sum_evaluations == 0,
    {
        let SearchTree {
            root_state,
            nodes: _,
            tree_policy,
            table,
            eval,
            settings,
            transposition_table_hits: _,
        } = self;
        let table = ApproxTable::with_slots(table.capacity());
        let root = Self::make_node(&root_state, &eval);
        let mut nodes: Vec<SearchNode<Move<Spec>>> = Vec::new();
        nodes.push(root);
        let tree = SearchTree {
            root_state,
            nodes,
            tree_policy,
            table,
            eval,
            settings,
            transposition_table_hits: 0,
        };
        proof {
            crate::mcts::transposition_table::lemma_empty_holds_nothing(tree.table@);
        }
        tree
    }
}

} // verus!
