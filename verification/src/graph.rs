//! Breadth-first search over positions, one node per position up to symmetry.
use vstd::prelude::*;
use std::collections::{HashMap, VecDeque};
use crate::board::{Board, BoardModel};
use crate::bound::{code_bound, lemma_canonical_len, lemma_distinct_keys_bounded};
use crate::pieces::{InvalidBoardError, Move};
use crate::rules::{lemma_move_keeps_position, lemma_valid_keyable};
use crate::state::{StateKey, StateModel, sort_ids};

verus! {

broadcast use vstd::std_specs::hash::group_hash_axioms;

#[derive(Debug)]
struct SearchNode {
    board: Board,
    state: StateKey,
    key: StateKey,
    parent: Option<usize>,
    move_taken: Option<Move>,
}

/// The positions reached from a root board, each stored with the move that first
/// reached it; positions that a symmetry turns into one another share a node.
#[derive(Debug)]
pub struct Graph {
    pub root: Board,
    nodes: Vec<SearchNode>,
    visited: HashMap<u64, Vec<usize>>,
}

/// The bucket of the visited map that a key goes to.
pub open spec fn bucket_of(k: StateModel) -> u64 {
    (k.bunnies * 4294967296 + k.mushrooms) as u64
}

/// The board after a move, or the board itself when the move cannot be made.
pub open spec fn after(b: BoardModel, mv: Move) -> BoardModel {
    match b.apply(mv) {
        Ok(next) => next,
        Err(_) => b,
    }
}

/// `mv` is a move generated on board `b`, and making it on `b` gives `next`.
#[verifier::opaque]
pub open spec fn legal_step(b: BoardModel, mv: Move, next: BoardModel) -> bool {
    b.all_moves().contains(mv) && b.apply(mv) == Ok::<BoardModel, InvalidBoardError>(next)
}

/// The key the board after a move gets.
pub open spec fn successor_key(b: BoardModel, mv: Move) -> StateModel {
    after(b, mv).state().canonical()
}

spec fn has_key_in(nodes: Seq<SearchNode>, k: StateModel) -> bool {
    exists|i: int| 0 <= i < nodes.len() && (#[trigger] nodes[i]).key@ == k
}

#[verifier::opaque]
spec fn node_ok(n: SearchNode, root: BoardModel) -> bool {
    &&& n.board@.valid()
    &&& n.state@ == n.board@.state()
    &&& n.key@ == n.state@.canonical()
    &&& n.board@.foxes.len() == root.foxes.len()
    &&& root.normal() ==> n.board@.normal()
}

#[verifier::opaque]
spec fn step_ok(nodes: Seq<SearchNode>, i: int) -> bool {
    &&& nodes[i].parent matches Some(p) && p < i
    &&& nodes[i].move_taken matches Some(mv) && legal_step(
        nodes[nodes[i].parent.unwrap() as int].board@,
        mv,
        nodes[i].board@,
    )
}

proof fn lemma_step_parent(nodes: Seq<SearchNode>, i: int)
    requires
        step_ok(nodes, i),
    ensures
        nodes[i].parent is Some,
        (nodes[i].parent.unwrap() as int) < i,
        nodes[i].move_taken is Some,
{
    reveal(step_ok);
}

proof fn lemma_step_apply(nodes: Seq<SearchNode>, i: int)
    requires
        step_ok(nodes, i),
    ensures
        nodes[i].parent is Some,
        (nodes[i].parent.unwrap() as int) < i,
        nodes[i].move_taken is Some,
        legal_step(
            nodes[nodes[i].parent.unwrap() as int].board@,
            nodes[i].move_taken.unwrap(),
            nodes[i].board@,
        ),
{
    reveal(step_ok);
}

#[verifier::opaque]
spec fn nodes_ok(nodes: Seq<SearchNode>, root: BoardModel) -> bool {
    &&& nodes.len() >= 1
    &&& nodes[0].board@ == root
    &&& nodes[0].parent is None
    &&& nodes[0].move_taken is None
    &&& forall|i: int| 0 < i < nodes.len() ==> #[trigger] step_ok(nodes, i)
    &&& forall|i: int| 0 <= i < nodes.len() ==> #[trigger] node_ok(nodes[i], root)
    &&& forall|i: int, j: int|
        0 <= i < nodes.len() && 0 <= j < nodes.len() && i != j ==> (#[trigger] nodes[i]).key@
            != (#[trigger] nodes[j]).key@
}

#[verifier::opaque]
spec fn visited_ok(visited: Map<u64, Vec<usize>>, nodes: Seq<SearchNode>) -> bool {
    &&& forall|i: int|
        0 <= i < nodes.len() ==> visited.contains_key(bucket_of((#[trigger] nodes[i]).key@))
            && visited[bucket_of(nodes[i].key@)]@.contains(i as usize)
    &&& forall|h: u64, t: int|
        visited.contains_key(h) && 0 <= t < visited[h]@.len() ==> (#[trigger] visited[h]@[t])
            < nodes.len() && bucket_of(nodes[visited[h]@[t] as int].key@) == h
}

proof fn lemma_nodes_step(nodes: Seq<SearchNode>, root: BoardModel, c: int)
    requires
        nodes_ok(nodes, root),
        0 < c < nodes.len(),
    ensures
        step_ok(nodes, c),
        nodes[0].parent is None,
        nodes[0].board@ == root,
{
    reveal(nodes_ok);
}

proof fn lemma_nodes_root(nodes: Seq<SearchNode>, root: BoardModel)
    requires
        nodes_ok(nodes, root),
    ensures
        nodes.len() >= 1,
        nodes[0].parent is None,
        nodes[0].board@ == root,
{
    reveal(nodes_ok);
}

proof fn lemma_nodes_distinct(nodes: Seq<SearchNode>, root: BoardModel, i: int, j: int)
    requires
        nodes_ok(nodes, root),
        0 <= i < nodes.len(),
        0 <= j < nodes.len(),
        nodes[i].key@ == nodes[j].key@,
    ensures
        i == j,
{
    reveal(nodes_ok);
}

/// Following parents from node `i` reaches the root; each step of the route is a node's
/// move from its parent.
proof fn lemma_route_facts(nodes: Seq<SearchNode>, root: BoardModel, i: int)
    requires
        nodes_ok(nodes, root),
        0 <= i < nodes.len(),
    ensures
        route(nodes, i).len() >= 1,
        route(nodes, i)[0] == 0,
        route(nodes, i).last() == i,
        forall|t: int| 0 <= t < route(nodes, i).len() ==> 0 <= #[trigger] route(nodes, i)[t] < nodes.len(),
        forall|t: int|
            0 <= t < route(nodes, i).len() - 1 ==> nodes[route(nodes, i)[t + 1]].parent == Some(
                #[trigger] route(nodes, i)[t] as usize,
            ) && route(nodes, i)[t + 1] > 0,
        forall|t: int| 0 < t < route(nodes, i).len() ==> #[trigger] route(nodes, i)[t] > 0 && nodes[route(nodes, i)[t]].move_taken is Some,
    decreases i,
{
    if i > 0 {
        lemma_nodes_step(nodes, root, i);
        lemma_step_parent(nodes, i);
        let p = nodes[i].parent.unwrap() as int;
        lemma_route_facts(nodes, root, p);
        let r = route(nodes, p);
        assert(route(nodes, i) == r.push(i));
        assert forall|t: int| 0 <= t < route(nodes, i).len() - 1 implies nodes[route(
            nodes,
            i,
        )[t + 1]].parent == Some(#[trigger] route(nodes, i)[t] as usize) && route(nodes, i)[t + 1]
            > 0 by {
            if t < r.len() - 1 {
                assert(route(nodes, i)[t + 1] == r[t + 1]);
                assert(route(nodes, i)[t] == r[t]);
            } else {
                assert(route(nodes, i)[t] == r.last());
            }
        }
        assert forall|t: int| 0 <= t < route(nodes, i).len() implies 0 <= #[trigger] route(nodes, i)[t]
            < nodes.len() by {
            if t < r.len() {
                assert(route(nodes, i)[t] == r[t]);
            }
        }
        assert forall|t: int| 0 < t < route(nodes, i).len() implies #[trigger] route(nodes, i)[t] > 0 && nodes[route(nodes, i)[t]].move_taken is Some by {
            if t < r.len() {
                assert(route(nodes, i)[t] == r[t]);
            }
        }
    }
}

#[verifier::opaque]
spec fn graph_inv(nodes: Seq<SearchNode>, visited: Map<u64, Vec<usize>>, root: BoardModel) -> bool {
    &&& nodes_ok(nodes, root)
    &&& visited_ok(visited, nodes)
}

proof fn lemma_inv_route(nodes: Seq<SearchNode>, visited: Map<u64, Vec<usize>>, root: BoardModel, i: int)
    requires
        graph_inv(nodes, visited, root),
        0 <= i < nodes.len(),
    ensures
        route(nodes, i).len() >= 1,
        forall|t: int| 0 <= t < route(nodes, i).len() ==> 0 <= #[trigger] route(nodes, i)[t] < nodes.len(),
        forall|t: int| 0 < t < route(nodes, i).len() ==> #[trigger] route(nodes, i)[t] > 0 && nodes[route(nodes, i)[t]].move_taken is Some,
{
    reveal(graph_inv);
    lemma_route_facts(nodes, root, i);
}

proof fn lemma_node_facts(nodes: Seq<SearchNode>, visited: Map<u64, Vec<usize>>, root: BoardModel, i: int)
    requires
        graph_inv(nodes, visited, root),
        0 <= i < nodes.len(),
    ensures
        nodes[i].board@.valid(),
        nodes[i].state@ == nodes[i].board@.state(),
        nodes[i].key@ == nodes[i].state@.canonical(),
        nodes[i].board@.foxes.len() == root.foxes.len(),
        root.normal() ==> nodes[i].board@.normal(),
        nodes.len() >= 1,
{
    reveal(graph_inv);
    reveal(nodes_ok);
    assert(node_ok(nodes[i], root));
    reveal(node_ok);
}

/// The nodes from the root to node `i`, following parents.
spec fn route(nodes: Seq<SearchNode>, i: int) -> Seq<int>
    decreases i,
{
    if i <= 0 {
        seq![i]
    } else {
        match nodes[i].parent {
            Some(p) => if p < i {
                route(nodes, p as int).push(i)
            } else {
                seq![i]
            },
            None => seq![i],
        }
    }
}

impl Graph {
    /// The board the search started from.
    pub closed spec fn start(&self) -> BoardModel {
        self.root@
    }

    /// The graph is a search tree: each node's board is its parent's board after the
    /// node's move, every board a position, and no key held by two nodes.
    pub closed spec fn wf(&self) -> bool {
        graph_inv(self.nodes@, self.visited@, self.root@)
    }

    /// Some node holds the key.
    pub closed spec fn has_key(&self, k: StateModel) -> bool {
        has_key_in(self.nodes@, k)
    }

    closed spec fn index_for(&self, k: StateModel) -> int {
        choose|i: int| 0 <= i < self.nodes@.len() && (#[trigger] self.nodes@[i]).key@ == k
    }

    /// The board of the node holding the key.
    pub closed spec fn board_for(&self, k: StateModel) -> BoardModel {
        self.nodes@[self.index_for(k)].board@
    }

    /// The boards from the root to the node holding the key.
    pub closed spec fn route_boards(&self, k: StateModel) -> Seq<BoardModel> {
        route(self.nodes@, self.index_for(k)).map_values(|j: int| self.nodes@[j].board@)
    }

    /// The moves from the root to the node holding the key.
    pub closed spec fn route_moves(&self, k: StateModel) -> Seq<Move> {
        route(self.nodes@, self.index_for(k)).drop_first().map_values(
            |j: int| self.nodes@[j].move_taken.unwrap(),
        )
    }

    /// Every move of every node's board leads to a key some node holds.
    pub closed spec fn explored(&self) -> bool {
        forall|i: int, t: int|
            #![trigger self.nodes@[i].board@.all_moves()[t]]
            0 <= i < self.nodes@.len() && 0 <= t < self.nodes@[i].board@.all_moves().len()
                ==> has_key_in(
                self.nodes@,
                successor_key(self.nodes@[i].board@, self.nodes@[i].board@.all_moves()[t]),
            )
    }

    /// No node's board is a win.
    pub closed spec fn no_win(&self) -> bool {
        forall|i: int| 0 <= i < self.nodes@.len() ==> !(#[trigger] self.nodes@[i]).board@.wins()
    }
}

/// The key of a board, the same for all boards that a symmetry turns into one another.
pub fn canonical_key(board: &Board) -> (r: StateKey)
    requires
        board@.indexable(),
        board@.keyable(),
    ensures
        r@ == board@.state().canonical(),
{
    board.state_key().canonical()
}

fn bucket_index(key: &StateKey) -> (r: u64)
    ensures
        r == bucket_of(key@),
{
    (key.bunnies as u64) * 4294967296 + (key.mushrooms as u64)
}

fn key_equal(a: &StateKey, b: &StateKey) -> (r: bool)
    ensures
        r == (a@ == b@),
{
    if a.bunnies != b.bunnies || a.mushrooms != b.mushrooms || a.foxes.len() != b.foxes.len() {
        return false;
    }
    let mut i: usize = 0;
    while i < a.foxes.len()
        invariant
            a.foxes.len() == b.foxes.len(),
            i <= a.foxes.len(),
            forall|k: int| 0 <= k < i ==> a.foxes@[k] == b.foxes@[k],
        decreases a.foxes.len() - i,
    {
        if a.foxes[i] != b.foxes[i] {
            return false;
        }
        i = i + 1;
    }
    assert(a.foxes@ =~= b.foxes@);
    true
}

/// The node holding the key, if any.
fn find_key(
    nodes: &Vec<SearchNode>,
    visited: &HashMap<u64, Vec<usize>>,
    key: &StateKey,
    Ghost(root): Ghost<BoardModel>,
) -> (r: Option<usize>)
    requires
        graph_inv(nodes@, visited@, root),
    ensures
        r matches Some(i) ==> i < nodes.len() && nodes@[i as int].key@ == key@,
        r is None ==> !has_key_in(nodes@, key@),
{
    proof {
        reveal(graph_inv);
        reveal(visited_ok);
    }
    let h = bucket_index(key);
    match visited.get(&h) {
        None => {
            proof {
                if has_key_in(nodes@, key@) {
                    let i = choose|i: int| 0 <= i < nodes@.len() && (#[trigger] nodes@[i]).key@ == key@;
                    assert(visited@.contains_key(bucket_of(nodes@[i].key@)));
                }
            }
            None
        },
        Some(bucket) => {
            let mut t: usize = 0;
            while t < bucket.len()
                invariant
                    visited_ok(visited@, nodes@),
                    visited@.contains_key(h),
                    visited@[h] == *bucket,
                    h == bucket_of(key@),
                    t <= bucket.len(),
                    forall|q: int| 0 <= q < t ==> nodes@[bucket@[q] as int].key@ != key@,
                decreases bucket.len() - t,
            {
                let j = bucket[t];
                proof {
                    reveal(visited_ok);
                    assert(visited@[h]@[t as int] == j);
                }
                if key_equal(&nodes[j].key, key) {
                    return Some(j);
                }
                t = t + 1;
            }
            proof {
                if has_key_in(nodes@, key@) {
                    let i = choose|i: int| 0 <= i < nodes@.len() && (#[trigger] nodes@[i]).key@ == key@;
                    assert(i < nodes.len());
                    assert((i as usize) as int == i);
                    assert(visited@[h]@.contains(i as usize));
                    assert(bucket@ == visited@[h]@);
                    let q = choose|q: int| 0 <= q < bucket@.len() && bucket@[q] == i as usize;
                    assert(bucket@[q] as int == i);
                    assert(nodes@[bucket@[q] as int].key@ != key@);
                    assert(false);
                }
            }
            None
        },
    }
}

/// Records that node `id` holds `key`.
fn remember(visited: &mut HashMap<u64, Vec<usize>>, key: &StateKey, id: usize)
    ensures
        final(visited)@.dom() == old(visited)@.dom().insert(bucket_of(key@)),
        forall|h: u64| h != bucket_of(key@) && old(visited)@.contains_key(h) ==> #[trigger] final(visited)@[h] == old(visited)@[h],
        final(visited)@[bucket_of(key@)]@ == (if old(visited)@.contains_key(bucket_of(key@)) {
            old(visited)@[bucket_of(key@)]@.push(id)
        } else {
            seq![id]
        }),
{
    let h = bucket_index(key);
    let mut bucket: Vec<usize> = match visited.get(&h) {
        Some(b) => crate::order::copy_vec(b),
        None => Vec::new(),
    };
    bucket.push(id);
    visited.insert(h, bucket);
}

/// A board's key lists one placement number per fox.
pub proof fn lemma_state_len(m: BoardModel)
    ensures
        m.state().foxes.len() == m.foxes.len(),
        m.state().canonical().foxes.len() == m.foxes.len(),
{
    let mapped = m.foxes.map_values(|f: crate::pieces::Fox| crate::state::fox_id(f));
    <u8 as crate::order::Ordered>::lemma_total_order();
    mapped.lemma_sort_by_ensures(crate::order::leq::<u8>());
    broadcast use vstd::seq_lib::group_to_multiset_ensures;
    assert(sort_ids(mapped).to_multiset().len() == mapped.to_multiset().len());
    lemma_canonical_len(m.state(), 8);
    reveal(StateModel::canonical);
}

proof fn lemma_nodes_bounded(nodes: Seq<SearchNode>, root: BoardModel)
    requires
        nodes_ok(nodes, root),
    ensures
        nodes.len() <= code_bound(root.foxes.len()),
{
    reveal(nodes_ok);
    let keys = nodes.map_values(|n: SearchNode| n.key@);
    assert forall|i: int| 0 <= i < keys.len() implies (#[trigger] keys[i]).foxes.len()
        == root.foxes.len() by {
        assert(node_ok(nodes[i], root));
        reveal(node_ok);
        lemma_state_len(nodes[i].board@);
    }
    assert(keys.no_duplicates()) by {
        assert forall|i: int, j: int|
            0 <= i < keys.len() && 0 <= j < keys.len() && i != j implies keys[i] != keys[j] by {
            assert(nodes[i].key@ != nodes[j].key@);
        }
    }
    lemma_distinct_keys_bounded(keys, root.foxes.len());
}

proof fn lemma_extend(
    nodes: Seq<SearchNode>,
    v0: Map<u64, Vec<usize>>,
    v1: Map<u64, Vec<usize>>,
    node: SearchNode,
    root: BoardModel,
)
    requires
        nodes_ok(nodes, root),
        visited_ok(v0, nodes),
        !has_key_in(nodes, node.key@),
        node_ok(node, root),
        step_ok(nodes.push(node), nodes.len() as int),
        nodes.len() <= usize::MAX,
        v1.dom() == v0.dom().insert(bucket_of(node.key@)),
        forall|h: u64| h != bucket_of(node.key@) && v0.contains_key(h) ==> #[trigger] v1[h] == v0[h],
        v1[bucket_of(node.key@)]@ == (if v0.contains_key(bucket_of(node.key@)) {
            v0[bucket_of(node.key@)]@.push(nodes.len() as usize)
        } else {
            seq![nodes.len() as usize]
        }),
    ensures
        nodes_ok(nodes.push(node), root),
        visited_ok(v1, nodes.push(node)),
{
    reveal(nodes_ok);
    reveal(visited_ok);
    let n2 = nodes.push(node);
    let hk = bucket_of(node.key@);
    let id = nodes.len() as usize;
    assert forall|i: int| 0 < i < n2.len() implies #[trigger] step_ok(n2, i) by {
        reveal(step_ok);
        if i < nodes.len() {
            assert(step_ok(nodes, i));
            assert(n2[i] == nodes[i]);
            assert(n2[nodes[i].parent.unwrap() as int] == nodes[nodes[i].parent.unwrap() as int]);
        }
    }
    assert forall|i: int| 0 <= i < n2.len() implies #[trigger] node_ok(n2[i], root) by {
        if i < nodes.len() {
            assert(n2[i] == nodes[i]);
        }
    }
    assert forall|i: int, j: int|
        0 <= i < n2.len() && 0 <= j < n2.len() && i != j implies (#[trigger] n2[i]).key@
        != (#[trigger] n2[j]).key@ by {
        if i < nodes.len() && j < nodes.len() {
            assert(n2[i] == nodes[i] && n2[j] == nodes[j]);
        } else if i < nodes.len() {
            assert(n2[i] == nodes[i]);
        } else {
            assert(n2[j] == nodes[j]);
        }
    }
    assert forall|i: int| 0 <= i < n2.len() implies v1.contains_key(bucket_of((#[trigger] n2[i]).key@))
        && v1[bucket_of(n2[i].key@)]@.contains(i as usize) by {
        if i < nodes.len() {
            assert(n2[i] == nodes[i]);
            let h = bucket_of(nodes[i].key@);
            assert(v0.contains_key(h) && v0[h]@.contains(i as usize));
            if h == hk {
                let q = choose|q: int| 0 <= q < v0[h]@.len() && v0[h]@[q] == i as usize;
                assert(v1[h]@[q] == i as usize);
            }
        } else {
            assert(v1[hk]@[v1[hk]@.len() - 1] == id);
        }
    }
    assert forall|h: u64, t: int| v1.contains_key(h) && 0 <= t < v1[h]@.len() implies (
    #[trigger] v1[h]@[t]) < n2.len() && bucket_of(n2[v1[h]@[t] as int].key@) == h by {
        if h == hk {
            if v0.contains_key(h) && t < v0[h]@.len() {
                assert(v1[h]@[t] == v0[h]@[t]);
                assert(n2[v0[h]@[t] as int] == nodes[v0[h]@[t] as int]);
            } else {
                assert(v1[h]@[t] == id);
            }
        } else {
            assert(v1[h] == v0[h]);
            assert(n2[v0[h]@[t] as int] == nodes[v0[h]@[t] as int]);
        }
    }
}

/// Adds the node for a new key, reached from `parent_id` by `movement`.
fn add_node(
    nodes: &mut Vec<SearchNode>,
    visited: &mut HashMap<u64, Vec<usize>>,
    successor: Board,
    state: StateKey,
    key: StateKey,
    parent_id: usize,
    movement: Move,
    Ghost(root): Ghost<BoardModel>,
)
    requires
        graph_inv(old(nodes)@, old(visited)@, root),
        !has_key_in(old(nodes)@, key@),
        parent_id < old(nodes).len(),
        old(nodes)@[parent_id as int].board@.all_moves().contains(movement),
        old(nodes)@[parent_id as int].board@.apply(movement) == Ok::<BoardModel, InvalidBoardError>(
            successor@,
        ),
        successor@.valid(),
        root.normal() ==> successor@.normal(),
        state@ == successor@.state(),
        key@ == state@.canonical(),
        successor@.foxes.len() == root.foxes.len(),
    ensures
        graph_inv(final(nodes)@, final(visited)@, root),
        final(nodes)@.len() == old(nodes)@.len() + 1,
        forall|i: int| 0 <= i < old(nodes)@.len() ==> #[trigger] final(nodes)@[i] == old(nodes)@[i],
        final(nodes)@[old(nodes)@.len() as int].board@ == successor@,
        final(nodes)@[old(nodes)@.len() as int].key@ == key@,
        final(nodes)@[old(nodes)@.len() as int].parent == Some(parent_id),
        final(nodes)@.len() <= code_bound(root.foxes.len()),
{
    let node_id = nodes.len();
    proof {
        reveal(graph_inv);
        lemma_nodes_bounded(old(nodes)@, root);
    }
    let ghost v_before = visited@;
    let ghost n_before = nodes@;
    remember(visited, &key, node_id);
    let node = SearchNode {
        board: successor,
        state,
        key,
        parent: Some(parent_id),
        move_taken: Some(movement),
    };
    proof {
        reveal(step_ok);
        reveal(node_ok);
        reveal(legal_step);
        let n2 = n_before.push(node);
        assert(n2[n_before.len() as int] == node);
        assert(n2[parent_id as int] == n_before[parent_id as int]);
        assert(step_ok(n2, n_before.len() as int));
        lemma_extend(n_before, v_before, visited@, node, root);
        lemma_nodes_bounded(n2, root);
    }
    nodes.push(node);
    proof {
        reveal(graph_inv);
    }
}

/// The number of moves from the root to node `i`.
spec fn depth(nodes: Seq<SearchNode>, i: int) -> int {
    route(nodes, i).len() - 1
}

/// The route to a node only looks at the nodes up to it.
proof fn lemma_route_prefix(old: Seq<SearchNode>, new: Seq<SearchNode>, i: int)
    requires
        0 <= i < old.len() <= new.len(),
        forall|j: int| 0 <= j < old.len() ==> #[trigger] new[j] == old[j],
    ensures
        route(new, i) == route(old, i),
        depth(new, i) == depth(old, i),
    decreases i,
{
    if i > 0 {
        assert(new[i] == old[i]);
        match old[i].parent {
            Some(p) => {
                if p < i {
                    lemma_route_prefix(old, new, p as int);
                }
            },
            None => {},
        }
    }
}

/// A node added with parent `p` lies one move deeper than `p`.
proof fn lemma_route_new(nodes: Seq<SearchNode>, node: SearchNode, p: usize)
    requires
        (p as int) < nodes.len(),
        node.parent == Some(p),
    ensures
        depth(nodes.push(node), nodes.len() as int) == depth(nodes, p as int) + 1,
{
    let n2 = nodes.push(node);
    let last = nodes.len() as int;
    assert forall|j: int| 0 <= j < nodes.len() implies #[trigger] n2[j] == nodes[j] by {}
    lemma_route_prefix(nodes, n2, p as int);
    assert(n2[last] == node);
    assert(last > 0);
    assert(n2[last].parent == Some(p));
    assert((p as int) < last);
    assert(route(n2, last) == route(n2, p as int).push(last));
}

proof fn lemma_extends_trans(a: Seq<SearchNode>, b: Seq<SearchNode>, c: Seq<SearchNode>)
    requires
        extends(a, b),
        extends(b, c),
    ensures
        extends(a, c),
{
    assert forall|i: int| 0 <= i < a.len() implies #[trigger] c[i] == a[i] by {
        assert(b[i] == a[i]);
        assert(c[i] == b[i]);
    }
}

/// Some node holds the key at most `d` moves from the root.
spec fn holds_near(nodes: Seq<SearchNode>, k: StateModel, d: int) -> bool {
    exists|j: int| 0 <= j < nodes.len() && (#[trigger] nodes[j]).key@ == k && depth(nodes, j) <= d
}

/// The nodes lie in breadth-first order: no node is nearer the root than an earlier one,
/// and none is more than one move deeper than node `head`.
#[verifier::opaque]
spec fn layered(nodes: Seq<SearchNode>, head: int) -> bool {
    &&& forall|i: int, j: int|
        #![trigger depth(nodes, i), depth(nodes, j)]
        0 <= i <= j < nodes.len() ==> depth(nodes, i) <= depth(nodes, j)
    &&& head < nodes.len() ==> forall|j: int|
        0 <= j < nodes.len() ==> #[trigger] depth(nodes, j) <= depth(nodes, head) + 1
}

/// Every move of the first `h` nodes leads to a key some node holds, at most one move
/// deeper than the node the move starts from.
#[verifier::opaque]
spec fn expanded(nodes: Seq<SearchNode>, h: int) -> bool {
    forall|i: int, t: int|
        #![trigger nodes[i].board@.all_moves()[t]]
        0 <= i < h && 0 <= t < nodes[i].board@.all_moves().len() ==> holds_near(
            nodes,
            successor_key(nodes[i].board@, nodes[i].board@.all_moves()[t]),
            depth(nodes, i) + 1,
        )
}

/// The first `t` moves of board `b` lead to keys some node holds at most `d` moves deep.
#[verifier::opaque]
spec fn partly_expanded(nodes: Seq<SearchNode>, b: BoardModel, t: int, d: int) -> bool {
    forall|t2: int|
        0 <= t2 < t ==> holds_near(nodes, #[trigger] successor_key(b, b.all_moves()[t2]), d)
}

#[verifier::opaque]
spec fn none_wins(nodes: Seq<SearchNode>) -> bool {
    forall|i: int| 0 <= i < nodes.len() ==> !(#[trigger] nodes[i]).board@.wins()
}

/// `new` keeps the nodes of `old` and may add more.
spec fn extends(old: Seq<SearchNode>, new: Seq<SearchNode>) -> bool {
    &&& old.len() <= new.len()
    &&& forall|i: int| 0 <= i < old.len() ==> #[trigger] new[i] == old[i]
}

proof fn lemma_holds_persists(old: Seq<SearchNode>, new: Seq<SearchNode>, k: StateModel, d: int)
    requires
        extends(old, new),
        holds_near(old, k, d),
    ensures
        holds_near(new, k, d),
{
    let j = choose|j: int| 0 <= j < old.len() && (#[trigger] old[j]).key@ == k && depth(old, j) <= d;
    lemma_route_prefix(old, new, j);
    assert(new[j] == old[j]);
}

proof fn lemma_progress_persists(
    old: Seq<SearchNode>,
    new: Seq<SearchNode>,
    h: int,
    b: BoardModel,
    t: int,
    d: int,
)
    requires
        extends(old, new),
        h <= old.len(),
        expanded(old, h),
        partly_expanded(old, b, t, d),
    ensures
        expanded(new, h),
        partly_expanded(new, b, t, d),
{
    reveal(expanded);
    reveal(partly_expanded);
    assert forall|i: int, t3: int|
        #![trigger new[i].board@.all_moves()[t3]]
        0 <= i < h && 0 <= t3 < new[i].board@.all_moves().len() implies holds_near(
            new,
            successor_key(new[i].board@, new[i].board@.all_moves()[t3]),
            depth(new, i) + 1,
        ) by {
        assert(new[i] == old[i]);
        lemma_route_prefix(old, new, i);
        lemma_holds_persists(
            old,
            new,
            successor_key(old[i].board@, old[i].board@.all_moves()[t3]),
            depth(old, i) + 1,
        );
    }
    assert forall|t2: int| 0 <= t2 < t implies holds_near(
        new,
        #[trigger] successor_key(b, b.all_moves()[t2]),
        d,
    ) by {
        lemma_holds_persists(old, new, successor_key(b, b.all_moves()[t2]), d);
    }
}

proof fn lemma_partly_step(nodes: Seq<SearchNode>, b: BoardModel, t: int, d: int)
    requires
        partly_expanded(nodes, b, t, d),
        holds_near(nodes, successor_key(b, b.all_moves()[t]), d),
    ensures
        partly_expanded(nodes, b, t + 1, d),
{
    reveal(partly_expanded);
}

proof fn lemma_expanded_step(nodes: Seq<SearchNode>, h: int)
    requires
        0 <= h < nodes.len(),
        expanded(nodes, h),
        partly_expanded(
            nodes,
            nodes[h].board@,
            nodes[h].board@.all_moves().len() as int,
            depth(nodes, h) + 1,
        ),
    ensures
        expanded(nodes, h + 1),
{
    reveal(expanded);
    reveal(partly_expanded);
    assert forall|i: int, t3: int|
        #![trigger nodes[i].board@.all_moves()[t3]]
        0 <= i < h + 1 && 0 <= t3 < nodes[i].board@.all_moves().len() implies holds_near(
            nodes,
            successor_key(nodes[i].board@, nodes[i].board@.all_moves()[t3]),
            depth(nodes, i) + 1,
        ) by {
        if i == h {
            assert(holds_near(
                nodes,
                successor_key(nodes[h].board@, nodes[h].board@.all_moves()[t3]),
                depth(nodes, h) + 1,
            ));
        }
    }
}

proof fn lemma_none_wins_push(old: Seq<SearchNode>, new: Seq<SearchNode>)
    requires
        none_wins(old),
        new.len() == old.len() + 1,
        forall|i: int| 0 <= i < old.len() ==> #[trigger] new[i] == old[i],
        !new[old.len() as int].board@.wins(),
    ensures
        none_wins(new),
{
    reveal(none_wins);
    assert forall|i: int| 0 <= i < new.len() implies !(#[trigger] new[i]).board@.wins() by {
        if i < old.len() {
            assert(new[i] == old[i]);
        }
    }
}

proof fn lemma_inv_bounded(nodes: Seq<SearchNode>, visited: Map<u64, Vec<usize>>, root: BoardModel)
    requires
        graph_inv(nodes, visited, root),
    ensures
        nodes.len() <= code_bound(root.foxes.len()),
{
    reveal(graph_inv);
    lemma_nodes_bounded(nodes, root);
}

/// The key of the board a generated move leads to, and its canonical key.
fn successor_keys(parent: &Board, parent_state: &StateKey, movement: Move, Ghost(t): Ghost<int>) -> (r: (
    StateKey,
    StateKey,
))
    requires
        parent@.valid(),
        parent_state@ == parent@.state(),
        0 <= t < parent@.all_moves().len(),
        parent@.all_moves()[t] == movement,
    ensures
        r.0@ == after(parent@, movement).state(),
        r.1@ == r.0@.canonical(),
{
    proof {
        lemma_move_keeps_position(parent@, t);
        lemma_valid_keyable(after(parent@, movement));
        lemma_valid_keyable(parent@);
    }
    let successor_state = parent_state.apply_move(&movement);
    let key = successor_state.canonical();
    (successor_state, key)
}

/// The board a generated move leads to.
fn successor_board(parent: &Board, movement: Move, Ghost(t): Ghost<int>) -> (r: Board)
    requires
        parent@.valid(),
        0 <= t < parent@.all_moves().len(),
        parent@.all_moves()[t] == movement,
    ensures
        parent@.apply(movement) == Ok::<BoardModel, InvalidBoardError>(r@),
        r@ == after(parent@, movement),
        r@.valid(),
        parent@.normal() ==> r@.normal(),
        r@.foxes.len() == parent@.foxes.len(),
{
    proof {
        lemma_move_keeps_position(parent@, t);
        if parent@.normal() {
            crate::equivalence::lemma_move_normal(parent@, t);
        }
        lemma_valid_keyable(parent@);
    }
    match parent.apply_move(&movement) {
        Ok(b) => b,
        Err(_) => {
            proof {
                assert(false);
            }
            parent.clone()
        },
    }
}

/// Follows one move of a node: records the position it leads to, unless a node already
/// holds its key. Returns that position if it is new and a win.
fn explore_move(
    nodes: &mut Vec<SearchNode>,
    visited: &mut HashMap<u64, Vec<usize>>,
    parent: &Board,
    parent_state: &StateKey,
    parent_id: usize,
    movement: Move,
    Ghost(root): Ghost<BoardModel>,
    Ghost(t): Ghost<int>,
) -> (r: Option<Board>)
    requires
        graph_inv(old(nodes)@, old(visited)@, root),
        parent_id < old(nodes).len(),
        parent@ == old(nodes)@[parent_id as int].board@,
        parent@.valid(),
        root.normal() ==> parent@.normal(),
        parent_state@ == parent@.state(),
        0 <= t < parent@.all_moves().len(),
        parent@.all_moves()[t] == movement,
        none_wins(old(nodes)@),
        layered(old(nodes)@, parent_id as int),
    ensures
        graph_inv(final(nodes)@, final(visited)@, root),
        final(nodes)@.len() <= code_bound(root.foxes.len()),
        extends(old(nodes)@, final(nodes)@),
        layered(final(nodes)@, parent_id as int),
        holds_near(
            final(nodes)@,
            successor_key(parent@, movement),
            depth(old(nodes)@, parent_id as int) + 1,
        ),
        match r {
            Some(w) => {
                &&& w@.wins()
                &&& w@.valid()
                &&& final(nodes)@.len() == old(nodes)@.len() + 1
                &&& final(nodes)@[old(nodes)@.len() as int].board@ == w@
                &&& final(nodes)@[old(nodes)@.len() as int].key@ == w@.state().canonical()
                &&& depth(final(nodes)@, old(nodes)@.len() as int) == depth(
                    old(nodes)@,
                    parent_id as int,
                ) + 1
            },
            None => none_wins(final(nodes)@),
        },
{
    proof {
        lemma_node_facts(old(nodes)@, old(visited)@, root, parent_id as int);
        lemma_inv_bounded(old(nodes)@, old(visited)@, root);
    }
    let ghost n_before = nodes@;
    let (successor_state, key) = successor_keys(parent, parent_state, movement, Ghost(t));
    match find_key(nodes, visited, &key, Ghost(root)) {
        Some(j) => {
            proof {
                reveal(layered);
                assert(n_before[j as int].key@ == successor_key(parent@, movement));
                assert(depth(n_before, j as int) <= depth(n_before, parent_id as int) + 1);
                assert(holds_near(n_before, successor_key(parent@, movement), depth(n_before, parent_id as int) + 1));
            }
            return None;
        },
        None => {},
    }
    proof {
        assert(parent@.all_moves().contains(movement)) by {
            assert(parent@.all_moves()[t] == movement);
        }
    }
    let successor = successor_board(parent, movement, Ghost(t));
    add_node(nodes, visited, successor.clone(), successor_state, key, parent_id, movement, Ghost(root));
    proof {
        let node = nodes@[n_before.len() as int];
        assert(nodes@ == n_before.push(node));
        reveal(graph_inv);
        reveal(nodes_ok);
        assert(step_ok(nodes@, n_before.len() as int));
        lemma_step_parent(nodes@, n_before.len() as int);
        lemma_route_new(n_before, node, parent_id);
        let n2 = nodes@;
        let dn = depth(n2, n_before.len() as int);
        reveal(layered);
        assert forall|i: int| 0 <= i < n_before.len() implies #[trigger] depth(n2, i) == depth(n_before, i) by {
            lemma_route_prefix(n_before, n2, i);
        }
        assert(layered(n2, parent_id as int)) by {
            assert forall|i: int, j: int|
                #![trigger depth(n2, i), depth(n2, j)]
                0 <= i <= j < n2.len() implies depth(n2, i) <= depth(n2, j) by {
                if j < n_before.len() {
                    assert(depth(n_before, i) <= depth(n_before, j));
                } else if i < n_before.len() {
                    assert(depth(n_before, i) <= depth(n_before, parent_id as int) + 1);
                }
            }
            assert forall|j: int| 0 <= j < n2.len() implies #[trigger] depth(n2, j) <= depth(n2, parent_id as int) + 1 by {
                if j < n_before.len() {
                    assert(depth(n_before, j) <= depth(n_before, parent_id as int) + 1);
                }
            }
        }
        assert(n2[n_before.len() as int].key@ == key@);
        assert(holds_near(n2, successor_key(parent@, movement), depth(n_before, parent_id as int) + 1));
    }
    if successor.is_in_win_state() {
        return Some(successor);
    }
    proof {
        lemma_none_wins_push(n_before, nodes@);
    }
    None
}

/// `moves` leads from the first of `boards` to the last: each move is generated on the
/// board before it and leads to the board after it.
pub open spec fn is_run(boards: Seq<BoardModel>, moves: Seq<Move>) -> bool {
    &&& boards.len() == moves.len() + 1
    &&& forall|t: int|
        0 <= t < moves.len() ==> legal_step(#[trigger] boards[t], moves[t], boards[t + 1])
}

/// Some run of `n` moves leads from `b` to a winning board.
pub open spec fn solvable_in(b: BoardModel, n: nat) -> bool {
    exists|boards: Seq<BoardModel>, moves: Seq<Move>|
        #[trigger] is_run(boards, moves) && moves.len() == n && boards[0] == b && boards.last().wins()
}

/// Along a run from a position, every board is a position with as many bunnies.
proof fn lemma_run_keeps_bunnies(bs: Seq<BoardModel>, ms: Seq<Move>, t: int)
    requires
        is_run(bs, ms),
        bs[0].valid(),
        0 <= t < bs.len(),
    ensures
        bs[t].valid(),
        bs[t].bunnies.len() == bs[0].bunnies.len(),
    decreases t,
{
    if t > 0 {
        lemma_run_keeps_bunnies(bs, ms, t - 1);
        let b = bs[t - 1];
        assert(legal_step(b, ms[t - 1], bs[t]));
        reveal(legal_step);
        let i = choose|i: int| 0 <= i < b.all_moves().len() && b.all_moves()[i] == ms[t - 1];
        lemma_move_keeps_position(b, i);
    }
}

/// Only a position with three bunnies can be solved: moves keep the number of bunnies,
/// and a won board has three.
pub proof fn lemma_solution_needs_three_bunnies(b: BoardModel, n: nat)
    requires
        b.valid(),
        solvable_in(b, n),
    ensures
        b.bunnies.len() == 3,
{
    let (bs, ms) = choose|bs: Seq<BoardModel>, ms: Seq<Move>|
        #[trigger] is_run(bs, ms) && ms.len() == n && bs[0] == b && bs.last().wins();
    lemma_run_keeps_bunnies(bs, ms, bs.len() - 1);
    crate::board::lemma_win_rule(bs.last());
}

/// Each board of a run from a normal position, after `i` moves, is a normal position whose
/// canonical key some node holds at most `i` moves deep, as long as the nodes less than
/// `i` moves deep have all been expanded.
proof fn lemma_coverage(
    nodes: Seq<SearchNode>,
    root: BoardModel,
    h: int,
    dmax: int,
    bs: Seq<BoardModel>,
    ms: Seq<Move>,
    i: int,
)
    requires
        nodes_ok(nodes, root),
        root.valid(),
        root.normal(),
        expanded(nodes, h),
        h <= nodes.len(),
        forall|j: int| 0 <= j < nodes.len() && #[trigger] depth(nodes, j) < dmax ==> j < h,
        is_run(bs, ms),
        bs[0] == root,
        0 <= i <= ms.len(),
        i <= dmax,
    ensures
        bs[i].valid(),
        bs[i].normal(),
        holds_near(nodes, bs[i].state().canonical(), i),
    decreases i,
{
    reveal(nodes_ok);
    if i == 0 {
        assert(node_ok(nodes[0], root));
        reveal(node_ok);
        assert(route(nodes, 0) == seq![0int]);
        assert(nodes[0].key@ == bs[0].state().canonical());
    } else {
        lemma_coverage(nodes, root, h, dmax, bs, ms, i - 1);
        let j = choose|j: int|
            0 <= j < nodes.len() && (#[trigger] nodes[j]).key@ == bs[i - 1].state().canonical()
                && depth(nodes, j) <= i - 1;
        assert(j < h);
        let b = bs[i - 1];
        let mv = ms[i - 1];
        assert(legal_step(bs[i - 1], ms[i - 1], bs[i]));
        reveal(legal_step);
        let q = choose|q: int| 0 <= q < b.all_moves().len() && b.all_moves()[q] == mv;
        lemma_move_keeps_position(b, q);
        crate::equivalence::lemma_move_normal(b, q);
        assert(node_ok(nodes[j], root));
        reveal(node_ok);
        let big = nodes[j].board@;
        crate::equivalence::lemma_symmetric_step(big, b, q);
        let t = choose|t: int|
            0 <= t < big.all_moves().len() && successor_key(big, #[trigger] big.all_moves()[t])
                == successor_key(b, b.all_moves()[q]);
        reveal(expanded);
        assert(holds_near(nodes, successor_key(big, big.all_moves()[t]), depth(nodes, j) + 1));
        assert(successor_key(b, mv) == bs[i].state().canonical());
        let j2 = choose|j2: int|
            0 <= j2 < nodes.len() && (#[trigger] nodes[j2]).key@ == successor_key(big, big.all_moves()[t])
                && depth(nodes, j2) <= depth(nodes, j) + 1;
        assert(holds_near(nodes, bs[i].state().canonical(), i));
    }
}

/// Expands node `head`: follows each of its moves. Returns the first new winning
/// position found, if any.
fn expand_node(
    nodes: &mut Vec<SearchNode>,
    visited: &mut HashMap<u64, Vec<usize>>,
    head: usize,
    Ghost(root): Ghost<BoardModel>,
) -> (r: Option<Board>)
    requires
        graph_inv(old(nodes)@, old(visited)@, root),
        root.valid(),
        head < old(nodes).len(),
        old(nodes).len() <= code_bound(root.foxes.len()),
        none_wins(old(nodes)@),
        expanded(old(nodes)@, head as int),
        layered(old(nodes)@, head as int),
    ensures
        graph_inv(final(nodes)@, final(visited)@, root),
        extends(old(nodes)@, final(nodes)@),
        final(nodes).len() <= code_bound(root.foxes.len()),
        match r {
            Some(w) => {
                &&& w@.wins()
                &&& w@.valid()
                &&& final(nodes)@.len() >= 1
                &&& final(nodes)@[final(nodes)@.len() - 1].board@ == w@
                &&& final(nodes)@[final(nodes)@.len() - 1].key@ == w@.state().canonical()
                &&& root.normal() ==> forall|n: nat|
                    #[trigger] solvable_in(root, n) ==> depth(
                        final(nodes)@,
                        final(nodes)@.len() - 1,
                    ) <= n
            },
            None => {
                &&& none_wins(final(nodes)@)
                &&& expanded(final(nodes)@, head + 1)
                &&& layered(final(nodes)@, head as int)
            },
        },
{
    let parent_id = head;
    let parent = nodes[parent_id].board.clone();
    let parent_state = nodes[parent_id].state.clone();
    let ghost d0 = depth(nodes@, head as int);
    let ghost start = nodes@;
    proof {
        lemma_node_facts(nodes@, visited@, root, parent_id as int);
        lemma_valid_keyable(parent@);
        reveal(partly_expanded);
    }
    let moves = parent.get_all_moves();
    let mut t: usize = 0;
    while t < moves.len()
        invariant
            graph_inv(nodes@, visited@, root),
            root.valid(),
            head == parent_id,
            start == old(nodes)@,
            extends(start, nodes@),
            head < start.len(),
            d0 == depth(start, head as int),
            d0 == depth(nodes@, head as int),
            nodes.len() <= code_bound(root.foxes.len()),
            parent@ == nodes@[parent_id as int].board@,
            parent@.valid(),
            root.normal() ==> parent@.normal(),
            parent_state@ == parent@.state(),
            moves@ == parent@.all_moves(),
            t <= moves.len(),
            none_wins(nodes@),
            expanded(nodes@, head as int),
            layered(nodes@, head as int),
            partly_expanded(nodes@, parent@, t as int, d0 + 1),
        decreases moves.len() - t,
    {
        let movement = moves[t];
        let ghost n_before = nodes@;
        let ghost v_before = visited@;
        let found = explore_move(
            nodes,
            visited,
            &parent,
            &parent_state,
            parent_id,
            movement,
            Ghost(root),
            Ghost(t as int),
        );
        proof {
            assert(extends(n_before, nodes@));
            lemma_progress_persists(n_before, nodes@, head as int, parent@, t as int, d0 + 1);
            lemma_partly_step(nodes@, parent@, t as int, d0 + 1);
            assert(parent@ == nodes@[parent_id as int].board@);
            lemma_extends_trans(start, n_before, nodes@);
            lemma_route_prefix(n_before, nodes@, head as int);
        }
        match found {
            Some(w) => {
                proof {
                    let last = nodes@.len() - 1;
                    assert(last == n_before.len());
                    if root.normal() {
                        assert forall|n: nat| #[trigger] solvable_in(root, n) implies depth(
                            nodes@,
                            last,
                        ) <= n by {
                            let (bs, ms) = choose|bs: Seq<BoardModel>, ms: Seq<Move>|
                                #[trigger] is_run(bs, ms) && ms.len() == n && bs[0] == root
                                    && bs.last().wins();
                            if n <= d0 {
                                reveal(graph_inv);
                                reveal(layered);
                                assert forall|j: int| 0 <= j < n_before.len() && #[trigger] depth(
                                    n_before,
                                    j,
                                ) < d0 implies j < head by {
                                    if j >= head {
                                        assert(depth(n_before, head as int) <= depth(n_before, j));
                                    }
                                }
                                lemma_coverage(n_before, root, head as int, d0, bs, ms, n as int);
                                let j = choose|j: int|
                                    0 <= j < n_before.len() && (#[trigger] n_before[j]).key@
                                        == bs[n as int].state().canonical() && depth(n_before, j) <= n;
                                lemma_node_facts(n_before, v_before, root, j);
                                assert(nodes_ok(n_before, root));
                                reveal(nodes_ok);
                                assert(node_ok(n_before[j], root));
                                reveal(node_ok);
                                crate::equivalence::lemma_same_canonical_wins(
                                    n_before[j].board@,
                                    bs[n as int],
                                );
                                reveal(none_wins);
                                assert(!n_before[j].board@.wins());
                                assert(bs.last() == bs[n as int]);
                                assert(false);
                            }
                        }
                    }
                }
                return Some(w);
            },
            None => {},
        }
        t = t + 1;
    }
    proof {
        lemma_expanded_step(nodes@, head as int);
    }
    None
}

impl Graph {
    /// Searches breadth-first from the board until a winning position is found, visiting
    /// each position up to symmetry once. Returns the search graph and the first
    /// winning board found, if any. The route to it is a solution; when the foxes of the
    /// board are normalized, as placing them demands, it is a shortest one, and no board
    /// is found only when no sequence of moves wins.
    pub fn generate_solution_graph_from_board(board: &Board) -> (r: (Self, Option<Board>))
        requires
            board@.valid(),
        ensures
            r.0.wf(),
            r.0.start() == board@,
            r.0.has_key(board@.state().canonical()),
            match r.1 {
                Some(w) => {
                    &&& w@.wins()
                    &&& w@.valid()
                    &&& r.0.has_key(w@.state().canonical())
                    &&& r.0.board_for(w@.state().canonical()) == w@
                    &&& solvable_in(board@, r.0.route_moves(w@.state().canonical()).len())
                    &&& board@.normal() ==> forall|n: nat|
                        #[trigger] solvable_in(board@, n) ==> r.0.route_moves(
                            w@.state().canonical(),
                        ).len() <= n
                },
                None => {
                    &&& r.0.explored()
                    &&& r.0.no_win()
                    &&& board@.normal() ==> forall|n: nat| !#[trigger] solvable_in(board@, n)
                },
            },
    {
        let root = board.clone();
        proof {
            lemma_valid_keyable(root@);
        }
        let root_state = root.state_key();
        let root_key = root_state.canonical();
        let mut nodes: Vec<SearchNode> = Vec::new();
        let mut visited: HashMap<u64, Vec<usize>> = HashMap::new();
        let first_key = root_key.clone();
        remember(&mut visited, &root_key, 0);
        nodes.push(
            SearchNode {
                board: root.clone(),
                state: root_state,
                key: first_key,
                parent: None,
                move_taken: None,
            },
        );
        proof {
            let n1 = nodes@;
            assert forall|i: int, j: int|
                0 <= i < n1.len() && 0 <= j < n1.len() && i != j implies (#[trigger] n1[i]).key@
                != (#[trigger] n1[j]).key@ by {
            }
            reveal(step_ok);
            reveal(node_ok);
            reveal(nodes_ok);
            reveal(visited_ok);
            assert(nodes_ok(nodes@, root@));
            reveal(graph_inv);
            assert(visited_ok(visited@, nodes@)) by {
                let h = bucket_of(root_key@);
                assert(visited@[h]@ == seq![0usize]);
                assert(visited@[h]@[0] == 0usize);
                assert forall|h2: u64, t: int| visited@.contains_key(h2) && 0 <= t < visited@[h2]@.len()
                    implies (#[trigger] visited@[h2]@[t]) < nodes@.len() && bucket_of(
                    nodes@[visited@[h2]@[t] as int].key@,
                ) == h2 by {
                    assert(h2 == h);
                }
            }
        }
        if root.is_in_win_state() {
            proof {
                assert(nodes@[0].key@ == root_key@);
                assert(nodes@[0].board@ == board@);
                let g = Graph { root, nodes, visited };
                let j = g.index_for(root_key@);
                reveal(graph_inv);
                lemma_nodes_distinct(nodes@, root@, j, 0);
                assert(route(nodes@, 0) == seq![0int]);
                assert(g.route_moves(root_key@) =~= Seq::<Move>::empty());
                let bs = seq![board@];
                let ms = Seq::<Move>::empty();
                assert(is_run(bs, ms));
                assert(bs.last() == board@);
                assert(solvable_in(board@, 0));
                g.lemma_board_for(root_key@);
            }
            return (Graph { root, nodes, visited }, Some(board.clone()));
        }
        let mut queue: VecDeque<usize> = VecDeque::new();
        queue.push_back(0);
        let mut head: usize = 0;
        proof {
            assert(queue@ =~= Seq::new((nodes.len() - head) as nat, |q: int| (head + q) as usize));
            lemma_nodes_bounded(nodes@, root@);
            reveal(expanded);
            reveal(none_wins);
            reveal(layered);
            assert(route(nodes@, 0) == seq![0int]);
        }
        while queue.len() > 0
            invariant
                graph_inv(nodes@, visited@, root@),
                root@ == board@,
                root@.valid(),
                head <= nodes.len(),
                queue@ == Seq::new((nodes.len() - head) as nat, |q: int| (head + q) as usize),
                nodes.len() <= code_bound(root@.foxes.len()),
                none_wins(nodes@),
                expanded(nodes@, head as int),
                layered(nodes@, head as int),
            decreases code_bound(root@.foxes.len()) - nodes.len(), nodes.len() - head,
        {
            let parent_id = queue.pop_front().unwrap();
            assert(parent_id == head);
            let ghost n_before = nodes@;
            let before_len = nodes.len();
            let found = expand_node(&mut nodes, &mut visited, parent_id, Ghost(root@));
            match found {
                Some(w) => {
                    let g = Graph { root, nodes, visited };
                    proof {
                        reveal(graph_inv);
                        let node_id = g.nodes@.len() - 1;
                        assert(g.nodes@[node_id].key@ == w@.state().canonical());
                        assert(g.has_key(w@.state().canonical()));
                        let j = g.index_for(w@.state().canonical());
                        assert(g.nodes@[j].key@ == g.nodes@[node_id].key@);
                        lemma_nodes_distinct(g.nodes@, g.root@, j, node_id);
                        lemma_route_facts(g.nodes@, g.root@, node_id);
                        assert(g.route_moves(w@.state().canonical()).len() == depth(g.nodes@, node_id));
                        let k = w@.state().canonical();
                        g.lemma_route(k);
                        let bs = g.route_boards(k);
                        let ms = g.route_moves(k);
                        assert(is_run(bs, ms));
                        assert(solvable_in(board@, ms.len()));
                        g.lemma_board_for(k);
                    }
                    return (g, Some(w));
                },
                None => {},
            }
            let mut id: usize = before_len;
            while id < nodes.len()
                invariant
                    head < before_len <= id <= nodes.len(),
                    queue@ == Seq::new((id - head - 1) as nat, |q: int| (head + 1 + q) as usize),
                decreases nodes.len() - id,
            {
                queue.push_back(id);
                id = id + 1;
                assert(queue@ =~= Seq::new((id - head - 1) as nat, |q: int| (head + 1 + q) as usize));
            }
            proof {
                if head + 1 < nodes.len() {
                    reveal(layered);
                    assert(depth(nodes@, head as int) <= depth(nodes@, head + 1));
                    assert forall|j: int| 0 <= j < nodes@.len() implies #[trigger] depth(nodes@, j)
                        <= depth(nodes@, head + 1) + 1 by {
                        assert(depth(nodes@, j) <= depth(nodes@, head as int) + 1);
                    }
                }
                assert(layered(nodes@, head + 1)) by {
                    reveal(layered);
                }
            }
            head = head + 1;
        }
        let g = Graph { root, nodes, visited };
        proof {
            g.lemma_board_for(g.root@.state().canonical());
            reveal(expanded);
            reveal(none_wins);
            assert(g.explored()) by {
                assert forall|i: int, t: int|
                    #![trigger g.nodes@[i].board@.all_moves()[t]]
                    0 <= i < g.nodes@.len() && 0 <= t < g.nodes@[i].board@.all_moves().len()
                        implies has_key_in(
                        g.nodes@,
                        successor_key(g.nodes@[i].board@, g.nodes@[i].board@.all_moves()[t]),
                    ) by {
                    assert(holds_near(
                        g.nodes@,
                        successor_key(g.nodes@[i].board@, g.nodes@[i].board@.all_moves()[t]),
                        depth(g.nodes@, i) + 1,
                    ));
                }
            }
            if board@.normal() {
                assert forall|n: nat| !#[trigger] solvable_in(board@, n) by {
                    if solvable_in(board@, n) {
                        let (bs, ms) = choose|bs: Seq<BoardModel>, ms: Seq<Move>|
                            #[trigger] is_run(bs, ms) && ms.len() == n && bs[0] == board@
                                && bs.last().wins();
                        reveal(graph_inv);
                        lemma_coverage(g.nodes@, g.root@, g.nodes@.len() as int, n as int, bs, ms, n as int);
                        let j = choose|j: int|
                            0 <= j < g.nodes@.len() && (#[trigger] g.nodes@[j]).key@
                                == bs[n as int].state().canonical() && depth(g.nodes@, j) <= n;
                        lemma_node_facts(g.nodes@, g.visited@, g.root@, j);
                        crate::equivalence::lemma_same_canonical_wins(g.nodes@[j].board@, bs[n as int]);
                        assert(bs.last() == bs[n as int]);
                    }
                }
            }
        }
        (g, None)
    }
}

impl Graph {
    /// The route to a key starts at the root, ends at the key's board, and each step is a
    /// move generated on the board before it.
    pub proof fn lemma_route(&self, k: StateModel)
        requires
            self.wf(),
            self.has_key(k),
        ensures
            self.route_boards(k).len() >= 1,
            self.route_moves(k).len() + 1 == self.route_boards(k).len(),
            self.route_boards(k)[0] == self.start(),
            self.route_boards(k).last() == self.board_for(k),
            is_run(self.route_boards(k), self.route_moves(k)),
    {
        reveal(graph_inv);
        let nodes = self.nodes@;
        let i = self.index_for(k);
        assert(0 <= i < nodes.len() && nodes[i].key@ == k);
        lemma_route_facts(nodes, self.root@, i);
        lemma_nodes_root(nodes, self.root@);
        let r = route(nodes, i);
        let rb = self.route_boards(k);
        let rm = self.route_moves(k);
        assert(rb == r.map_values(|j: int| nodes[j].board@));
        assert(rm == r.drop_first().map_values(|j: int| nodes[j].move_taken.unwrap()));
        assert(rb.len() == r.len());
        assert(rm.len() == r.len() - 1);
        assert(rb[0] == nodes[r[0]].board@);
        assert(rb[rb.len() - 1] == nodes[r[r.len() - 1]].board@);
        assert forall|t: int| 0 <= t < rm.len() implies legal_step(
            #[trigger] rb[t],
            rm[t],
            rb[t + 1],
        ) by {
            let c = r[t + 1];
            assert(0 <= r[t] < nodes.len());
            assert(0 <= c < nodes.len());
            assert(nodes[c].parent == Some(r[t] as usize));
            assert(self.nodes@.len() == self.nodes.len());
            assert((r[t] as usize) as int == r[t]);
            lemma_nodes_step(nodes, self.root@, c);
            lemma_step_apply(nodes, c);
            assert(rb[t] == nodes[r[t]].board@);
            assert(rb[t + 1] == nodes[c].board@);
            assert(rm[t] == nodes[r.drop_first()[t]].move_taken.unwrap());
            assert(r.drop_first()[t] == c);
        }
    }

    /// The node indices from the root to node `id`.
    fn route_ids(&self, id: usize) -> (r: Vec<usize>)
        requires
            self.wf(),
            id < self.nodes.len(),
        ensures
            r@.map_values(|x: usize| x as int) == route(self.nodes@, id as int),
    {
        proof {
            reveal(graph_inv);
        }
        let ghost nodes = self.nodes@;
        let mut rev: Vec<usize> = Vec::new();
        let mut node_id = id;
        loop
            invariant_except_break
                route(nodes, id as int) == route(nodes, node_id as int) + rev@.reverse().map_values(
                    |x: usize| x as int,
                ),
            invariant
                nodes == self.nodes@,
                nodes_ok(nodes, self.root@),
                node_id < nodes.len(),
            ensures
                route(nodes, id as int) == rev@.reverse().map_values(|x: usize| x as int),
            decreases node_id,
        {
            let ghost before = rev@;
            rev.push(node_id);
            proof {
                assert(rev@.reverse() =~= seq![node_id].add(before.reverse()));
            }
            match self.nodes[node_id].parent {
                Some(parent) => {
                    proof {
                        if node_id == 0 {
                            lemma_nodes_root(nodes, self.root@);
                        }
                        lemma_nodes_step(nodes, self.root@, node_id as int);
                        lemma_step_parent(nodes, node_id as int);
                        assert(route(nodes, node_id as int) == route(nodes, parent as int).push(
                            node_id as int,
                        ));
                        assert(route(nodes, parent as int) + rev@.reverse().map_values(
                            |x: usize| x as int,
                        ) =~= route(nodes, parent as int).push(node_id as int) + before.reverse().map_values(
                            |x: usize| x as int,
                        ));
                    }
                    node_id = parent;
                },
                None => {
                    proof {
                        if node_id > 0 {
                            lemma_nodes_step(nodes, self.root@, node_id as int);
                            lemma_step_parent(nodes, node_id as int);
                        }
                        assert(route(nodes, 0) == seq![0int]);
                        assert(rev@.reverse().map_values(|x: usize| x as int) =~= seq![0int]
                            + before.reverse().map_values(|x: usize| x as int));
                    }
                    break;
                },
            }
        }
        let mut forward: Vec<usize> = Vec::new();
        let mut t: usize = rev.len();
        while t > 0
            invariant
                t <= rev.len(),
                forward@ =~= rev@.reverse().take(rev.len() - t),
            decreases t,
        {
            t = t - 1;
            forward.push(rev[t]);
            assert(forward@ =~= rev@.reverse().take(rev.len() - t));
        }
        assert(rev@.reverse().take(rev.len() as int) =~= rev@.reverse());
        forward
    }

    /// The board stored for a key has that key, is a position, and is normal when the
    /// start is; the start's own key is held by the root, whose route is the start alone.
    pub proof fn lemma_board_for(&self, k: StateModel)
        requires
            self.wf(),
        ensures
            self.has_key(self.start().state().canonical()),
            self.board_for(self.start().state().canonical()) == self.start(),
            self.route_boards(self.start().state().canonical()) == seq![self.start()],
            self.route_moves(self.start().state().canonical()) == Seq::<Move>::empty(),
            self.has_key(k) ==> self.board_for(k).state().canonical() == k
                && self.board_for(k).valid() && (self.start().normal() ==> self.board_for(
                k,
            ).normal()),
    {
        reveal(graph_inv);
        let nodes = self.nodes@;
        lemma_nodes_root(nodes, self.root@);
        lemma_node_facts(nodes, self.visited@, self.root@, 0);
        let rk = self.root@.state().canonical();
        assert(nodes[0].key@ == rk);
        assert(self.has_key(rk));
        let j = self.index_for(rk);
        lemma_nodes_distinct(nodes, self.root@, j, 0);
        assert(route(nodes, 0) == seq![0int]);
        assert(self.route_boards(rk) =~= seq![self.start()]);
        assert(self.route_moves(rk) =~= Seq::<Move>::empty());
        if self.has_key(k) {
            let i = self.index_for(k);
            lemma_node_facts(nodes, self.visited@, self.root@, i);
        }
    }

    /// Whether the search reached the position of `end`, up to symmetry: exactly when
    /// `path_to` and `moves_to` may be asked about it.
    pub fn reached(&self, end: &Board) -> (r: bool)
        requires
            self.wf(),
            end@.indexable(),
            end@.keyable(),
        ensures
            r == self.has_key(end@.state().canonical()),
    {
        let key = canonical_key(end);
        proof {
            reveal(graph_inv);
        }
        match find_key(&self.nodes, &self.visited, &key, Ghost(self.root@)) {
            Some(_) => true,
            None => false,
        }
    }

    fn node_index(&self, end: &Board) -> (r: usize)
        requires
            self.wf(),
            end@.indexable(),
            end@.keyable(),
            self.has_key(end@.state().canonical()),
        ensures
            r == self.index_for(end@.state().canonical()),
            r < self.nodes.len(),
    {
        let key = canonical_key(end);
        match find_key(&self.nodes, &self.visited, &key, Ghost(self.root@)) {
            Some(i) => {
                proof {
                    reveal(graph_inv);
                    let j = self.index_for(key@);
                    assert(self.nodes@[j].key@ == key@);
                    lemma_nodes_distinct(self.nodes@, self.root@, j, i as int);
                }
                i
            },
            None => {
                proof {
                    assert(false);
                }
                0
            },
        }
    }

    /// The boards from the root to the node holding the key of `end`.
    pub fn path_to(&self, end: &Board) -> (r: Vec<Board>)
        requires
            self.wf(),
            end@.indexable(),
            end@.keyable(),
            self.has_key(end@.state().canonical()),
        ensures
            r@.map_values(|b: Board| b@) == self.route_boards(end@.state().canonical()),
    {
        let id = self.node_index(end);
        let ids = self.route_ids(id);
        let ghost k = end@.state().canonical();
        proof {
            lemma_inv_route(self.nodes@, self.visited@, self.root@, id as int);
            assert forall|q: int| 0 <= q < ids.len() implies (#[trigger] ids@[q]) < self.nodes.len() by {
                assert(ids@.map_values(|x: usize| x as int)[q] == ids@[q] as int);
                assert(route(self.nodes@, id as int)[q] == ids@[q] as int);
            }
        }
        let mut path: Vec<Board> = Vec::new();
        let mut t: usize = 0;
        while t < ids.len()
            invariant
                ids@.map_values(|x: usize| x as int) == route(self.nodes@, id as int),
                forall|q: int| 0 <= q < ids.len() ==> (#[trigger] ids@[q]) < self.nodes.len(),
                id as int == self.index_for(k),
                t <= ids.len(),
                path@.map_values(|b: Board| b@) =~= self.route_boards(k).take(t as int),
            decreases ids.len() - t,
        {
            proof {
                assert(ids@.map_values(|x: usize| x as int)[t as int] == ids@[t as int] as int);
                assert(route(self.nodes@, id as int)[t as int] == ids@[t as int] as int);
                assert(self.route_boards(k) == route(self.nodes@, id as int).map_values(
                    |j: int| self.nodes@[j].board@,
                ));
                assert(self.route_boards(k)[t as int] == self.nodes@[ids@[t as int] as int].board@);
            }
            let ghost before = path@;
            let b = self.nodes[ids[t]].board.clone();
            path.push(b);
            proof {
                assert(path@ == before.push(b));
                assert(path@.map_values(|b: Board| b@) =~= before.map_values(|b: Board| b@).push(b@));
                assert(self.route_boards(k).take(t + 1) =~= self.route_boards(k).take(t as int).push(
                    self.route_boards(k)[t as int],
                ));
            }
            t = t + 1;
        }
        assert(self.route_boards(k).take(t as int) =~= self.route_boards(k));
        path
    }

    /// The moves from the root to the node holding the key of `end`.
    pub fn moves_to(&self, end: &Board) -> (r: Vec<Move>)
        requires
            self.wf(),
            end@.indexable(),
            end@.keyable(),
            self.has_key(end@.state().canonical()),
        ensures
            r@ == self.route_moves(end@.state().canonical()),
    {
        let id = self.node_index(end);
        let ids = self.route_ids(id);
        let ghost k = end@.state().canonical();
        proof {
            lemma_inv_route(self.nodes@, self.visited@, self.root@, id as int);
            assert forall|q: int| 0 <= q < ids.len() implies (#[trigger] ids@[q]) < self.nodes.len() && (q > 0 ==> ids@[q] > 0 && self.nodes@[ids@[q] as int].move_taken is Some) by {
                assert(ids@.map_values(|x: usize| x as int)[q] == ids@[q] as int);
                assert(route(self.nodes@, id as int)[q] == ids@[q] as int);
            }
        }
        let mut moves: Vec<Move> = Vec::new();
        let mut t: usize = 1;
        while t < ids.len()
            invariant
                ids@.map_values(|x: usize| x as int) == route(self.nodes@, id as int),
                forall|q: int| 0 <= q < ids.len() ==> (#[trigger] ids@[q]) < self.nodes.len(),
                forall|q: int| 0 < q < ids.len() ==> (#[trigger] ids@[q]) > 0 && self.nodes@[ids@[q] as int].move_taken is Some,
                id as int == self.index_for(k),
                1 <= t <= ids.len(),
                ids.len() >= 1,
                moves@ =~= self.route_moves(k).take(t - 1),
            decreases ids.len() - t,
        {
            let j = ids[t];
            proof {
                assert(ids@.map_values(|x: usize| x as int)[t as int] == j as int);
                let r = route(self.nodes@, id as int);
                assert(r[t as int] == j as int);
                assert(self.route_moves(k) == r.drop_first().map_values(
                    |q: int| self.nodes@[q].move_taken.unwrap(),
                ));
                assert(r.drop_first()[t - 1] == j as int);
                assert(self.route_moves(k)[t - 1] == self.nodes@[j as int].move_taken.unwrap());
            }
            let mv = self.nodes[j].move_taken.unwrap();
            moves.push(mv);
            t = t + 1;
            assert(moves@ =~= self.route_moves(k).take(t - 1));
        }
        proof {
            let r = route(self.nodes@, id as int);
            assert(self.route_moves(k) == r.drop_first().map_values(
                |q: int| self.nodes@[q].move_taken.unwrap(),
            ));
            assert(r.len() == ids.len()) by {
                assert(ids@.map_values(|x: usize| x as int).len() == ids.len());
            }
        }
        assert(self.route_moves(k).take(ids.len() - 1) =~= self.route_moves(k));
        moves
    }
}

} // verus!
