//! Bounded depth-first search over move sequences, and the
//! iterative-deepening driver around it.

use vstd::prelude::*;

use crate::puzzle::{compose_map, solved, Puzzle};

verus! {

/// One node of the search tree: the accumulated state after applying a move
/// sequence, and that sequence as indices into the active move set.
pub struct SearchNode {
    /// The accumulated permutation state.
    pub p: Puzzle,
    /// The generator indices applied so far, in application order.
    pub moves_taken: Vec<usize>,
}

/// The mappings of a sequence of states, in order.
pub open spec fn move_views(ms: Seq<Puzzle>) -> Seq<Map<int, int>> {
    Seq::new(ms.len(), |i: int| ms[i]@)
}

/// Every state of the sequence is well formed.
pub open spec fn all_wf(ms: Seq<Puzzle>) -> bool {
    forall|i: int| 0 <= i < ms.len() ==> (#[trigger] ms[i]).wf()
}

/// The result the bounded search reports from a node at `depth` whose state
/// is `m` and whose move list is `moves`, searching for a state solved at
/// exactly `max_depth`: at the target depth, the node itself when solved and
/// nothing otherwise; above it, the first result over the generators in
/// index order.
pub open spec fn dfs_spec(
    depth: int,
    max_depth: int,
    m: Map<int, int>,
    moves: Seq<usize>,
    ms: Seq<Map<int, int>>,
) -> Option<(Map<int, int>, Seq<usize>)>
    decreases max_depth - depth, ms.len() + 1,
{
    if depth >= max_depth {
        if solved(m) {
            Some((m, moves))
        } else {
            None
        }
    } else {
        dfs_children(depth, max_depth, m, moves, ms, 0)
    }
}

/// The first result over the children of a node, trying generators
/// `i, i + 1, ...` in order; the child for generator `i` composes the state
/// with that generator and appends `i` to the move list.
pub open spec fn dfs_children(
    depth: int,
    max_depth: int,
    m: Map<int, int>,
    moves: Seq<usize>,
    ms: Seq<Map<int, int>>,
    i: int,
) -> Option<(Map<int, int>, Seq<usize>)>
    decreases max_depth - depth, ms.len() - i,
{
    if depth >= max_depth || !(0 <= i < ms.len()) {
        None
    } else {
        let child = dfs_spec(
            depth + 1,
            max_depth,
            compose_map(m, ms[i]),
            moves.push(i as usize),
            ms,
        );
        if child is Some {
            child
        } else {
            dfs_children(depth, max_depth, m, moves, ms, i + 1)
        }
    }
}

impl Clone for SearchNode {
    /// Copies the state and the move list entrywise.
    #[verifier::loop_isolation(false)]
    fn clone(&self) -> (r: Self)
        ensures
            r.p.pairs() == self.p.pairs(),
            r.moves_taken@ == self.moves_taken@,
    {
        let mut moves_taken: Vec<usize> = Vec::new();
        let mut i: usize = 0;
        while i < self.moves_taken.len()
            invariant
                i <= self.moves_taken.len(),
                moves_taken@ == self.moves_taken@.take(i as int),
            decreases self.moves_taken.len() - i,
        {
            moves_taken.push(self.moves_taken[i]);
            proof {
                assert(self.moves_taken@.take(i as int + 1) =~= self.moves_taken@.take(
                    i as int,
                ).push(self.moves_taken@[i as int]));
            }
            i += 1;
        }
        proof {
            assert(self.moves_taken@.take(self.moves_taken@.len() as int) =~= self.moves_taken@);
        }
        SearchNode { p: self.p.clone(), moves_taken }
    }
}

impl SearchNode {
    /// Extends the node by one generator: composes the state with the move
    /// at index `i` of the move set and appends `i` to the move list.  The
    /// node itself is left untouched.
    pub fn multiply(&self, i: usize, move_set: &Vec<Puzzle>) -> (r: SearchNode)
        requires
            self.p.wf(),
            i < move_set.len(),
            move_set@[i as int].wf(),
        ensures
            r.p.wf(),
            r.p@ == compose_map(self.p@, move_set@[i as int]@),
            r.moves_taken@ == self.moves_taken@.push(i),
    {
        let p = self.p.compose(&move_set[i]);
        let mut moves_taken = self.clone().moves_taken;
        moves_taken.push(i);
        SearchNode { p, moves_taken }
    }
}

/// Exact-depth depth-first search from `node`, already `depth` levels down,
/// for a state solved at exactly `max_depth`.  Shallower solved states are
/// not reported: the solved test runs only at the target depth, and a solved
/// state met earlier is expanded like any other.  The result is exactly what
/// `dfs_spec` describes: the first solving continuation in generator-index,
/// depth-first order, or nothing when no continuation of that exact length
/// solves.
#[verifier::loop_isolation(false)]
pub fn dfs(depth: u8, max_depth: u8, node: &SearchNode, move_set: &Vec<Puzzle>) -> (r: Option<
    SearchNode,
>)
    requires
        depth <= max_depth,
        node.p.wf(),
        all_wf(move_set@),
    ensures
        (match r {
            Some(n) => n.p.wf() && Some((n.p@, n.moves_taken@)) == dfs_spec(
                depth as int,
                max_depth as int,
                node.p@,
                node.moves_taken@,
                move_views(move_set@),
            ),
            None => dfs_spec(
                depth as int,
                max_depth as int,
                node.p@,
                node.moves_taken@,
                move_views(move_set@),
            ) is None,
        }),
    decreases max_depth - depth,
{
    let ghost ms = move_views(move_set@);
    if depth == max_depth {
        if node.p.is_solved() {
            Some(node.clone())
        } else {
            None
        }
    } else {
        let mut i: usize = 0;
        while i < move_set.len()
            invariant
                i <= move_set.len(),
                dfs_children(
                    depth as int,
                    max_depth as int,
                    node.p@,
                    node.moves_taken@,
                    ms,
                    0,
                ) == dfs_children(
                    depth as int,
                    max_depth as int,
                    node.p@,
                    node.moves_taken@,
                    ms,
                    i as int,
                ),
            decreases move_set.len() - i,
        {
            let new_node = node.multiply(i, move_set);
            proof {
                assert(ms[i as int] == move_set@[i as int]@);
            }
            match dfs(depth + 1, max_depth, &new_node, move_set) {
                Some(solved_node) => {
                    return Some(solved_node);
                },
                None => {
                    proof {
                        assert(dfs_children(
                            depth as int,
                            max_depth as int,
                            node.p@,
                            node.moves_taken@,
                            ms,
                            i as int,
                        ) == dfs_children(
                            depth as int,
                            max_depth as int,
                            node.p@,
                            node.moves_taken@,
                            ms,
                            i as int + 1,
                        ));
                    }
                },
            }
            i += 1;
        }
        None
    }
}

/// The result the iterative-deepening driver reports when it still has the
/// depths `d, d + 1, ..., max_depth - 1` to try: the move list of the first
/// bounded search among them that finds a solving sequence.
pub open spec fn iddfs_from(
    d: int,
    max_depth: int,
    m: Map<int, int>,
    ms: Seq<Map<int, int>>,
) -> Option<Seq<usize>>
    decreases max_depth - d,
{
    if d >= max_depth {
        None
    } else {
        match dfs_spec(0, d, m, Seq::empty(), ms) {
            Some(res) => Some(res.1),
            None => iddfs_from(d + 1, max_depth, m, ms),
        }
    }
}

/// The result the iterative-deepening driver reports for a start state:
/// bounded searches at depths `0, 1, ..., max_depth - 1`, in that order, and
/// the move list of the first that succeeds.  The ceiling itself is never
/// attempted, so a ceiling of zero reports nothing even from a solved start.
pub open spec fn iddfs_spec(max_depth: int, m: Map<int, int>, ms: Seq<Map<int, int>>) -> Option<
    Seq<usize>,
> {
    iddfs_from(0, max_depth, m, ms)
}

/// Iterative-deepening driver: runs the bounded search at depths
/// `0, 1, ..., max_depth - 1` from `start_pos` and returns the move list of
/// the first solving sequence found, or `None` when no depth below the
/// ceiling yields one.  That outcome is a normal result, not an error.  The
/// ceiling itself is never attempted as a depth: in particular a ceiling of
/// zero always reports `None`, even for a solved start state.
#[verifier::loop_isolation(false)]
pub fn iddfs(max_depth: u8, start_pos: Puzzle, move_set: &Vec<Puzzle>) -> (r: Option<Vec<usize>>)
    requires
        start_pos.wf(),
        all_wf(move_set@),
    ensures
        (match r {
            Some(v) => iddfs_spec(max_depth as int, start_pos@, move_views(move_set@)) == Some(
                v@,
            ),
            None => iddfs_spec(max_depth as int, start_pos@, move_views(move_set@)) is None,
        }),
{
    let ghost ms = move_views(move_set@);
    let start_node = SearchNode { p: start_pos, moves_taken: Vec::new() };
    let mut depth: u8 = 0;
    while depth < max_depth
        invariant
            depth <= max_depth,
            iddfs_from(0, max_depth as int, start_node.p@, ms) == iddfs_from(
                depth as int,
                max_depth as int,
                start_node.p@,
                ms,
            ),
        decreases max_depth - depth,
    {
        match dfs(0, depth, &start_node, move_set) {
            Some(solved_node) => {
                return Some(solved_node.moves_taken);
            },
            None => {},
        }
        depth += 1;
    }
    None
}

} // verus!

