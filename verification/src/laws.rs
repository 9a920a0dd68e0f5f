//! What the search is proved to return: soundness, completeness at the exact
//! depth, and first-in-lexicographic-order among the solving sequences.

use vstd::prelude::*;

use crate::puzzle::{compose_map, solved};
use crate::search::{dfs_children, dfs_spec, iddfs_from, iddfs_spec};

verus! {

/// The state reached from `m` by applying the moves of `ms` selected by the
/// index sequence `w`, left to right.
pub open spec fn apply_moves(m: Map<int, int>, ms: Seq<Map<int, int>>, w: Seq<usize>) -> Map<
    int,
    int,
>
    decreases w.len(),
{
    if w.len() == 0 {
        m
    } else {
        apply_moves(compose_map(m, ms[w[0] as int]), ms, w.drop_first())
    }
}

/// Every index of `w` falls inside a move set of `n` generators.
pub open spec fn valid_moves(w: Seq<usize>, n: int) -> bool {
    forall|j: int| 0 <= j < w.len() ==> (#[trigger] w[j] as int) < n
}

/// `w` is a solving sequence for start state `m` over the move set `ms`.
pub open spec fn solves(m: Map<int, int>, ms: Seq<Map<int, int>>, w: Seq<usize>) -> bool {
    valid_moves(w, ms.len() as int) && solved(apply_moves(m, ms, w))
}

/// `a` comes no later than `b` in lexicographic order by generator index;
/// meant for sequences of one length, where it is a total order.
pub open spec fn lex_le(a: Seq<usize>, b: Seq<usize>) -> bool
    decreases a.len(),
{
    if a.len() == 0 {
        true
    } else if b.len() == 0 {
        false
    } else if a.first() < b.first() {
        true
    } else if a.first() == b.first() {
        lex_le(a.drop_first(), b.drop_first())
    } else {
        false
    }
}

/// What a successful bounded search from `(m, moves)` at `depth` reports:
/// `moves` followed by a solving continuation of exactly the remaining
/// depth, together with the state it reaches, and no solving continuation of
/// that length comes lexicographically earlier.
pub open spec fn dfs_found(
    depth: int,
    max_depth: int,
    m: Map<int, int>,
    moves: Seq<usize>,
    ms: Seq<Map<int, int>>,
    res: (Map<int, int>, Seq<usize>),
) -> bool {
    let w = res.1.skip(moves.len() as int);
    &&& res.1.len() == moves.len() + (max_depth - depth)
    &&& res.1.take(moves.len() as int) == moves
    &&& solves(m, ms, w)
    &&& res.0 == apply_moves(m, ms, w)
    &&& forall|w2: Seq<usize>|
        w2.len() == max_depth - depth && #[trigger] solves(m, ms, w2) ==> lex_le(w, w2)
}

/// As `dfs_found`, restricted to continuations whose first generator index
/// is at least `i`: what the sweep over the remaining children reports.
pub open spec fn dfs_children_found(
    depth: int,
    max_depth: int,
    m: Map<int, int>,
    moves: Seq<usize>,
    ms: Seq<Map<int, int>>,
    i: int,
    res: (Map<int, int>, Seq<usize>),
) -> bool {
    let w = res.1.skip(moves.len() as int);
    &&& res.1.len() == moves.len() + (max_depth - depth)
    &&& res.1.take(moves.len() as int) == moves
    &&& solves(m, ms, w)
    &&& res.0 == apply_moves(m, ms, w)
    &&& w.len() > 0
    &&& i <= w[0] as int
    &&& forall|w2: Seq<usize>|
        w2.len() == max_depth - depth && #[trigger] solves(m, ms, w2) && i <= w2[0] as int
            ==> lex_le(w, w2)
}

/// Taking one step of a nonempty sequence: `w` solves from `m` exactly when
/// the rest of `w` solves from `m` composed with `w`'s first move.
proof fn lemma_solves_step(m: Map<int, int>, ms: Seq<Map<int, int>>, w: Seq<usize>)
    requires
        w.len() > 0,
        (w[0] as int) < ms.len(),
    ensures
        solves(m, ms, w) <==> solves(compose_map(m, ms[w[0] as int]), ms, w.drop_first()),
        apply_moves(m, ms, w) == apply_moves(compose_map(m, ms[w[0] as int]), ms, w.drop_first()),
{
    let mc = compose_map(m, ms[w[0] as int]);
    let wt = w.drop_first();
    assert(apply_moves(m, ms, w) == apply_moves(mc, ms, wt));
    if valid_moves(w, ms.len() as int) {
        assert forall|j: int| 0 <= j < wt.len() implies (#[trigger] wt[j] as int) < ms.len() by {
            assert((w[j + 1] as int) < ms.len());
        }
    }
    if valid_moves(wt, ms.len() as int) {
        assert forall|j: int| 0 <= j < w.len() implies (#[trigger] w[j] as int) < ms.len() by {
            if j > 0 {
                assert((wt[j - 1] as int) < ms.len());
            }
        }
    }
}

/// The bounded search is sound, complete at its exact depth, and returns the
/// lexicographically first solving continuation: a `Some` result satisfies
/// `dfs_found`, and a `None` result means no continuation of exactly the
/// remaining depth solves.
pub proof fn lemma_dfs_finds_first(
    depth: int,
    max_depth: int,
    m: Map<int, int>,
    moves: Seq<usize>,
    ms: Seq<Map<int, int>>,
)
    requires
        0 <= depth <= max_depth,
        ms.len() <= usize::MAX,
    ensures
        (match dfs_spec(depth, max_depth, m, moves, ms) {
            Some(res) => dfs_found(depth, max_depth, m, moves, ms, res),
            None => forall|w: Seq<usize>|
                w.len() == max_depth - depth ==> !(#[trigger] solves(m, ms, w)),
        }),
    decreases max_depth - depth, ms.len() + 1,
{
    if depth == max_depth {
        if solved(m) {
            let res = (m, moves);
            assert(res.1.skip(moves.len() as int) =~= Seq::<usize>::empty());
            assert(res.1.take(moves.len() as int) =~= moves);
            assert(apply_moves(m, ms, Seq::<usize>::empty()) == m);
            assert forall|w2: Seq<usize>|
                w2.len() == max_depth - depth && #[trigger] solves(m, ms, w2) implies lex_le(
                Seq::<usize>::empty(),
                w2,
            ) by {
                assert(lex_le(Seq::<usize>::empty(), w2));
            }
        } else {
            assert forall|w: Seq<usize>| w.len() == max_depth - depth implies !(#[trigger] solves(
                m,
                ms,
                w,
            )) by {
                assert(apply_moves(m, ms, w) == m);
            }
        }
    } else {
        lemma_dfs_children_finds_first(depth, max_depth, m, moves, ms, 0);
    }
}

/// The sweep over children `i, i + 1, ...` is sound, complete, and first in
/// lexicographic order among the solving continuations whose first
/// generator index is at least `i`.
proof fn lemma_dfs_children_finds_first(
    depth: int,
    max_depth: int,
    m: Map<int, int>,
    moves: Seq<usize>,
    ms: Seq<Map<int, int>>,
    i: int,
)
    requires
        0 <= depth < max_depth,
        0 <= i <= ms.len(),
        ms.len() <= usize::MAX,
    ensures
        (match dfs_children(depth, max_depth, m, moves, ms, i) {
            Some(res) => dfs_children_found(depth, max_depth, m, moves, ms, i, res),
            None => forall|w: Seq<usize>|
                w.len() == max_depth - depth && i <= w[0] as int ==> !(#[trigger] solves(
                    m,
                    ms,
                    w,
                )),
        }),
    decreases max_depth - depth, ms.len() - i,
{
    let d = max_depth - depth;
    if i == ms.len() {
        assert forall|w: Seq<usize>|
            w.len() == d && i <= w[0] as int implies !(#[trigger] solves(m, ms, w)) by {
            if valid_moves(w, ms.len() as int) {
                assert((w[0] as int) < ms.len());
            }
        }
    } else {
        let mchild = compose_map(m, ms[i]);
        let cmoves = moves.push(i as usize);
        lemma_dfs_finds_first(depth + 1, max_depth, mchild, cmoves, ms);
        let child = dfs_spec(depth + 1, max_depth, mchild, cmoves, ms);
        // No continuation opening with generator i solves unless its rest
        // solves from the composed state.
        assert forall|w: Seq<usize>|
            w.len() == d && w[0] as int == i && #[trigger] solves(m, ms, w) implies solves(
            mchild,
            ms,
            w.drop_first(),
        ) && w.drop_first().len() == d - 1 by {
            lemma_solves_step(m, ms, w);
        }
        match child {
            Some(res) => {
                let w = res.1.skip(moves.len() as int);
                let wc = res.1.skip(cmoves.len() as int);
                assert(res.1.take(cmoves.len() as int) == cmoves);
                assert(res.1.take(moves.len() as int) =~= moves) by {
                    assert forall|j: int| 0 <= j < moves.len() implies res.1[j] == moves[j] by {
                        assert(res.1.take(cmoves.len() as int)[j] == cmoves[j]);
                    }
                }
                assert(w[0] == i as usize) by {
                    assert(res.1.take(cmoves.len() as int)[moves.len() as int] == cmoves[moves.len() as int]);
                }
                assert((w[0] as int) == i);
                assert(w.drop_first() =~= wc);
                assert(w.len() == d);
                assert(solves(mchild, ms, w.drop_first()));
                lemma_solves_step(m, ms, w);
                assert(solves(m, ms, w));
                assert(res.0 == apply_moves(m, ms, w));
                assert forall|w2: Seq<usize>|
                    w2.len() == d && #[trigger] solves(m, ms, w2) && i <= w2[0] as int implies lex_le(
                    w,
                    w2,
                ) by {
                    if w2[0] as int == i {
                        lemma_solves_step(m, ms, w2);
                        assert(solves(mchild, ms, w2.drop_first()));
                        assert(w2.drop_first().len() == max_depth - (depth + 1));
                        assert(lex_le(wc, w2.drop_first()));
                        assert(w.first() == w2.first());
                        assert(lex_le(w, w2));
                    } else {
                        assert((w.first() as int) < w2.first() as int);
                        assert(lex_le(w, w2));
                    }
                }
            },
            None => {
                lemma_dfs_children_finds_first(depth, max_depth, m, moves, ms, i + 1);
                // Nothing opening with generator i solves: its rest would
                // have to solve from the composed state at the next depth.
                assert forall|w: Seq<usize>|
                    w.len() == d && w[0] as int == i implies !(#[trigger] solves(m, ms, w)) by {
                    if solves(m, ms, w) {
                        assert(!solves(mchild, ms, w.drop_first()));
                    }
                }
                match dfs_children(depth, max_depth, m, moves, ms, i + 1) {
                    Some(res2) => {
                        let w = res2.1.skip(moves.len() as int);
                        assert forall|w2: Seq<usize>|
                            w2.len() == d && #[trigger] solves(m, ms, w2) && i <= w2[0] as int
                            implies lex_le(w, w2) by {
                            assert(w2[0] as int != i);
                        }
                    },
                    None => {
                        assert forall|w: Seq<usize>|
                            w.len() == d && i <= w[0] as int implies !(#[trigger] solves(
                            m,
                            ms,
                            w,
                        )) by {
                            if w[0] as int != i {
                                assert(i + 1 <= w[0] as int);
                            }
                        }
                    },
                }
            },
        }
    }
}

/// Composing with a solved state on the right changes nothing: each stored
/// piece is either fixed by the solved state or left as it is.
pub proof fn lemma_compose_solved_move(m: Map<int, int>, g: Map<int, int>)
    requires
        solved(g),
    ensures
        compose_map(m, g) == m,
{
    assert(compose_map(m, g) =~= m);
}

/// The all-zero index sequence of length `d`.
pub open spec fn zero_moves(d: int) -> Seq<usize> {
    Seq::new(d as nat, |j: int| 0usize)
}

/// Searching with a single solved (identity-like) generator: from a solved
/// state the bounded search reports that state with the all-zero move list
/// of exactly the remaining depth, and from an unsolved state it reports
/// nothing, at every depth.
pub proof fn lemma_identity_move_set(
    depth: int,
    max_depth: int,
    m: Map<int, int>,
    moves: Seq<usize>,
    ms: Seq<Map<int, int>>,
)
    requires
        ms.len() == 1,
        solved(ms[0]),
        0 <= depth <= max_depth,
    ensures
        solved(m) ==> dfs_spec(depth, max_depth, m, moves, ms) == Some(
            (m, moves + zero_moves(max_depth - depth)),
        ),
        !solved(m) ==> dfs_spec(depth, max_depth, m, moves, ms) is None,
    decreases max_depth - depth,
{
    if depth == max_depth {
        assert(moves + zero_moves(0) =~= moves);
    } else {
        lemma_compose_solved_move(m, ms[0]);
        lemma_identity_move_set(depth + 1, max_depth, m, moves.push(0usize), ms);
        if solved(m) {
            assert(moves.push(0usize) + zero_moves(max_depth - depth - 1) =~= moves + zero_moves(
                max_depth - depth,
            ));
        } else {
            assert(dfs_children(depth, max_depth, m, moves, ms, 1) is None);
        }
    }
}

/// As `lemma_identity_move_set`, stated for a search that starts at the
/// root: the solving move list is all zero indices, of length exactly the
/// target depth.
pub proof fn lemma_identity_move_set_search(d: int, m: Map<int, int>, ms: Seq<Map<int, int>>)
    requires
        ms.len() == 1,
        solved(ms[0]),
        0 <= d,
    ensures
        solved(m) ==> dfs_spec(0, d, m, Seq::empty(), ms) == Some((m, zero_moves(d))),
        !solved(m) ==> dfs_spec(0, d, m, Seq::empty(), ms) is None,
{
    lemma_identity_move_set(0, d, m, Seq::empty(), ms);
    assert(Seq::<usize>::empty() + zero_moves(d) =~= zero_moves(d));
}

/// A depth ceiling of zero makes the iterative-deepening driver report
/// nothing, whatever the start state: no depth below the ceiling exists, so
/// even a solved start goes unreported.
pub proof fn lemma_zero_ceiling_finds_nothing(m: Map<int, int>, ms: Seq<Map<int, int>>)
    ensures
        iddfs_spec(0, m, ms) is None,
{
}

/// With the depths `d, d + 1, ..., max_depth - 1` still to try, the driver
/// reports a shortest solving sequence among those lengths, and the
/// lexicographically first one of that length; it reports nothing exactly
/// when no sequence of such a length solves.
pub proof fn lemma_iddfs_from_finds_shortest(
    d: int,
    max_depth: int,
    m: Map<int, int>,
    ms: Seq<Map<int, int>>,
)
    requires
        0 <= d,
        ms.len() <= usize::MAX,
    ensures
        (match iddfs_from(d, max_depth, m, ms) {
            Some(w) => {
                &&& d <= w.len() < max_depth
                &&& solves(m, ms, w)
                &&& forall|w2: Seq<usize>|
                    d <= w2.len() < w.len() ==> !(#[trigger] solves(m, ms, w2))
                &&& forall|w2: Seq<usize>|
                    w2.len() == w.len() && #[trigger] solves(m, ms, w2) ==> lex_le(w, w2)
            },
            None => forall|w2: Seq<usize>|
                d <= w2.len() < max_depth ==> !(#[trigger] solves(m, ms, w2)),
        }),
    decreases max_depth - d,
{
    if d < max_depth {
        lemma_dfs_finds_first(0, d, m, Seq::empty(), ms);
        match dfs_spec(0, d, m, Seq::empty(), ms) {
            Some(res) => {
                assert(res.1.skip(0) =~= res.1);
            },
            None => {
                lemma_iddfs_from_finds_shortest(d + 1, max_depth, m, ms);
                match iddfs_from(d + 1, max_depth, m, ms) {
                    Some(w) => {
                        assert forall|w2: Seq<usize>|
                            d <= w2.len() < w.len() implies !(#[trigger] solves(m, ms, w2)) by {
                            if w2.len() > d {
                                assert(d + 1 <= w2.len() < w.len());
                            }
                        }
                    },
                    None => {
                        assert forall|w2: Seq<usize>|
                            d <= w2.len() < max_depth implies !(#[trigger] solves(m, ms, w2)) by {
                            if w2.len() > d {
                                assert(d + 1 <= w2.len() < max_depth);
                            }
                        }
                    },
                }
            },
        }
    }
}

/// The iterative-deepening driver reports a shortest solving sequence below
/// its ceiling — and the lexicographically first one of that length — or
/// reports nothing exactly when no sequence shorter than the ceiling solves.
pub proof fn lemma_iddfs_finds_shortest(max_depth: int, m: Map<int, int>, ms: Seq<Map<int, int>>)
    requires
        ms.len() <= usize::MAX,
    ensures
        (match iddfs_spec(max_depth, m, ms) {
            Some(w) => {
                &&& w.len() < max_depth
                &&& solves(m, ms, w)
                &&& forall|w2: Seq<usize>| w2.len() < w.len() ==> !(#[trigger] solves(m, ms, w2))
                &&& forall|w2: Seq<usize>|
                    w2.len() == w.len() && #[trigger] solves(m, ms, w2) ==> lex_le(w, w2)
            },
            None => forall|w2: Seq<usize>|
                w2.len() < max_depth ==> !(#[trigger] solves(m, ms, w2)),
        }),
{
    lemma_iddfs_from_finds_shortest(0, max_depth, m, ms);
}

} // verus!

