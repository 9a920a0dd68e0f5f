//! The permutation-state algebra: sparse puzzle positions, composition and
//! inversion.

use vstd::prelude::*;

verus! {

/// A sparse permutation state: which piece occupies each position of interest.
///
/// Entries are `(position, piece)` pairs, kept sorted by strictly increasing
/// position.  Positions absent from the mapping are implicitly fixed (the
/// identity), but the representation never densifies: exactly the stored
/// entries take part in solved-detection and in composition, so an entry
/// mapping a position to itself is meaningful and is kept.
pub struct Puzzle {
    elements: Vec<(u16, u16)>,
}

/// The partial function described by a sequence of `(position, piece)` pairs,
/// folded left to right: a later pair overwrites an earlier pair with the
/// same position.
pub open spec fn map_of(s: Seq<(u16, u16)>) -> Map<int, int>
    decreases s.len(),
{
    if s.len() == 0 {
        Map::empty()
    } else {
        map_of(s.drop_last()).insert(s.last().0 as int, s.last().1 as int)
    }
}

/// The pair sequence swapped entrywise, folded left to right: each
/// `(position, piece)` contributes `(piece, position)`, and on duplicate
/// pieces the later pair silently overwrites the earlier one.
pub open spec fn swap_map_of(s: Seq<(u16, u16)>) -> Map<int, int>
    decreases s.len(),
{
    if s.len() == 0 {
        Map::empty()
    } else {
        swap_map_of(s.drop_last()).insert(s.last().1 as int, s.last().0 as int)
    }
}

/// Positions strictly increase along the stored pair sequence.
pub open spec fn keys_sorted(s: Seq<(u16, u16)>) -> bool {
    forall|i: int, j: int| 0 <= i < j < s.len() ==> s[i].0 < s[j].0
}

/// The pieces of the stored pair sequence are pairwise distinct.  This holds
/// of every state whose mapping (extended by the identity) is a bijection,
/// in particular of states built from pairwise-disjoint cycle data.
pub open spec fn values_distinct(s: Seq<(u16, u16)>) -> bool {
    forall|i: int, j: int| 0 <= i < j < s.len() ==> s[i].1 != s[j].1
}

/// The dense identity over positions `0..n`.
pub open spec fn ident_map(n: int) -> Map<int, int> {
    Map::new(|i: int| 0 <= i < n, |i: int| i)
}

/// A state is solved when every stored position maps to itself.
pub open spec fn solved(m: Map<int, int>) -> bool {
    forall|i: int| m.dom().contains(i) ==> m[i] == i
}

/// The asymmetric composition "apply `a`, then `b`": defined exactly on `a`'s
/// domain; a position `i` of `a` goes to `b[a[i]]` where `b` stores `a[i]`,
/// and stays at `a[i]` otherwise.  Positions `b` stores but `a` does not are
/// absent from the result.
pub open spec fn compose_map(a: Map<int, int>, b: Map<int, int>) -> Map<int, int> {
    Map::new(
        |i: int| a.dom().contains(i),
        |i: int|
            if b.dom().contains(a[i]) {
                b[a[i]]
            } else {
                a[i]
            },
    )
}

impl View for Puzzle {
    type V = Map<int, int>;

    open spec fn view(&self) -> Map<int, int> {
        map_of(self.pairs())
    }
}

impl Puzzle {
    /// The stored pair sequence, in position order.
    pub closed spec fn pairs(&self) -> Seq<(u16, u16)> {
        self.elements@
    }

    /// Representation invariant: the stored positions strictly increase.
    pub open spec fn wf(&self) -> bool {
        keys_sorted(self.pairs())
    }

    /// A state with no stored entries.  It behaves as an identity only for
    /// the positions a composition actually queries; it is the accumulator
    /// from which states are built by `insert`.
    pub fn new() -> (r: Puzzle)
        ensures
            r.wf(),
            r.pairs() == Seq::<(u16, u16)>::empty(),
            r@ == Map::<int, int>::empty(),
    {
        let elements: Vec<(u16, u16)> = Vec::new();
        proof {
            assert(map_of(elements@) == Map::<int, int>::empty());
        }
        Puzzle { elements }
    }

    /// Stores `value` as the piece at position `key`, replacing any entry
    /// already stored there.
    pub fn insert(&mut self, key: u16, value: u16)
        requires
            old(self).wf(),
        ensures
            final(self).wf(),
            final(self)@ == old(self)@.insert(key as int, value as int),
    {
        let mut i: usize = 0;
        while i < self.elements.len() && self.elements[i].0 < key
            invariant
                self == old(self),
                i <= self.elements.len(),
                forall|j: int| 0 <= j < i ==> self.elements@[j].0 < key,
            decreases self.elements.len() - i,
        {
            i += 1;
        }
        if i < self.elements.len() && self.elements[i].0 == key {
            proof {
                lemma_map_of_update(self.elements@, i as int, key, value);
            }
            self.elements[i] = (key, value);
        } else {
            proof {
                lemma_map_of_insert_at(self.elements@, i as int, key, value);
            }
            self.elements.insert(i, (key, value));
        }
    }

    /// The dense identity over positions `0..n_pieces`: every such position
    /// holds its own piece.
    pub fn new_full_solved(n_pieces: u16) -> (r: Puzzle)
        ensures
            r.wf(),
            r@ == ident_map(n_pieces as int),
    {
        let mut p = Puzzle::new();
        let mut i: u16 = 0;
        while i < n_pieces
            invariant
                i <= n_pieces,
                p.wf(),
                p@ == ident_map(i as int),
            decreases n_pieces - i,
        {
            p.insert(i, i);
            proof {
                assert(ident_map(i as int).insert(i as int, i as int) =~= ident_map(
                    i as int + 1,
                ));
            }
            i += 1;
        }
        p
    }

    /// True iff every stored position holds its own piece.
    #[verifier::loop_isolation(false)]
    pub fn is_solved(&self) -> (r: bool)
        requires
            self.wf(),
        ensures
            r == solved(self@),
    {
        proof {
            lemma_map_of_dom(self.pairs());
            lemma_map_of_index(self.pairs());
        }
        let mut i: usize = 0;
        while i < self.elements.len()
            invariant
                i <= self.elements.len(),
                forall|j: int| 0 <= j < i ==> #[trigger] self.elements@[j].0 == self.elements@[j].1,
            decreases self.elements.len() - i,
        {
            let (k, v) = self.elements[i];
            if k != v {
                assert(self@.dom().contains(k as int) && self@[k as int] != k as int);
                return false;
            }
            i += 1;
        }
        assert forall|x: int| self@.dom().contains(x) implies self@[x] == x by {
            let j = choose|j: int| 0 <= j < self.pairs().len() && self.pairs()[j].0 as int == x;
            assert(self.elements@[j].0 == self.elements@[j].1);
        }
        true
    }

    /// Applies `self`, then `rhs`: every stored position `i` of `self` with
    /// piece `j` is sent to `rhs`'s entry for `j` where one is stored, and
    /// kept at `j` otherwise.  Only `self`'s stored positions appear in the
    /// result; entries of `rhs` for positions `self` does not store are
    /// dropped, by design.
    #[verifier::loop_isolation(false)]
    pub fn compose(&self, rhs: &Puzzle) -> (r: Puzzle)
        requires
            self.wf(),
            rhs.wf(),
        ensures
            r.wf(),
            r@ == compose_map(self@, rhs@),
    {
        let mut out: Vec<(u16, u16)> = Vec::new();
        let mut i: usize = 0;
        while i < self.elements.len()
            invariant
                i <= self.elements.len(),
                out@.len() == i,
                forall|j: int| 0 <= j < i ==> (#[trigger] out@[j]).0 == self.elements@[j].0,
                forall|j: int|
                    0 <= j < i ==> (#[trigger] out@[j]).1 as int == (if rhs@.dom().contains(
                        self.elements@[j].1 as int,
                    ) {
                        rhs@[self.elements@[j].1 as int]
                    } else {
                        self.elements@[j].1 as int
                    }),
            decreases self.elements.len() - i,
        {
            let (k, v) = self.elements[i];
            let w = match rhs.get(v) {
                Some(x) => x,
                None => v,
            };
            out.push((k, w));
            i += 1;
        }
        proof {
            lemma_map_of_compose_pointwise(self.elements@, out@, rhs@);
        }
        Puzzle { elements: out }
    }

    /// The state with every stored `(position, piece)` pair swapped to
    /// `(piece, position)`.  This is the inverse permutation only under the
    /// bijectivity assumption: where two entries share a piece, the entry at
    /// the higher position silently overwrites the other.
    #[verifier::loop_isolation(false)]
    pub fn inverse(&self) -> (r: Puzzle)
        requires
            self.wf(),
        ensures
            r.wf(),
            r@ == swap_map_of(self.pairs()),
    {
        let mut r = Puzzle::new();
        let mut i: usize = 0;
        while i < self.elements.len()
            invariant
                i <= self.elements.len(),
                r.wf(),
                r@ == swap_map_of(self.pairs().take(i as int)),
            decreases self.elements.len() - i,
        {
            let (k, v) = self.elements[i];
            r.insert(v, k);
            proof {
                assert(self.pairs().take(i as int + 1).drop_last() =~= self.pairs().take(
                    i as int,
                ));
                assert(self.pairs().take(i as int + 1).last() == self.pairs()[i as int]);
            }
            i += 1;
        }
        proof {
            assert(self.pairs().take(self.pairs().len() as int) =~= self.pairs());
        }
        r
    }

    /// The piece stored at position `key`, or `None` where the state stores
    /// no entry for that position.
    #[verifier::loop_isolation(false)]
    pub fn get(&self, key: u16) -> (r: Option<u16>)
        requires
            self.wf(),
        ensures
            (match r {
                Some(v) => self@.dom().contains(key as int) && self@[key as int] == v as int,
                None => !self@.dom().contains(key as int),
            }),
    {
        proof {
            lemma_map_of_dom(self.pairs());
            lemma_map_of_index(self.pairs());
        }
        let mut i: usize = 0;
        while i < self.elements.len()
            invariant
                i <= self.elements.len(),
                forall|j: int| 0 <= j < i ==> (#[trigger] self.elements@[j].0) != key,
            decreases self.elements.len() - i,
        {
            let (k, v) = self.elements[i];
            if k == key {
                return Some(v);
            }
            i += 1;
        }
        proof {
            if self@.dom().contains(key as int) {
                let j = choose|j: int|
                    0 <= j < self.pairs().len() && self.pairs()[j].0 as int == key as int;
                assert(self.elements@[j].0 != key);
            }
        }
        None
    }
}

/// Every position a pair sequence stores is in the domain of its mapping,
/// and nothing else is.
pub proof fn lemma_map_of_dom(s: Seq<(u16, u16)>)
    ensures
        forall|k: int|
            map_of(s).dom().contains(k) <==> exists|i: int|
                0 <= i < s.len() && (#[trigger] s[i]).0 as int == k,
    decreases s.len(),
{
    if s.len() > 0 {
        lemma_map_of_dom(s.drop_last());
        assert forall|k: int| map_of(s).dom().contains(k) implies exists|i: int|
            0 <= i < s.len() && (#[trigger] s[i]).0 as int == k by {
            if k == s.last().0 as int {
                assert(s[s.len() - 1].0 as int == k);
            } else {
                assert(map_of(s) == map_of(s.drop_last()).insert(
                    s.last().0 as int,
                    s.last().1 as int,
                ));
                assert(map_of(s.drop_last()).dom().contains(k));
                let i = choose|i: int|
                    0 <= i < s.drop_last().len() && (#[trigger] s.drop_last()[i]).0 as int == k;
                assert(s.drop_last()[i] == s[i]);
                assert(s[i].0 as int == k);
            }
        }
        assert forall|k: int|
            (exists|i: int| 0 <= i < s.len() && (#[trigger] s[i]).0 as int == k) implies map_of(
            s,
        ).dom().contains(k) by {
            let i = choose|i: int| 0 <= i < s.len() && (#[trigger] s[i]).0 as int == k;
            assert(map_of(s) == map_of(s.drop_last()).insert(
                s.last().0 as int,
                s.last().1 as int,
            ));
            if i < s.len() - 1 {
                assert(s.drop_last()[i] == s[i]);
                assert(s.drop_last()[i].0 as int == k);
                assert(map_of(s.drop_last()).dom().contains(k));
            } else {
                assert(k == s.last().0 as int);
            }
        }
    }
}

/// With strictly increasing positions, each stored pair is read back exactly
/// from the mapping.
pub proof fn lemma_map_of_index(s: Seq<(u16, u16)>)
    requires
        keys_sorted(s),
    ensures
        forall|i: int|
            0 <= i < s.len() ==> map_of(s)[(#[trigger] s[i]).0 as int] == s[i].1 as int,
    decreases s.len(),
{
    if s.len() > 0 {
        lemma_map_of_index(s.drop_last());
        assert forall|i: int|
            0 <= i < s.len() implies map_of(s)[(#[trigger] s[i]).0 as int] == s[i].1 as int by {
            if i < s.len() - 1 {
                assert(s[i].0 < s[s.len() - 1].0);
                assert(s.drop_last()[i] == s[i]);
            }
        }
    }
}

/// Overwriting the pair at a position already stored updates the mapping at
/// that position alone.
proof fn lemma_map_of_update(s: Seq<(u16, u16)>, i: int, key: u16, value: u16)
    requires
        keys_sorted(s),
        0 <= i < s.len(),
        s[i].0 == key,
    ensures
        keys_sorted(s.update(i, (key, value))),
        map_of(s.update(i, (key, value))) == map_of(s).insert(key as int, value as int),
    decreases s.len(),
{
    let t = s.update(i, (key, value));
    assert forall|x: int, y: int| 0 <= x < y < t.len() implies t[x].0 < t[y].0 by {
        assert(s[x].0 < s[y].0);
    }
    if i == s.len() - 1 {
        assert(t.drop_last() =~= s.drop_last());
        assert(map_of(t) =~= map_of(s).insert(key as int, value as int));
    } else {
        lemma_map_of_update(s.drop_last(), i, key, value);
        assert(t.drop_last() =~= s.drop_last().update(i, (key, value)));
        assert(t.last() == s.last());
        assert(s[i].0 < s[s.len() - 1].0);
        assert(map_of(t) =~= map_of(s).insert(key as int, value as int));
    }
}

/// A pair sequence that keeps `s`'s positions and rewrites each piece
/// through `b` describes exactly the composition of `s`'s mapping with `b`.
proof fn lemma_map_of_compose_pointwise(s: Seq<(u16, u16)>, t: Seq<(u16, u16)>, b: Map<int, int>)
    requires
        keys_sorted(s),
        t.len() == s.len(),
        forall|j: int| 0 <= j < s.len() ==> (#[trigger] t[j]).0 == s[j].0,
        forall|j: int|
            0 <= j < s.len() ==> (#[trigger] t[j]).1 as int == (if b.dom().contains(
                s[j].1 as int,
            ) {
                b[s[j].1 as int]
            } else {
                s[j].1 as int
            }),
    ensures
        keys_sorted(t),
        map_of(t) == compose_map(map_of(s), b),
    decreases s.len(),
{
    assert forall|x: int, y: int| 0 <= x < y < t.len() implies t[x].0 < t[y].0 by {
        assert(s[x].0 < s[y].0);
    }
    if s.len() == 0 {
        assert(map_of(t) =~= compose_map(map_of(s), b));
    } else {
        assert forall|j: int| 0 <= j < s.drop_last().len() implies (#[trigger] s.drop_last()[j])
            == s[j] && t.drop_last()[j] == t[j] by {}
        lemma_map_of_compose_pointwise(s.drop_last(), t.drop_last(), b);
        lemma_map_of_index(s);
        lemma_map_of_dom(s);
        lemma_map_of_dom(s.drop_last());
        assert(map_of(s) == map_of(s.drop_last()).insert(s.last().0 as int, s.last().1 as int));
        assert(map_of(t) == map_of(t.drop_last()).insert(t.last().0 as int, t.last().1 as int));
        assert forall|i: int| map_of(s).dom().contains(i) && i != s.last().0 as int implies map_of(
            s,
        )[i] == map_of(s.drop_last())[i] by {}
        assert(map_of(t) =~= compose_map(map_of(s), b));
    }
}

/// Splicing a pair in at its sorted place keeps the positions strictly
/// increasing and updates the mapping at that position alone.
proof fn lemma_map_of_insert_at(s: Seq<(u16, u16)>, i: int, key: u16, value: u16)
    requires
        keys_sorted(s),
        0 <= i <= s.len(),
        forall|j: int| 0 <= j < i ==> (#[trigger] s[j]).0 < key,
        forall|j: int| i <= j < s.len() ==> key < (#[trigger] s[j]).0,
    ensures
        keys_sorted(s.insert(i, (key, value))),
        map_of(s.insert(i, (key, value))) == map_of(s).insert(key as int, value as int),
    decreases s.len(),
{
    let t = s.insert(i, (key, value));
    assert forall|x: int, y: int| 0 <= x < y < t.len() implies t[x].0 < t[y].0 by {
        if x < i && y > i {
            assert(s[x].0 < key);
            assert(key < s[y - 1].0);
        }
    }
    if i == s.len() {
        assert(t.drop_last() =~= s);
        assert(t.last() == (key, value));
    } else {
        lemma_map_of_insert_at(s.drop_last(), i, key, value);
        assert(t.drop_last() =~= s.drop_last().insert(i, (key, value)));
        assert(t.last() == s.last());
        assert(key < s[s.len() - 1].0);
        assert(map_of(t) =~= map_of(s).insert(key as int, value as int));
    }
}

impl Clone for Puzzle {
    /// An entrywise copy: the clone stores exactly the same pairs.
    #[verifier::loop_isolation(false)]
    fn clone(&self) -> (r: Self)
        ensures
            r.pairs() == self.pairs(),
    {
        let mut elements: Vec<(u16, u16)> = Vec::new();
        let mut i: usize = 0;
        while i < self.elements.len()
            invariant
                i <= self.elements.len(),
                elements@ == self.elements@.take(i as int),
            decreases self.elements.len() - i,
        {
            elements.push(self.elements[i]);
            proof {
                assert(self.elements@.take(i as int + 1) =~= self.elements@.take(i as int).push(
                    self.elements@[i as int],
                ));
            }
            i += 1;
        }
        proof {
            assert(self.elements@.take(self.elements@.len() as int) =~= self.elements@);
        }
        Puzzle { elements }
    }
}

/// Composing any state with a dense identity on the right leaves the state
/// unchanged: every stored piece either falls inside the identity's
/// positions, where the identity fixes it, or outside them, where
/// composition keeps it as it is.
pub proof fn lemma_compose_identity_right(m: Map<int, int>, n: int)
    ensures
        compose_map(m, ident_map(n)) == m,
{
    assert(compose_map(m, ident_map(n)) =~= m);
}

/// Composing a dense identity with any state on the right agrees with that
/// state on every position the state stores inside the identity's own
/// domain, which is also the whole domain of the result.
pub proof fn lemma_compose_identity_left(m: Map<int, int>, n: int)
    ensures
        compose_map(ident_map(n), m).dom() == ident_map(n).dom(),
        forall|i: int|
            m.dom().contains(i) && 0 <= i < n ==> compose_map(ident_map(n), m)[i] == m[i],
{
    assert(compose_map(ident_map(n), m).dom() =~= ident_map(n).dom());
}

/// Chained composition is associative whenever `c`'s stored positions are
/// all stored by `b` as well.  Move sets whose generators cover the same
/// closed position domain satisfy this, which is what lets the search build
/// its cumulative states by repeated left-to-right composition.  (Without
/// the domain condition the asymmetric composition is not associative: a
/// piece that `b` drops could still be rerouted by `c` on one side only.)
pub proof fn lemma_compose_associative_on_covered_domains(
    a: Map<int, int>,
    b: Map<int, int>,
    c: Map<int, int>,
)
    requires
        forall|i: int| c.dom().contains(i) ==> b.dom().contains(i),
    ensures
        compose_map(compose_map(a, b), c) == compose_map(a, compose_map(b, c)),
{
    assert(compose_map(compose_map(a, b), c) =~= compose_map(a, compose_map(b, c)));
}

/// The dense identity is solved, whatever its size.
pub proof fn lemma_identity_is_solved(n: int)
    ensures
        solved(ident_map(n)),
{
}

/// With pairwise distinct pieces, the swapped mapping stores exactly the
/// pieces as positions, and sends each stored piece back to its position.
pub proof fn lemma_swap_map_props(s: Seq<(u16, u16)>)
    requires
        values_distinct(s),
    ensures
        forall|k: int|
            swap_map_of(s).dom().contains(k) <==> exists|i: int|
                0 <= i < s.len() && (#[trigger] s[i]).1 as int == k,
        forall|i: int|
            0 <= i < s.len() ==> swap_map_of(s)[(#[trigger] s[i]).1 as int] == s[i].0 as int,
    decreases s.len(),
{
    if s.len() > 0 {
        lemma_swap_map_props(s.drop_last());
        assert(swap_map_of(s) == swap_map_of(s.drop_last()).insert(
            s.last().1 as int,
            s.last().0 as int,
        ));
        assert forall|k: int| swap_map_of(s).dom().contains(k) implies exists|i: int|
            0 <= i < s.len() && (#[trigger] s[i]).1 as int == k by {
            if k == s.last().1 as int {
                assert(s[s.len() - 1].1 as int == k);
            } else {
                assert(swap_map_of(s.drop_last()).dom().contains(k));
                let i = choose|i: int|
                    0 <= i < s.drop_last().len() && (#[trigger] s.drop_last()[i]).1 as int == k;
                assert(s.drop_last()[i] == s[i]);
                assert(s[i].1 as int == k);
            }
        }
        assert forall|k: int|
            (exists|i: int| 0 <= i < s.len() && (#[trigger] s[i]).1 as int == k) implies swap_map_of(
            s,
        ).dom().contains(k) by {
            let i = choose|i: int| 0 <= i < s.len() && (#[trigger] s[i]).1 as int == k;
            if i < s.len() - 1 {
                assert(s.drop_last()[i] == s[i]);
                assert(s.drop_last()[i].1 as int == k);
                assert(swap_map_of(s.drop_last()).dom().contains(k));
            } else {
                assert(k == s.last().1 as int);
            }
        }
        assert forall|i: int|
            0 <= i < s.len() implies swap_map_of(s)[(#[trigger] s[i]).1 as int] == s[i].0 as int by {
            if i < s.len() - 1 {
                assert(s[i].1 != s[s.len() - 1].1);
                assert(s.drop_last()[i] == s[i]);
            }
        }
    }
}

/// Inverting a state and composing the inverse with the state acts as the
/// identity on the whole domain of the composition, which is the set of
/// pieces the state stores.  This needs only pairwise distinct pieces, which
/// every state built from pairwise-disjoint cycle data has; for such a state
/// the stored pieces are exactly the stored positions, so the composition is
/// the identity on the state's own domain.
pub proof fn lemma_inverse_then_compose_solved(s: Seq<(u16, u16)>)
    requires
        keys_sorted(s),
        values_distinct(s),
    ensures
        solved(compose_map(swap_map_of(s), map_of(s))),
        forall|i: int|
            0 <= i < s.len() ==> compose_map(swap_map_of(s), map_of(s)).dom().contains(
                (#[trigger] s[i]).1 as int,
            ),
{
    lemma_swap_map_props(s);
    lemma_map_of_dom(s);
    lemma_map_of_index(s);
    let inv = swap_map_of(s);
    let m = map_of(s);
    let c = compose_map(inv, m);
    assert forall|v: int| c.dom().contains(v) implies c[v] == v by {
        let i = choose|i: int| 0 <= i < s.len() && (#[trigger] s[i]).1 as int == v;
        assert(inv[v] == s[i].0 as int);
        assert(m.dom().contains(s[i].0 as int));
        assert(m[s[i].0 as int] == s[i].1 as int);
    }
}

} // verus!
