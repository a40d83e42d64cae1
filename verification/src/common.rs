use vstd::prelude::*;
use vstd::multiset::Multiset;
use vstd::seq_lib::lemma_multiset_commutative;
use crate::piece::{Color, NormalPiece, Piece};

verus! {

// ---------------------------------------------------------------------------
// Multiset model of a candidate group.
//
// All group predicates are stated over `Multiset<Piece>`, so that every one of
// them is invariant under reordering of the pieces by construction.
// ---------------------------------------------------------------------------

/// Number of wildcards in the group.
pub open spec fn joker_count(m: Multiset<Piece>) -> int {
    m.count(Piece::Joker) as int
}

/// The group holds at least one ranked piece.
pub open spec fn has_normal(m: Multiset<Piece>) -> bool {
    exists|n: NormalPiece| m.contains(Piece::Normal(n))
}

/// Some ranked piece of rank `r` is in the group.
pub open spec fn rank_present(m: Multiset<Piece>, r: u8) -> bool {
    exists|c: Color| m.contains(Piece::Normal(NormalPiece { domination: r, color: c }))
}

/// Some ranked piece of color `c` is in the group.
pub open spec fn color_present(m: Multiset<Piece>, c: Color) -> bool {
    exists|r: u8| m.contains(Piece::Normal(NormalPiece { domination: r, color: c }))
}

/// Every ranked piece of the group has rank `r`.
pub open spec fn normals_same_rank(m: Multiset<Piece>, r: u8) -> bool {
    forall|n: NormalPiece| m.contains(Piece::Normal(n)) ==> n.domination == r
}

/// Every ranked piece of the group has color `c`.
pub open spec fn normals_same_color(m: Multiset<Piece>, c: Color) -> bool {
    forall|n: NormalPiece| m.contains(Piece::Normal(n)) ==> n.color == c
}

/// No rank value occurs on two ranked pieces of the group.
pub open spec fn no_rank_repeat(m: Multiset<Piece>) -> bool {
    &&& forall|n1: NormalPiece, n2: NormalPiece|
        m.contains(Piece::Normal(n1)) && m.contains(Piece::Normal(n2))
            && n1.domination == n2.domination ==> n1 == n2
    &&& forall|n: NormalPiece| m.count(Piece::Normal(n)) <= 1
}

/// No color occurs on two ranked pieces of the group.
pub open spec fn no_color_repeat(m: Multiset<Piece>) -> bool {
    &&& forall|n1: NormalPiece, n2: NormalPiece|
        m.contains(Piece::Normal(n1)) && m.contains(Piece::Normal(n2)) && n1.color == n2.color
            ==> n1 == n2
    &&& forall|n: NormalPiece| m.count(Piece::Normal(n)) <= 1
}

/// Every ranked piece of the group carries a rank in the domain 1..=13.
pub open spec fn group_wf(m: Multiset<Piece>) -> bool {
    forall|n: NormalPiece| m.contains(Piece::Normal(n)) ==> 1 <= n.domination <= 13
}

/// Smallest present rank at or above `r` (14 when none up to 13).
pub open spec fn min_rank_from(m: Multiset<Piece>, r: u8) -> u8
    decreases 14 - r when r <= 14
{
    if r >= 14 {
        14
    } else if rank_present(m, r) {
        r
    } else {
        min_rank_from(m, (r + 1) as u8)
    }
}

/// Smallest rank present in the group (14 when the group has no ranked piece
/// of rank 1..=13).
pub open spec fn spec_min_rank(m: Multiset<Piece>) -> u8 {
    min_rank_from(m, 1)
}

/// Largest present rank at or below `r` (0 when none).
pub open spec fn max_rank_to(m: Multiset<Piece>, r: u8) -> u8
    decreases r
{
    if r == 0 {
        0
    } else if rank_present(m, r) {
        r
    } else {
        max_rank_to(m, (r - 1) as u8)
    }
}

/// Largest rank present in the group (0 when none is present in 1..=13).
pub open spec fn spec_max_rank(m: Multiset<Piece>) -> u8 {
    max_rank_to(m, 13)
}

/// How many ranks of the closed interval `[lo, hi]` are absent from the group.
pub open spec fn absent_in(m: Multiset<Piece>, lo: int, hi: int) -> int
    decreases hi - lo + 1 when lo <= hi + 1
{
    if lo > hi {
        0
    } else {
        absent_in(m, lo, hi - 1) + if rank_present(m, hi as u8) { 0int } else { 1int }
    }
}

/// The holes of a group: ranks missing strictly inside the span of the
/// present ranks (the sum of the gaps between consecutive present ranks).
pub open spec fn holes_of(m: Multiset<Piece>) -> int {
    if has_normal(m) {
        absent_in(m, spec_min_rank(m) as int, spec_max_rank(m) as int)
    } else {
        0
    }
}

// ---------------------------------------------------------------------------
// General lemmas relating sequences to their multisets.
// ---------------------------------------------------------------------------

/// The multiset of an empty sequence is the empty multiset.
pub proof fn lemma_empty_multiset<A>(s: Seq<A>)
    requires
        s.len() == 0,
    ensures
        s.to_multiset() == Multiset::<A>::empty(),
{
    broadcast use vstd::seq_lib::group_to_multiset_ensures, vstd::multiset::group_multiset_axioms;

    assert(s.to_multiset().len() == 0);
    assert forall|x: A| s.to_multiset().count(x) == Multiset::<A>::empty().count(x) by {
        assert(s.to_multiset().count(x) <= s.to_multiset().len());
    }
    assert(s.to_multiset() =~= Multiset::<A>::empty());
}

/// Extending a prefix by one element inserts that element into its multiset.
pub proof fn lemma_take_push_multiset<A>(s: Seq<A>, i: int)
    requires
        0 <= i < s.len(),
    ensures
        s.take(i + 1).to_multiset() == s.take(i).to_multiset().insert(s[i]),
{
    assert(s.take(i + 1) =~= s.take(i).push(s[i]));
    vstd::seq_lib::to_multiset_build(s.take(i), s[i]);
}

/// An element of a sequence is in its multiset.
pub proof fn lemma_index_in_multiset<A>(s: Seq<A>, i: int)
    requires
        0 <= i < s.len(),
    ensures
        s.to_multiset().count(s[i]) > 0,
{
    broadcast use vstd::seq_lib::group_to_multiset_ensures;

    assert(s.contains(s[i]));
}

/// A value sitting at two distinct positions is counted at least twice.
pub proof fn lemma_two_indices_count<A>(s: Seq<A>, i: int, j: int)
    requires
        0 <= i < j < s.len(),
        s[i] == s[j],
    ensures
        s.to_multiset().count(s[i]) >= 2,
{
    broadcast use vstd::seq_lib::group_to_multiset_ensures, vstd::multiset::group_multiset_axioms;

    let removed = s.remove(i);
    assert(removed[j - 1] == s[j]);
    assert(removed.contains(s[j]));
    assert(removed.to_multiset().count(s[i]) > 0);
    assert(removed.to_multiset() == s.to_multiset().remove(s[i]));
}

/// A ranked piece occurs in the multiset of a sequence exactly when it sits
/// at some position of the sequence.
pub proof fn lemma_has_normal_index(s: Seq<Piece>)
    ensures
        has_normal(s.to_multiset()) <==> exists|i: int|
            0 <= i < s.len() && (#[trigger] s[i]) matches Piece::Normal(_),
{
    broadcast use vstd::seq_lib::group_to_multiset_ensures;

    if has_normal(s.to_multiset()) {
        let n = choose|n: NormalPiece| s.to_multiset().contains(Piece::Normal(n));
        assert(s.to_multiset().count(Piece::Normal(n)) > 0);
        assert(s.contains(Piece::Normal(n)));
        let i = choose|i: int| 0 <= i < s.len() && s[i] == Piece::Normal(n);
        assert(s[i] matches Piece::Normal(_));
    }
    if exists|i: int| 0 <= i < s.len() && (#[trigger] s[i]) matches Piece::Normal(_) {
        let i = choose|i: int| 0 <= i < s.len() && (#[trigger] s[i]) matches Piece::Normal(_);
        let n = s[i]->Normal_0;
        assert(s[i] == Piece::Normal(n));
        assert(s.contains(Piece::Normal(n)));
        assert(s.to_multiset().count(Piece::Normal(n)) > 0);
        assert(s.to_multiset().contains(Piece::Normal(n)));
        assert(has_normal(s.to_multiset()));
    }
}

/// A ranked piece contained in the group makes its rank and color present.
pub proof fn lemma_contains_normal_present(m: Multiset<Piece>, n: NormalPiece)
    requires
        m.contains(Piece::Normal(n)),
    ensures
        rank_present(m, n.domination),
        color_present(m, n.color),
        has_normal(m),
{
    assert(n == NormalPiece { domination: n.domination, color: n.color });
    assert(m.contains(Piece::Normal(NormalPiece { domination: n.domination, color: n.color })));
}

// ---------------------------------------------------------------------------
// How inserting one piece changes the group predicates.
// ---------------------------------------------------------------------------

/// Inserting a wildcard leaves every statement about ranked pieces unchanged
/// and raises the wildcard count by one.
pub proof fn lemma_insert_joker(m: Multiset<Piece>)
    ensures
        joker_count(m.insert(Piece::Joker)) == joker_count(m) + 1,
        forall|n: NormalPiece| m.insert(Piece::Joker).count(Piece::Normal(n)) == m.count(
            Piece::Normal(n)),
        forall|d: u8| #[trigger] rank_present(m.insert(Piece::Joker), d) == rank_present(m, d),
        forall|c: Color| #[trigger] color_present(m.insert(Piece::Joker), c) == color_present(m, c),
        has_normal(m.insert(Piece::Joker)) == has_normal(m),
        no_rank_repeat(m.insert(Piece::Joker)) == no_rank_repeat(m),
        no_color_repeat(m.insert(Piece::Joker)) == no_color_repeat(m),
{
    broadcast use vstd::multiset::group_multiset_axioms;

    let m1 = m.insert(Piece::Joker);
    assert forall|d: u8| #[trigger] rank_present(m1, d) == rank_present(m, d) by {
        if rank_present(m1, d) {
            let c = choose|c: Color| m1.contains(Piece::Normal(NormalPiece { domination: d, color: c }));
            assert(m.contains(Piece::Normal(NormalPiece { domination: d, color: c })));
        }
        if rank_present(m, d) {
            let c = choose|c: Color| m.contains(Piece::Normal(NormalPiece { domination: d, color: c }));
            assert(m1.contains(Piece::Normal(NormalPiece { domination: d, color: c })));
        }
    }
    assert forall|c: Color| #[trigger] color_present(m1, c) == color_present(m, c) by {
        if color_present(m1, c) {
            let r = choose|r: u8| m1.contains(Piece::Normal(NormalPiece { domination: r, color: c }));
            assert(m.contains(Piece::Normal(NormalPiece { domination: r, color: c })));
        }
        if color_present(m, c) {
            let r = choose|r: u8| m.contains(Piece::Normal(NormalPiece { domination: r, color: c }));
            assert(m1.contains(Piece::Normal(NormalPiece { domination: r, color: c })));
        }
    }
    assert(has_normal(m1) == has_normal(m)) by {
        if has_normal(m1) {
            let n = choose|n: NormalPiece| m1.contains(Piece::Normal(n));
            assert(m.contains(Piece::Normal(n)));
        }
        if has_normal(m) {
            let n = choose|n: NormalPiece| m.contains(Piece::Normal(n));
            assert(m1.contains(Piece::Normal(n)));
        }
    }
    assert forall|n: NormalPiece| m1.contains(Piece::Normal(n)) == m.contains(Piece::Normal(n))
        by {}
    assert(no_rank_repeat(m1) == no_rank_repeat(m)) by {
        if no_rank_repeat(m) {
            assert forall|n1: NormalPiece, n2: NormalPiece|
                m1.contains(Piece::Normal(n1)) && m1.contains(Piece::Normal(n2)) && n1.domination
                    == n2.domination implies n1 == n2 by {
                assert(m.contains(Piece::Normal(n1)));
                assert(m.contains(Piece::Normal(n2)));
            }
            assert(no_rank_repeat(m1));
        }
        if no_rank_repeat(m1) {
            assert forall|n1: NormalPiece, n2: NormalPiece|
                m.contains(Piece::Normal(n1)) && m.contains(Piece::Normal(n2)) && n1.domination
                    == n2.domination implies n1 == n2 by {
                assert(m1.contains(Piece::Normal(n1)));
                assert(m1.contains(Piece::Normal(n2)));
            }
            assert forall|n: NormalPiece| m.count(Piece::Normal(n)) <= 1 by {
                assert(m1.count(Piece::Normal(n)) == m.count(Piece::Normal(n)));
            }
            assert(no_rank_repeat(m));
        }
    }
    assert(no_color_repeat(m1) == no_color_repeat(m)) by {
        if no_color_repeat(m) {
            assert forall|n1: NormalPiece, n2: NormalPiece|
                m1.contains(Piece::Normal(n1)) && m1.contains(Piece::Normal(n2)) && n1.color
                    == n2.color implies n1 == n2 by {
                assert(m.contains(Piece::Normal(n1)));
                assert(m.contains(Piece::Normal(n2)));
            }
            assert(no_color_repeat(m1));
        }
        if no_color_repeat(m1) {
            assert forall|n1: NormalPiece, n2: NormalPiece|
                m.contains(Piece::Normal(n1)) && m.contains(Piece::Normal(n2)) && n1.color
                    == n2.color implies n1 == n2 by {
                assert(m1.contains(Piece::Normal(n1)));
                assert(m1.contains(Piece::Normal(n2)));
            }
            assert forall|n: NormalPiece| m.count(Piece::Normal(n)) <= 1 by {
                assert(m1.count(Piece::Normal(n)) == m.count(Piece::Normal(n)));
            }
            assert(no_color_repeat(m));
        }
    }
}

/// Inserting a ranked piece: the wildcard count is unchanged, the piece's
/// rank and color become present, other ranks and colors are untouched, and a
/// repeat can only arise through the inserted piece itself.
pub proof fn lemma_insert_normal(m: Multiset<Piece>, n: NormalPiece)
    ensures
        joker_count(m.insert(Piece::Normal(n))) == joker_count(m),
        m.insert(Piece::Normal(n)).count(Piece::Normal(n)) == m.count(Piece::Normal(n)) + 1,
        forall|x: NormalPiece| x != n ==> m.insert(Piece::Normal(n)).count(Piece::Normal(x))
            == m.count(Piece::Normal(x)),
        rank_present(m.insert(Piece::Normal(n)), n.domination),
        color_present(m.insert(Piece::Normal(n)), n.color),
        has_normal(m.insert(Piece::Normal(n))),
        forall|d: u8| d != n.domination ==> #[trigger] rank_present(m.insert(Piece::Normal(n)), d)
            == rank_present(m, d),
        forall|c: Color| c != n.color ==> #[trigger] color_present(m.insert(Piece::Normal(n)), c)
            == color_present(m, c),
        no_rank_repeat(m) && !rank_present(m, n.domination) ==> no_rank_repeat(
            m.insert(Piece::Normal(n))),
        no_color_repeat(m) && !color_present(m, n.color) ==> no_color_repeat(
            m.insert(Piece::Normal(n))),
{
    broadcast use vstd::multiset::group_multiset_axioms;

    let p = Piece::Normal(n);
    let m1 = m.insert(p);
    assert(m1.contains(p));
    lemma_contains_normal_present(m1, n);
    assert forall|d: u8| d != n.domination implies #[trigger] rank_present(m1, d) == rank_present(
        m, d) by {
        if rank_present(m1, d) {
            let c = choose|c: Color| m1.contains(Piece::Normal(NormalPiece { domination: d, color: c }));
            assert(m.contains(Piece::Normal(NormalPiece { domination: d, color: c })));
        }
        if rank_present(m, d) {
            let c = choose|c: Color| m.contains(Piece::Normal(NormalPiece { domination: d, color: c }));
            assert(m1.contains(Piece::Normal(NormalPiece { domination: d, color: c })));
        }
    }
    assert forall|c: Color| c != n.color implies #[trigger] color_present(m1, c) == color_present(
        m, c) by {
        if color_present(m1, c) {
            let r = choose|r: u8| m1.contains(Piece::Normal(NormalPiece { domination: r, color: c }));
            assert(m.contains(Piece::Normal(NormalPiece { domination: r, color: c })));
        }
        if color_present(m, c) {
            let r = choose|r: u8| m.contains(Piece::Normal(NormalPiece { domination: r, color: c }));
            assert(m1.contains(Piece::Normal(NormalPiece { domination: r, color: c })));
        }
    }
    lemma_contains_normal_present(m1, n);
    if no_rank_repeat(m) && !rank_present(m, n.domination) {
        assert(m.count(p) == 0) by {
            if m.count(p) > 0 {
                assert(m.contains(p));
                lemma_contains_normal_present(m, n);
            }
        }
        assert forall|n1: NormalPiece, n2: NormalPiece|
            m1.contains(Piece::Normal(n1)) && m1.contains(Piece::Normal(n2)) && n1.domination
                == n2.domination implies n1 == n2 by {
            if n1 != n2 {
                if n1 == n {
                    assert(m.contains(Piece::Normal(n2)));
                    lemma_contains_normal_present(m, n2);
                } else if n2 == n {
                    assert(m.contains(Piece::Normal(n1)));
                    lemma_contains_normal_present(m, n1);
                } else {
                    assert(m.contains(Piece::Normal(n1)));
                    assert(m.contains(Piece::Normal(n2)));
                }
            }
        }
    }
    if no_color_repeat(m) && !color_present(m, n.color) {
        assert(m.count(p) == 0) by {
            if m.count(p) > 0 {
                assert(m.contains(p));
                lemma_contains_normal_present(m, n);
            }
        }
        assert forall|n1: NormalPiece, n2: NormalPiece|
            m1.contains(Piece::Normal(n1)) && m1.contains(Piece::Normal(n2)) && n1.color
                == n2.color implies n1 == n2 by {
            if n1 != n2 {
                if n1 == n {
                    assert(m.contains(Piece::Normal(n2)));
                    lemma_contains_normal_present(m, n2);
                } else if n2 == n {
                    assert(m.contains(Piece::Normal(n1)));
                    lemma_contains_normal_present(m, n1);
                } else {
                    assert(m.contains(Piece::Normal(n1)));
                    assert(m.contains(Piece::Normal(n2)));
                }
            }
        }
    }
}

// ---------------------------------------------------------------------------
// Characterization of the bounded min/max rank scans.
// ---------------------------------------------------------------------------

proof fn lemma_min_from_char(m: Multiset<Piece>, start: u8, v: u8)
    requires
        start <= v <= 13,
        rank_present(m, v),
        forall|r: u8| start <= r < v ==> !rank_present(m, r),
    ensures
        min_rank_from(m, start) == v,
    decreases v - start,
{
    if start < v {
        lemma_min_from_char(m, (start + 1) as u8, v);
    }
}


proof fn lemma_min_from_le(m: Multiset<Piece>, start: u8, v: u8)
    requires
        start <= v <= 13,
        rank_present(m, v),
    ensures
        start <= min_rank_from(m, start) <= v,
    decreases v - start,
{
    if !rank_present(m, start) && start < v {
        lemma_min_from_le(m, (start + 1) as u8, v);
    }
}

/// With some rank of the domain present, the minimum present rank is a rank
/// of the domain no larger than it.
pub proof fn lemma_min_rank_le(m: Multiset<Piece>, v: u8)
    requires
        1 <= v <= 13,
        rank_present(m, v),
    ensures
        1 <= spec_min_rank(m) <= v,
{
    lemma_min_from_le(m, 1, v);
}

/// The scanning definition of the minimum present rank agrees with any value
/// that is present and below every present rank.
pub proof fn lemma_min_rank_char(m: Multiset<Piece>, v: u8)
    requires
        1 <= v <= 13,
        rank_present(m, v),
        forall|r: u8| rank_present(m, r) ==> v <= r,
    ensures
        spec_min_rank(m) == v,
{
    lemma_min_from_char(m, 1, v);
}

proof fn lemma_max_to_char(m: Multiset<Piece>, start: u8, v: u8)
    requires
        1 <= v <= start,
        rank_present(m, v),
        forall|r: u8| v < r <= start ==> !rank_present(m, r),
    ensures
        max_rank_to(m, start) == v,
    decreases start,
{
    if v < start {
        lemma_max_to_char(m, (start - 1) as u8, v);
    }
}

/// The scanning definition of the maximum present rank agrees with any value
/// that is present and above every present rank.
pub proof fn lemma_max_rank_char(m: Multiset<Piece>, v: u8)
    requires
        1 <= v <= 13,
        rank_present(m, v),
        forall|r: u8| rank_present(m, r) ==> r <= v,
    ensures
        spec_max_rank(m) == v,
{
    assert forall|r: u8| v < r <= 13 implies !rank_present(m, r) by {
        if rank_present(m, r) {
            assert(r <= v);
        }
    }
    lemma_max_to_char(m, 13, v);
}

// ---------------------------------------------------------------------------
// ConsecutiveSet: the run analyzer.
// ---------------------------------------------------------------------------

/// Summary of a candidate run: how many internal gaps the present ranks leave,
/// how many wildcards there are to fill them, the lowest present rank (0 when
/// the group is all wildcards) and the group size.
pub struct ConsecutiveSet {
    pub holes: u8,
    pub jokers: u8,
    pub first: u8,
    pub items: u8,
}

impl ConsecutiveSet {
    /// Wildcards left over once every internal gap is filled.
    pub open spec fn spec_free_jokers(self) -> int {
        self.jokers - self.holes
    }

    /// The starting rank of the run once the leftover wildcards are pushed
    /// below the lowest present rank, clamped at rank 1.
    pub open spec fn spec_actual_first(self) -> int {
        if self.first <= self.spec_free_jokers() {
            1
        } else {
            self.first - self.spec_free_jokers()
        }
    }

    /// The last rank the run occupies: the full width of the group, wildcards
    /// included, laid out from the starting rank.
    pub open spec fn spec_actual_last(self) -> int {
        self.spec_actual_first() + self.jokers + self.items - 1
    }

    /// Scans the group. Returns the analysis unless a rank occurs twice among
    /// the ranked pieces, which no run allows.
    pub fn new(pieces: &Vec<Piece>) -> (r: Option<ConsecutiveSet>)
        requires
            group_wf(pieces@.to_multiset()),
            pieces@.len() <= 255,
        ensures
            r is Some <==> no_rank_repeat(pieces@.to_multiset()),
            r matches Some(cs) ==> {
                let m = pieces@.to_multiset();
                &&& cs.jokers as int == joker_count(m)
                &&& cs.items as int == pieces@.len()
                &&& (has_normal(m) ==> cs.first == spec_min_rank(m))
                &&& (!has_normal(m) ==> cs.first == 0)
                &&& cs.holes as int == holes_of(m)
            },
    {
        let ghost s = pieces@;
        let ghost m = s.to_multiset();
        let mut seen: Vec<bool> = vec![false; 14];
        let mut jokers: u8 = 0;
        let mut min_r: u8 = 14;
        let mut max_r: u8 = 0;
        let mut i: usize = 0;
        proof {
            lemma_empty_multiset(s.take(0));
            broadcast use vstd::multiset::group_multiset_axioms;
        }
        while i < pieces.len()
            invariant
                0 <= i <= s.len(),
                s.len() <= 255,
                s == pieces@,
                m == s.to_multiset(),
                group_wf(m),
                seen@.len() == 14,
                jokers as int == s.take(i as int).to_multiset().count(Piece::Joker),
                jokers <= i,
                forall|d: u8| 1 <= d <= 13 ==> seen@[d as int] == rank_present(
                    #[trigger] s.take(i as int).to_multiset(), d),
                no_rank_repeat(s.take(i as int).to_multiset()),
                has_normal(s.take(i as int).to_multiset()) ==> {
                    &&& 1 <= min_r <= 13
                    &&& 1 <= max_r <= 13
                    &&& rank_present(s.take(i as int).to_multiset(), min_r)
                    &&& rank_present(s.take(i as int).to_multiset(), max_r)
                    &&& forall|r: u8| rank_present(s.take(i as int).to_multiset(), r)
                        ==> min_r <= r <= max_r
                },
                !has_normal(s.take(i as int).to_multiset()) ==> min_r == 14 && max_r == 0,
            decreases s.len() - i,
        {
            let ghost pm = s.take(i as int).to_multiset();
            let ghost pm1 = s.take(i as int + 1).to_multiset();
            proof {
                lemma_take_push_multiset(s, i as int);
                assert(pm1 == pm.insert(s[i as int]));
            }
            let piece = pieces[i];
            match piece {
                Piece::Joker => {
                    proof {
                        lemma_insert_joker(pm);
                    }
                    jokers = jokers + 1;
                }
                Piece::Normal(n) => {
                    let d = n.domination;
                    proof {
                        lemma_index_in_multiset(s, i as int);
                        broadcast use vstd::multiset::group_multiset_axioms;

                        assert(m.contains(Piece::Normal(n)));
                        assert(1 <= d <= 13);
                    }
                    if seen[d as usize] {
                        proof {
                            broadcast use vstd::seq_lib::group_to_multiset_ensures,
                                vstd::multiset::group_multiset_axioms;

                            // A rank seen twice: the whole sequence repeats it.
                            assert(rank_present(pm, d));
                            let c0 = choose|c: Color| pm.contains(
                                Piece::Normal(NormalPiece { domination: d, color: c }));
                            let p0 = Piece::Normal(NormalPiece { domination: d, color: c0 });
                            assert(pm.count(p0) > 0);
                            assert(s.take(i as int).contains(p0));
                            let j = choose|j: int| 0 <= j < i && s.take(i as int)[j] == p0;
                            assert(s[j] == p0);
                            if c0 == n.color {
                                assert(s[i as int] == p0);
                                lemma_two_indices_count(s, j, i as int);
                                assert(m.count(p0) >= 2);
                                assert(!no_rank_repeat(m));
                            } else {
                                lemma_index_in_multiset(s, j);
                                assert(m.contains(p0));
                                assert(!no_rank_repeat(m));
                            }
                        }
                        return None;
                    }
                    proof {
                        // This rank is new: the prefix stays free of repeats.
                        assert(!rank_present(pm, d));
                        lemma_insert_normal(pm, n);
                        assert(no_rank_repeat(pm1));
                        assert forall|r: u8| rank_present(pm1, r) implies
                            (if d < min_r { d } else { min_r }) <= r
                                && r <= (if d > max_r { d } else { max_r }) by {
                            if r != d {
                                assert(rank_present(pm, r));
                                let c = choose|c: Color| pm.contains(
                                    Piece::Normal(NormalPiece { domination: r, color: c }));
                                assert(pm.contains(Piece::Normal(NormalPiece { domination: r, color: c })));
                                assert(has_normal(pm));
                            }
                        }
                    }
                    if d < min_r {
                        min_r = d;
                    }
                    if d > max_r {
                        max_r = d;
                    }
                    seen[d as usize] = true;
                }
            }
            i = i + 1;
        }
        proof {
            assert(s.take(s.len() as int) =~= s);
        }
        let items = pieces.len() as u8;
        if min_r == 14 {
            proof {
                assert(!has_normal(m));
            }
            Some(ConsecutiveSet { holes: 0, jokers, first: 0, items })
        } else {
            proof {
                lemma_min_rank_char(m, min_r);
                lemma_max_rank_char(m, max_r);
            }
            let mut holes: u8 = 0;
            let mut d: u8 = min_r;
            while d <= max_r
                invariant
                    min_r <= d <= max_r + 1,
                    1 <= min_r <= max_r <= 13,
                    seen@.len() == 14,
                    forall|dd: u8| 1 <= dd <= 13 ==> seen@[dd as int] == rank_present(m, dd),
                    holes as int == absent_in(m, min_r as int, d as int - 1),
                    holes <= d - min_r,
                decreases max_r + 1 - d,
            {
                if !seen[d as usize] {
                    holes = holes + 1;
                }
                proof {
                    assert(absent_in(m, min_r as int, d as int) == absent_in(
                        m, min_r as int, d as int - 1) + if rank_present(m, d) { 0int } else { 1int });
                }
                d = d + 1;
            }
            Some(ConsecutiveSet { holes, jokers, first: min_r, items })
        }
    }

    /// The run shape is acceptable when the wildcards suffice to fill every
    /// internal gap.
    pub fn is_valid(&self) -> (r: bool)
        ensures
            r == (self.holes <= self.jokers),
    {
        self.holes <= self.jokers
    }

    /// First rank of the fully laid-out run. Never below 1: wildcards that
    /// would spill under rank 1 extend the run upward instead.
    pub fn actual_first(&self) -> (r: u8)
        requires
            self.holes <= self.jokers,
        ensures
            r as int == self.spec_actual_first(),
            r >= 1,
    {
        let free_jokers = self.jokers - self.holes;
        if self.first <= free_jokers {
            1
        } else {
            self.first - free_jokers
        }
    }

    /// Last rank of the fully laid-out run.
    pub fn actual_last(&self) -> (r: u8)
        requires
            self.holes <= self.jokers,
            self.items >= 1,
            self.spec_actual_last() <= 255,
        ensures
            r as int == self.spec_actual_last(),
    {
        let first = self.actual_first();
        first + self.jokers - 1 + self.items
    }

    /// Every rank the run occupies once the wildcards are placed, ascending.
    pub fn available_domination(&self) -> (r: Vec<u8>)
        requires
            self.holes <= self.jokers,
            self.items >= 1,
            self.spec_actual_last() <= 255,
        ensures
            r@.len() == self.spec_actual_last() - self.spec_actual_first() + 1,
            forall|k: int| 0 <= k < r@.len() ==> r@[k] as int == self.spec_actual_first() + k,
    {
        let first = self.actual_first();
        let last = self.actual_last();
        let count: usize = (last - first) as usize + 1;
        let mut result: Vec<u8> = Vec::new();
        let mut k: usize = 0;
        while k < count
            invariant
                0 <= k <= count,
                first as int == self.spec_actual_first(),
                last as int == self.spec_actual_last(),
                count == last - first + 1,
                1 <= first <= last <= 255,
                result@.len() == k,
                forall|j: int| 0 <= j < result@.len() ==> result@[j] as int == first + j,
            decreases count - k,
        {
            result.push(first + (k as u8));
            k = k + 1;
        }
        result
    }
}

// ---------------------------------------------------------------------------
// Small scans over a group's pieces.
// ---------------------------------------------------------------------------

/// The first ranked piece of the group, scanning left to right.
pub fn first_non_joker(pieces: &Vec<Piece>) -> (r: Option<NormalPiece>)
    ensures
        r is Some <==> has_normal(pieces@.to_multiset()),
        r matches Some(n) ==> pieces@.to_multiset().contains(Piece::Normal(n)),
        r matches Some(n) ==> exists|i: int|
            0 <= i < pieces@.len() && pieces@[i] == Piece::Normal(n)
                && forall|j: int| 0 <= j < i ==> pieces@[j] == Piece::Joker,
{
    let ghost s = pieces@;
    let mut i: usize = 0;
    while i < pieces.len()
        invariant
            0 <= i <= s.len(),
            s == pieces@,
            forall|j: int| 0 <= j < i ==> s[j] == Piece::Joker,
        decreases s.len() - i,
    {
        match pieces[i] {
            Piece::Normal(n) => {
                proof {
                    lemma_index_in_multiset(s, i as int);
                    assert(s[i as int] == Piece::Normal(n));
                    assert(s.to_multiset().contains(Piece::Normal(n)));
                }
                return Some(n);
            }
            Piece::Joker => {}
        }
        i = i + 1;
    }
    proof {
        lemma_has_normal_index(s);
    }
    None
}

/// Do all ranked pieces of the group share the rank of `first`?
pub fn same_domination(first: &NormalPiece, pieces: &Vec<Piece>) -> (r: bool)
    ensures
        r == normals_same_rank(pieces@.to_multiset(), first.domination),
{
    let ghost s = pieces@;
    let ghost m = s.to_multiset();
    let mut i: usize = 0;
    proof {
        lemma_empty_multiset(s.take(0));
        broadcast use vstd::multiset::group_multiset_axioms;
    }
    while i < pieces.len()
        invariant
            0 <= i <= s.len(),
            s == pieces@,
            m == s.to_multiset(),
            normals_same_rank(s.take(i as int).to_multiset(), first.domination),
        decreases s.len() - i,
    {
        proof {
            lemma_take_push_multiset(s, i as int);
        }
        match pieces[i] {
            Piece::Normal(n) => {
                if n.domination != first.domination {
                    proof {
                        lemma_index_in_multiset(s, i as int);
                        assert(m.contains(Piece::Normal(n)));
                    }
                    return false;
                }
                proof {
                    lemma_insert_normal(s.take(i as int).to_multiset(), n);
                    broadcast use vstd::multiset::group_multiset_axioms;

                    assert forall|x: NormalPiece| s.take(i as int + 1).to_multiset().contains(
                        Piece::Normal(x)) implies x.domination == first.domination by {
                        if x != n {
                            assert(s.take(i as int).to_multiset().contains(Piece::Normal(x)));
                        }
                    }
                }
            }
            Piece::Joker => {
                proof {
                    lemma_insert_joker(s.take(i as int).to_multiset());
                    broadcast use vstd::multiset::group_multiset_axioms;

                    assert forall|x: NormalPiece| s.take(i as int + 1).to_multiset().contains(
                        Piece::Normal(x)) implies x.domination == first.domination by {
                        assert(s.take(i as int).to_multiset().contains(Piece::Normal(x)));
                    }
                }
            }
        }
        i = i + 1;
    }
    proof {
        assert(s.take(s.len() as int) =~= s);
    }
    true
}

/// Do all ranked pieces of the group share the color of `first`?
pub fn same_color(first: &NormalPiece, pieces: &Vec<Piece>) -> (r: bool)
    ensures
        r == normals_same_color(pieces@.to_multiset(), first.color),
{
    let ghost s = pieces@;
    let ghost m = s.to_multiset();
    let mut i: usize = 0;
    proof {
        lemma_empty_multiset(s.take(0));
        broadcast use vstd::multiset::group_multiset_axioms;
    }
    while i < pieces.len()
        invariant
            0 <= i <= s.len(),
            s == pieces@,
            m == s.to_multiset(),
            normals_same_color(s.take(i as int).to_multiset(), first.color),
        decreases s.len() - i,
    {
        proof {
            lemma_take_push_multiset(s, i as int);
        }
        match pieces[i] {
            Piece::Normal(n) => {
                if n.color != first.color {
                    proof {
                        lemma_index_in_multiset(s, i as int);
                        assert(m.contains(Piece::Normal(n)));
                    }
                    return false;
                }
                proof {
                    lemma_insert_normal(s.take(i as int).to_multiset(), n);
                    broadcast use vstd::multiset::group_multiset_axioms;

                    assert forall|x: NormalPiece| s.take(i as int + 1).to_multiset().contains(
                        Piece::Normal(x)) implies x.color == first.color by {
                        if x != n {
                            assert(s.take(i as int).to_multiset().contains(Piece::Normal(x)));
                        }
                    }
                }
            }
            Piece::Joker => {
                proof {
                    lemma_insert_joker(s.take(i as int).to_multiset());
                    broadcast use vstd::multiset::group_multiset_axioms;

                    assert forall|x: NormalPiece| s.take(i as int + 1).to_multiset().contains(
                        Piece::Normal(x)) implies x.color == first.color by {
                        assert(s.take(i as int).to_multiset().contains(Piece::Normal(x)));
                    }
                }
            }
        }
        i = i + 1;
    }
    proof {
        assert(s.take(s.len() as int) =~= s);
    }
    true
}

// ---------------------------------------------------------------------------
// Concatenating a collection of groups.
// ---------------------------------------------------------------------------

/// All elements of a collection of groups, laid out group by group.
pub open spec fn flat_seq<A>(gs: Seq<Vec<A>>) -> Seq<A>
    decreases gs.len(),
{
    if gs.len() == 0 {
        Seq::empty()
    } else {
        gs.first()@ + flat_seq(gs.drop_first())
    }
}

/// Taking one group out of the collection takes exactly its elements out of
/// the concatenation's multiset.
pub proof fn lemma_flat_seq_remove<A>(gs: Seq<Vec<A>>, j: int)
    requires
        0 <= j < gs.len(),
    ensures
        flat_seq(gs).to_multiset() == flat_seq(gs.remove(j)).to_multiset().add(
            gs[j]@.to_multiset()),
    decreases gs.len(),
{
    broadcast use vstd::multiset::group_multiset_axioms;

    if j == 0 {
        assert(gs.remove(0) =~= gs.drop_first());
        lemma_multiset_commutative(gs.first()@, flat_seq(gs.drop_first()));
        assert(flat_seq(gs).to_multiset() =~= flat_seq(gs.remove(0)).to_multiset().add(
            gs[0]@.to_multiset()));
    } else {
        assert(gs.remove(j).first() == gs.first());
        assert(gs.remove(j).drop_first() =~= gs.drop_first().remove(j - 1));
        lemma_flat_seq_remove(gs.drop_first(), j - 1);
        lemma_multiset_commutative(gs.first()@, flat_seq(gs.drop_first()));
        lemma_multiset_commutative(gs.first()@, flat_seq(gs.drop_first().remove(j - 1)));
        assert(gs.drop_first()[j - 1] == gs[j]);
        assert(flat_seq(gs).to_multiset() =~= flat_seq(gs.remove(j)).to_multiset().add(
            gs[j]@.to_multiset()));
    }
}

/// Reordering the groups of a collection does not change which elements the
/// concatenation holds.
pub proof fn lemma_flat_seq_permutation<A>(gs1: Seq<Vec<A>>, gs2: Seq<Vec<A>>)
    requires
        gs1.to_multiset() == gs2.to_multiset(),
    ensures
        flat_seq(gs1).to_multiset() == flat_seq(gs2).to_multiset(),
    decreases gs1.len(),
{
    broadcast use vstd::seq_lib::group_to_multiset_ensures, vstd::multiset::group_multiset_axioms;

    if gs1.len() == 0 {
        assert(gs1.to_multiset().len() == gs1.len());
        assert(gs2.to_multiset().len() == gs2.len());
        assert(gs2.len() == 0);
    } else {
        let v = gs1.last();
        let d1 = gs1.drop_last();
        assert(gs1.remove(gs1.len() - 1) =~= d1);
        assert(gs1.to_multiset().count(v) > 0);
        assert(gs2.to_multiset().count(v) > 0);
        assert(gs2.contains(v));
        let j = choose|j: int| 0 <= j < gs2.len() && gs2[j] == v;
        assert(d1.to_multiset() == gs1.to_multiset().remove(v));
        assert(gs2.remove(j).to_multiset() == gs2.to_multiset().remove(v));
        lemma_flat_seq_permutation(d1, gs2.remove(j));
        lemma_flat_seq_remove(gs1, gs1.len() - 1);
        lemma_flat_seq_remove(gs2, j);
    }
}

/// Mapping a function over two sequences that hold the same elements (as
/// multisets) yields the same image multiset.
pub proof fn lemma_map_values_permutation<A, B>(a: Seq<A>, b: Seq<A>, f: spec_fn(A) -> B)
    requires
        a.to_multiset() == b.to_multiset(),
    ensures
        a.map_values(f).to_multiset() == b.map_values(f).to_multiset(),
    decreases a.len(),
{
    broadcast use vstd::seq_lib::group_to_multiset_ensures, vstd::multiset::group_multiset_axioms;

    if a.len() == 0 {
        assert(a.to_multiset().len() == a.len());
        assert(b.to_multiset().len() == b.len());
        assert(a.map_values(f).len() == 0);
        assert(b.map_values(f).len() == 0);
        lemma_empty_multiset(a.map_values(f));
        lemma_empty_multiset(b.map_values(f));
    } else {
        let x = a.last();
        let da = a.drop_last();
        assert(a.to_multiset().count(x) > 0) by {
            lemma_index_in_multiset(a, a.len() - 1);
        }
        assert(b.to_multiset().count(x) > 0);
        assert(b.contains(x));
        let j = choose|j: int| 0 <= j < b.len() && b[j] == x;
        assert(a.remove(a.len() - 1) =~= da);
        assert(da.to_multiset() == a.to_multiset().remove(x));
        assert(b.remove(j).to_multiset() == b.to_multiset().remove(x));
        lemma_map_values_permutation(da, b.remove(j), f);
        assert(a.map_values(f) =~= da.map_values(f).push(f(x)));
        assert(b.remove(j).map_values(f) =~= b.map_values(f).remove(j));
        assert(da.map_values(f).push(f(x)).to_multiset() == da.map_values(f).to_multiset().insert(
            f(x)));
        assert(b.map_values(f).remove(j).to_multiset() == b.map_values(f).to_multiset().remove(
            b.map_values(f)[j]));
        assert(b.map_values(f)[j] == f(x));
        assert(b.map_values(f).to_multiset().count(f(x)) > 0) by {
            lemma_index_in_multiset(b.map_values(f), j);
        }
        assert(a.map_values(f).to_multiset() =~= b.map_values(f).to_multiset());
    }
}

/// Two group collections whose groups hold pairwise the same pieces have the
/// same concatenated multiset.
pub proof fn lemma_flat_seq_pointwise<A>(a: Seq<Vec<A>>, b: Seq<Vec<A>>)
    requires
        a.len() == b.len(),
        forall|i: int| 0 <= i < a.len() ==> (#[trigger] a[i])@.to_multiset() == b[i]@.to_multiset(),
    ensures
        flat_seq(a).to_multiset() == flat_seq(b).to_multiset(),
    decreases a.len(),
{
    broadcast use vstd::multiset::group_multiset_axioms;

    if a.len() == 0 {
    } else {
        assert(a.drop_first().len() == b.drop_first().len());
        assert forall|i: int| 0 <= i < a.drop_first().len() implies
            (#[trigger] a.drop_first()[i])@.to_multiset() == b.drop_first()[i]@.to_multiset() by {
            assert(a.drop_first()[i] == a[i + 1]);
            assert(b.drop_first()[i] == b[i + 1]);
        }
        lemma_flat_seq_pointwise(a.drop_first(), b.drop_first());
        lemma_multiset_commutative(a.first()@, flat_seq(a.drop_first()));
        lemma_multiset_commutative(b.first()@, flat_seq(b.drop_first()));
        assert(a.first() == a[0]);
        assert(flat_seq(a).to_multiset() =~= flat_seq(b).to_multiset());
    }
}

// ---------------------------------------------------------------------------
// Nested group collections (ghost form), for stating what a partition is.
// ---------------------------------------------------------------------------

/// All elements of a nested collection of groups, group by group.
pub open spec fn flat_nested<A>(gs: Seq<Seq<A>>) -> Seq<A>
    decreases gs.len(),
{
    if gs.len() == 0 {
        Seq::empty()
    } else {
        gs.first() + flat_nested(gs.drop_first())
    }
}

/// Taking one group out takes exactly its elements out of the concatenation.
pub proof fn lemma_flat_nested_remove<A>(gs: Seq<Seq<A>>, j: int)
    requires
        0 <= j < gs.len(),
    ensures
        flat_nested(gs).to_multiset() == flat_nested(gs.remove(j)).to_multiset().add(
            gs[j].to_multiset()),
    decreases gs.len(),
{
    broadcast use vstd::multiset::group_multiset_axioms;

    if j == 0 {
        assert(gs.remove(0) =~= gs.drop_first());
        lemma_multiset_commutative(gs.first(), flat_nested(gs.drop_first()));
        assert(flat_nested(gs).to_multiset() =~= flat_nested(gs.remove(0)).to_multiset().add(
            gs[0].to_multiset()));
    } else {
        assert(gs.remove(j).first() == gs.first());
        assert(gs.remove(j).drop_first() =~= gs.drop_first().remove(j - 1));
        lemma_flat_nested_remove(gs.drop_first(), j - 1);
        lemma_multiset_commutative(gs.first(), flat_nested(gs.drop_first()));
        lemma_multiset_commutative(gs.first(), flat_nested(gs.drop_first().remove(j - 1)));
        assert(gs.drop_first()[j - 1] == gs[j]);
        assert(flat_nested(gs).to_multiset() =~= flat_nested(gs.remove(j)).to_multiset().add(
            gs[j].to_multiset()));
    }
}

/// How many groups of the collection have exactly `k` elements.
pub open spec fn size_count<A>(gs: Seq<Seq<A>>, k: int) -> int
    decreases gs.len(),
{
    if gs.len() == 0 {
        0
    } else {
        (if gs.first().len() == k {
            1int
        } else {
            0int
        }) + size_count(gs.drop_first(), k)
    }
}

/// Removing one group lowers exactly its own size class by one.
pub proof fn lemma_size_count_remove<A>(gs: Seq<Seq<A>>, j: int, k: int)
    requires
        0 <= j < gs.len(),
    ensures
        size_count(gs.remove(j), k) == size_count(gs, k) - (if gs[j].len() == k {
            1int
        } else {
            0int
        }),
    decreases gs.len(),
{
    if j == 0 {
        assert(gs.remove(0) =~= gs.drop_first());
    } else {
        assert(gs.remove(j).first() == gs.first());
        assert(gs.remove(j).drop_first() =~= gs.drop_first().remove(j - 1));
        lemma_size_count_remove(gs.drop_first(), j - 1, k);
        assert(gs.drop_first()[j - 1] == gs[j]);
    }
}

/// A positive size class holds a witness group.
pub proof fn lemma_size_count_pos<A>(gs: Seq<Seq<A>>, k: int) -> (w: int)
    requires
        size_count(gs, k) > 0,
    ensures
        0 <= w < gs.len(),
        gs[w].len() == k,
    decreases gs.len(),
{
    if gs.first().len() == k {
        0
    } else {
        let w0 = lemma_size_count_pos(gs.drop_first(), k);
        assert(gs.drop_first()[w0] == gs[w0 + 1]);
        w0 + 1
    }
}

/// Every size count is bounded by the number of groups.
pub proof fn lemma_size_count_bounds<A>(gs: Seq<Seq<A>>, k: int)
    ensures
        0 <= size_count(gs, k) <= gs.len(),
    decreases gs.len(),
{
    if gs.len() > 0 {
        lemma_size_count_bounds(gs.drop_first(), k);
    }
}

/// Collections whose groups have pairwise equal sizes share all size counts.
pub proof fn lemma_size_count_pointwise<A, B>(a: Seq<Seq<A>>, b: Seq<Seq<B>>, k: int)
    requires
        a.len() == b.len(),
        forall|i: int| 0 <= i < a.len() ==> (#[trigger] a[i]).len() == b[i].len(),
    ensures
        size_count(a, k) == size_count(b, k),
    decreases a.len(),
{
    if a.len() > 0 {
        assert forall|i: int| 0 <= i < a.drop_first().len() implies
            (#[trigger] a.drop_first()[i]).len() == b.drop_first()[i].len() by {
            assert(a.drop_first()[i] == a[i + 1]);
            assert(b.drop_first()[i] == b[i + 1]);
        }
        lemma_size_count_pointwise(a.drop_first(), b.drop_first(), k);
        assert(a.first() == a[0]);
        assert(b.first() == b[0]);
    }
}

/// A position of a smallest element of a nonempty sequence.
proof fn lemma_seq_min_index(s: Seq<usize>) -> (w: int)
    requires
        s.len() > 0,
    ensures
        0 <= w < s.len(),
        forall|t: int| 0 <= t < s.len() ==> s[w] <= s[t],
    decreases s.len(),
{
    if s.len() == 1 {
        0
    } else {
        let w0 = lemma_seq_min_index(s.drop_last());
        assert forall|t: int| 0 <= t < s.len() - 1 implies s[w0] <= s[t] by {
            assert(s.drop_last()[t] == s[t]);
            assert(s.drop_last()[w0] == s[w0]);
        }
        if s.last() < s[w0] {
            s.len() - 1
        } else {
            w0
        }
    }
}

/// Any collection of slot values can be arranged ascending.
pub proof fn lemma_sorted_arrangement(s: Seq<usize>) -> (r: Seq<usize>)
    ensures
        r.to_multiset() == s.to_multiset(),
        r.len() == s.len(),
        forall|i: int, j: int| 0 <= i < j < r.len() ==> r[i] <= r[j],
    decreases s.len(),
{
    broadcast use vstd::seq_lib::group_to_multiset_ensures, vstd::multiset::group_multiset_axioms;

    if s.len() == 0 {
        s
    } else {
        let w = lemma_seq_min_index(s);
        let rest = lemma_sorted_arrangement(s.remove(w));
        let r = seq![s[w]] + rest;
        assert(s.remove(w).to_multiset() == s.to_multiset().remove(s[w]));
        assert(Seq::<usize>::empty().push(s[w]) =~= seq![s[w]]);
        lemma_empty_multiset(Seq::<usize>::empty());
        vstd::seq_lib::to_multiset_build(Seq::<usize>::empty(), s[w]);
        lemma_multiset_commutative(seq![s[w]], rest);
        assert(r.to_multiset() =~= s.to_multiset());
        assert forall|i: int, j: int| 0 <= i < j < r.len() implies r[i] <= r[j] by {
            if i == 0 {
                assert(r[j] == rest[j - 1]);
                assert(rest.contains(rest[j - 1]));
                assert(rest.to_multiset().count(rest[j - 1]) > 0);
                assert(s.remove(w).to_multiset().count(rest[j - 1]) > 0);
                assert(s.remove(w).contains(rest[j - 1]));
                let u = choose|u: int| 0 <= u < s.remove(w).len() && s.remove(w)[u] == rest[j - 1];
                if u < w {
                    assert(s.remove(w)[u] == s[u]);
                } else {
                    assert(s.remove(w)[u] == s[u + 1]);
                }
            } else {
                assert(r[i] == rest[i - 1]);
                assert(r[j] == rest[j - 1]);
            }
        }
        r
    }
}

/// The element sequences carried by a collection of vectors.
pub open spec fn seqs_of<A>(gs: Seq<Vec<A>>) -> Seq<Seq<A>> {
    gs.map_values(|v: Vec<A>| v@)
}

/// Concatenating vectors or their element sequences is the same.
pub proof fn lemma_flat_seq_nested<A>(gs: Seq<Vec<A>>)
    ensures
        flat_nested(seqs_of(gs)) == flat_seq(gs),
    decreases gs.len(),
{
    if gs.len() == 0 {
        assert(seqs_of(gs).len() == 0);
    } else {
        assert(seqs_of(gs).first() == gs.first()@);
        assert(seqs_of(gs).drop_first() =~= seqs_of(gs.drop_first()));
        lemma_flat_seq_nested(gs.drop_first());
    }
}

} // verus!
