use vstd::prelude::*;
use vstd::multiset::Multiset;
use crate::common::{
    color_present, first_non_joker, group_wf, has_normal, holes_of, joker_count,
    lemma_index_in_multiset, lemma_insert_joker, lemma_insert_normal, lemma_empty_multiset,
    lemma_take_push_multiset, lemma_two_indices_count, no_color_repeat, no_rank_repeat,
    normals_same_color, normals_same_rank, same_color, same_domination, ConsecutiveSet,
};
use crate::piece::{Color, NormalPiece, Piece};

verus! {

// ---------------------------------------------------------------------------
// What makes a group a valid meld.
// ---------------------------------------------------------------------------

/// A same-rank meld: at least one ranked piece, at most four pieces, all
/// ranked pieces of one rank, and no color twice.
pub open spec fn valid_rank_group(m: Multiset<Piece>) -> bool {
    &&& has_normal(m)
    &&& m.len() <= 4
    &&& no_color_repeat(m)
    &&& exists|r: u8| #[trigger] normals_same_rank(m, r)
}

/// A run meld: at least one ranked piece, all ranked pieces of one color, no
/// rank twice, at most thirteen pieces, and enough wildcards to fill every
/// internal gap of the ranks.
pub open spec fn valid_run_group(m: Multiset<Piece>) -> bool {
    &&& has_normal(m)
    &&& m.len() <= 13
    &&& no_rank_repeat(m)
    &&& holes_of(m) <= joker_count(m)
    &&& exists|c: Color| #[trigger] normals_same_color(m, c)
}

/// A valid meld: three to five pieces forming a same-rank group or a run.
/// A group without any ranked piece is never a meld.
pub open spec fn valid_group(m: Multiset<Piece>) -> bool {
    &&& m.len() >= 3
    &&& valid_rank_group(m) || valid_run_group(m)
}

// ---------------------------------------------------------------------------
// Executable checks.
// ---------------------------------------------------------------------------

/// Can the group form one contiguous rank run once wildcards fill the gaps?
pub fn consecutive(pieces: &Vec<Piece>) -> (r: bool)
    requires
        group_wf(pieces@.to_multiset()),
    ensures
        r == {
            let m = pieces@.to_multiset();
            &&& m.len() <= 13
            &&& no_rank_repeat(m)
            &&& holes_of(m) <= joker_count(m)
        },
{
    broadcast use vstd::seq_lib::group_to_multiset_ensures;

    // Ranks span 1..=13, so no run can hold more pieces than that: any extra
    // piece (wildcards included) would have to repeat a rank.
    if pieces.len() > 13 {
        return false;
    }
    match ConsecutiveSet::new(pieces) {
        None => false,
        Some(set) => set.is_valid(),
    }
}

/// Does any color occur twice among the ranked pieces (a group larger than
/// four pieces always repeats one, as there are only four colors)?
pub fn repeating_colors(pieces: &Vec<Piece>) -> (r: bool)
    ensures
        r == (pieces@.len() > 4 || !no_color_repeat(pieces@.to_multiset())),
{
    broadcast use vstd::seq_lib::group_to_multiset_ensures;

    if pieces.len() > 4 {
        return true;
    }
    let ghost s = pieces@;
    let ghost m = s.to_multiset();
    let mut black = false;
    let mut blue = false;
    let mut red = false;
    let mut orange = false;
    let mut i: usize = 0;
    proof {
        lemma_empty_multiset(s.take(0));
        broadcast use vstd::multiset::group_multiset_axioms;
    }
    while i < pieces.len()
        invariant
            0 <= i <= s.len(),
            s == pieces@,
            m == s.to_multiset(),
            black == color_present(s.take(i as int).to_multiset(), Color::Black),
            blue == color_present(s.take(i as int).to_multiset(), Color::Blue),
            red == color_present(s.take(i as int).to_multiset(), Color::Red),
            orange == color_present(s.take(i as int).to_multiset(), Color::Orange),
            no_color_repeat(s.take(i as int).to_multiset()),
        decreases s.len() - i,
    {
        let ghost pm = s.take(i as int).to_multiset();
        proof {
            lemma_take_push_multiset(s, i as int);
        }
        match pieces[i] {
            Piece::Normal(n) => {
                let hit = match n.color {
                    Color::Black => black,
                    Color::Blue => blue,
                    Color::Red => red,
                    Color::Orange => orange,
                };
                if hit {
                    proof {
                        broadcast use vstd::seq_lib::group_to_multiset_ensures,
                            vstd::multiset::group_multiset_axioms;

                        // The color was present already: the sequence repeats it.
                        assert(color_present(pm, n.color));
                        let r0 = choose|r: u8| pm.contains(
                            Piece::Normal(NormalPiece { domination: r, color: n.color }));
                        let p0 = Piece::Normal(NormalPiece { domination: r0, color: n.color });
                        assert(pm.count(p0) > 0);
                        assert(s.take(i as int).contains(p0));
                        let j = choose|j: int| 0 <= j < i && s.take(i as int)[j] == p0;
                        assert(s[j] == p0);
                        if p0 == Piece::Normal(n) {
                            assert(s[i as int] == p0);
                            lemma_two_indices_count(s, j, i as int);
                            assert(m.count(p0) >= 2);
                            assert(!no_color_repeat(m));
                        } else {
                            lemma_index_in_multiset(s, j);
                            lemma_index_in_multiset(s, i as int);
                            assert(m.contains(p0));
                            assert(m.contains(Piece::Normal(n)));
                            assert(!no_color_repeat(m));
                        }
                    }
                    return true;
                }
                proof {
                    assert(!color_present(pm, n.color));
                    lemma_insert_normal(pm, n);
                }
                match n.color {
                    Color::Black => black = true,
                    Color::Blue => blue = true,
                    Color::Red => red = true,
                    Color::Orange => orange = true,
                }
            }
            Piece::Joker => {
                proof {
                    lemma_insert_joker(pm);
                }
            }
        }
        i = i + 1;
    }
    proof {
        assert(s.take(s.len() as int) =~= s);
    }
    false
}

/// Is the group a valid meld: three to five pieces that are either of one
/// rank with no color repeated, or of one color forming a contiguous run once
/// wildcards fill the gaps?
///
/// A group of three or more pieces that are all wildcards never reaches this
/// check in the solver: candidate groups are grounded by a ranked piece.
pub fn valid_set(pieces: &Vec<Piece>) -> (r: bool)
    requires
        group_wf(pieces@.to_multiset()),
        pieces@.len() < 3 || has_normal(pieces@.to_multiset()),
    ensures
        r == valid_group(pieces@.to_multiset()),
{
    broadcast use vstd::seq_lib::group_to_multiset_ensures;

    let ghost s = pieces@;
    let ghost m = s.to_multiset();
    proof {
        assert(m.len() == s.len());
    }
    if pieces.len() < 3 {
        return false;
    }
    match first_non_joker(pieces) {
        Some(first_piece) => {
            let rank_branch = same_domination(&first_piece, pieces)
                && !repeating_colors(pieces);
            let run_branch = same_color(&first_piece, pieces) && consecutive(pieces);
            proof {
                if rank_branch {
                    assert(normals_same_rank(m, first_piece.domination));
                    assert(valid_rank_group(m));
                }
                if run_branch {
                    assert(normals_same_color(m, first_piece.color));
                    assert(valid_run_group(m));
                }
                if valid_group(m) && !rank_branch && !run_branch {
                    assert(m.contains(Piece::Normal(first_piece)));
                    if valid_rank_group(m) {
                        let r0 = choose|r: u8| normals_same_rank(m, r);
                        assert(first_piece.domination == r0);
                        assert(normals_same_rank(m, first_piece.domination));
                        assert(!rank_branch);
                        assert(false);
                    } else {
                        let c0 = choose|c: Color| normals_same_color(m, c);
                        assert(first_piece.color == c0);
                        assert(normals_same_color(m, first_piece.color));
                        assert(false);
                    }
                }
            }
            rank_branch || run_branch
        }
        None => {
            proof {
                assert(false);
            }
            false
        }
    }
}

} // verus!
