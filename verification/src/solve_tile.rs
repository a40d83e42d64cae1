use vstd::prelude::*;
use itertools::Itertools;
use vstd::multiset::Multiset;
use crate::common::{
    flat_nested, flat_seq, group_wf, lemma_empty_multiset, lemma_flat_nested_remove,
    lemma_flat_seq_nested, lemma_map_values_permutation, lemma_size_count_bounds,
    lemma_size_count_pointwise, lemma_size_count_pos, lemma_size_count_remove,
    lemma_sorted_arrangement, lemma_take_push_multiset, seqs_of, size_count,
};
use crate::sort_set::{canon_color_idx, canon_dom, canonical_group, canonicalized, key_le, sort_sets};
use crate::piece::{piece_wf, Piece};
use crate::validate::{valid_group, valid_set};
use vstd::seq_lib::lemma_multiset_commutative;

verus! {

// ---------------------------------------------------------------------------
// Group-size enumeration.
// ---------------------------------------------------------------------------

/// How many groups of each size a candidate partition uses.
#[derive(Debug, PartialEq, Eq, Copy, Clone, Structural)]
pub struct GroupCounts {
    pub threes: usize,
    pub fours: usize,
    pub fives: usize,
}

/// Total number of pieces the counted groups consume.
pub open spec fn counts_sum(g: GroupCounts) -> int {
    3 * g.threes + 4 * g.fours + 5 * g.fives
}

/// The enumeration order of size combinations: fewer size-five groups first,
/// and among equals fewer size-four groups first.
pub open spec fn counts_before(a: GroupCounts, b: GroupCounts) -> bool {
    a.fives < b.fives || (a.fives == b.fives && a.fours < b.fours)
}

/// Every way to split `target` pieces into groups of three, four and five:
/// exactly the triples whose sizes sum to `target`, enumerated with the count
/// of fives rising outermost and the count of fours rising within. This order
/// fixes which partition the solver returns when several exist.
pub fn tile_target(target: usize) -> (r: Vec<GroupCounts>)
    ensures
        forall|i: int| 0 <= i < r@.len() ==> counts_sum(#[trigger] r@[i]) == target,
        forall|g: GroupCounts| counts_sum(g) == target ==> r@.contains(g),
        forall|i: int, j: int| 0 <= i < j < r@.len() ==> counts_before(r@[i], r@[j]),
{
    let mut results: Vec<GroupCounts> = Vec::new();
    let mut c: usize = 0;
    while c <= target / 5
        invariant
            0 <= c <= target / 5 + 1,
            forall|i: int| 0 <= i < results@.len() ==> counts_sum(#[trigger] results@[i])
                == target,
            forall|g: GroupCounts| counts_sum(g) == target && g.fives < c ==> results@.contains(g),
            forall|i: int| 0 <= i < results@.len() ==> (#[trigger] results@[i]).fives < c,
            forall|i: int, j: int| 0 <= i < j < results@.len() ==> counts_before(
                results@[i], results@[j]),
        decreases target / 5 + 1 - c,
    {
        proof {
            assert(5 * c <= 5 * (target / 5));
            assert(5 * (target / 5) <= target);
        }
        let left = target - c * 5;
        let mut b: usize = 0;
        while b <= left / 4
            invariant
                0 <= b <= left / 4 + 1,
                c <= target / 5,
                left == target - 5 * c,
                forall|i: int| 0 <= i < results@.len() ==> counts_sum(#[trigger] results@[i])
                    == target,
                forall|g: GroupCounts| counts_sum(g) == target && (g.fives < c || (g.fives == c
                    && g.fours < b)) ==> results@.contains(g),
                forall|i: int| 0 <= i < results@.len() ==> (#[trigger] results@[i]).fives < c
                    || ((#[trigger] results@[i]).fives == c && results@[i].fours < b),
                forall|i: int, j: int| 0 <= i < j < results@.len() ==> counts_before(
                    results@[i], results@[j]),
            decreases left / 4 + 1 - b,
        {
            proof {
                assert(4 * b <= 4 * (left / 4));
                assert(4 * (left / 4) <= left);
            }
            let left2 = left - b * 4;
            let ghost old_results = results@;
            if left2 % 3 == 0 {
                let g = GroupCounts { threes: left2 / 3, fours: b, fives: c };
                proof {
                    assert(3 * (left2 / 3) == left2);
                    assert(counts_sum(g) == target);
                }
                results.push(g);
            }
            proof {
                assert forall|g: GroupCounts| counts_sum(g) == target && (g.fives < c || (
                    g.fives == c && g.fours < b + 1)) implies results@.contains(g) by {
                    if g.fives < c || (g.fives == c && g.fours < b) {
                        assert(old_results.contains(g));
                        let k = choose|k: int| 0 <= k < old_results.len() && old_results[k] == g;
                        assert(results@[k] == g);
                    } else {
                        assert(g.fives == c && g.fours == b);
                        assert(3 * g.threes == left2);
                        assert(left2 % 3 == 0);
                        assert(g.threes == left2 / 3);
                        assert(results@[results@.len() - 1] == g);
                    }
                }
            }
            b = b + 1;
        }
        proof {
            assert forall|g: GroupCounts| counts_sum(g) == target && g.fives < c + 1 implies
                results@.contains(g) by {
                if g.fives == c {
                    assert(4 * g.fours <= target - 5 * c);
                    assert(g.fours <= left / 4) by {
                        if g.fours > left / 4 {
                            assert(4 * g.fours >= 4 * (left / 4 + 1));
                            assert(4 * (left / 4) + 4 > left);
                        }
                    }
                }
            }
        }
        c = c + 1;
    }
    proof {
        assert forall|g: GroupCounts| counts_sum(g) == target implies results@.contains(g) by {
            assert(5 * g.fives <= target);
            assert(g.fives <= target / 5) by {
                if g.fives > target / 5 {
                    assert(5 * g.fives >= 5 * (target / 5 + 1));
                    assert(5 * (target / 5) + 5 > target);
                }
            }
        }
    }
    results
}

// ---------------------------------------------------------------------------
// Combination enumeration (through itertools).
// ---------------------------------------------------------------------------

/// The positions are pairwise distinct and ascending.
pub open spec fn strictly_increasing(s: Seq<usize>) -> bool {
    forall|i: int, j: int| 0 <= i < j < s.len() ==> s[i] < s[j]
}

/// An ascending choice of `k` positions out of `0..n`.
pub open spec fn combo_ok(c: Seq<usize>, n: int, k: int) -> bool {
    &&& c.len() == k
    &&& strictly_increasing(c)
    &&& forall|i: int| 0 <= i < c.len() ==> c[i] < n
}

/// `a` comes before `b` in lexicographic order.
pub open spec fn lex_below(a: Seq<usize>, b: Seq<usize>) -> bool {
    exists|i: int| 0 <= i < a.len() && i < b.len() && (#[trigger] a[i]) < b[i]
        && (forall|j: int| 0 <= j < i ==> a[j] == b[j])
}

/// Relies on itertools' `combinations` over the range `0..n`: it yields every
/// combination of `k` positions exactly once, each as an ascending vector,
/// and emits them in lexicographic order.
#[verifier::external_body]
fn index_combinations(n: usize, k: usize) -> (r: Vec<Vec<usize>>)
    ensures
        forall|i: int| 0 <= i < r@.len() ==> combo_ok((#[trigger] r@[i])@, n as int, k as int),
        forall|i: int, j: int| 0 <= i < j < r@.len() ==> lex_below(r@[i]@, r@[j]@),
        forall|c: Seq<usize>| combo_ok(c, n as int, k as int) ==> exists|i: int|
            0 <= i < r@.len() && (#[trigger] r@[i])@ == c,
{
    (0..n).combinations(k).collect()
}

// ---------------------------------------------------------------------------
// The backtracking search.
// ---------------------------------------------------------------------------

/// Every piece of the board carries a rank in the playable domain.
pub open spec fn board_wf(s: Seq<Piece>) -> bool {
    forall|i: int| 0 <= i < s.len() ==> piece_wf(#[trigger] s[i])
}

/// The pieces the given board slots hold, in slot order.
pub open spec fn pieces_at(ps: Seq<Piece>, idxs: Seq<usize>) -> Seq<Piece> {
    idxs.map_values(|x: usize| ps[x as int])
}

/// A sequence of well-formed pieces has a well-formed multiset.
proof fn lemma_wf_seq_multiset(s: Seq<Piece>)
    requires
        forall|i: int| 0 <= i < s.len() ==> piece_wf(#[trigger] s[i]),
    ensures
        group_wf(s.to_multiset()),
{
    broadcast use vstd::seq_lib::group_to_multiset_ensures;

    assert forall|n: crate::piece::NormalPiece| s.to_multiset().contains(Piece::Normal(n))
        implies 1 <= n.domination <= 13 by {
        assert(s.to_multiset().count(Piece::Normal(n)) > 0);
        assert(s.contains(Piece::Normal(n)));
        let i = choose|i: int| 0 <= i < s.len() && s[i] == Piece::Normal(n);
        assert(piece_wf(s[i]));
    }
}

/// Splits the remaining slots into the combination's picks and the rest,
/// following the ascending positions in `comb`.
fn split_at_positions(left: &Vec<usize>, comb: &Vec<usize>) -> (res: (Vec<usize>, Vec<usize>))
    requires
        combo_ok(comb@, left@.len() as int, comb@.len() as int),
        strictly_increasing(left@),
    ensures
        res.0@ == pieces_pick(left@, comb@),
        res.0@.to_multiset().add(res.1@.to_multiset()) == left@.to_multiset(),
        res.1@.len() + comb@.len() == left@.len(),
        strictly_increasing(res.0@),
        strictly_increasing(res.1@),
        forall|t: int| 0 <= t < res.1@.len() ==> left@.contains(#[trigger] res.1@[t]),
        forall|t: int| 0 <= t < res.0@.len() ==> left@.contains(#[trigger] res.0@[t]),
{
    broadcast use vstd::multiset::group_multiset_axioms,
        vstd::seq_lib::group_to_multiset_ensures;

    let ghost lv = left@;
    let ghost cv = comb@;
    let mut picked: Vec<usize> = Vec::new();
    let mut rest: Vec<usize> = Vec::new();
    let mut ci: usize = 0;
    let mut j: usize = 0;
    proof {
        lemma_empty_multiset(lv.take(0));
        lemma_empty_multiset(picked@);
        lemma_empty_multiset(rest@);
    }
    while j < left.len()
        invariant
            0 <= j <= lv.len(),
            0 <= ci <= cv.len(),
            lv == left@,
            cv == comb@,
            combo_ok(cv, lv.len() as int, cv.len() as int),
            strictly_increasing(lv),
            picked@ =~= pieces_pick(lv, cv.take(ci as int)),
            picked@.to_multiset().add(rest@.to_multiset()) == lv.take(j as int).to_multiset(),
            rest@.len() + ci == j,
            forall|t: int| ci <= t < cv.len() ==> cv[t] >= j,
            strictly_increasing(rest@),
            rest@.len() > 0 && j < lv.len() ==> rest@.last() < lv[j as int],
            forall|t: int| 0 <= t < rest@.len() ==> lv.contains(#[trigger] rest@[t]),
        decreases lv.len() - j,
    {
        let ghost pm = lv.take(j as int).to_multiset();
        proof {
            lemma_take_push_multiset(lv, j as int);
        }
        if ci < comb.len() && comb[ci] == j {
            let ghost old_picked = picked@;
            picked.push(left[j]);
            ci = ci + 1;
            proof {
                assert(cv.take(ci as int) =~= cv.take(ci as int - 1).push(cv[ci as int - 1]));
                assert(picked@ =~= pieces_pick(lv, cv.take(ci as int)));
                vstd::seq_lib::to_multiset_build(old_picked, lv[j as int]);
                assert(picked@.to_multiset() == old_picked.to_multiset().insert(lv[j as int]));
                assert(picked@.to_multiset().add(rest@.to_multiset()) =~= lv.take(
                    j as int + 1).to_multiset());
            }
        } else {
            proof {
                if ci < cv.len() {
                    assert(cv[ci as int] >= j + 1);
                    assert forall|t: int| ci <= t < cv.len() implies cv[t] >= j + 1 by {
                        if t > ci {
                            assert(cv[ci as int] < cv[t]);
                        }
                    }
                }
            }
            let ghost old_rest = rest@;
            rest.push(left[j]);
            proof {
                assert(rest@[rest@.len() - 1] == lv[j as int]);
                assert(lv.contains(lv[j as int]));
                vstd::seq_lib::to_multiset_build(old_rest, lv[j as int]);
                assert(rest@.to_multiset() == old_rest.to_multiset().insert(lv[j as int]));
                assert(picked@.to_multiset().add(rest@.to_multiset()) =~= lv.take(
                    j as int + 1).to_multiset());
            }
        }
        j = j + 1;
    }
    proof {
        assert(ci == cv.len()) by {
            if ci < cv.len() {
                assert(cv[ci as int] >= lv.len());
                assert(cv[ci as int] < lv.len());
            }
        }
        assert(cv.take(ci as int) =~= cv);
        assert(lv.take(lv.len() as int) =~= lv);
        assert forall|i: int, k: int| 0 <= i < k < picked@.len() implies picked@[i] < picked@[k]
            by {
            assert(cv[i] < cv[k]);
        }
        assert forall|t: int| 0 <= t < picked@.len() implies lv.contains(#[trigger] picked@[t])
            by {
            assert(picked@[t] == lv[cv[t] as int]);
        }
    }
    (picked, rest)
}

/// The slot values a combination of positions picks out.
pub open spec fn pieces_pick(lv: Seq<usize>, cv: Seq<usize>) -> Seq<usize> {
    cv.map_values(|p: usize| lv[p as int])
}

/// Collects the pieces sitting at the given board slots.
fn gather_pieces(pieces: &Vec<Piece>, idxs: &Vec<usize>) -> (r: Vec<Piece>)
    requires
        forall|t: int| 0 <= t < idxs@.len() ==> (#[trigger] idxs@[t]) < pieces@.len(),
    ensures
        r@ == pieces_at(pieces@, idxs@),
{
    let mut out: Vec<Piece> = Vec::new();
    let mut t: usize = 0;
    while t < idxs.len()
        invariant
            0 <= t <= idxs@.len(),
            forall|u: int| 0 <= u < idxs@.len() ==> (#[trigger] idxs@[u]) < pieces@.len(),
            out@ =~= pieces_at(pieces@, idxs@.take(t as int)),
        decreases idxs@.len() - t,
    {
        out.push(pieces[idxs[t]]);
        proof {
            assert(idxs@.take(t as int + 1) =~= idxs@.take(t as int).push(idxs@[t as int]));
            assert(out@ =~= pieces_at(pieces@, idxs@.take(t as int + 1)));
        }
        t = t + 1;
    }
    proof {
        assert(idxs@.take(idxs@.len() as int) =~= idxs@);
    }
    out
}

/// Is the candidate a valid meld? Unlike `valid_set`, this guard accepts any
/// candidate, treating a group without a ranked piece as invalid rather than
/// as a broken invariant, so the search never builds an ungrounded run.
fn candidate_is_valid(group: &Vec<Piece>) -> (r: bool)
    requires
        group_wf(group@.to_multiset()),
    ensures
        r == valid_group(group@.to_multiset()),
{
    match crate::common::first_non_joker(group) {
        None => false,
        Some(_) => valid_set(group),
    }
}

/// No partition of `left` into the requested size counts uses a group that
/// holds exactly the slot values `vals`.
pub open spec fn no_partition_uses(
    ps: Seq<Piece>,
    left: Seq<usize>,
    sizes: GroupCounts,
    vals: Multiset<usize>,
) -> bool {
    forall|gs: Seq<Seq<usize>>, w: int|
        #![trigger is_index_partition(ps, left, gs, sizes), gs[w]]
        is_index_partition(ps, left, gs, sizes) && 0 <= w < gs.len() ==> gs[w].to_multiset()
            != vals
}

/// One level of the backtracking search: peel one group of the smallest
/// still-needed size off the remaining slots, trying the combinations of that
/// size in ascending lexicographic order, and recurse on the rest.
///
/// On success the returned groups cover the remaining slots exactly, each is
/// a valid meld of the board's pieces, and the first-found order is kept.
#[verifier::loop_isolation(false)]
fn find_valid(pieces: &Vec<Piece>, sizes: GroupCounts, left: &Vec<usize>) -> (r: Option<
    Vec<Vec<usize>>,
>)
    requires
        board_wf(pieces@),
        strictly_increasing(left@),
        forall|t: int| 0 <= t < left@.len() ==> (#[trigger] left@[t]) < pieces@.len(),
        counts_sum(sizes) == left@.len(),
        sizes.threes + sizes.fours + sizes.fives >= 1,
    ensures
        r matches Some(gs) ==> {
            &&& gs@.len() == sizes.threes + sizes.fours + sizes.fives
            &&& flat_seq(gs@).to_multiset() == left@.to_multiset()
            &&& forall|i: int| 0 <= i < gs@.len() ==> 3 <= (#[trigger] gs@[i])@.len() <= 5
            &&& forall|i: int| 0 <= i < gs@.len() ==> strictly_increasing((#[trigger] gs@[i])@)
            &&& forall|i: int, u: int| 0 <= i < gs@.len() && 0 <= u < gs@[i]@.len()
                ==> (#[trigger] gs@[i]@[u]) < pieces@.len()
            &&& forall|i: int| 0 <= i < gs@.len() ==> valid_group(
                pieces_at(pieces@, (#[trigger] gs@[i])@).to_multiset())
            &&& is_index_partition(pieces@, left@, seqs_of(gs@), sizes)
        },
        r is None ==> forall|gs: Seq<Seq<usize>>| !is_index_partition(pieces@, left@, gs, sizes),
    decreases sizes.threes + sizes.fours + sizes.fives,
{
    broadcast use vstd::seq_lib::group_to_multiset_ensures, vstd::multiset::group_multiset_axioms;

    let n_left = left.len();
    proof {
        assert(sizes.threes + sizes.fours + sizes.fives <= n_left);
    }
    let total = sizes.threes + sizes.fours + sizes.fives;
    let final_round = total == 1;
    let (group_size, next_sizes) = if sizes.threes > 0 {
        (3usize, GroupCounts { threes: sizes.threes - 1, fours: sizes.fours, fives: sizes.fives })
    } else if sizes.fours > 0 {
        (4usize, GroupCounts { threes: sizes.threes, fours: sizes.fours - 1, fives: sizes.fives })
    } else {
        (5usize, GroupCounts { threes: sizes.threes, fours: sizes.fours, fives: sizes.fives - 1 })
    };
    proof {
        assert(counts_sum(next_sizes) == counts_sum(sizes) - group_size);
        assert(group_size <= left@.len());
    }
    let combs = index_combinations(n_left, group_size);
    let mut ci: usize = 0;
    while ci < combs.len()
        invariant
            0 <= ci <= combs@.len(),
            forall|c: int| 0 <= c < ci ==> no_partition_uses(
                pieces@, left@, sizes,
                pieces_pick(left@, (#[trigger] combs@[c])@).to_multiset()),
        decreases combs@.len() - ci,
    {
        let comb = &combs[ci];
        proof {
            assert(combo_ok(comb@, left@.len() as int, group_size as int));
        }
        let (gidx, rest) = split_at_positions(left, comb);
        proof {
            assert forall|u: int| 0 <= u < gidx@.len() implies (#[trigger] gidx@[u])
                < pieces@.len() by {
                assert(left@.contains(gidx@[u]));
                let w = choose|w: int| 0 <= w < left@.len() && left@[w] == gidx@[u];
            }
            assert forall|u: int| 0 <= u < rest@.len() implies (#[trigger] rest@[u])
                < pieces@.len() by {
                assert(left@.contains(rest@[u]));
                let w = choose|w: int| 0 <= w < left@.len() && left@[w] == rest@[u];
            }
        }
        let group_pieces = gather_pieces(pieces, &gidx);
        proof {
            assert forall|u: int| 0 <= u < group_pieces@.len() implies piece_wf(
                #[trigger] group_pieces@[u]) by {
                assert(group_pieces@[u] == pieces@[gidx@[u] as int]);
            }
            lemma_wf_seq_multiset(group_pieces@);
        }
        if candidate_is_valid(&group_pieces) {
            if final_round {
                let mut out: Vec<Vec<usize>> = Vec::new();
                out.push(gidx);
                proof {
                    // The one remaining group consumes everything that is left.
                    assert(group_size == counts_sum(sizes));
                    assert(rest@.len() == 0);
                    lemma_empty_multiset(rest@);
                    let gv = out@[0];
                    assert(out@.drop_first() =~= Seq::<Vec<usize>>::empty());
                    assert(flat_seq(out@.drop_first()).len() == 0);
                    assert(flat_seq(out@) =~= gv@ + flat_seq(out@.drop_first()));
                    assert(flat_seq(out@) =~= gv@);
                    assert(flat_seq(out@).to_multiset() =~= left@.to_multiset());
                    let sgs = seqs_of(out@);
                    assert(sgs.first() == gidx@);
                    assert(sgs.drop_first() =~= Seq::<Seq<usize>>::empty());
                    lemma_flat_seq_nested(out@);
                    assert(size_count(sgs.drop_first(), 3) == 0);
                    assert(size_count(sgs.drop_first(), 4) == 0);
                    assert(size_count(sgs.drop_first(), 5) == 0);
                    assert(gidx@.len() == group_size);
                    assert(sgs[0] == gidx@);
                    assert(is_index_partition(pieces@, left@, sgs, sizes));
                }
                return Some(out);
            } else {
                proof {
                    assert(next_sizes.threes + next_sizes.fours + next_sizes.fives >= 1);
                    assert(counts_sum(next_sizes) == rest@.len());
                }
                match find_valid(pieces, next_sizes, &rest) {
                    Some(rest_groups) => {
                        let ghost rg = rest_groups@;
                        let mut out: Vec<Vec<usize>> = Vec::new();
                        out.push(gidx);
                        let mut tail = rest_groups;
                        out.append(&mut tail);
                        proof {
                            assert(out@.first() == gidx);
                            assert(out@.drop_first() =~= rg);
                            assert(flat_seq(out@) == gidx@ + flat_seq(rg));
                            lemma_multiset_commutative(gidx@, flat_seq(rg));
                            assert(flat_seq(out@).to_multiset() =~= left@.to_multiset());
                            assert forall|i: int| 0 <= i < out@.len() implies valid_group(
                                pieces_at(pieces@, (#[trigger] out@[i])@).to_multiset()) by {
                                if i > 0 {
                                    assert(out@[i] == rg[i - 1]);
                                }
                            }
                            let sgs = seqs_of(out@);
                            assert(sgs.first() == gidx@);
                            assert(sgs.drop_first() =~= seqs_of(rg));
                            lemma_flat_seq_nested(out@);
                            assert(size_count(sgs, 3) == (if group_size == 3 { 1int } else { 0int })
                                + size_count(seqs_of(rg), 3));
                            assert(size_count(sgs, 4) == (if group_size == 4 { 1int } else { 0int })
                                + size_count(seqs_of(rg), 4));
                            assert(size_count(sgs, 5) == (if group_size == 5 { 1int } else { 0int })
                                + size_count(seqs_of(rg), 5));
                            assert forall|i: int| 0 <= i < sgs.len() implies
                                3 <= (#[trigger] sgs[i]).len() <= 5 && valid_group(
                                pieces_at(pieces@, sgs[i]).to_multiset()) by {
                                if i == 0 {
                                    assert(sgs[0] == gidx@);
                                } else {
                                    assert(sgs[i] == seqs_of(rg)[i - 1]);
                                }
                            }
                            assert(is_index_partition(pieces@, left@, sgs, sizes));
                        }
                        return Some(out);
                    }
                    None => {
                        proof {
                            // The recursion settled that the rest admits no
                            // partition, so no partition of `left` can use
                            // this group.
                            assert forall|gs: Seq<Seq<usize>>, w: int|
                                is_index_partition(pieces@, left@, gs, sizes) && 0 <= w < gs.len()
                                implies (#[trigger] gs[w]).to_multiset() != gidx@.to_multiset()
                                by {
                                if gs[w].to_multiset() == gidx@.to_multiset() {
                                    lemma_flat_nested_remove(gs, w);
                                    let gs2 = gs.remove(w);
                                    assert forall|q: usize| flat_nested(gs2).to_multiset().count(q)
                                        == rest@.to_multiset().count(q) by {
                                        assert(flat_nested(gs).to_multiset().count(q)
                                            == flat_nested(gs2).to_multiset().count(q)
                                            + gs[w].to_multiset().count(q));
                                        assert(gidx@.to_multiset().count(q)
                                            + rest@.to_multiset().count(q)
                                            == left@.to_multiset().count(q));
                                    }
                                    assert(flat_nested(gs2).to_multiset() =~= rest@.to_multiset());
                                    assert(gs[w].to_multiset().len() == gs[w].len());
                                    assert(gidx@.to_multiset().len() == gidx@.len());
                                    assert(gs[w].len() == group_size);
                                    lemma_size_count_remove(gs, w, 3);
                                    lemma_size_count_remove(gs, w, 4);
                                    lemma_size_count_remove(gs, w, 5);
                                    assert forall|i: int| 0 <= i < gs2.len() implies
                                        3 <= (#[trigger] gs2[i]).len() <= 5 && valid_group(
                                        pieces_at(pieces@, gs2[i]).to_multiset()) by {
                                        if i < w {
                                            assert(gs2[i] == gs[i]);
                                        } else {
                                            assert(gs2[i] == gs[i + 1]);
                                        }
                                    }
                                    assert(is_index_partition(pieces@, rest@, gs2, next_sizes));
                                    assert(false);
                                }
                            }
                            assert(no_partition_uses(
                                pieces@, left@, sizes, gidx@.to_multiset()));
                        }
                    }
                }
            }
        } else {
            proof {
                // This group is no valid meld, so no partition can use it:
                // validity depends only on which pieces the group holds.
                assert forall|gs: Seq<Seq<usize>>, w: int|
                    is_index_partition(pieces@, left@, gs, sizes) && 0 <= w < gs.len()
                    implies (#[trigger] gs[w]).to_multiset() != gidx@.to_multiset() by {
                    if gs[w].to_multiset() == gidx@.to_multiset() {
                        lemma_pieces_at_permutation(pieces@, gs[w], gidx@);
                        assert(valid_group(pieces_at(pieces@, gs[w]).to_multiset()));
                        assert(false);
                    }
                }
                assert(no_partition_uses(pieces@, left@, sizes, gidx@.to_multiset()));
            }
        }
        proof {
            assert(gidx@ == pieces_pick(left@, combs@[ci as int]@));
        }
        ci = ci + 1;
    }
    proof {
        // Every combination of the peeled size was tried and excluded, and
        // every partition must use one of them, so none exists.
        assert forall|gs: Seq<Seq<usize>>| !is_index_partition(pieces@, left@, gs, sizes) by {
            if is_index_partition(pieces@, left@, gs, sizes) {
                let lv = left@;
                assert(size_count(gs, group_size as int) > 0);
                let w = lemma_size_count_pos(gs, group_size as int);
                let g = gs[w];
                lemma_flat_nested_remove(gs, w);
                assert forall|q: usize| g.to_multiset().count(q) <= lv.to_multiset().count(q) by {
                    assert(flat_nested(gs).to_multiset().count(q) == flat_nested(
                        gs.remove(w)).to_multiset().count(q) + g.to_multiset().count(q));
                }
                assert(lv.no_duplicates()) by {
                    assert forall|i: int, j: int| 0 <= i < lv.len() && 0 <= j < lv.len() && i != j
                        implies lv[i] != lv[j] by {
                        if i < j {
                            assert(lv[i] < lv[j]);
                        } else {
                            assert(lv[j] < lv[i]);
                        }
                    }
                }
                lv.lemma_multiset_has_no_duplicates();
                let gsorted = lemma_sorted_arrangement(g);
                assert forall|i: int, j: int| 0 <= i < j < gsorted.len() implies
                    gsorted[i] < gsorted[j] by {
                    if gsorted[i] == gsorted[j] {
                        crate::common::lemma_two_indices_count(gsorted, i, j);
                        assert(gsorted.to_multiset().count(gsorted[i]) >= 2);
                        assert(lv.to_multiset().count(gsorted[i]) >= 2);
                        assert(lv.to_multiset().contains(gsorted[i]));
                        assert(lv.contains(gsorted[i]));
                        assert(false);
                    }
                }
                let pos = Seq::new(
                    gsorted.len(),
                    |t: int| (choose|p: int| 0 <= p < lv.len() && lv[p] == gsorted[t]) as usize,
                );
                assert forall|t: int| 0 <= t < pos.len() implies (pos[t] as int) < lv.len()
                    && lv[pos[t] as int] == gsorted[t] by {
                    assert(gsorted.contains(gsorted[t]));
                    assert(gsorted.to_multiset().count(gsorted[t]) > 0);
                    assert(lv.to_multiset().count(gsorted[t]) > 0);
                    assert(lv.contains(gsorted[t]));
                    let p0 = choose|p: int| 0 <= p < lv.len() && lv[p] == gsorted[t];
                    assert(pos[t] == p0 as usize);
                }
                assert forall|i: int, j: int| 0 <= i < j < pos.len() implies pos[i] < pos[j] by {
                    assert(lv[pos[i] as int] == gsorted[i]);
                    assert(lv[pos[j] as int] == gsorted[j]);
                    assert(gsorted[i] < gsorted[j]);
                    if pos[i] as int == pos[j] as int {
                        assert(false);
                    } else if pos[j] < pos[i] {
                        assert(lv[pos[j] as int] < lv[pos[i] as int]);
                        assert(false);
                    }
                }
                assert(gsorted.len() == g.to_multiset().len());
                assert(g.to_multiset().len() == g.len());
                assert(combo_ok(pos, n_left as int, group_size as int));
                let c = choose|c: int| 0 <= c < combs@.len() && (#[trigger] combs@[c])@ == pos;
                assert(pieces_pick(lv, pos) =~= gsorted);
                assert(no_partition_uses(
                    pieces@, lv, sizes, pieces_pick(lv, combs@[c]@).to_multiset()));
                assert(gs[w].to_multiset() == gsorted.to_multiset());
                assert(pieces_pick(lv, combs@[c]@).to_multiset() == gsorted.to_multiset());
                assert(false);
            }
        }
    }
    None
}

/// Board slots holding equal collections of indices hold equal collections of
/// pieces.
proof fn lemma_pieces_at_permutation(ps: Seq<Piece>, a: Seq<usize>, b: Seq<usize>)
    requires
        a.to_multiset() == b.to_multiset(),
    ensures
        pieces_at(ps, a).to_multiset() == pieces_at(ps, b).to_multiset(),
{
    lemma_map_values_permutation(a, b, |x: usize| ps[x as int]);
    assert(pieces_at(ps, a) =~= a.map_values(|x: usize| ps[x as int]));
    assert(pieces_at(ps, b) =~= b.map_values(|x: usize| ps[x as int]));
}

/// Gathering pieces group by group and concatenating is the same as
/// concatenating the index groups and gathering once.
proof fn lemma_flat_gather(ps: Seq<Piece>, gs: Seq<Vec<usize>>, rs: Seq<Vec<Piece>>)
    requires
        rs.len() == gs.len(),
        forall|t: int| 0 <= t < gs.len() ==> (#[trigger] rs[t])@ == pieces_at(ps, gs[t]@),
    ensures
        flat_seq(rs) == pieces_at(ps, flat_seq(gs)),
    decreases gs.len(),
{
    if gs.len() == 0 {
        assert(flat_seq(rs) =~= pieces_at(ps, flat_seq(gs)));
    } else {
        assert forall|t: int| 0 <= t < gs.drop_first().len() implies
            (#[trigger] rs.drop_first()[t])@ == pieces_at(ps, gs.drop_first()[t]@) by {
            assert(rs.drop_first()[t] == rs[t + 1]);
            assert(gs.drop_first()[t] == gs[t + 1]);
        }
        lemma_flat_gather(ps, gs.drop_first(), rs.drop_first());
        assert(rs.first()@ == pieces_at(ps, gs.first()@));
        assert(flat_seq(rs) == rs.first()@ + flat_seq(rs.drop_first()));
        assert(flat_seq(gs) == gs.first()@ + flat_seq(gs.drop_first()));
        assert(pieces_at(ps, gs.first()@) + pieces_at(ps, flat_seq(gs.drop_first())) =~=
            pieces_at(ps, gs.first()@ + flat_seq(gs.drop_first())));
        assert(flat_seq(rs) =~= pieces_at(ps, flat_seq(gs)));
    }
}

/// The pieces of all groups together are the concatenation's multiset.
proof fn lemma_sum_groups_flat(gs: Seq<Seq<Piece>>)
    ensures
        sum_groups(gs) == flat_nested(gs).to_multiset(),
    decreases gs.len(),
{
    broadcast use vstd::multiset::group_multiset_axioms;

    if gs.len() == 0 {
        assert(flat_nested(gs).len() == 0);
        lemma_empty_multiset(flat_nested(gs));
    } else {
        lemma_sum_groups_flat(gs.drop_first());
        lemma_multiset_commutative(gs.first(), flat_nested(gs.drop_first()));
        assert(sum_groups(gs) =~= flat_nested(gs).to_multiset());
    }
}

/// A collection of groups of three to five pieces holds as many pieces as
/// its size classes account for.
proof fn lemma_partition_len(gs: Seq<Seq<Piece>>)
    requires
        forall|i: int| 0 <= i < gs.len() ==> 3 <= (#[trigger] gs[i]).len() <= 5,
    ensures
        sum_groups(gs).len() == 3 * size_count(gs, 3) + 4 * size_count(gs, 4) + 5 * size_count(
            gs, 5),
    decreases gs.len(),
{
    broadcast use vstd::seq_lib::group_to_multiset_ensures, vstd::multiset::group_multiset_axioms;

    if gs.len() > 0 {
        assert forall|i: int| 0 <= i < gs.drop_first().len() implies
            3 <= (#[trigger] gs.drop_first()[i]).len() <= 5 by {
            assert(gs.drop_first()[i] == gs[i + 1]);
        }
        lemma_partition_len(gs.drop_first());
        assert(gs.first().to_multiset().len() == gs.first().len());
        assert(gs.first() == gs[0]);
    }
}

/// Decides whether the board can be partitioned into valid melds, and if so
/// returns the first partition the fixed search order finds, canonicalized.
///
/// On success the output groups hold exactly the input pieces (nothing lost,
/// duplicated or invented), every group is a valid meld of three to five
/// pieces, and the groups come sorted by their canonical key. When no
/// combination of group sizes reaches the piece count, there is no solution.
#[verifier::loop_isolation(false)]
pub fn solve_board(pieces: Vec<Piece>) -> (r: Option<Vec<Vec<Piece>>>)
    requires
        board_wf(pieces@),
    ensures
        r matches Some(groups) ==> {
            &&& flat_seq(groups@).to_multiset() == pieces@.to_multiset()
            &&& forall|i: int| 0 <= i < groups@.len() ==> valid_group(
                (#[trigger] groups@[i])@.to_multiset())
            &&& forall|i: int| 0 <= i < groups@.len() ==> 3 <= (#[trigger] groups@[i])@.len() <= 5
            &&& forall|i: int, j: int| 0 <= i < j < groups@.len() ==> key_le(
                canon_dom(groups@[i]@.to_multiset()),
                canon_color_idx(groups@[i]@.to_multiset()),
                canon_dom(groups@[j]@.to_multiset()),
                canon_color_idx(groups@[j]@.to_multiset()),
            )
            &&& forall|i: int| 0 <= i < groups@.len() ==> canonical_group(
                (#[trigger] groups@[i])@)
        },
        (forall|g: GroupCounts| counts_sum(g) != pieces@.len()) ==> r is None,
        pieces@.len() == 0 ==> r is Some,
        r is Some ==> solvable(pieces@),
        r is None ==> !solvable(pieces@),
{
    broadcast use vstd::seq_lib::group_to_multiset_ensures, vstd::multiset::group_multiset_axioms;

    let n = pieces.len();
    let mut left: Vec<usize> = Vec::new();
    let mut k: usize = 0;
    while k < n
        invariant
            0 <= k <= n,
            left@.len() == k,
            forall|t: int| 0 <= t < left@.len() ==> (#[trigger] left@[t]) == t,
        decreases n - k,
    {
        left.push(k);
        k = k + 1;
    }
    let targets = tile_target(n);
    proof {
        if n == 0 {
            assert(counts_sum(GroupCounts { threes: 0, fours: 0, fives: 0 }) == 0);
            assert(targets@.contains(GroupCounts { threes: 0, fours: 0, fives: 0 }));
        }
    }
    let mut ti: usize = 0;
    while ti < targets.len()
        invariant
            0 <= ti <= targets@.len(),
            n == 0 ==> ti == 0,
            forall|c: int, gs: Seq<Seq<usize>>|
                #![trigger is_index_partition(pieces@, left@, gs, targets@[c])]
                0 <= c < ti ==> !is_index_partition(pieces@, left@, gs, targets@[c]),
        decreases targets@.len() - ti,
    {
        let sizes = targets[ti];
        proof {
            assert(counts_sum(sizes) == n);
        }
        if sizes.threes == 0 && sizes.fours == 0 && sizes.fives == 0 {
            // Zero groups cover zero pieces: the empty board's partition.
            let out: Vec<Vec<Piece>> = Vec::new();
            proof {
                assert(pieces@.len() == 0);
                lemma_empty_multiset(pieces@);
                assert(flat_seq(out@).to_multiset().len() == 0);
                lemma_empty_multiset(flat_seq(out@));
                let witness = Seq::<Seq<Piece>>::empty();
                assert(sum_groups(witness) == pieces@.to_multiset());
                assert(piece_partition(witness, pieces@.to_multiset()));
            }
            return Some(out);
        }
        match find_valid(&pieces, sizes, &left) {
            Some(gidxs) => {
                let ghost gv = gidxs@;
                let mut results: Vec<Vec<Piece>> = Vec::new();
                let mut t: usize = 0;
                while t < gidxs.len()
                    invariant
                        0 <= t <= gv.len(),
                        gv == gidxs@,
                        results@.len() == t,
                        forall|u: int| 0 <= u < t ==> (#[trigger] results@[u])@ == pieces_at(
                            pieces@, gv[u]@),
                    decreases gv.len() - t,
                {
                    let group = gather_pieces(&pieces, &gidxs[t]);
                    results.push(group);
                    t = t + 1;
                }
                proof {
                    lemma_flat_gather(pieces@, gv, results@);
                    lemma_pieces_at_permutation(pieces@, flat_seq(gv), left@);
                    assert(pieces_at(pieces@, left@) =~= pieces@);
                    assert(flat_seq(results@).to_multiset() == pieces@.to_multiset());
                    assert forall|u: int| 0 <= u < results@.len() implies group_wf(
                        (#[trigger] results@[u])@.to_multiset()) && valid_group(
                        results@[u]@.to_multiset()) by {
                        assert(results@[u]@ == pieces_at(pieces@, gv[u]@));
                        assert forall|w: int| 0 <= w < results@[u]@.len() implies piece_wf(
                            #[trigger] results@[u]@[w]) by {
                            assert(results@[u]@[w] == pieces@[gv[u]@[w] as int]);
                        }
                        lemma_wf_seq_multiset(results@[u]@);
                    }
                }
                let sorted = sort_sets(results);
                proof {
                    let witness = seqs_of(results@);
                    lemma_flat_seq_nested(results@);
                    lemma_sum_groups_flat(witness);
                    assert(sum_groups(witness) == pieces@.to_multiset());
                    assert forall|i: int| 0 <= i < witness.len() implies
                        3 <= (#[trigger] witness[i]).len() <= 5 && valid_group(
                        witness[i].to_multiset()) by {
                        assert(witness[i] == results@[i]@);
                    }
                    assert(piece_partition(witness, pieces@.to_multiset()));
                    assert(solvable(pieces@));
                }
                proof {
                    assert forall|i: int| 0 <= i < sorted@.len() implies canonical_group(
                        (#[trigger] sorted@[i])@) by {
                        let u = choose|u: int| 0 <= u < results@.len()
                            && sorted@[i]@.to_multiset() == (#[trigger] results@[u])@.to_multiset()
                            && canonicalized(results@[u]@, sorted@[i]@);
                        assert(canonicalized(results@[u]@, sorted@[i]@));
                        assert(results@[u]@.to_multiset() == sorted@[i]@.to_multiset());
                    }
                    assert forall|i: int| 0 <= i < sorted@.len() implies
                        3 <= (#[trigger] sorted@[i])@.len() <= 5 by {
                        let u = choose|u: int| 0 <= u < results@.len()
                            && sorted@[i]@.to_multiset() == (#[trigger] results@[u])@.to_multiset();
                        assert(sorted@[i]@.to_multiset().len() == sorted@[i]@.len());
                        assert(results@[u]@.to_multiset().len() == results@[u]@.len());
                        assert(results@[u]@.len() == gv[u]@.len());
                    }
                }
                return Some(sorted);
            }
            None => {}
        }
        ti = ti + 1;
    }
    proof {
        if exists|g: GroupCounts| counts_sum(g) == pieces@.len() {
            let g = choose|g: GroupCounts| counts_sum(g) == pieces@.len();
            assert(targets@.contains(g));
        }
        if n == 0 {
            assert(targets@.len() > 0);
        }
        // Were the board solvable, some partition would fix a size triple,
        // the triple would be among the targets, and the search for it would
        // have succeeded: so no partition exists at all.
        broadcast use vstd::seq_lib::group_to_multiset_ensures;

        if solvable(pieces@) {
            let m = pieces@.to_multiset();
            let pgs = choose|gs: Seq<Seq<Piece>>| piece_partition(gs, m);
            lemma_partition_len(pgs);
            lemma_size_count_bounds(pgs, 3);
            lemma_size_count_bounds(pgs, 4);
            lemma_size_count_bounds(pgs, 5);
            assert(m.len() == pieces@.len());
            let sizes0 = GroupCounts {
                threes: size_count(pgs, 3) as usize,
                fours: size_count(pgs, 4) as usize,
                fives: size_count(pgs, 5) as usize,
            };
            assert(counts_sum(sizes0) == pieces@.len());
            assert(targets@.contains(sizes0));
            let c = choose|c: int| 0 <= c < targets@.len() && targets@[c] == sizes0;
            assert(pieces_at(pieces@, left@) =~= pieces@);
            let igs = extract_partition(pieces@, left@, pgs);
            assert forall|i: int| 0 <= i < igs.len() implies
                3 <= (#[trigger] igs[i]).len() <= 5 && valid_group(
                pieces_at(pieces@, igs[i]).to_multiset()) by {
                assert(pieces_at(pieces@, igs[i]).to_multiset() == pgs[i].to_multiset());
                assert(igs[i].len() == pgs[i].len());
            }
            lemma_size_count_pointwise(igs, pgs, 3);
            lemma_size_count_pointwise(igs, pgs, 4);
            lemma_size_count_pointwise(igs, pgs, 5);
            assert(is_index_partition(pieces@, left@, igs, sizes0));
            assert(is_index_partition(pieces@, left@, igs, targets@[c]));
            assert(false);
        }
    }
    None
}

// ---------------------------------------------------------------------------
// What a partition is, stated over ghost collections of groups.
// ---------------------------------------------------------------------------

/// `gs` splits the slots in `left` into groups of three to five slots each,
/// with exactly the requested number of groups of each size, every group a
/// valid meld of the board's pieces, and every slot used exactly once.
pub open spec fn is_index_partition(
    ps: Seq<Piece>,
    left: Seq<usize>,
    gs: Seq<Seq<usize>>,
    sizes: GroupCounts,
) -> bool {
    &&& flat_nested(gs).to_multiset() == left.to_multiset()
    &&& forall|i: int| 0 <= i < gs.len() ==> 3 <= (#[trigger] gs[i]).len() <= 5
    &&& forall|i: int| 0 <= i < gs.len() ==> valid_group(
        pieces_at(ps, #[trigger] gs[i]).to_multiset())
    &&& size_count(gs, 3) == sizes.threes
    &&& size_count(gs, 4) == sizes.fours
    &&& size_count(gs, 5) == sizes.fives
}

/// The pieces of all groups together, as one multiset.
pub open spec fn sum_groups(gs: Seq<Seq<Piece>>) -> Multiset<Piece>
    decreases gs.len(),
{
    if gs.len() == 0 {
        Multiset::empty()
    } else {
        gs.first().to_multiset().add(sum_groups(gs.drop_first()))
    }
}

/// `gs` partitions the piece multiset `m` into valid melds of three to five
/// pieces each.
pub open spec fn piece_partition(gs: Seq<Seq<Piece>>, m: Multiset<Piece>) -> bool {
    &&& sum_groups(gs) == m
    &&& forall|i: int| 0 <= i < gs.len() ==> 3 <= (#[trigger] gs[i]).len() <= 5
    &&& forall|i: int| 0 <= i < gs.len() ==> valid_group((#[trigger] gs[i]).to_multiset())
}

/// The board admits a full partition into valid melds.
pub open spec fn solvable(ps: Seq<Piece>) -> bool {
    exists|gs: Seq<Seq<Piece>>| piece_partition(gs, ps.to_multiset())
}

// ---------------------------------------------------------------------------
// From a partition of the pieces to a partition of the slots.
// ---------------------------------------------------------------------------

/// Splits an index pool so that the first part holds exactly a wanted
/// sub-multiset of the pieces and the second part the rest.
proof fn extract_indices(ps: Seq<Piece>, avail: Seq<usize>, target: Multiset<Piece>) -> (r: (
    Seq<usize>,
    Seq<usize>,
))
    requires
        forall|t: int| 0 <= t < avail.len() ==> (#[trigger] avail[t]) < ps.len(),
        target.subset_of(pieces_at(ps, avail).to_multiset()),
    ensures
        r.0.to_multiset().add(r.1.to_multiset()) == avail.to_multiset(),
        pieces_at(ps, r.0).to_multiset() == target,
        pieces_at(ps, r.1).to_multiset() == pieces_at(ps, avail).to_multiset().sub(target),
        r.0.len() == target.len(),
        r.1.len() == avail.len() - target.len(),
        forall|t: int| 0 <= t < r.0.len() ==> (#[trigger] r.0[t]) < ps.len(),
        forall|t: int| 0 <= t < r.1.len() ==> (#[trigger] r.1[t]) < ps.len(),
    decreases target.len(),
{
    broadcast use vstd::seq_lib::group_to_multiset_ensures, vstd::multiset::group_multiset_axioms;

    let total = pieces_at(ps, avail).to_multiset();
    assert(pieces_at(ps, avail).len() == avail.len());
    if target.len() == 0 {
        let r = (Seq::<usize>::empty(), avail);
        lemma_empty_multiset(r.0);
        lemma_empty_multiset(pieces_at(ps, r.0));
        assert(pieces_at(ps, r.0).len() == 0);
        assert(target =~= Multiset::<Piece>::empty());
        assert(total.sub(target) =~= total);
        r
    } else {
        let p = target.choose();
        assert(target.count(p) > 0);
        assert(total.count(p) > 0);
        assert(pieces_at(ps, avail).contains(p));
        let t = choose|t: int| 0 <= t < avail.len() && pieces_at(ps, avail)[t] == p;
        assert(ps[avail[t] as int] == p);
        let avail1 = avail.remove(t);
        let target1 = target.remove(p);
        assert(pieces_at(ps, avail1) =~= pieces_at(ps, avail).remove(t));
        assert(pieces_at(ps, avail1).to_multiset() == total.remove(p));
        assert(target1.subset_of(pieces_at(ps, avail1).to_multiset()));
        let rec = extract_indices(ps, avail1, target1);
        let r = (rec.0.push(avail[t]), rec.1);
        vstd::seq_lib::to_multiset_build(rec.0, avail[t]);
        assert(avail1.to_multiset() == avail.to_multiset().remove(avail[t]));
        assert(avail.contains(avail[t]));
        assert(avail.to_multiset().count(avail[t]) > 0);
        assert forall|q: usize| r.0.to_multiset().add(r.1.to_multiset()).count(q)
            == avail.to_multiset().count(q) by {
            assert(r.0.to_multiset().count(q) == rec.0.to_multiset().insert(avail[t]).count(q));
            assert(rec.0.to_multiset().count(q) + rec.1.to_multiset().count(q)
                == avail.to_multiset().remove(avail[t]).count(q));
        }
        assert(r.0.to_multiset().add(r.1.to_multiset()) =~= avail.to_multiset());
        assert(pieces_at(ps, r.0) =~= pieces_at(ps, rec.0).push(p));
        vstd::seq_lib::to_multiset_build(pieces_at(ps, rec.0), p);
        assert(pieces_at(ps, r.0).to_multiset() =~= target);
        assert(pieces_at(ps, r.1).to_multiset() =~= total.sub(target)) by {
            assert(pieces_at(ps, rec.1).to_multiset() == total.remove(p).sub(target1));
            assert forall|q: Piece| total.remove(p).sub(target1).count(q) == total.sub(
                target).count(q) by {}
        }
        r
    }
}

/// Turns a partition of the pool's pieces into a partition of the pool's
/// slots, group by group.
proof fn extract_partition(ps: Seq<Piece>, avail: Seq<usize>, gs: Seq<Seq<Piece>>) -> (r: Seq<
    Seq<usize>,
>)
    requires
        forall|t: int| 0 <= t < avail.len() ==> (#[trigger] avail[t]) < ps.len(),
        sum_groups(gs) == pieces_at(ps, avail).to_multiset(),
    ensures
        r.len() == gs.len(),
        flat_nested(r).to_multiset() == avail.to_multiset(),
        forall|i: int| 0 <= i < gs.len() ==> pieces_at(ps, #[trigger] r[i]).to_multiset()
            == gs[i].to_multiset(),
        forall|i: int| 0 <= i < gs.len() ==> (#[trigger] r[i]).len() == gs[i].len(),
    decreases gs.len(),
{
    broadcast use vstd::seq_lib::group_to_multiset_ensures, vstd::multiset::group_multiset_axioms;

    if gs.len() == 0 {
        assert(pieces_at(ps, avail).to_multiset().len() == 0);
        assert(pieces_at(ps, avail).len() == avail.len());
        assert(avail =~= Seq::<usize>::empty());
        lemma_empty_multiset(avail);
        let r = Seq::<Seq<usize>>::empty();
        assert(flat_nested(r).len() == 0);
        lemma_empty_multiset(flat_nested(r));
        r
    } else {
        let target = gs.first().to_multiset();
        assert(target.subset_of(pieces_at(ps, avail).to_multiset()));
        let split = extract_indices(ps, avail, target);
        assert(sum_groups(gs.drop_first()) =~= pieces_at(ps, split.1).to_multiset()) by {
            assert forall|q: Piece| sum_groups(gs.drop_first()).count(q) == pieces_at(
                ps, split.1).to_multiset().count(q) by {}
        }
        let rec = extract_partition(ps, split.1, gs.drop_first());
        let r = seq![split.0] + rec;
        assert(r.first() == split.0);
        assert(r.drop_first() =~= rec);
        assert(flat_nested(r) == split.0 + flat_nested(rec));
        vstd::seq_lib::lemma_multiset_commutative(split.0, flat_nested(rec));
        assert(flat_nested(r).to_multiset() =~= avail.to_multiset());
        assert(gs.first().to_multiset().len() == gs.first().len());
        assert(pieces_at(ps, split.0).len() == split.0.len());
        assert forall|i: int| 0 <= i < gs.len() implies pieces_at(ps, #[trigger] r[i]).to_multiset()
            == gs[i].to_multiset() && r[i].len() == gs[i].len() by {
            if i > 0 {
                assert(r[i] == rec[i - 1]);
                assert(gs[i] == gs.drop_first()[i - 1]);
                assert(gs.drop_first()[i - 1].to_multiset().len() == gs.drop_first()[i - 1].len());
                assert(pieces_at(ps, rec[i - 1]).len() == rec[i - 1].len());
            } else {
                assert(r[0] == split.0);
                assert(gs[0] == gs.first());
            }
        }
        r
    }
}

} // verus!
