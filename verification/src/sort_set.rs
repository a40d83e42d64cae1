use vstd::prelude::*;
use vstd::multiset::Multiset;
use crate::common::{
    color_present, first_non_joker, flat_seq, group_wf, has_normal, holes_of, joker_count,
    lemma_contains_normal_present, lemma_empty_multiset, lemma_flat_seq_permutation,
    lemma_flat_seq_pointwise, lemma_map_values_permutation, lemma_min_rank_char,
    lemma_take_push_multiset, normals_same_color, normals_same_rank, rank_present, same_domination,
    spec_min_rank,
    ConsecutiveSet,
};
use crate::piece::{color_at, color_index, Color, NormalPiece, Piece};
use crate::validate::{valid_group, valid_rank_group, valid_run_group};

verus! {

// ---------------------------------------------------------------------------
// The canonical sort key of a group, as a function of its piece multiset.
// ---------------------------------------------------------------------------

/// The group reads as a same-rank meld: its ranked pieces all share one rank.
/// (A group that is at the same time a one-piece-grounded run is canonicalized
/// as a same-rank meld.)
pub open spec fn rank_kind(m: Multiset<Piece>) -> bool {
    has_normal(m) && normals_same_rank(m, spec_min_rank(m))
}

/// Where a run starts once its wildcards are laid out (clamped at rank 1).
pub open spec fn run_start(m: Multiset<Piece>) -> int {
    let free = joker_count(m) - holes_of(m);
    if spec_min_rank(m) <= free {
        1
    } else {
        spec_min_rank(m) - free
    }
}

/// Position of the smallest color present in the group (4 when none is).
pub open spec fn min_present_color_idx(m: Multiset<Piece>) -> int {
    if color_present(m, Color::Black) {
        0
    } else if color_present(m, Color::Blue) {
        1
    } else if color_present(m, Color::Red) {
        2
    } else if color_present(m, Color::Orange) {
        3
    } else {
        4
    }
}

/// Position of the smallest color absent from the group (4 when all are in).
pub open spec fn min_free_color_idx(m: Multiset<Piece>) -> int {
    if !color_present(m, Color::Black) {
        0
    } else if !color_present(m, Color::Blue) {
        1
    } else if !color_present(m, Color::Red) {
        2
    } else if !color_present(m, Color::Orange) {
        3
    } else {
        4
    }
}

/// Anchor color position of a same-rank meld: wildcards take the lowest free
/// colors, so the smallest effective color is the smaller of the lowest
/// present and (when a wildcard exists) the lowest free color.
pub open spec fn canon_anchor_idx(m: Multiset<Piece>) -> int {
    if joker_count(m) == 0 {
        min_present_color_idx(m)
    } else if min_free_color_idx(m) < min_present_color_idx(m) {
        min_free_color_idx(m)
    } else {
        min_present_color_idx(m)
    }
}

/// The rank component of a group's canonical sort key.
pub open spec fn canon_dom(m: Multiset<Piece>) -> int {
    if rank_kind(m) {
        spec_min_rank(m) as int
    } else {
        run_start(m)
    }
}

/// The color component of a group's canonical sort key.
pub open spec fn canon_color_idx(m: Multiset<Piece>) -> int {
    if rank_kind(m) {
        canon_anchor_idx(m)
    } else {
        min_present_color_idx(m)
    }
}

/// Sort-key order: by rank, then by color position.
pub open spec fn key_le(d1: int, c1: int, d2: int, c2: int) -> bool {
    d1 < d2 || (d1 == d2 && c1 <= c2)
}

// ---------------------------------------------------------------------------
// SetOrder: a group together with its canonical key and canonical layout.
// ---------------------------------------------------------------------------

/// A group ready for output: its pieces in canonical order, and the sort key
/// (starting rank and anchor color) under which the groups are arranged.
#[derive(Debug, Clone, PartialEq, Eq)]
pub struct SetOrder {
    pub effective_domination: u8,
    pub effective_color: Color,
    pub set: Vec<Piece>,
}

/// The key order between two prepared groups.
pub open spec fn order_le(a: SetOrder, b: SetOrder) -> bool {
    key_le(
        a.effective_domination as int,
        color_index(a.effective_color),
        b.effective_domination as int,
        color_index(b.effective_color),
    )
}

// ---------------------------------------------------------------------------
// Small verified sorts (selection sort, taking the earliest minimum so that
// equal keys keep their arrival order).
// ---------------------------------------------------------------------------

/// Sorts tagged pieces by their tag, ascending; keeps the multiset of pairs.
fn sort_tagged(input: Vec<(Piece, u8)>) -> (r: Vec<(Piece, u8)>)
    ensures
        r@.to_multiset() == input@.to_multiset(),
        r@.len() == input@.len(),
        forall|i: int, j: int| 0 <= i < j < r@.len() ==> r@[i].1 <= r@[j].1,
{
    broadcast use vstd::seq_lib::group_to_multiset_ensures, vstd::multiset::group_multiset_axioms;

    let mut remaining = input;
    let mut out: Vec<(Piece, u8)> = Vec::new();
    proof {
        lemma_empty_multiset(out@);
    }
    while remaining.len() > 0
        invariant
            out@.to_multiset().add(remaining@.to_multiset()) == input@.to_multiset(),
            out@.len() + remaining@.len() == input@.len(),
            forall|i: int, j: int| 0 <= i < j < out@.len() ==> out@[i].1 <= out@[j].1,
            forall|i: int, j: int| 0 <= i < out@.len() && 0 <= j < remaining@.len()
                ==> out@[i].1 <= remaining@[j].1,
        decreases remaining@.len(),
    {
        let mut best: usize = 0;
        let mut t: usize = 1;
        while t < remaining.len()
            invariant
                0 <= best < t <= remaining@.len(),
                remaining@.len() > 0,
                forall|u: int| 0 <= u < t ==> remaining@[best as int].1 <= remaining@[u].1,
            decreases remaining@.len() - t,
        {
            if remaining[t].1 < remaining[best].1 {
                best = t;
            }
            t = t + 1;
        }
        let ghost old_rem = remaining@;
        let ghost old_out = out@;
        let chosen = remaining.remove(best);
        out.push(chosen);
        proof {
            assert(remaining@ == old_rem.remove(best as int));
            assert(chosen == old_rem[best as int]);
            vstd::seq_lib::to_multiset_remove(old_rem, best as int);
            vstd::seq_lib::to_multiset_build(old_out, chosen);
            assert(remaining@.to_multiset() == old_rem.to_multiset().remove(chosen));
            assert(out@.to_multiset() == old_out.to_multiset().insert(chosen));
            assert(old_rem.to_multiset().count(chosen) > 0) by {
                crate::common::lemma_index_in_multiset(old_rem, best as int);
            }
            assert(out@.to_multiset().add(remaining@.to_multiset()) =~= input@.to_multiset());
            assert forall|j: int| 0 <= j < remaining@.len() implies chosen.1 <= remaining@[j].1
                by {
                if j < best {
                    assert(remaining@[j] == old_rem[j]);
                } else {
                    assert(remaining@[j] == old_rem[j + 1]);
                }
            }
        }
    }
    out
}

/// `out` holds `input`'s groups rearranged through the positions `pos`:
/// every group is taken from its position, the keys ascend, and groups of
/// equal key keep their original order.
pub open spec fn stable_arrangement(input: Seq<SetOrder>, out: Seq<SetOrder>, pos: Seq<int>) -> bool {
    &&& pos.len() == out.len()
    &&& forall|i: int| 0 <= i < pos.len() ==> 0 <= #[trigger] pos[i] < input.len()
        && out[i] == input[pos[i]]
    &&& forall|i: int, j: int| 0 <= i < j < pos.len() ==> order_le(out[i], out[j]) && (order_le(
        out[j], out[i]) ==> pos[i] < pos[j])
}

/// The groups carried by a sequence of indexed groups, in order.
pub open spec fn pair_firsts(s: Seq<(SetOrder, usize)>) -> Seq<SetOrder> {
    s.map_values(|p: (SetOrder, usize)| p.0)
}

proof fn lemma_pair_firsts_permutation(a: Seq<(SetOrder, usize)>, b: Seq<(SetOrder, usize)>)
    requires
        a.to_multiset() == b.to_multiset(),
    ensures
        pair_firsts(a).to_multiset() == pair_firsts(b).to_multiset(),
{
    lemma_map_values_permutation(a, b, |p: (SetOrder, usize)| p.0);
    assert(pair_firsts(a) =~= a.map_values(|p: (SetOrder, usize)| p.0));
    assert(pair_firsts(b) =~= b.map_values(|p: (SetOrder, usize)| p.0));
}

/// Sorts prepared groups by their canonical key, ascending; keeps the
/// multiset of groups, and equal keys keep their arrival order (the sort is
/// stable: each group remembers its arrival position).
fn sort_orders(input: Vec<SetOrder>) -> (r: Vec<SetOrder>)
    ensures
        r@.to_multiset() == input@.to_multiset(),
        r@.len() == input@.len(),
        forall|i: int, j: int| 0 <= i < j < r@.len() ==> order_le(r@[i], r@[j]),
        exists|pos: Seq<int>| #[trigger] stable_arrangement(input@, r@, pos),
{
    broadcast use vstd::seq_lib::group_to_multiset_ensures, vstd::multiset::group_multiset_axioms;

    let ghost iv = input@;
    let mut feeding = input;
    let mut indexed: Vec<(SetOrder, usize)> = Vec::new();
    while feeding.len() > 0
        invariant
            indexed@.len() + feeding@.len() == iv.len(),
            feeding@ =~= iv.skip(indexed@.len() as int),
            forall|t: int| 0 <= t < indexed@.len() ==> (#[trigger] indexed@[t]).0 == iv[t]
                && indexed@[t].1 == t,
        decreases feeding@.len(),
    {
        let ghost k = indexed@.len() as int;
        proof {
            assert(feeding@[0] == iv[k]);
        }
        let order = feeding.remove(0);
        let idx = indexed.len();
        indexed.push((order, idx));
        proof {
            assert(feeding@ =~= iv.skip(k + 1));
        }
    }
    let ghost pairs0 = indexed@;
    proof {
        assert(pair_firsts(pairs0) =~= iv);
    }
    let mut remaining = indexed;
    let mut picked: Vec<(SetOrder, usize)> = Vec::new();
    while remaining.len() > 0
        invariant
            picked@.len() + remaining@.len() == iv.len(),
            picked@.to_multiset().add(remaining@.to_multiset()) == pairs0.to_multiset(),
            forall|i: int, j: int| 0 <= i < j < remaining@.len() ==> remaining@[i].1
                < remaining@[j].1,
            forall|t: int| 0 <= t < remaining@.len() ==> ((#[trigger] remaining@[t]).1 as int)
                < iv.len() && remaining@[t].0 == iv[remaining@[t].1 as int],
            forall|t: int| 0 <= t < picked@.len() ==> ((#[trigger] picked@[t]).1 as int)
                < iv.len() && picked@[t].0 == iv[picked@[t].1 as int],
            forall|i: int, j: int| 0 <= i < j < picked@.len() ==> order_le(
                picked@[i].0, picked@[j].0) && (order_le(picked@[j].0, picked@[i].0)
                ==> picked@[i].1 < picked@[j].1),
            forall|i: int, j: int| 0 <= i < picked@.len() && 0 <= j < remaining@.len()
                ==> order_le((#[trigger] picked@[i]).0, (#[trigger] remaining@[j]).0)
                && (order_le(remaining@[j].0, picked@[i].0) ==> picked@[i].1 < remaining@[j].1),
        decreases remaining@.len(),
    {
        let mut best: usize = 0;
        let mut t: usize = 1;
        while t < remaining.len()
            invariant
                0 <= best < t <= remaining@.len(),
                remaining@.len() > 0,
                forall|u: int| 0 <= u < t ==> order_le(
                    remaining@[best as int].0, remaining@[u].0),
                forall|u: int| 0 <= u < best ==> !order_le(
                    remaining@[u].0, remaining@[best as int].0),
            decreases remaining@.len() - t,
        {
            let better = remaining[t].0.effective_domination
                < remaining[best].0.effective_domination || (remaining[t].0.effective_domination
                == remaining[best].0.effective_domination
                && remaining[t].0.effective_color.index()
                < remaining[best].0.effective_color.index());
            if better {
                best = t;
            }
            t = t + 1;
        }
        let ghost old_rem = remaining@;
        let ghost old_picked = picked@;
        let chosen = remaining.remove(best);
        picked.push(chosen);
        proof {
            assert(remaining@ == old_rem.remove(best as int));
            assert(chosen == old_rem[best as int]);
            vstd::seq_lib::to_multiset_remove(old_rem, best as int);
            vstd::seq_lib::to_multiset_build(old_picked, chosen);
            assert(old_rem.to_multiset().count(chosen) > 0) by {
                crate::common::lemma_index_in_multiset(old_rem, best as int);
            }
            assert(picked@.to_multiset().add(remaining@.to_multiset()) =~= pairs0.to_multiset());
            assert forall|j: int| 0 <= j < remaining@.len() implies order_le(
                chosen.0, (#[trigger] remaining@[j]).0) && (order_le(remaining@[j].0, chosen.0)
                ==> chosen.1 < remaining@[j].1) by {
                if j < best {
                    assert(remaining@[j] == old_rem[j]);
                    assert(!order_le(old_rem[j].0, chosen.0));
                } else {
                    assert(remaining@[j] == old_rem[j + 1]);
                    assert(old_rem[best as int].1 < old_rem[j + 1].1);
                }
            }
        }
    }
    let ghost sorted_pairs = picked@;
    proof {
        lemma_empty_multiset(remaining@);
        assert(sorted_pairs.to_multiset() =~= pairs0.to_multiset());
    }
    let mut res: Vec<SetOrder> = Vec::new();
    let mut draining = picked;
    while draining.len() > 0
        invariant
            res@.len() + draining@.len() == sorted_pairs.len(),
            draining@ =~= sorted_pairs.skip(res@.len() as int),
            forall|t: int| 0 <= t < res@.len() ==> (#[trigger] res@[t]) == sorted_pairs[t].0,
        decreases draining@.len(),
    {
        let ghost k = res@.len() as int;
        proof {
            assert(draining@[0] == sorted_pairs[k]);
        }
        let pair = draining.remove(0);
        res.push(pair.0);
        proof {
            assert(draining@ =~= sorted_pairs.skip(k + 1));
        }
    }
    proof {
        assert(res@ =~= pair_firsts(sorted_pairs));
        lemma_pair_firsts_permutation(sorted_pairs, pairs0);
        assert(res@.to_multiset() == iv.to_multiset());
        let pos = Seq::new(sorted_pairs.len(), |i: int| sorted_pairs[i].1 as int);
        assert forall|i: int| 0 <= i < pos.len() implies 0 <= #[trigger] pos[i] < iv.len()
            && res@[i] == iv[pos[i]] by {
            assert(res@[i] == sorted_pairs[i].0);
        }
        assert forall|i: int, j: int| 0 <= i < j < pos.len() implies order_le(res@[i], res@[j])
            && (order_le(res@[j], res@[i]) ==> pos[i] < pos[j]) by {
            assert(res@[i] == sorted_pairs[i].0);
            assert(res@[j] == sorted_pairs[j].0);
        }
        assert(stable_arrangement(iv, res@, pos));
    }
    res
}

impl SetOrder {
    /// Prepares one valid meld for output: computes its sort key and lays its
    /// pieces out canonically (same-rank melds by effective color, runs by
    /// effective rank, wildcards taking the lowest free slot).
    pub fn new(input: Vec<Piece>) -> (r: SetOrder)
        requires
            group_wf(input@.to_multiset()),
            valid_group(input@.to_multiset()),
        ensures
            r.set@.to_multiset() == input@.to_multiset(),
            r.effective_domination as int == canon_dom(input@.to_multiset()),
            color_index(r.effective_color) == canon_color_idx(input@.to_multiset()),
            forall|i: int, j: int| (0 <= i < j < r.set@.len()
                && ((#[trigger] r.set@[i]) matches Piece::Normal(_))
                && ((#[trigger] r.set@[j]) matches Piece::Normal(_)))
                ==> normal_tag(r.set@[i], rank_kind(input@.to_multiset()))
                    <= normal_tag(r.set@[j], rank_kind(input@.to_multiset())),
            canonicalized(input@, r.set@),
    {
        broadcast use vstd::seq_lib::group_to_multiset_ensures,
            vstd::multiset::group_multiset_axioms;

        let ghost s = input@;
        let ghost m = s.to_multiset();
        proof {
            assert(m.len() == s.len());
        }
        let first_piece = match first_non_joker(&input) {
            Some(f) => f,
            None => {
                proof {
                    assert(false);
                }
                NormalPiece { domination: 1, color: Color::Black }
            }
        };
        proof {
            assert(m.contains(Piece::Normal(first_piece)));
            lemma_contains_normal_present(m, first_piece);
            assert(1 <= first_piece.domination <= 13);
        }
        if same_domination(&first_piece, &input) {
            // A same-rank meld: the key is the shared rank and the anchor color.
            proof {
                assert forall|rr: u8| rank_present(m, rr) implies first_piece.domination <= rr
                    by {
                    let c = choose|c: Color| m.contains(
                        Piece::Normal(NormalPiece { domination: rr, color: c }));
                    assert(m.contains(Piece::Normal(NormalPiece { domination: rr, color: c })));
                }
                lemma_min_rank_char(m, first_piece.domination);
                assert(rank_kind(m));
            }
            let mut black = false;
            let mut blue = false;
            let mut red = false;
            let mut orange = false;
            let mut jokers: u8 = 0;
            let mut i: usize = 0;
            proof {
                lemma_empty_multiset(s.take(0));
            }
            while i < input.len()
                invariant
                    0 <= i <= s.len(),
                    s == input@,
                    m == s.to_multiset(),
                    s.len() <= 13,
                    black == color_present(s.take(i as int).to_multiset(), Color::Black),
                    blue == color_present(s.take(i as int).to_multiset(), Color::Blue),
                    red == color_present(s.take(i as int).to_multiset(), Color::Red),
                    orange == color_present(s.take(i as int).to_multiset(), Color::Orange),
                    jokers as int == s.take(i as int).to_multiset().count(Piece::Joker),
                    jokers <= i,
                decreases s.len() - i,
            {
                let ghost pm = s.take(i as int).to_multiset();
                proof {
                    lemma_take_push_multiset(s, i as int);
                }
                match input[i] {
                    Piece::Normal(n) => {
                        proof {
                            crate::common::lemma_insert_normal(pm, n);
                        }
                        match n.color {
                            Color::Black => black = true,
                            Color::Blue => blue = true,
                            Color::Red => red = true,
                            Color::Orange => orange = true,
                        }
                    }
                    Piece::Joker => {
                        proof {
                            crate::common::lemma_insert_joker(pm);
                        }
                        jokers = jokers + 1;
                    }
                }
                i = i + 1;
            }
            proof {
                assert(s.take(s.len() as int) =~= s);
            }
            let minp: u8 = if black { 0 } else if blue { 1 } else if red { 2 } else if orange {
                3
            } else {
                4
            };
            let minf: u8 = if !black { 0 } else if !blue { 1 } else if !red { 2 } else if !orange {
                3
            } else {
                4
            };
            let anchor: u8 = if jokers == 0 {
                minp
            } else if minf < minp {
                minf
            } else {
                minp
            };
            proof {
                assert(minp as int == min_present_color_idx(m));
                assert(minf as int == min_free_color_idx(m));
                assert(anchor as int == canon_anchor_idx(m));
                assert(min_present_color_idx(m) <= 3) by {
                    assert(color_present(m, first_piece.color));
                }
            }
            let effective_color = if anchor == 0 {
                Color::Black
            } else if anchor == 1 {
                Color::Blue
            } else if anchor == 2 {
                Color::Red
            } else {
                Color::Orange
            };
            let mut avail: Vec<u8> = Vec::new();
            if !black {
                avail.push(0);
            }
            if !blue {
                avail.push(1);
            }
            if !red {
                avail.push(2);
            }
            if !orange {
                avail.push(3);
            }
            proof {
                assert forall|v: u8| avail@.contains(v) implies v <= 3 && !color_present(
                    m, color_at(v as int)) by {
                    let u = choose|u: int| 0 <= u < avail@.len() && avail@[u] == v;
                }
                assert forall|v: u8| v <= 3 && !color_present(m, color_at(v as int)) implies
                    avail@.contains(v) by {
                    let i0: int = if !black { 1int } else { 0int };
                    let i1: int = i0 + (if !blue { 1int } else { 0int });
                    let i2: int = i1 + (if !red { 1int } else { 0int });
                    if v == 0 {
                        assert(avail@[0] == 0);
                    } else if v == 1 {
                        assert(avail@[i0] == 1);
                    } else if v == 2 {
                        assert(avail@[i1] == 2);
                    } else {
                        assert(avail@[i2] == 3);
                    }
                }
                assert(layout_slots_ok(m, avail@));
            }
            let set = lay_out(&input, avail, true);
            proof {
                assert(canonical_layout(input@, set@, avail@, rank_kind(m)));
            }
            SetOrder { effective_domination: first_piece.domination, effective_color, set }
        } else {
            // A run: the key is the clamped starting rank and the run's color.
            proof {
                assert(!normals_same_rank(m, first_piece.domination));
                if valid_rank_group(m) {
                    let r0 = choose|rr: u8| normals_same_rank(m, rr);
                    assert(first_piece.domination == r0);
                    assert(false);
                }
                assert(valid_run_group(m));
                let c0 = choose|c: Color| normals_same_color(m, c);
                assert(first_piece.color == c0);
                assert(normals_same_color(m, first_piece.color));
                if rank_kind(m) {
                    assert(first_piece.domination == spec_min_rank(m));
                    assert(normals_same_rank(m, first_piece.domination));
                }
                assert(!rank_kind(m));
                assert(s.len() <= 255);
            }
            let cs = match ConsecutiveSet::new(&input) {
                Some(cs) => cs,
                None => {
                    proof {
                        assert(false);
                    }
                    ConsecutiveSet { holes: 0, jokers: 0, first: 0, items: 0 }
                }
            };
            proof {
                crate::common::lemma_min_rank_le(m, first_piece.domination);
                assert(cs.holes <= cs.jokers);
                assert(cs.items >= 1);
                assert(cs.first <= 13);
                assert(cs.jokers as int <= m.len());
                assert(cs.spec_actual_last() <= 255);
            }
            let effective_domination = cs.actual_first();
            proof {
                assert(effective_domination as int == run_start(m));
                assert(effective_domination as int == canon_dom(m));
                assert forall|c: Color| color_present(m, c) implies c == first_piece.color by {
                    let rr = choose|rr: u8| m.contains(
                        Piece::Normal(NormalPiece { domination: rr, color: c }));
                    assert(m.contains(Piece::Normal(NormalPiece { domination: rr, color: c })));
                }
                assert(color_present(m, first_piece.color));
                assert(min_present_color_idx(m) == color_index(first_piece.color));
            }
            // Which ranks the run occupies but no ranked piece already holds.
            let mut seen: Vec<bool> = vec![false; 14];
            let mut i: usize = 0;
            proof {
                lemma_empty_multiset(s.take(0));
            }
            while i < input.len()
                invariant
                    0 <= i <= s.len(),
                    s == input@,
                    m == s.to_multiset(),
                    group_wf(m),
                    seen@.len() == 14,
                    forall|d: u8| 1 <= d <= 13 ==> seen@[d as int] == rank_present(
                        #[trigger] s.take(i as int).to_multiset(), d),
                decreases s.len() - i,
            {
                let ghost pm = s.take(i as int).to_multiset();
                proof {
                    lemma_take_push_multiset(s, i as int);
                }
                match input[i] {
                    Piece::Normal(n) => {
                        proof {
                            crate::common::lemma_index_in_multiset(s, i as int);
                            assert(m.contains(Piece::Normal(n)));
                            crate::common::lemma_insert_normal(pm, n);
                        }
                        seen[n.domination as usize] = true;
                    }
                    Piece::Joker => {
                        proof {
                            crate::common::lemma_insert_joker(pm);
                        }
                    }
                }
                i = i + 1;
            }
            proof {
                assert(s.take(s.len() as int) =~= s);
            }
            let range = cs.available_domination();
            let ghost lo = cs.spec_actual_first();
            let mut avail: Vec<u8> = Vec::new();
            let mut t: usize = 0;
            proof {
                assert forall|v: u8| rank_present(m, v) implies 1 <= v <= 13 by {
                    let c = choose|c: Color| m.contains(
                        Piece::Normal(NormalPiece { domination: v, color: c }));
                    assert(m.contains(Piece::Normal(NormalPiece { domination: v, color: c })));
                }
            }
            while t < range.len()
                invariant
                    0 <= t <= range@.len(),
                    m == input@.to_multiset(),
                    seen@.len() == 14,
                    forall|d: u8| 1 <= d <= 13 ==> seen@[d as int] == rank_present(m, d),
                    forall|v: u8| rank_present(m, v) ==> 1 <= v <= 13,
                    1 <= lo,
                    lo + range@.len() <= 256,
                    forall|k: int| 0 <= k < range@.len() ==> (#[trigger] range@[k]) as int
                        == lo + k,
                    forall|ii: int, jj: int| 0 <= ii < jj < avail@.len() ==> avail@[ii]
                        < avail@[jj],
                    forall|u: int| 0 <= u < avail@.len() ==> ((#[trigger] avail@[u]) as int)
                        < lo + t,
                    forall|v: u8| (#[trigger] avail@.contains(v)) <==> (lo <= v as int
                        && (v as int) < lo + t && !rank_present(m, v)),
                decreases range@.len() - t,
            {
                let ghost old_avail = avail@;
                let v = range[t];
                let keep = v > 13 || !seen[v as usize];
                proof {
                    assert(keep == !rank_present(m, v));
                }
                if keep {
                    avail.push(v);
                    proof {
                        assert(avail@ == old_avail.push(v));
                        assert forall|q: u8| #[trigger] avail@.contains(q) implies (lo <= q as int
                            && (q as int) < lo + t + 1 && !rank_present(m, q)) by {
                            let u = choose|u: int| 0 <= u < avail@.len() && avail@[u] == q;
                            assert(0 <= u < avail@.len() && avail@[u] == q);
                            if u < old_avail.len() {
                                assert(old_avail[u] == q);
                                assert(old_avail.contains(q));
                                assert(lo <= q as int && (q as int) < lo + t);
                                assert(!rank_present(m, q));
                            } else {
                                assert(u == old_avail.len());
                                assert(avail@[u] == v);
                                assert(q == v);
                                assert(v as int == lo + t);
                                assert(!rank_present(m, v));
                            }
                        }
                        assert forall|q: u8| (lo <= q as int && (q as int) < lo + t + 1
                            && !rank_present(m, q)) implies #[trigger] avail@.contains(q) by {
                            if (q as int) < lo + t {
                                assert(old_avail.contains(q));
                                let u = choose|u: int| 0 <= u < old_avail.len() && old_avail[u]
                                    == q;
                                assert(avail@[u] == q);
                            } else {
                                assert(avail@[avail@.len() - 1] == v);
                            }
                        }
                    }
                } else {
                    proof {
                        assert forall|q: u8| #[trigger] avail@.contains(q) implies (lo <= q as int
                            && (q as int) < lo + t + 1 && !rank_present(m, q)) by {}
                        assert forall|q: u8| (lo <= q as int && (q as int) < lo + t + 1
                            && !rank_present(m, q)) implies #[trigger] avail@.contains(q) by {
                            assert(q as int != lo + t);
                        }
                    }
                }
                t = t + 1;
            }
            proof {
                assert(lo == run_start(m));
                assert(range@.len() == cs.spec_actual_last() - lo + 1);
                assert(cs.spec_actual_last() == lo + cs.jokers + cs.items - 1);
                assert(cs.jokers as int == joker_count(m));
                assert(cs.items as int == m.len());
                assert(lo + range@.len() - 1 == run_start(m) + joker_count(m) + m.len() - 1);
                assert forall|v: u8| avail@.contains(v) == (run_start(m) <= v as int
                    && (v as int) <= run_start(m) + joker_count(m) + m.len() - 1
                    && !rank_present(m, v)) by {}
                assert(layout_slots_ok(m, avail@));
            }
            let set = lay_out(&input, avail, false);
            proof {
                assert(canonical_layout(input@, set@, avail@, rank_kind(m)));
            }
            SetOrder { effective_domination, effective_color: first_piece.color, set }
        }
    }
}

/// Number of wildcards strictly before position `i`.
pub open spec fn jokers_before(s: Seq<Piece>, i: int) -> int
    decreases i,
{
    if i <= 0 {
        0
    } else {
        jokers_before(s, i - 1) + if s[i - 1] == Piece::Joker {
            1int
        } else {
            0int
        }
    }
}

/// The tag the layout gives the piece at position `i`: a ranked piece
/// carries its own color position or rank; the u-th wildcard takes the u-th
/// free slot (or an out-of-domain tag when the slots run out).
pub open spec fn scan_tag(s: Seq<Piece>, slots: Seq<u8>, by_color: bool, i: int) -> u8 {
    match s[i] {
        Piece::Normal(n) => if by_color {
            color_index(n.color) as u8
        } else {
            n.domination
        },
        Piece::Joker => if jokers_before(s, i) < slots.len() {
            slots[jokers_before(s, i)]
        } else {
            255
        },
    }
}

/// Every piece paired with its layout tag, in scan order.
pub open spec fn scan_tags(s: Seq<Piece>, slots: Seq<u8>, by_color: bool) -> Seq<(Piece, u8)> {
    Seq::new(s.len(), |i: int| (s[i], scan_tag(s, slots, by_color, i)))
}

/// The free slots a group's wildcards may take, ascending: the unused color
/// positions of a same-rank meld, or the unoccupied ranks of a run's span.
pub open spec fn layout_slots_ok(m: Multiset<Piece>, slots: Seq<u8>) -> bool {
    &&& forall|i: int, j: int| 0 <= i < j < slots.len() ==> slots[i] < slots[j]
    &&& forall|v: u8| slots.contains(v) <==> (if rank_kind(m) {
        v <= 3 && !color_present(m, color_at(v as int))
    } else {
        run_start(m) <= v <= run_start(m) + joker_count(m) + m.len() - 1 && !rank_present(m, v)
    })
}

/// `out` is `src` laid out canonically: the pieces tagged in scan order (the
/// u-th wildcard taking the u-th free slot) and arranged by ascending tag.
pub open spec fn canonical_layout(
    src: Seq<Piece>,
    out: Seq<Piece>,
    slots: Seq<u8>,
    by_color: bool,
) -> bool {
    exists|tagged: Seq<(Piece, u8)>|
        {
            &&& tagged.to_multiset() == scan_tags(src, slots, by_color).to_multiset()
            &&& (forall|i: int, j: int| 0 <= i < j < tagged.len() ==> tagged[i].1 <= tagged[j].1)
            &&& out == firsts(tagged)
        }
}

/// `out` is `src` laid out canonically with the free slots the group's kind
/// dictates: unused color positions for a same-rank meld, unoccupied ranks of
/// the run's span for a run.
pub open spec fn canonicalized(src: Seq<Piece>, out: Seq<Piece>) -> bool {
    exists|slots: Seq<u8>|
        #[trigger] layout_slots_ok(src.to_multiset(), slots) && canonical_layout(
            src, out, slots, rank_kind(src.to_multiset()))
}

/// The group is the canonical layout of some arrangement of its own pieces.
pub open spec fn canonical_group(g: Seq<Piece>) -> bool {
    exists|src: Seq<Piece>|
        #[trigger] canonicalized(src, g) && src.to_multiset() == g.to_multiset()
}

/// The layout tag a ranked piece sorts under: its color position in a
/// same-rank meld, its rank in a run.
pub open spec fn normal_tag(p: Piece, by_color: bool) -> int {
    match p {
        Piece::Normal(n) => if by_color {
            color_index(n.color)
        } else {
            n.domination as int
        },
        Piece::Joker => 0,
    }
}

/// The pieces of a tagged sequence, in order.
pub open spec fn firsts(s: Seq<(Piece, u8)>) -> Seq<Piece> {
    s.map_values(|p: (Piece, u8)| p.0)
}

proof fn lemma_firsts_permutation(a: Seq<(Piece, u8)>, b: Seq<(Piece, u8)>)
    requires
        a.to_multiset() == b.to_multiset(),
    ensures
        firsts(a).to_multiset() == firsts(b).to_multiset(),
{
    lemma_map_values_permutation(a, b, |p: (Piece, u8)| p.0);
    assert(firsts(a) =~= a.map_values(|p: (Piece, u8)| p.0));
    assert(firsts(b) =~= b.map_values(|p: (Piece, u8)| p.0));
}

/// Lays the group's pieces out canonically: each piece is tagged (a ranked
/// piece by its own color position or rank, a wildcard by the next free slot
/// from `avail`) and the group is sorted by tag, ascending. The pieces
/// themselves are kept: only their order changes.
fn lay_out(input: &Vec<Piece>, avail: Vec<u8>, by_color: bool) -> (r: Vec<Piece>)
    ensures
        r@.to_multiset() == input@.to_multiset(),
        forall|i: int, j: int| (0 <= i < j < r@.len()
            && ((#[trigger] r@[i]) matches Piece::Normal(_))
            && ((#[trigger] r@[j]) matches Piece::Normal(_)))
            ==> normal_tag(r@[i], by_color) <= normal_tag(r@[j], by_color),
        canonical_layout(input@, r@, avail@, by_color),
{
    broadcast use vstd::seq_lib::group_to_multiset_ensures, vstd::multiset::group_multiset_axioms;

    let ghost s = input@;
    let ghost slots0 = avail@;
    let ghost full_tags = scan_tags(s, slots0, by_color);
    let mut avail_left = avail;
    let mut tagged: Vec<(Piece, u8)> = Vec::new();
    let mut used: usize = 0;
    let mut i: usize = 0;
    proof {
        assert(tagged@ =~= full_tags.take(0));
        assert(avail_left@ =~= slots0.skip(0));
    }
    while i < input.len()
        invariant
            0 <= i <= s.len(),
            s == input@,
            slots0 == avail@,
            full_tags == scan_tags(s, slots0, by_color),
            used as int == jokers_before(s, i as int),
            used <= i,
            used as int <= slots0.len() ==> avail_left@ =~= slots0.skip(used as int),
            used as int >= slots0.len() ==> avail_left@ =~= Seq::<u8>::empty(),
            tagged@ == full_tags.take(i as int),
        decreases s.len() - i,
    {
        let ghost old_tagged = tagged@;
        proof {
            assert(jokers_before(s, i as int + 1) == jokers_before(s, i as int) + (
            if s[i as int] == Piece::Joker {
                1int
            } else {
                0int
            }));
            assert(full_tags.take(i as int + 1) =~= full_tags.take(i as int).push(
                full_tags[i as int]));
        }
        match input[i] {
            Piece::Normal(n) => {
                let tag = if by_color {
                    n.color.index()
                } else {
                    n.domination
                };
                proof {
                    assert(full_tags[i as int] == (s[i as int], tag));
                }
                tagged.push((Piece::Normal(n), tag));
            }
            Piece::Joker => {
                let tag = if avail_left.len() > 0 {
                    let ghost old_avail = avail_left@;
                    let v = avail_left.remove(0);
                    proof {
                        assert((used as int) < slots0.len());
                        assert(v == slots0[used as int]);
                        assert(old_avail.remove(0) =~= slots0.skip(used as int + 1));
                    }
                    v
                } else {
                    // Unreachable for melds the solver builds: the free slots
                    // always cover the wildcards. Tagged past the domain so a
                    // spare wildcard sorts last.
                    255
                };
                proof {
                    assert(full_tags[i as int] == (s[i as int], tag));
                }
                tagged.push((Piece::Joker, tag));
                used = used + 1;
            }
        }
        i = i + 1;
    }
    proof {
        assert(full_tags.take(s.len() as int) =~= full_tags);
        assert(tagged@ == full_tags);
        // Tags paired to ranked pieces are their own tags.
        assert forall|t: int| (0 <= t < tagged@.len() && ((#[trigger] tagged@[t]).0 matches
            Piece::Normal(_))) implies tagged@[t].1 as int == normal_tag(tagged@[t].0, by_color)
            by {
            assert(tagged@[t] == (s[t], scan_tag(s, slots0, by_color, t)));
        }
        // The pieces, in scan order, are exactly the input.
        assert(firsts(tagged@) =~= s);
    }
    let sorted = sort_tagged(tagged);
    let ghost tagged_view = sorted@;
    let mut set: Vec<Piece> = Vec::new();
    let mut t: usize = 0;
    while t < sorted.len()
        invariant
            0 <= t <= tagged_view.len(),
            tagged_view == sorted@,
            set@ =~= firsts(tagged_view.take(t as int)),
        decreases tagged_view.len() - t,
    {
        let pair = sorted[t];
        set.push(pair.0);
        proof {
            assert(tagged_view.take(t as int + 1) =~= tagged_view.take(t as int).push(
                tagged_view[t as int]));
            assert(set@ =~= firsts(tagged_view.take(t as int + 1)));
        }
        t = t + 1;
    }
    proof {
        assert(tagged_view.take(tagged_view.len() as int) =~= tagged_view);
        assert(set@ == firsts(sorted@));
        lemma_firsts_permutation(sorted@, tagged@);
        // Each sorted pair is one of the tagged pairs, so ranked pieces still
        // carry their own tag; ascending tags order the ranked pieces.
        assert forall|t: int| (0 <= t < sorted@.len() && ((#[trigger] sorted@[t]).0 matches
            Piece::Normal(_))) implies sorted@[t].1 as int == normal_tag(sorted@[t].0, by_color)
            by {
            crate::common::lemma_index_in_multiset(sorted@, t);
            assert(tagged@.to_multiset().count(sorted@[t]) > 0);
            assert(tagged@.contains(sorted@[t]));
            let u = choose|u: int| 0 <= u < tagged@.len() && tagged@[u] == sorted@[t];
        }
        assert forall|i: int, j: int| (0 <= i < j < set@.len()
            && ((#[trigger] set@[i]) matches Piece::Normal(_))
            && ((#[trigger] set@[j]) matches Piece::Normal(_)))
            implies normal_tag(set@[i], by_color) <= normal_tag(set@[j], by_color) by {
            assert(set@[i] == sorted@[i].0);
            assert(set@[j] == sorted@[j].0);
            assert(sorted@[i].1 <= sorted@[j].1);
        }
        assert(sorted@.to_multiset() == scan_tags(input@, avail@, by_color).to_multiset());
        assert(canonical_layout(input@, set@, avail@, by_color));
    }
    set
}

/// The groups carried by a sequence of prepared groups, in order.
pub open spec fn sets_of(os: Seq<SetOrder>) -> Seq<Vec<Piece>> {
    os.map_values(|o: SetOrder| o.set)
}

proof fn lemma_sets_of_permutation(a: Seq<SetOrder>, b: Seq<SetOrder>)
    requires
        a.to_multiset() == b.to_multiset(),
    ensures
        sets_of(a).to_multiset() == sets_of(b).to_multiset(),
{
    lemma_map_values_permutation(a, b, |o: SetOrder| o.set);
    assert(sets_of(a) =~= a.map_values(|o: SetOrder| o.set));
    assert(sets_of(b) =~= b.map_values(|o: SetOrder| o.set));
}

/// `out` holds the canonical layouts of `sets`' groups, rearranged through
/// the positions `pos`: group `i` of the output canonicalizes the source
/// group at `pos[i]`, and groups of equal canonical key keep the order their
/// source groups arrived in.
pub open spec fn stable_canonical(
    sets: Seq<Vec<Piece>>,
    out: Seq<Vec<Piece>>,
    pos: Seq<int>,
) -> bool {
    &&& pos.len() == out.len()
    &&& forall|i: int| 0 <= i < pos.len() ==> 0 <= #[trigger] pos[i] < sets.len()
        && out[i]@.to_multiset() == sets[pos[i]]@.to_multiset() && canonicalized(
        sets[pos[i]]@, out[i]@)
    &&& forall|i: int, j: int| 0 <= i < j < pos.len() ==> ((canon_dom(out[i]@.to_multiset())
        == canon_dom(out[j]@.to_multiset()) && canon_color_idx(out[i]@.to_multiset())
        == canon_color_idx(out[j]@.to_multiset())) ==> pos[i] < pos[j])
}

/// Canonicalizes a found partition: lays each group out canonically and
/// arranges the groups by their canonical key, ascending. No piece is lost,
/// duplicated or invented, and every output group is still a valid meld.
pub fn sort_sets(sets: Vec<Vec<Piece>>) -> (r: Vec<Vec<Piece>>)
    requires
        forall|i: int| 0 <= i < sets@.len() ==> group_wf((#[trigger] sets@[i])@.to_multiset()),
        forall|i: int| 0 <= i < sets@.len() ==> valid_group((#[trigger] sets@[i])@.to_multiset()),
    ensures
        r@.len() == sets@.len(),
        flat_seq(r@).to_multiset() == flat_seq(sets@).to_multiset(),
        forall|i: int| 0 <= i < r@.len() ==> valid_group((#[trigger] r@[i])@.to_multiset()),
        forall|i: int| 0 <= i < r@.len() ==> exists|t: int| 0 <= t < sets@.len()
            && (#[trigger] r@[i])@.to_multiset() == sets@[t]@.to_multiset() && canonicalized(
            sets@[t]@, r@[i]@),
        exists|pos: Seq<int>| #[trigger] stable_canonical(sets@, r@, pos),
        forall|i: int, j: int| 0 <= i < j < r@.len() ==> key_le(
            canon_dom(r@[i]@.to_multiset()),
            canon_color_idx(r@[i]@.to_multiset()),
            canon_dom(r@[j]@.to_multiset()),
            canon_color_idx(r@[j]@.to_multiset()),
        ),
{
    broadcast use vstd::seq_lib::group_to_multiset_ensures, vstd::multiset::group_multiset_axioms;

    let ghost orig = sets@;
    let mut remaining = sets;
    let mut orders: Vec<SetOrder> = Vec::new();
    while remaining.len() > 0
        invariant
            orders@.len() + remaining@.len() == orig.len(),
            remaining@ =~= orig.skip(orders@.len() as int),
            forall|i: int| 0 <= i < orig.len() ==> group_wf((#[trigger] orig[i])@.to_multiset()),
            forall|i: int| 0 <= i < orig.len() ==> valid_group((#[trigger] orig[i])@.to_multiset()),
            forall|t: int| 0 <= t < orders@.len() ==> (#[trigger] orders@[t]).set@.to_multiset()
                == orig[t]@.to_multiset(),
            forall|t: int| 0 <= t < orders@.len() ==> (#[trigger] orders@[t]).effective_domination
                as int == canon_dom(orig[t]@.to_multiset()),
            forall|t: int| 0 <= t < orders@.len() ==> color_index(
                (#[trigger] orders@[t]).effective_color) == canon_color_idx(
                orig[t]@.to_multiset()),
            forall|t: int| 0 <= t < orders@.len() ==> canonicalized(
                orig[t]@, (#[trigger] orders@[t]).set@),
        decreases remaining@.len(),
    {
        let ghost k = orders@.len() as int;
        proof {
            assert(remaining@[0] == orig[k]);
        }
        let group = remaining.remove(0);
        let order = SetOrder::new(group);
        orders.push(order);
        proof {
            assert(remaining@ =~= orig.skip(k + 1));
        }
    }
    proof {
        assert(orders@.len() == orig.len());
    }
    let ghost ov = orders@;
    let sorted = sort_orders(orders);
    let ghost sv = sorted@;
    let mut remaining2 = sorted;
    let mut out: Vec<Vec<Piece>> = Vec::new();
    while remaining2.len() > 0
        invariant
            out@.len() + remaining2@.len() == sv.len(),
            remaining2@ =~= sv.skip(out@.len() as int),
            forall|t: int| 0 <= t < out@.len() ==> (#[trigger] out@[t]) == sv[t].set,
        decreases remaining2@.len(),
    {
        let ghost k = out@.len() as int;
        proof {
            assert(remaining2@[0] == sv[k]);
        }
        let order = remaining2.remove(0);
        let SetOrder { set, .. } = order;
        out.push(set);
        proof {
            assert(remaining2@ =~= sv.skip(k + 1));
        }
    }
    proof {
        // Every prepared group in the sorted arrangement is one of the
        // prepared groups, so it still carries a valid meld and its key.
        assert forall|i: int| 0 <= i < sv.len() implies valid_group(
            (#[trigger] sv[i]).set@.to_multiset()) && sv[i].effective_domination as int
            == canon_dom(sv[i].set@.to_multiset()) && color_index(sv[i].effective_color)
            == canon_color_idx(sv[i].set@.to_multiset()) by {
            crate::common::lemma_index_in_multiset(sv, i);
            assert(ov.to_multiset().count(sv[i]) > 0);
            assert(ov.contains(sv[i]));
            let t = choose|t: int| 0 <= t < ov.len() && ov[t] == sv[i];
        }
        assert(out@ =~= sets_of(sv));
        lemma_sets_of_permutation(sv, ov);
        assert(sets_of(ov).len() == orig.len());
        assert forall|t: int| 0 <= t < orig.len() implies (#[trigger] sets_of(ov)[t])@.to_multiset()
            == orig[t]@.to_multiset() by {
            assert(sets_of(ov)[t] == ov[t].set);
        }
        lemma_flat_seq_pointwise(sets_of(ov), orig);
        lemma_flat_seq_permutation(sets_of(sv), sets_of(ov));
        assert forall|i: int| 0 <= i < out@.len() implies valid_group(
            (#[trigger] out@[i])@.to_multiset()) by {
            assert(out@[i] == sv[i].set);
        }
        assert forall|i: int| 0 <= i < out@.len() implies exists|t: int| 0 <= t < orig.len()
            && (#[trigger] out@[i])@.to_multiset() == orig[t]@.to_multiset() && canonicalized(
            orig[t]@, out@[i]@) by {
            assert(out@[i] == sv[i].set);
            crate::common::lemma_index_in_multiset(sv, i);
            assert(ov.to_multiset().count(sv[i]) > 0);
            assert(ov.contains(sv[i]));
            let t = choose|t: int| 0 <= t < ov.len() && ov[t] == sv[i];
            assert(ov[t].set@.to_multiset() == orig[t]@.to_multiset());
            assert(canonicalized(orig[t]@, ov[t].set@));
        }
        assert forall|i: int, j: int| 0 <= i < j < out@.len() implies key_le(
            canon_dom(out@[i]@.to_multiset()),
            canon_color_idx(out@[i]@.to_multiset()),
            canon_dom(out@[j]@.to_multiset()),
            canon_color_idx(out@[j]@.to_multiset()),
        ) by {
            assert(order_le(sv[i], sv[j]));
            assert(out@[i] == sv[i].set);
            assert(out@[j] == sv[j].set);
        }
        // The stable positions of the group sort carry over: groups of equal
        // canonical key keep the order their source groups arrived in.
        let pos0 = choose|p: Seq<int>| #[trigger] stable_arrangement(ov, sv, p);
        assert forall|i: int| 0 <= i < pos0.len() implies 0 <= #[trigger] pos0[i] < orig.len()
            && out@[i]@.to_multiset() == orig[pos0[i]]@.to_multiset() && canonicalized(
            orig[pos0[i]]@, out@[i]@) by {
            assert(sv[i] == ov[pos0[i]]);
            assert(out@[i] == sv[i].set);
            assert(canonicalized(orig[pos0[i]]@, ov[pos0[i]].set@));
        }
        assert forall|i: int, j: int| 0 <= i < j < pos0.len() implies ((canon_dom(
            out@[i]@.to_multiset()) == canon_dom(out@[j]@.to_multiset()) && canon_color_idx(
            out@[i]@.to_multiset()) == canon_color_idx(out@[j]@.to_multiset())) ==> pos0[i]
            < pos0[j]) by {
            assert(out@[i] == sv[i].set);
            assert(out@[j] == sv[j].set);
            if canon_dom(out@[i]@.to_multiset()) == canon_dom(out@[j]@.to_multiset())
                && canon_color_idx(out@[i]@.to_multiset()) == canon_color_idx(
                out@[j]@.to_multiset()) {
                assert(sv[i].effective_domination == sv[j].effective_domination);
                assert(color_index(sv[i].effective_color) == color_index(sv[j].effective_color));
                assert(order_le(sv[j], sv[i]));
            }
        }
        assert(stable_canonical(orig, out@, pos0));
    }
    out
}

/// A run never starts below rank 1: when the leftover wildcards would push
/// the start under the low end of the domain, the start clamps to 1 (and the
/// run extends upward instead, as `available_domination` lays it out).
pub proof fn lemma_run_start_clamped(m: Multiset<Piece>)
    requires
        has_normal(m),
        group_wf(m),
    ensures
        run_start(m) >= 1,
{
    let n = choose|n: NormalPiece| m.contains(Piece::Normal(n));
    lemma_contains_normal_present(m, n);
    crate::common::lemma_min_rank_le(m, n.domination);
}

} // verus!
