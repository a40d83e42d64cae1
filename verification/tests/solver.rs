use tilemeld::solve_tile::{solve_board, tile_target, GroupCounts};
use tilemeld::validate::valid_set;
use tilemeld::{Color, Piece};

fn counts(threes: usize, fours: usize, fives: usize) -> GroupCounts {
    GroupCounts {
        threes,
        fours,
        fives,
    }
}

#[test]
fn allow_case_with_2_groups() {
    assert_eq!(
        solve_board(vec!(
            Piece::normal(1, Color::Black),
            Piece::normal(1, Color::Red),
            Piece::normal(1, Color::Blue),
            Piece::normal(2, Color::Black),
            Piece::Joker,
            Piece::normal(2, Color::Blue)
        )),
        Some(vec!(
            vec!(
                Piece::normal(1, Color::Black),
                Piece::normal(1, Color::Blue),
                Piece::normal(1, Color::Red),
            ),
            vec!(
                Piece::normal(2, Color::Black),
                Piece::normal(2, Color::Blue),
                Piece::Joker,
            )
        ))
    );
}

#[test]
fn test_1_option() {
    assert_eq!(tile_target(5), vec!(counts(0, 0, 1)));

    assert_eq!(tile_target(6), vec!(counts(2, 0, 0)));

    assert_eq!(
        tile_target(20),
        vec!(
            counts(4, 2, 0),
            counts(0, 5, 0),
            counts(5, 0, 1),
            counts(1, 3, 1),
            counts(2, 1, 2),
            counts(0, 0, 4)
        )
    );
}

#[test]
fn tile_full_board() {
    let options = tile_target(98);
    assert_eq!(options.len(), 90);
}

#[test]
fn reject_boards_below_group_size() {
    assert_eq!(solve_board(vec!(Piece::normal(7, Color::Red))), None);
    assert_eq!(
        solve_board(vec!(
            Piece::normal(7, Color::Red),
            Piece::normal(7, Color::Blue)
        )),
        None
    );
}

#[test]
fn empty_board_is_already_partitioned() {
    // Zero groups cover zero pieces.
    assert_eq!(solve_board(vec!()), Some(vec!()));
}

#[test]
fn equal_keys_keep_both_groups() {
    // Two identical melds sort under the same key; both come back.
    let group = vec![
        Piece::normal(1, Color::Black),
        Piece::normal(1, Color::Blue),
        Piece::normal(1, Color::Red),
    ];
    assert_eq!(
        solve_board(vec!(
            Piece::normal(1, Color::Black),
            Piece::normal(1, Color::Blue),
            Piece::normal(1, Color::Red),
            Piece::normal(1, Color::Black),
            Piece::normal(1, Color::Blue),
            Piece::normal(1, Color::Red),
        )),
        Some(vec!(group.clone(), group))
    );
}

#[test]
fn reject_unbridgeable_gap() {
    // A gap of four ranks with only two wildcards has no partition.
    assert_eq!(
        solve_board(vec!(
            Piece::normal(1, Color::Orange),
            Piece::Joker,
            Piece::Joker,
            Piece::normal(6, Color::Orange),
        )),
        None
    );
}

#[test]
fn single_rank_group_sorted_by_color() {
    assert_eq!(
        solve_board(vec!(
            Piece::normal(5, Color::Red),
            Piece::normal(5, Color::Black),
            Piece::normal(5, Color::Blue),
        )),
        Some(vec!(vec!(
            Piece::normal(5, Color::Black),
            Piece::normal(5, Color::Blue),
            Piece::normal(5, Color::Red),
        )))
    );
}

#[test]
fn deterministic_across_input_order() {
    let a = solve_board(vec!(
        Piece::normal(1, Color::Black),
        Piece::normal(1, Color::Red),
        Piece::normal(1, Color::Blue),
        Piece::normal(2, Color::Black),
        Piece::Joker,
        Piece::normal(2, Color::Blue),
    ));
    let b = solve_board(vec!(
        Piece::normal(2, Color::Blue),
        Piece::Joker,
        Piece::normal(2, Color::Black),
        Piece::normal(1, Color::Blue),
        Piece::normal(1, Color::Red),
        Piece::normal(1, Color::Black),
    ));
    let c = solve_board(vec!(
        Piece::normal(2, Color::Blue),
        Piece::Joker,
        Piece::normal(2, Color::Black),
        Piece::normal(1, Color::Blue),
        Piece::normal(1, Color::Red),
        Piece::normal(1, Color::Black),
    ));
    assert!(a.is_some());
    assert_eq!(a, b);
    assert_eq!(b, c);
}

/// Counts every piece of a board: wildcards, and each (rank, color) pair.
fn tally(pieces: &[Piece]) -> (usize, [[usize; 4]; 14]) {
    let mut jokers = 0;
    let mut ranked = [[0usize; 4]; 14];
    for piece in pieces {
        match piece {
            Piece::Joker => jokers += 1,
            Piece::Normal(n) => {
                let color = match n.color {
                    Color::Black => 0,
                    Color::Blue => 1,
                    Color::Red => 2,
                    Color::Orange => 3,
                };
                ranked[n.domination as usize][color] += 1;
            }
        }
    }
    (jokers, ranked)
}

#[test]
fn full_deck_partitions_completely() {
    // A full deck: two copies of every ranked piece plus two wildcards,
    // 106 pieces in all, laid out so a partition exists.
    let colors = [Color::Black, Color::Blue, Color::Red, Color::Orange];
    let mut deck = Vec::new();
    for color in colors {
        for _copy in 0..2 {
            for start in [1u8, 4, 7, 10] {
                deck.push(Piece::normal(start, color));
                deck.push(Piece::normal(start + 1, color));
                deck.push(Piece::normal(start + 2, color));
            }
        }
    }
    deck.push(Piece::normal(13, Color::Black));
    deck.push(Piece::normal(13, Color::Blue));
    deck.push(Piece::normal(13, Color::Red));
    deck.push(Piece::normal(13, Color::Orange));
    deck.push(Piece::Joker);
    deck.push(Piece::Joker);
    deck.push(Piece::normal(13, Color::Black));
    deck.push(Piece::normal(13, Color::Blue));
    deck.push(Piece::normal(13, Color::Red));
    deck.push(Piece::normal(13, Color::Orange));
    assert_eq!(deck.len(), 106);

    let solution = solve_board(deck.clone()).expect("a full deck partitions");
    let mut flattened = Vec::new();
    for group in &solution {
        assert!(group.len() >= 3 && group.len() <= 5);
        assert!(valid_set(group));
        flattened.extend_from_slice(group);
    }
    assert_eq!(flattened.len(), 106);
    assert_eq!(tally(&flattened), tally(&deck));
}
