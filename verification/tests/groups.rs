use tilemeld::common::ConsecutiveSet;
use tilemeld::sort_set::{sort_sets, SetOrder};
use tilemeld::validate::valid_set;
use tilemeld::{Color, Piece};

#[test]
fn generate_correct_available_domination() {
    assert_eq!(
        ConsecutiveSet {
            holes: 1,
            jokers: 2,
            first: 2,
            items: 2
        }
        .available_domination(),
        vec![1, 2, 3, 4]
    );
}

#[test]
fn reject_small_sets() {
    assert_eq!(valid_set(&vec!()), false);
}

#[test]
fn allow_consecutive() {
    // No jokers
    assert_eq!(
        valid_set(&vec!(
            Piece::normal(1, Color::Red),
            Piece::normal(2, Color::Red),
            Piece::normal(3, Color::Red),
        )),
        true
    );

    // Use jokers to fill single hole
    assert_eq!(
        valid_set(&vec!(
            Piece::normal(1, Color::Black),
            Piece::Joker,
            Piece::Joker,
            Piece::normal(4, Color::Black),
        )),
        true
    );

    // Use jokers to fill multiple holes
    assert_eq!(
        valid_set(&vec!(
            Piece::normal(1, Color::Blue),
            Piece::Joker,
            Piece::normal(3, Color::Blue),
            Piece::Joker,
            Piece::normal(5, Color::Blue),
        )),
        true
    );

    // Reject set with hole too large for the amount of jokers
    assert_eq!(
        valid_set(&vec!(
            Piece::normal(1, Color::Orange),
            Piece::Joker,
            Piece::Joker,
            Piece::normal(6, Color::Orange),
        )),
        false
    );

    // Allow jokers at the start or end of a consecutive set
    assert_eq!(
        valid_set(&vec!(
            Piece::normal(1, Color::Red),
            Piece::Joker,
            Piece::Joker,
        )),
        true
    );

    // Reject consecutive set of different colors
    assert_eq!(
        valid_set(&vec!(
            Piece::normal(1, Color::Black),
            Piece::Joker,
            Piece::normal(3, Color::Blue),
        )),
        false
    );
}

#[test]
fn sort_same_domination_set() {
    assert_eq!(
        SetOrder::new(vec!(
            Piece::normal(1, Color::Red),
            Piece::normal(1, Color::Orange),
            Piece::normal(1, Color::Black),
            Piece::normal(1, Color::Blue),
        )),
        SetOrder {
            effective_domination: 1,
            effective_color: Color::Black,
            set: vec!(
                Piece::normal(1, Color::Black),
                Piece::normal(1, Color::Blue),
                Piece::normal(1, Color::Red),
                Piece::normal(1, Color::Orange),
            ),
        }
    );

    assert_eq!(
        SetOrder::new(vec!(
            Piece::normal(1, Color::Orange),
            Piece::normal(1, Color::Blue),
            Piece::Joker,
            Piece::Joker,
        )),
        SetOrder {
            effective_domination: 1,
            effective_color: Color::Black,
            set: vec!(
                Piece::Joker,
                Piece::normal(1, Color::Blue),
                Piece::Joker,
                Piece::normal(1, Color::Orange),
            ),
        }
    );

    assert_eq!(
        SetOrder::new(vec!(
            Piece::normal(1, Color::Red),
            Piece::Joker,
            Piece::normal(1, Color::Black),
            Piece::Joker,
        )),
        SetOrder {
            effective_domination: 1,
            effective_color: Color::Black,
            set: vec!(
                Piece::normal(1, Color::Black),
                Piece::Joker,
                Piece::normal(1, Color::Red),
                Piece::Joker,
            ),
        }
    );
}

#[test]
fn sort_same_color_set() {
    assert_eq!(
        SetOrder::new(vec!(
            Piece::normal(3, Color::Red),
            Piece::normal(2, Color::Red),
            Piece::normal(1, Color::Red),
        )),
        SetOrder {
            effective_domination: 1,
            effective_color: Color::Red,
            set: vec!(
                Piece::normal(1, Color::Red),
                Piece::normal(2, Color::Red),
                Piece::normal(3, Color::Red),
            ),
        }
    );

    assert_eq!(
        SetOrder::new(vec!(
            Piece::normal(3, Color::Red),
            Piece::normal(2, Color::Red),
            Piece::Joker,
        )),
        SetOrder {
            effective_domination: 1,
            effective_color: Color::Red,
            set: vec!(
                Piece::Joker,
                Piece::normal(2, Color::Red),
                Piece::normal(3, Color::Red),
            ),
        }
    );

    assert_eq!(
        SetOrder::new(vec!(
            Piece::normal(3, Color::Red),
            Piece::Joker,
            Piece::normal(1, Color::Red),
        )),
        SetOrder {
            effective_domination: 1,
            effective_color: Color::Red,
            set: vec!(
                Piece::normal(1, Color::Red),
                Piece::Joker,
                Piece::normal(3, Color::Red),
            ),
        }
    );

    assert_eq!(
        SetOrder::new(vec!(
            Piece::normal(3, Color::Red),
            Piece::normal(2, Color::Red),
            Piece::normal(1, Color::Red),
            Piece::normal(4, Color::Red),
            Piece::normal(7, Color::Red),
            Piece::normal(11, Color::Red),
            Piece::normal(8, Color::Red),
            Piece::normal(6, Color::Red),
            Piece::normal(12, Color::Red),
            Piece::normal(5, Color::Red),
            Piece::normal(10, Color::Red),
            Piece::normal(9, Color::Red),
            Piece::Joker
        )),
        SetOrder {
            effective_domination: 1,
            effective_color: Color::Red,
            set: vec!(
                Piece::normal(1, Color::Red),
                Piece::normal(2, Color::Red),
                Piece::normal(3, Color::Red),
                Piece::normal(4, Color::Red),
                Piece::normal(5, Color::Red),
                Piece::normal(6, Color::Red),
                Piece::normal(7, Color::Red),
                Piece::normal(8, Color::Red),
                Piece::normal(9, Color::Red),
                Piece::normal(10, Color::Red),
                Piece::normal(11, Color::Red),
                Piece::normal(12, Color::Red),
                Piece::Joker
            ),
        }
    );

    assert_eq!(
        SetOrder::new(vec!(
            Piece::normal(13, Color::Red),
            Piece::Joker,
            Piece::normal(11, Color::Red),
            Piece::Joker,
        )),
        SetOrder {
            effective_domination: 10,
            effective_color: Color::Red,
            set: vec!(
                Piece::Joker,
                Piece::normal(11, Color::Red),
                Piece::Joker,
                Piece::normal(13, Color::Red),
            ),
        }
    );
}

#[test]
fn test_sort_sets() {
    assert_eq!(
        sort_sets(vec!(
            vec!(
                Piece::normal(3, Color::Red),
                Piece::normal(2, Color::Red),
                Piece::normal(1, Color::Red),
            ),
            vec!(
                Piece::normal(3, Color::Black),
                Piece::normal(2, Color::Black),
                Piece::normal(1, Color::Black),
            ),
            vec!(
                Piece::normal(4, Color::Black),
                Piece::normal(3, Color::Black),
                Piece::Joker,
            )
        )),
        vec!(
            vec!(
                Piece::normal(1, Color::Black),
                Piece::normal(2, Color::Black),
                Piece::normal(3, Color::Black),
            ),
            vec!(
                Piece::normal(1, Color::Red),
                Piece::normal(2, Color::Red),
                Piece::normal(3, Color::Red),
            ),
            vec!(
                Piece::Joker,
                Piece::normal(3, Color::Black),
                Piece::normal(4, Color::Black),
            )
        )
    )
}

#[test]
fn clamp_run_start_at_one() {
    // A run asking for ranks below 1 through its wildcards starts at 1 and
    // extends upward instead of occupying ranks 0 and -1.
    let cs = ConsecutiveSet::new(&vec![
        Piece::normal(1, Color::Red),
        Piece::Joker,
        Piece::Joker,
    ])
    .unwrap();
    assert!(cs.is_valid());
    assert_eq!(cs.actual_first(), 1);
    assert_eq!(cs.available_domination(), vec![1, 2, 3, 4, 5]);

    // The same clamp through canonicalization: both wildcards of
    // {2 Red, 3 Red, wildcard, wildcard} cannot sit below rank 1, so the run
    // starts at 1 and the second wildcard extends it to rank 4.
    let order = SetOrder::new(vec![
        Piece::normal(2, Color::Red),
        Piece::normal(3, Color::Red),
        Piece::Joker,
        Piece::Joker,
    ]);
    assert_eq!(order.effective_domination, 1);
    assert_eq!(order.effective_color, Color::Red);
    assert_eq!(
        order.set,
        vec![
            Piece::Joker,
            Piece::normal(2, Color::Red),
            Piece::normal(3, Color::Red),
            Piece::Joker,
        ]
    );
}

#[test]
fn color_order_is_fixed() {
    assert_eq!(
        Color::iterator(),
        vec![Color::Black, Color::Blue, Color::Red, Color::Orange]
    );
}
