use vstd::prelude::*;

verus! {

/// One of the four suits a ranked piece can carry, in their fixed total
/// order: Black < Blue < Red < Orange.
#[derive(Debug, PartialEq, Eq, Copy, Clone, Structural)]
pub enum Color {
    Black,
    Blue,
    Red,
    Orange,
}

/// Position of a color in the fixed suit order.
pub open spec fn color_index(c: Color) -> int {
    match c {
        Color::Black => 0,
        Color::Blue => 1,
        Color::Red => 2,
        Color::Orange => 3,
    }
}

/// The color sitting at a given position of the fixed suit order.
pub open spec fn color_at(i: int) -> Color {
    if i == 0 {
        Color::Black
    } else if i == 1 {
        Color::Blue
    } else if i == 2 {
        Color::Red
    } else {
        Color::Orange
    }
}

impl Color {
    /// All four colors, in the fixed suit order.
    pub fn iterator() -> (r: Vec<Color>)
        ensures
            r@ =~= seq![Color::Black, Color::Blue, Color::Red, Color::Orange],
    {
        let mut v: Vec<Color> = Vec::new();
        v.push(Color::Black);
        v.push(Color::Blue);
        v.push(Color::Red);
        v.push(Color::Orange);
        v
    }

    /// Position of this color in the fixed suit order.
    pub fn index(self) -> (r: u8)
        ensures
            r as int == color_index(self),
    {
        match self {
            Color::Black => 0,
            Color::Blue => 1,
            Color::Red => 2,
            Color::Orange => 3,
        }
    }
}

/// A ranked piece: a rank (called domination) between 1 and 13, and a suit.
#[derive(Debug, PartialEq, Eq, Copy, Clone, Structural)]
pub struct NormalPiece {
    pub domination: u8,
    pub color: Color,
}

/// A game piece: either a wildcard (joker) or a ranked piece.
#[derive(Debug, PartialEq, Eq, Copy, Clone, Structural)]
pub enum Piece {
    Joker,
    Normal(NormalPiece),
}

/// A piece is well formed when any rank it carries lies in the domain 1..=13.
pub open spec fn piece_wf(p: Piece) -> bool {
    match p {
        Piece::Joker => true,
        Piece::Normal(n) => 1 <= n.domination <= 13,
    }
}

impl Piece {
    /// Builds a ranked piece; the rank must lie in the playable domain.
    pub fn normal(domination: u8, color: Color) -> (r: Self)
        requires
            1 <= domination <= 13,
        ensures
            r == Piece::Normal(NormalPiece { domination, color }),
            piece_wf(r),
    {
        Piece::Normal(NormalPiece { domination, color })
    }
}

} // verus!
