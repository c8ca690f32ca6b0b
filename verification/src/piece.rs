//! Piece types, colors and pieces, with their FEN letters.

use vstd::prelude::*;

verus! {

/// What a piece is: pawn, bishop, knight, rook, queen or king.
#[allow(non_camel_case_types)]
#[derive(PartialEq, Eq, Structural, Debug, Copy, Clone)]
pub enum Type {
    PAWN,
    BISHOP,
    KNIGHT,
    ROOK,
    QUEEN,
    KING,
}

impl Type {
    /// The lower-case letter of the type.
    pub open spec fn letter(self) -> char {
        match self {
            Type::PAWN => 'p',
            Type::BISHOP => 'b',
            Type::KNIGHT => 'n',
            Type::ROOK => 'r',
            Type::QUEEN => 'q',
            Type::KING => 'k',
        }
    }

    /// The type that a lower-case letter stands for, if any.
    pub open spec fn of_letter(c: char) -> Option<Type> {
        if c == 'p' {
            Some(Type::PAWN)
        } else if c == 'b' {
            Some(Type::BISHOP)
        } else if c == 'n' {
            Some(Type::KNIGHT)
        } else if c == 'r' {
            Some(Type::ROOK)
        } else if c == 'q' {
            Some(Type::QUEEN)
        } else if c == 'k' {
            Some(Type::KING)
        } else {
            None
        }
    }

    /// The position of the type in the order pawn, bishop, knight, rook,
    /// queen, king.
    pub open spec fn ordinal(self) -> int {
        match self {
            Type::PAWN => 0,
            Type::BISHOP => 1,
            Type::KNIGHT => 2,
            Type::ROOK => 3,
            Type::QUEEN => 4,
            Type::KING => 5,
        }
    }

    pub fn to_fen(&self) -> (c: char)
        ensures
            c == self.letter(),
    {
        match self {
            Type::PAWN => 'p',
            Type::BISHOP => 'b',
            Type::KNIGHT => 'n',
            Type::ROOK => 'r',
            Type::QUEEN => 'q',
            Type::KING => 'k',
        }
    }

    pub fn from_fen(c: char) -> (t: Option<Type>)
        ensures
            t == Type::of_letter(c),
    {
        if c == 'p' {
            Some(Type::PAWN)
        } else if c == 'b' {
            Some(Type::BISHOP)
        } else if c == 'n' {
            Some(Type::KNIGHT)
        } else if c == 'r' {
            Some(Type::ROOK)
        } else if c == 'q' {
            Some(Type::QUEEN)
        } else if c == 'k' {
            Some(Type::KING)
        } else {
            None
        }
    }

    pub fn index(&self) -> (i: usize)
        ensures
            i == self.ordinal(),
            i < 6,
    {
        match self {
            Type::PAWN => 0,
            Type::BISHOP => 1,
            Type::KNIGHT => 2,
            Type::ROOK => 3,
            Type::QUEEN => 4,
            Type::KING => 5,
        }
    }
}

/// The side that a piece belongs to.
#[allow(non_camel_case_types)]
#[derive(PartialEq, Eq, Structural, Debug, Copy, Clone)]
pub enum Color {
    WHITE,
    BLACK,
}

impl Color {
    pub open spec fn letter(self) -> char {
        match self {
            Color::WHITE => 'w',
            Color::BLACK => 'b',
        }
    }

    pub open spec fn of_letter(c: char) -> Option<Color> {
        if c == 'w' {
            Some(Color::WHITE)
        } else if c == 'b' {
            Some(Color::BLACK)
        } else {
            None
        }
    }

    /// 0 for White, 1 for Black.
    pub open spec fn ordinal(self) -> int {
        match self {
            Color::WHITE => 0,
            Color::BLACK => 1,
        }
    }

    /// The other side.
    pub open spec fn other(self) -> Color {
        match self {
            Color::WHITE => Color::BLACK,
            Color::BLACK => Color::WHITE,
        }
    }

    pub fn to_fen(&self) -> (c: char)
        ensures
            c == self.letter(),
    {
        match self {
            Color::WHITE => 'w',
            Color::BLACK => 'b',
        }
    }

    pub fn from_fen(c: char) -> (r: Option<Color>)
        ensures
            r == Color::of_letter(c),
    {
        if c == 'w' {
            Some(Color::WHITE)
        } else if c == 'b' {
            Some(Color::BLACK)
        } else {
            None
        }
    }

    pub fn flip(&self) -> (c: Color)
        ensures
            c == self.other(),
    {
        match self {
            Color::WHITE => Color::BLACK,
            Color::BLACK => Color::WHITE,
        }
    }

    pub fn index(&self) -> (i: usize)
        ensures
            i == self.ordinal(),
            i < 2,
    {
        match self {
            Color::WHITE => 0,
            Color::BLACK => 1,
        }
    }
}

/// A piece: a type and the side that owns it.
#[derive(PartialEq, Eq, Structural, Debug, Copy, Clone)]
pub struct Piece {
    pub ptype: Type,
    pub color: Color,
}

impl Piece {
    /// The FEN letter of the piece: upper case for White, lower case for
    /// Black.
    pub open spec fn letter(self) -> char {
        match self.color {
            Color::BLACK => self.ptype.letter(),
            Color::WHITE => match self.ptype {
                Type::PAWN => 'P',
                Type::BISHOP => 'B',
                Type::KNIGHT => 'N',
                Type::ROOK => 'R',
                Type::QUEEN => 'Q',
                Type::KING => 'K',
            },
        }
    }

    /// The piece that a FEN letter stands for, if any.
    pub open spec fn of_letter(c: char) -> Option<Piece> {
        if c == 'P' {
            Some(Piece { ptype: Type::PAWN, color: Color::WHITE })
        } else if c == 'B' {
            Some(Piece { ptype: Type::BISHOP, color: Color::WHITE })
        } else if c == 'N' {
            Some(Piece { ptype: Type::KNIGHT, color: Color::WHITE })
        } else if c == 'R' {
            Some(Piece { ptype: Type::ROOK, color: Color::WHITE })
        } else if c == 'Q' {
            Some(Piece { ptype: Type::QUEEN, color: Color::WHITE })
        } else if c == 'K' {
            Some(Piece { ptype: Type::KING, color: Color::WHITE })
        } else {
            match Type::of_letter(c) {
                Some(t) => Some(Piece { ptype: t, color: Color::BLACK }),
                None => None,
            }
        }
    }

    /// The number of the piece among the twelve: six per color, White first,
    /// in the order of the types.
    pub open spec fn ordinal(self) -> int {
        self.color.ordinal() * 6 + self.ptype.ordinal()
    }

    pub fn from(t: Type, c: Color) -> (p: Piece)
        ensures
            p == (Piece { ptype: t, color: c }),
    {
        Piece { ptype: t, color: c }
    }

    pub fn to_fen(&self) -> (c: char)
        ensures
            c == self.letter(),
    {
        match self.color {
            Color::BLACK => self.ptype.to_fen(),
            Color::WHITE => match self.ptype {
                Type::PAWN => 'P',
                Type::BISHOP => 'B',
                Type::KNIGHT => 'N',
                Type::ROOK => 'R',
                Type::QUEEN => 'Q',
                Type::KING => 'K',
            },
        }
    }

    pub fn from_fen(fen: char) -> (p: Option<Piece>)
        ensures
            p == Piece::of_letter(fen),
    {
        if fen == 'P' {
            Some(Piece { ptype: Type::PAWN, color: Color::WHITE })
        } else if fen == 'B' {
            Some(Piece { ptype: Type::BISHOP, color: Color::WHITE })
        } else if fen == 'N' {
            Some(Piece { ptype: Type::KNIGHT, color: Color::WHITE })
        } else if fen == 'R' {
            Some(Piece { ptype: Type::ROOK, color: Color::WHITE })
        } else if fen == 'Q' {
            Some(Piece { ptype: Type::QUEEN, color: Color::WHITE })
        } else if fen == 'K' {
            Some(Piece { ptype: Type::KING, color: Color::WHITE })
        } else {
            match Type::from_fen(fen) {
                Some(t) => Some(Piece { ptype: t, color: Color::BLACK }),
                None => None,
            }
        }
    }

    pub fn get_type(&self) -> (t: Type)
        ensures
            t == self.ptype,
    {
        self.ptype
    }

    pub fn get_color(&self) -> (c: Color)
        ensures
            c == self.color,
    {
        self.color
    }

    pub fn index(&self) -> (i: usize)
        ensures
            i == self.ordinal(),
            i < 12,
    {
        self.color.index() * 6 + self.ptype.index()
    }
}

/// The FEN letter of a piece stands for that piece.
pub proof fn lemma_piece_letter_round_trip(p: Piece)
    ensures
        Piece::of_letter(p.letter()) == Some(p),
{
}

} // verus!
