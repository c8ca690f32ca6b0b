//! Moves and their UCI text.

use vstd::prelude::*;
use crate::piece::Type;
use crate::square::{Square, square_text, parse_square, square_from_chars};

verus! {

/// A move: the square it leaves, the square it reaches, and the type that a
/// pawn is promoted to, if the move promotes.
#[derive(PartialEq, Eq, Debug, Copy, Clone)]
pub struct Move {
    pub m_src: Square,
    pub m_dst: Square,
    pub m_ptype: Option<Type>,
}

/// Whether `t` is a type that a pawn may be promoted to.
pub open spec fn is_promotion_type(t: Type) -> bool {
    t == Type::QUEEN || t == Type::ROOK || t == Type::BISHOP || t == Type::KNIGHT
}

/// The promotion that a fifth character of a move text stands for.
pub open spec fn promotion_of_letter(c: char) -> Option<Type> {
    match Type::of_letter(c) {
        Some(t) => if is_promotion_type(t) {
            Some(t)
        } else {
            None
        },
        None => None,
    }
}

/// The UCI text of a move: source square, destination square, and the letter
/// of the promotion type if there is one.
pub open spec fn move_text(m: Move) -> Seq<char> {
    square_text(m.m_src@) + square_text(m.m_dst@) + (match m.m_ptype {
        Some(t) => seq![t.letter()],
        None => Seq::<char>::empty(),
    })
}

/// The UCI text of an optional move; `0000` stands for no move.
pub open spec fn move_text_withnull(m: Option<Move>) -> Seq<char> {
    match m {
        Some(mv) => move_text(mv),
        None => seq!['0', '0', '0', '0'],
    }
}

/// The move that a UCI text stands for. A text stands for a move when it is
/// four or five characters long, starts with the names of two squares, and its
/// fifth character, if it has one, is one of `q`, `r`, `b`, `n`.
pub open spec fn parse_move(s: Seq<char>) -> Option<Move> {
    if s.len() != 4 && s.len() != 5 {
        None
    } else {
        let src = parse_square(s.subrange(0, 2));
        let dst = parse_square(s.subrange(2, 4));
        if src is None || dst is None {
            None
        } else if s.len() == 5 {
            match promotion_of_letter(s[4]) {
                Some(t) => Some(
                    Move { m_src: Square::of(src->0), m_dst: Square::of(dst->0), m_ptype: Some(t) },
                ),
                None => None,
            }
        } else {
            Some(Move { m_src: Square::of(src->0), m_dst: Square::of(dst->0), m_ptype: None })
        }
    }
}

/// Emitting a parsed move gives the text that was parsed.
pub proof fn lemma_parse_then_emit(s: Seq<char>)
    requires
        parse_move(s) is Some,
    ensures
        move_text(parse_move(s)->0) == s,
{
    broadcast use Square::lemma_of_view;

    let m = parse_move(s)->0;
    let a = s.subrange(0, 2);
    let b = s.subrange(2, 4);
    crate::square::lemma_parsed_square_text(a);
    crate::square::lemma_parsed_square_text(b);
    assert(square_text(m.m_src@) == a);
    assert(square_text(m.m_dst@) == b);
    assert(move_text(m) =~= s);
}

/// Parsing the text of a move gives the move back, as long as its promotion
/// type, if it has one, is queen, rook, bishop or knight.
pub proof fn lemma_emit_then_parse(m: Move)
    requires
        0 <= m.m_src@ < 64,
        0 <= m.m_dst@ < 64,
        m.m_ptype is Some ==> is_promotion_type(m.m_ptype->0),
    ensures
        parse_move(move_text(m)) == Some(m),
{
    broadcast use Square::lemma_of_view;

    let s = move_text(m);
    assert(s.subrange(0, 2) =~= square_text(m.m_src@));
    assert(s.subrange(2, 4) =~= square_text(m.m_dst@));
    crate::square::lemma_square_text_parses(m.m_src@);
    crate::square::lemma_square_text_parses(m.m_dst@);
    Square::lemma_view_injective(Square::of(m.m_src@), m.m_src);
    Square::lemma_view_injective(Square::of(m.m_dst@), m.m_dst);
}

impl Move {
    pub fn new(src: Square, dst: Square, ptype: Option<Type>) -> (m: Move)
        ensures
            m == (Move { m_src: src, m_dst: dst, m_ptype: ptype }),
    {
        Move { m_src: src, m_dst: dst, m_ptype: ptype }
    }

    /// The UCI text of the move, such as `e2e4` or `e7e8q`.
    pub fn to_uci(&self) -> (out: String)
        ensures
            out@ == move_text(*self),
    {
        let mut out: String = self.m_src.to_str();
        let d = self.m_dst.to_str();
        out.append(d.as_str());
        match self.m_ptype {
            Some(t) => {
                out.push(t.to_fen());
            },
            None => {},
        }
        assert(out@ =~= move_text(*self));
        out
    }

    /// The UCI text of an optional move, `0000` for none.
    pub fn to_uci_withnull(inp: &Option<Move>) -> (out: String)
        ensures
            out@ == move_text_withnull(*inp),
    {
        match inp {
            Some(m) => m.to_uci(),
            None => {
                let mut out = String::new();
                out.push('0');
                out.push('0');
                out.push('0');
                out.push('0');
                assert(out@ =~= seq!['0', '0', '0', '0']);
                out
            },
        }
    }

    /// Reads a move from its UCI text. The null move `0000` and every other
    /// text that is not a move give `None`.
    pub fn from_uci(inp: &String) -> (r: Option<Move>)
        ensures
            r == parse_move(inp@),
    {
        let s = inp.as_str();
        let n = s.unicode_len();
        if n != 4 && n != 5 {
            return None;
        }
        let src = square_from_chars(s.get_char(0), s.get_char(1));
        let dst = square_from_chars(s.get_char(2), s.get_char(3));
        assert(inp@.subrange(0, 2) =~= seq![inp@[0], inp@[1]]);
        assert(inp@.subrange(2, 4) =~= seq![inp@[2], inp@[3]]);
        if src.is_none() || dst.is_none() {
            return None;
        }
        let mut ptype: Option<Type> = None;
        if n == 5 {
            match Type::from_fen(s.get_char(4)) {
                Some(Type::QUEEN) => {
                    ptype = Some(Type::QUEEN);
                },
                Some(Type::ROOK) => {
                    ptype = Some(Type::ROOK);
                },
                Some(Type::BISHOP) => {
                    ptype = Some(Type::BISHOP);
                },
                Some(Type::KNIGHT) => {
                    ptype = Some(Type::KNIGHT);
                },
                _ => {
                    return None;
                },
            }
        }
        Some(Move { m_src: src.unwrap(), m_dst: dst.unwrap(), m_ptype: ptype })
    }

    pub fn src(&self) -> (s: Square)
        ensures
            s == self.m_src,
            0 <= s@ < 64,
    {
        let s = self.m_src;
        let _ = s.index();
        s
    }

    pub fn dst(&self) -> (s: Square)
        ensures
            s == self.m_dst,
            0 <= s@ < 64,
    {
        let s = self.m_dst;
        let _ = s.index();
        s
    }

    pub fn ptype(&self) -> (t: Option<Type>)
        ensures
            t == self.m_ptype,
    {
        self.m_ptype
    }
}

} // verus!
