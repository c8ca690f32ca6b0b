//! Pseudo-legal move generation: every move that the pieces of the side to
//! move can make by their rules of movement, whether or not it leaves the
//! king attacked.

use vstd::prelude::*;
use crate::attacks::{forward, king_step};
use crate::bitboard::{bit, has};
use crate::board::piece_attacks;
use crate::gmove::{is_promotion_type, Move};
use crate::piece::{Color, Piece, Type};
use crate::position::{
    home_rank,
    lemma_make_unmake,
    playable,
    retractable,
    spec_make,
    spec_unmake,
    Castling,
    Position,
    PositionView,
};
use crate::square::Square;

verus! {

/// The move from `src` to `dst` without promotion.
pub open spec fn plain(src: int, dst: int) -> Move {
    Move { m_src: Square::of(src), m_dst: Square::of(dst), m_ptype: None }
}

/// The move from `src` to `dst` that promotes to `t`.
pub open spec fn promoting(src: int, dst: int, t: Type) -> Move {
    Move { m_src: Square::of(src), m_dst: Square::of(dst), m_ptype: Some(t) }
}

/// The four promotions from `src` to `dst`: queen, knight, rook, bishop.
pub open spec fn promotions(src: int, dst: int) -> Seq<Move> {
    seq![
        promoting(src, dst, Type::QUEEN),
        promoting(src, dst, Type::KNIGHT),
        promoting(src, dst, Type::ROOK),
        promoting(src, dst, Type::BISHOP),
    ]
}

/// The side to move has a piece of type `ty` on `s`.
pub open spec fn mover_has(p: PositionView, s: int, ty: Type) -> bool {
    0 <= s < 64 && p.board[s] == Some(Piece { ptype: ty, color: p.ctm })
}

/// The side to move has a piece on `t`.
pub open spec fn own_at(p: PositionView, t: int) -> bool {
    0 <= t < 64 && p.board[t] is Some && p.board[t]->0.color == p.ctm
}

/// The other side has a piece on `t`.
pub open spec fn enemy_at(p: PositionView, t: int) -> bool {
    0 <= t < 64 && p.board[t] is Some && p.board[t]->0.color != p.ctm
}

/// `t` is on the board and empty.
pub open spec fn empty_at(p: PositionView, t: int) -> bool {
    0 <= t < 64 && p.board[t] is None
}

/// `t` is the en-passant target.
pub open spec fn ep_at(p: PositionView, t: int) -> bool {
    0 <= t < 64 && p.top().ep_target is Some && p.top().ep_target->0@ == t
}

/// The rank from which a pawn of color `c` promotes with its next step.
pub open spec fn promote_rank(c: Color) -> int {
    match c {
        Color::WHITE => 6,
        Color::BLACK => 1,
    }
}

/// The rank on which the pawns of color `c` start.
pub open spec fn start_rank(c: Color) -> int {
    match c {
        Color::WHITE => 1,
        Color::BLACK => 6,
    }
}

/// The square that the pawn on `s` reaches with a move of group `g`, if the
/// side to move has a pawn there and the move is open to it. The groups are, in
/// the order in which they are generated: promoting advance (0), promoting
/// capture to the left (1) and to the right (2), advance (3), capture to the
/// left (4) and to the right (5), double step (6). Groups 0 to 2 are for a pawn
/// on its promotion rank, groups 3 to 6 for any other. An advance
/// needs the square ahead empty; a capture needs an enemy piece diagonally
/// ahead, where a pawn that does not promote may also find the en-passant
/// target; a double step starts on the pawn's starting rank and needs both
/// squares ahead empty.
pub open spec fn pawn_target(p: PositionView, g: int, s: int) -> Option<int> {
    let step = 8 * forward(p.ctm);
    if !mover_has(p, s, Type::PAWN) || (g < 3) != (s / 8 == promote_rank(p.ctm)) {
        None
    } else if g == 0 || g == 3 {
        if empty_at(p, s + step) {
            Some(s + step)
        } else {
            None
        }
    } else if g == 1 || g == 4 {
        if s % 8 != 0 && (enemy_at(p, s + step - 1) || (g == 4 && ep_at(p, s + step - 1))) {
            Some(s + step - 1)
        } else {
            None
        }
    } else if g == 2 || g == 5 {
        if s % 8 != 7 && (enemy_at(p, s + step + 1) || (g == 5 && ep_at(p, s + step + 1))) {
            Some(s + step + 1)
        } else {
            None
        }
    } else if g == 6 {
        if s / 8 == start_rank(p.ctm) && empty_at(p, s + step) && empty_at(p, s + 2 * step) {
            Some(s + 2 * step)
        } else {
            None
        }
    } else {
        None
    }
}

/// The moves of group `g` of the pawn on `s`.
pub open spec fn pawn_moves_at(p: PositionView, g: int, s: int) -> Seq<Move> {
    match pawn_target(p, g, s) {
        Some(t) => if g < 3 {
            promotions(s, t)
        } else {
            seq![plain(s, t)]
        },
        None => Seq::empty(),
    }
}

/// The pawn moves of group `g` from the squares below `n`, lowest square
/// first.
pub open spec fn pawn_group(p: PositionView, g: int, n: int) -> Seq<Move>
    decreases n,
{
    if n <= 0 {
        Seq::empty()
    } else {
        pawn_group(p, g, n - 1) + pawn_moves_at(p, g, n - 1)
    }
}

/// A piece of type `ty` of the side to move, standing on `s`, may go to `t`:
/// it attacks `t`, and no piece of its own side stands there.
pub open spec fn target_ok(p: PositionView, ty: Type, s: int, t: int) -> bool {
    piece_attacks(p.board, Piece { ptype: ty, color: p.ctm }, s, t) && !own_at(p, t)
}

/// The moves of a piece of type `ty` from `s` to the squares below `n`,
/// lowest square first.
pub open spec fn targets(p: PositionView, ty: Type, s: int, n: int) -> Seq<Move>
    decreases n,
{
    if n <= 0 {
        Seq::empty()
    } else if target_ok(p, ty, s, n - 1) {
        targets(p, ty, s, n - 1).push(plain(s, n - 1))
    } else {
        targets(p, ty, s, n - 1)
    }
}

/// The moves of the pieces of type `ty` that stand on the squares below `n`,
/// lowest square first.
pub open spec fn piece_group(p: PositionView, ty: Type, n: int) -> Seq<Move>
    decreases n,
{
    if n <= 0 {
        Seq::empty()
    } else if mover_has(p, n - 1, ty) {
        piece_group(p, ty, n - 1) + targets(p, ty, n - 1, 64)
    } else {
        piece_group(p, ty, n - 1)
    }
}

/// The file on which the king lands when it castles on wing `side`.
pub open spec fn castle_file(side: Castling) -> int {
    match side {
        Castling::QUEENSIDE => 2,
        Castling::KINGSIDE => 6,
    }
}

/// The side to move may try to castle on wing `side`: it has the right, its
/// king and its rook stand on their first squares, and the squares between
/// them are empty.
pub open spec fn castle_ok(p: PositionView, side: Castling) -> bool {
    let h = home_rank(p.ctm) * 8;
    &&& p.top().castling.spec_has(p.ctm, side)
    &&& mover_has(p, h + 4, Type::KING)
    &&& match side {
        Castling::QUEENSIDE => mover_has(p, h, Type::ROOK) && empty_at(p, h + 1) && empty_at(
            p,
            h + 2,
        ) && empty_at(p, h + 3),
        Castling::KINGSIDE => mover_has(p, h + 7, Type::ROOK) && empty_at(p, h + 5) && empty_at(
            p,
            h + 6,
        ),
    }
}

/// The castling move on wing `side`, if the side to move may try it.
pub open spec fn castle_moves(p: PositionView, side: Castling) -> Seq<Move> {
    if castle_ok(p, side) {
        seq![plain(home_rank(p.ctm) * 8 + 4, home_rank(p.ctm) * 8 + castle_file(side))]
    } else {
        Seq::empty()
    }
}

/// The pseudo-legal moves of a position, in the order in which they are
/// generated: the seven groups of pawn moves, then the moves of the queens, the
/// rooks, the bishops, the knights and the king, then castling on the queen's
/// wing and on the king's.
pub open spec fn spec_moves(p: PositionView) -> Seq<Move> {
    pawn_group(p, 0, 64) + pawn_group(p, 1, 64) + pawn_group(p, 2, 64) + pawn_group(p, 3, 64)
        + pawn_group(p, 4, 64) + pawn_group(p, 5, 64) + pawn_group(p, 6, 64) + piece_group(
        p,
        Type::QUEEN,
        64,
    ) + piece_group(p, Type::ROOK, 64) + piece_group(p, Type::BISHOP, 64) + piece_group(
        p,
        Type::KNIGHT,
        64,
    ) + piece_group(p, Type::KING, 64) + castle_moves(p, Castling::QUEENSIDE) + castle_moves(
        p,
        Castling::KINGSIDE,
    )
}

impl Position {
    /// Whether the square with index `t` is empty.
    fn is_empty_at(&self, t: usize) -> (r: bool)
        requires
            self.wf(),
            t < 64,
        ensures
            r == empty_at(self@, t as int),
    {
        self.board().piece_at(Square::from_index(t).unwrap()).is_none()
    }

    /// Whether the side to move has a piece of type `ty` on the square with
    /// index `s`.
    fn has_own(&self, s: usize, ty: Type) -> (r: bool)
        requires
            self.wf(),
            s < 64,
        ensures
            r == mover_has(self@, s as int, ty),
    {
        match self.board().piece_at(Square::from_index(s).unwrap()) {
            Some(pc) => pc.ptype == ty && pc.color == self.side_to_move(),
            None => false,
        }
    }

    /// Whether a capturing pawn may land on the square with index `t`.
    fn capture_ok(&self, t: usize, with_ep: bool) -> (r: bool)
        requires
            self.wf(),
            t < 64,
        ensures
            r == (enemy_at(self@, t as int) || (with_ep && ep_at(self@, t as int))),
    {
        let enemy = match self.board().piece_at(Square::from_index(t).unwrap()) {
            Some(pc) => pc.color != self.side_to_move(),
            None => false,
        };
        let ep = match self.state().ep_target {
            Some(e) => with_ep && e.index() == t,
            None => false,
        };
        enemy || ep
    }

    /// The square that the pawn on the square with index `s` reaches with a
    /// move of group `g`, if there is such a move.
    fn pawn_target_of(&self, g: u8, s: usize) -> (r: Option<Square>)
        requires
            self.wf(),
            s < 64,
            g < 7,
        ensures
            r is Some <==> pawn_target(self@, g as int, s as int) is Some,
            r is Some ==> r->0 == Square::of(pawn_target(self@, g as int, s as int)->0) && 0
                <= pawn_target(self@, g as int, s as int)->0 < 64,
    {
        let c = self.side_to_move();
        if !self.has_own(s, Type::PAWN) {
            return None;
        }
        let rank = s / 8;
        let file = s % 8;
        let (promo, start): (usize, usize) = match c {
            Color::WHITE => (6, 1),
            Color::BLACK => (1, 6),
        };
        if (g < 3) != (rank == promo) {
            return None;
        }
        let ahead: usize = match c {
            Color::WHITE => {
                if rank == 7 {
                    return None;
                }
                s + 8
            },
            Color::BLACK => {
                if rank == 0 {
                    return None;
                }
                s - 8
            },
        };
        if g == 0 || g == 3 {
            if self.is_empty_at(ahead) {
                Square::from_index(ahead)
            } else {
                None
            }
        } else if g == 1 || g == 4 {
            if file != 0 && self.capture_ok(ahead - 1, g == 4) {
                Square::from_index(ahead - 1)
            } else {
                None
            }
        } else if g == 2 || g == 5 {
            if file != 7 && self.capture_ok(ahead + 1, g == 5) {
                Square::from_index(ahead + 1)
            } else {
                None
            }
        } else {
            if rank == start && self.is_empty_at(ahead) {
                let two: usize = match c {
                    Color::WHITE => ahead + 8,
                    Color::BLACK => ahead - 8,
                };
                if self.is_empty_at(two) {
                    Square::from_index(two)
                } else {
                    None
                }
            } else {
                None
            }
        }
    }

    /// Appends the pawn moves of group `g`.
    fn gen_pawn_moves(&self, g: u8, output: &mut Vec<Move>)
        requires
            self.wf(),
            g < 7,
        ensures
            final(output)@ == old(output)@ + pawn_group(self@, g as int, 64),
    {
        let mut s: usize = 0;
        assert(output@ =~= old(output)@ + pawn_group(self@, g as int, 0));
        while s < 64
            invariant
                s <= 64,
                self.wf(),
                g < 7,
                output@ == old(output)@ + pawn_group(self@, g as int, s as int),
            decreases 64 - s,
        {
            let ghost before = output@;
            match self.pawn_target_of(g, s) {
                Some(t) => {
                    let src = Square::from_index(s).unwrap();
                    if g < 3 {
                        output.push(Move::new(src, t, Some(Type::QUEEN)));
                        output.push(Move::new(src, t, Some(Type::KNIGHT)));
                        output.push(Move::new(src, t, Some(Type::ROOK)));
                        output.push(Move::new(src, t, Some(Type::BISHOP)));
                    } else {
                        output.push(Move::new(src, t, None));
                    }
                },
                None => {},
            }
            assert(output@ =~= before + pawn_moves_at(self@, g as int, s as int));
            assert(output@ =~= old(output)@ + pawn_group(self@, g as int, s + 1));
            s += 1;
        }
    }

    /// Appends the moves of the pieces of type `ty`.
    fn gen_piece_moves(&self, ty: Type, output: &mut Vec<Move>)
        requires
            self.wf(),
        ensures
            final(output)@ == old(output)@ + piece_group(self@, ty, 64),
    {
        let c = self.side_to_move();
        let pc = Piece::from(ty, c);
        let mut s: usize = 0;
        assert(output@ =~= old(output)@ + piece_group(self@, ty, 0));
        while s < 64
            invariant
                s <= 64,
                self.wf(),
                c == self@.ctm,
                pc == (Piece { ptype: ty, color: c }),
                output@ == old(output)@ + piece_group(self@, ty, s as int),
            decreases 64 - s,
        {
            let ghost before = output@;
            if self.has_own(s, ty) {
                let src = Square::from_index(s).unwrap();
                let att = self.board().attack_set(src, pc);
                let mut t: usize = 0;
                assert(output@ =~= before + targets(self@, ty, s as int, 0));
                while t < 64
                    invariant
                        t <= 64,
                        s < 64,
                        self.wf(),
                        c == self@.ctm,
                        src == Square::of(s as int),
                        forall|x: int| #[trigger]
                            bit(att, x) == piece_attacks(self@.board, pc, s as int, x),
                        pc == (Piece { ptype: ty, color: c }),
                        output@ == before + targets(self@, ty, s as int, t as int),
                    decreases 64 - t,
                {
                    if has(att, t) {
                        let dst = Square::from_index(t).unwrap();
                        let own = match self.board().piece_at(dst) {
                            Some(q) => q.color == c,
                            None => false,
                        };
                        if !own {
                            output.push(Move::new(src, dst, None));
                        }
                    }
                    t += 1;
                }
                assert(output@ =~= old(output)@ + piece_group(self@, ty, s + 1));
            }
            s += 1;
        }
    }

    /// Appends the castling move on wing `side`, if the side to move may try
    /// it.
    fn gen_castle(&self, side: Castling, output: &mut Vec<Move>)
        requires
            self.wf(),
        ensures
            final(output)@ == old(output)@ + castle_moves(self@, side),
    {
        let c = self.side_to_move();
        let rank: usize = match c {
            Color::WHITE => 0,
            Color::BLACK => 7,
        };
        let h = rank * 8;
        let mut ok = self.state().castling.has(c, side) && self.has_own(h + 4, Type::KING);
        if ok {
            ok = match side {
                Castling::QUEENSIDE => self.has_own(h, Type::ROOK) && self.is_empty_at(h + 1)
                    && self.is_empty_at(h + 2) && self.is_empty_at(h + 3),
                Castling::KINGSIDE => self.has_own(h + 7, Type::ROOK) && self.is_empty_at(h + 5)
                    && self.is_empty_at(h + 6),
            };
        }
        if ok {
            let file: usize = match side {
                Castling::QUEENSIDE => 2,
                Castling::KINGSIDE => 6,
            };
            output.push(Move::new(Square::at(rank, 4), Square::at(rank, file), None));
        }
        assert(output@ =~= old(output)@ + castle_moves(self@, side));
    }

    /// Whether the en-passant target, if there is one, is an empty square with
    /// a piece of the other side one rank behind it.
    pub fn en_passant_is_sound(&self) -> (r: bool)
        requires
            self.wf(),
        ensures
            r == en_passant_sound(self@),
    {
        match self.state().ep_target {
            None => true,
            Some(e) => {
                let t = e.index();
                let behind: Option<usize> = match self.side_to_move() {
                    Color::WHITE => if t >= 8 {
                        Some(t - 8)
                    } else {
                        None
                    },
                    Color::BLACK => if t < 56 {
                        Some(t + 8)
                    } else {
                        None
                    },
                };
                match behind {
                    Some(v) => self.is_empty_at(t) && self.capture_ok(v, false),
                    None => false,
                }
            },
        }
    }

    /// The pseudo-legal moves of the position.
    pub fn gen_pseudolegal_moves(&self) -> (output: Vec<Move>)
        requires
            self.wf(),
        ensures
            output@ == spec_moves(self@),
    {
        let mut output: Vec<Move> = Vec::new();
        self.gen_pawn_moves(0, &mut output);
        self.gen_pawn_moves(1, &mut output);
        self.gen_pawn_moves(2, &mut output);
        self.gen_pawn_moves(3, &mut output);
        self.gen_pawn_moves(4, &mut output);
        self.gen_pawn_moves(5, &mut output);
        self.gen_pawn_moves(6, &mut output);
        self.gen_piece_moves(Type::QUEEN, &mut output);
        self.gen_piece_moves(Type::ROOK, &mut output);
        self.gen_piece_moves(Type::BISHOP, &mut output);
        self.gen_piece_moves(Type::KNIGHT, &mut output);
        self.gen_piece_moves(Type::KING, &mut output);
        self.gen_castle(Castling::QUEENSIDE, &mut output);
        self.gen_castle(Castling::KINGSIDE, &mut output);
        assert(output@ =~= spec_moves(self@));
        output
    }
}

/// A piece of the side to move that is no pawn stands on `src` and may go to
/// `dst`.
pub open spec fn piece_move(p: PositionView, src: int, dst: int) -> bool {
    own_at(p, src) && p.board[src]->0.ptype != Type::PAWN && target_ok(
        p,
        p.board[src]->0.ptype,
        src,
        dst,
    )
}

/// The king of the side to move may try to castle from `src` to `dst`.
pub open spec fn castle_move(p: PositionView, src: int, dst: int) -> bool {
    let h = home_rank(p.ctm) * 8;
    src == h + 4 && ((dst == h + 2 && castle_ok(p, Castling::QUEENSIDE)) || (dst == h + 6
        && castle_ok(p, Castling::KINGSIDE)))
}

/// The move is pseudo-legal in position `p`: a pawn move of one of the seven
/// groups, with a promotion to queen, rook, bishop or knight exactly when the
/// pawn leaves its promotion rank; or the move of another piece to a square
/// that it attacks and that holds no piece of its side; or castling.
pub open spec fn pseudo_legal(p: PositionView, m: Move) -> bool {
    let src = m.m_src@;
    let dst = m.m_dst@;
    &&& 0 <= src < 64
    &&& 0 <= dst < 64
    &&& match m.m_ptype {
        Some(t) => is_promotion_type(t) && (pawn_target(p, 0, src) == Some(dst) || pawn_target(
            p,
            1,
            src,
        ) == Some(dst) || pawn_target(p, 2, src) == Some(dst)),
        None => pawn_target(p, 3, src) == Some(dst) || pawn_target(p, 4, src) == Some(dst)
            || pawn_target(p, 5, src) == Some(dst) || pawn_target(p, 6, src) == Some(dst)
            || piece_move(p, src, dst) || castle_move(p, src, dst),
    }
}

/// The en-passant target of the position, if there is one, is an empty
/// square with a piece of the side that is not to move one rank behind it.
pub open spec fn en_passant_sound(p: PositionView) -> bool {
    p.top().ep_target is Some ==> {
        let t = p.top().ep_target->0@;
        let v = t - 8 * forward(p.ctm);
        empty_at(p, t) && enemy_at(p, v)
    }
}

/// The place of a promotion type among the four promotions of one move.
pub open spec fn promotion_rank(t: Option<Type>) -> int {
    match t {
        Some(Type::KNIGHT) => 1,
        Some(Type::ROOK) => 2,
        Some(Type::BISHOP) => 3,
        _ => 0,
    }
}

/// The number of the group of generated moves that the move belongs to.
pub open spec fn move_group(p: PositionView, m: Move) -> int {
    let src = m.m_src@;
    let dst = m.m_dst@;
    let step = 8 * forward(p.ctm);
    if m.m_ptype is Some {
        if dst - src == step {
            0
        } else if dst - src == step - 1 {
            1
        } else {
            2
        }
    } else {
        match p.board[src]->0.ptype {
            Type::PAWN => if dst - src == step {
                3
            } else if dst - src == step - 1 {
                4
            } else if dst - src == step + 1 {
                5
            } else {
                6
            },
            Type::QUEEN => 7,
            Type::ROOK => 8,
            Type::BISHOP => 9,
            Type::KNIGHT => 10,
            Type::KING => if king_step(src, dst) {
                11
            } else if dst % 8 == 2 {
                12
            } else {
                13
            },
        }
    }
}

/// The group number of the moves of the pieces of type `ty`.
pub open spec fn type_group(ty: Type) -> int {
    match ty {
        Type::PAWN => 3,
        Type::QUEEN => 7,
        Type::ROOK => 8,
        Type::BISHOP => 9,
        Type::KNIGHT => 10,
        Type::KING => 11,
    }
}

/// The place of a move in the order of generation: by group, then by source
/// square, then by destination square, then by promotion.
pub open spec fn move_key(p: PositionView, m: Move) -> int {
    move_group(p, m) * 32768 + m.m_src@ * 512 + m.m_dst@ * 8 + promotion_rank(m.m_ptype)
}

/// The moves of `ms` are pseudo-legal, their keys lie in `lo..hi`, and they
/// stand in the strict order of their keys.
pub open spec fn ordered(ms: Seq<Move>, p: PositionView, lo: int, hi: int) -> bool {
    &&& forall|i: int|
        0 <= i < ms.len() ==> pseudo_legal(p, #[trigger] ms[i]) && lo <= move_key(p, ms[i]) < hi
    &&& forall|i: int, j: int|
        0 <= i < j < ms.len() ==> move_key(p, #[trigger] ms[i]) < move_key(p, #[trigger] ms[j])
}

proof fn lemma_ordered_concat(a: Seq<Move>, b: Seq<Move>, p: PositionView, lo: int, mid: int, hi: int)
    requires
        ordered(a, p, lo, mid),
        ordered(b, p, mid, hi),
        lo <= mid <= hi,
    ensures
        ordered(a + b, p, lo, hi),
{
    let c = a + b;
    assert forall|i: int| 0 <= i < c.len() implies pseudo_legal(p, #[trigger] c[i]) && lo
        <= move_key(p, c[i]) < hi by {
        if i < a.len() {
            assert(c[i] == a[i]);
        } else {
            assert(c[i] == b[i - a.len()]);
        }
    }
    assert forall|i: int, j: int| 0 <= i < j < c.len() implies move_key(p, #[trigger] c[i])
        < move_key(p, #[trigger] c[j]) by {
        if j < a.len() {
            assert(c[i] == a[i] && c[j] == a[j]);
        } else if i < a.len() {
            assert(c[i] == a[i] && c[j] == b[j - a.len()]);
        } else {
            assert(c[i] == b[i - a.len()] && c[j] == b[j - a.len()]);
        }
    }
}

proof fn lemma_ordered_widen(a: Seq<Move>, p: PositionView, lo: int, hi: int, lo2: int, hi2: int)
    requires
        ordered(a, p, lo, hi),
        lo2 <= lo,
        hi <= hi2,
    ensures
        ordered(a, p, lo2, hi2),
{
}

proof fn lemma_pawn_moves_at_ordered(p: PositionView, g: int, s: int)
    requires
        p.valid(),
        0 <= g < 7,
        0 <= s < 64,
    ensures
        ordered(
            pawn_moves_at(p, g, s),
            p,
            g * 32768 + s * 512,
            g * 32768 + s * 512 + 512,
        ),
{
    broadcast use Square::lemma_of_view;

    let ms = pawn_moves_at(p, g, s);
    if pawn_target(p, g, s) is Some {
        let t = pawn_target(p, g, s)->0;
        assert(0 <= t < 64);
        assert forall|i: int| 0 <= i < ms.len() implies pseudo_legal(p, #[trigger] ms[i]) && g
            * 32768 + s * 512 <= move_key(p, ms[i]) < g * 32768 + s * 512 + 512 && move_key(
            p,
            ms[i],
        ) == g * 32768 + s * 512 + t * 8 + i by {
            let m = ms[i];
            assert(m.m_src@ == s && m.m_dst@ == t);
            assert(move_group(p, m) == g);
        }
    }
}

proof fn lemma_pawn_group_ordered(p: PositionView, g: int, n: int)
    requires
        p.valid(),
        0 <= g < 7,
        0 <= n <= 64,
    ensures
        ordered(pawn_group(p, g, n), p, g * 32768, g * 32768 + n * 512),
    decreases n,
{
    if n > 0 {
        lemma_pawn_group_ordered(p, g, n - 1);
        lemma_pawn_moves_at_ordered(p, g, n - 1);
        lemma_ordered_concat(
            pawn_group(p, g, n - 1),
            pawn_moves_at(p, g, n - 1),
            p,
            g * 32768,
            g * 32768 + (n - 1) * 512,
            g * 32768 + n * 512,
        );
    }
}

proof fn lemma_targets_ordered(p: PositionView, ty: Type, s: int, n: int)
    requires
        p.valid(),
        ty != Type::PAWN,
        mover_has(p, s, ty),
        0 <= n <= 64,
    ensures
        ordered(
            targets(p, ty, s, n),
            p,
            type_group(ty) * 32768 + s * 512,
            type_group(ty) * 32768 + s * 512 + n * 8,
        ),
    decreases n,
{
    broadcast use Square::lemma_of_view;

    if n > 0 {
        lemma_targets_ordered(p, ty, s, n - 1);
        if target_ok(p, ty, s, n - 1) {
            let m = plain(s, n - 1);
            assert(m.m_src@ == s && m.m_dst@ == n - 1);
            assert(piece_move(p, s, n - 1));
            assert(move_group(p, m) == type_group(ty));
            let one = seq![m];
            assert(ordered(
                one,
                p,
                type_group(ty) * 32768 + s * 512 + (n - 1) * 8,
                type_group(ty) * 32768 + s * 512 + n * 8,
            ));
            lemma_ordered_concat(
                targets(p, ty, s, n - 1),
                one,
                p,
                type_group(ty) * 32768 + s * 512,
                type_group(ty) * 32768 + s * 512 + (n - 1) * 8,
                type_group(ty) * 32768 + s * 512 + n * 8,
            );
            assert(targets(p, ty, s, n) =~= targets(p, ty, s, n - 1) + one);
        } else {
            lemma_ordered_widen(
                targets(p, ty, s, n - 1),
                p,
                type_group(ty) * 32768 + s * 512,
                type_group(ty) * 32768 + s * 512 + (n - 1) * 8,
                type_group(ty) * 32768 + s * 512,
                type_group(ty) * 32768 + s * 512 + n * 8,
            );
        }
    }
}

proof fn lemma_piece_group_ordered(p: PositionView, ty: Type, n: int)
    requires
        p.valid(),
        ty != Type::PAWN,
        0 <= n <= 64,
    ensures
        ordered(
            piece_group(p, ty, n),
            p,
            type_group(ty) * 32768,
            type_group(ty) * 32768 + n * 512,
        ),
    decreases n,
{
    if n > 0 {
        lemma_piece_group_ordered(p, ty, n - 1);
        if mover_has(p, n - 1, ty) {
            lemma_targets_ordered(p, ty, n - 1, 64);
            lemma_ordered_concat(
                piece_group(p, ty, n - 1),
                targets(p, ty, n - 1, 64),
                p,
                type_group(ty) * 32768,
                type_group(ty) * 32768 + (n - 1) * 512,
                type_group(ty) * 32768 + n * 512,
            );
        } else {
            lemma_ordered_widen(
                piece_group(p, ty, n - 1),
                p,
                type_group(ty) * 32768,
                type_group(ty) * 32768 + (n - 1) * 512,
                type_group(ty) * 32768,
                type_group(ty) * 32768 + n * 512,
            );
        }
    }
}

proof fn lemma_castle_ordered(p: PositionView, side: Castling)
    requires
        p.valid(),
    ensures
        ordered(
            castle_moves(p, side),
            p,
            (12 + side.ordinal()) * 32768,
            (13 + side.ordinal()) * 32768,
        ),
{
    broadcast use Square::lemma_of_view;

    if castle_ok(p, side) {
        let h = home_rank(p.ctm) * 8;
        let m = plain(h + 4, h + castle_file(side));
        assert(m.m_src@ == h + 4 && m.m_dst@ == h + castle_file(side));
        assert(castle_move(p, h + 4, h + castle_file(side)));
        assert(!king_step(h + 4, h + castle_file(side)));
        assert(move_group(p, m) == 12 + side.ordinal());
        assert(castle_moves(p, side)[0] == m);
    }
}

/// The generated moves are pseudo-legal and stand in the strict order of
/// their keys.
pub proof fn lemma_moves_ordered(p: PositionView)
    requires
        p.valid(),
    ensures
        ordered(spec_moves(p), p, 0, 458752),
{
    lemma_pawn_group_ordered(p, 0, 64);
    lemma_pawn_group_ordered(p, 1, 64);
    lemma_pawn_group_ordered(p, 2, 64);
    lemma_pawn_group_ordered(p, 3, 64);
    lemma_pawn_group_ordered(p, 4, 64);
    lemma_pawn_group_ordered(p, 5, 64);
    lemma_pawn_group_ordered(p, 6, 64);
    lemma_piece_group_ordered(p, Type::QUEEN, 64);
    lemma_piece_group_ordered(p, Type::ROOK, 64);
    lemma_piece_group_ordered(p, Type::BISHOP, 64);
    lemma_piece_group_ordered(p, Type::KNIGHT, 64);
    lemma_piece_group_ordered(p, Type::KING, 64);
    lemma_castle_ordered(p, Castling::QUEENSIDE);
    lemma_castle_ordered(p, Castling::KINGSIDE);
    let k: int = 32768;
    let g0 = pawn_group(p, 0, 64);
    let g1 = g0 + pawn_group(p, 1, 64);
    let g2 = g1 + pawn_group(p, 2, 64);
    let g3 = g2 + pawn_group(p, 3, 64);
    let g4 = g3 + pawn_group(p, 4, 64);
    let g5 = g4 + pawn_group(p, 5, 64);
    let g6 = g5 + pawn_group(p, 6, 64);
    let g7 = g6 + piece_group(p, Type::QUEEN, 64);
    let g8 = g7 + piece_group(p, Type::ROOK, 64);
    let g9 = g8 + piece_group(p, Type::BISHOP, 64);
    let g10 = g9 + piece_group(p, Type::KNIGHT, 64);
    let g11 = g10 + piece_group(p, Type::KING, 64);
    let g12 = g11 + castle_moves(p, Castling::QUEENSIDE);
    let g13 = g12 + castle_moves(p, Castling::KINGSIDE);
    lemma_ordered_concat(g0, pawn_group(p, 1, 64), p, 0, k, 2 * k);
    lemma_ordered_concat(g1, pawn_group(p, 2, 64), p, 0, 2 * k, 3 * k);
    lemma_ordered_concat(g2, pawn_group(p, 3, 64), p, 0, 3 * k, 4 * k);
    lemma_ordered_concat(g3, pawn_group(p, 4, 64), p, 0, 4 * k, 5 * k);
    lemma_ordered_concat(g4, pawn_group(p, 5, 64), p, 0, 5 * k, 6 * k);
    lemma_ordered_concat(g5, pawn_group(p, 6, 64), p, 0, 6 * k, 7 * k);
    lemma_ordered_concat(g6, piece_group(p, Type::QUEEN, 64), p, 0, 7 * k, 8 * k);
    lemma_ordered_concat(g7, piece_group(p, Type::ROOK, 64), p, 0, 8 * k, 9 * k);
    lemma_ordered_concat(g8, piece_group(p, Type::BISHOP, 64), p, 0, 9 * k, 10 * k);
    lemma_ordered_concat(g9, piece_group(p, Type::KNIGHT, 64), p, 0, 10 * k, 11 * k);
    lemma_ordered_concat(g10, piece_group(p, Type::KING, 64), p, 0, 11 * k, 12 * k);
    lemma_ordered_concat(g11, castle_moves(p, Castling::QUEENSIDE), p, 0, 12 * k, 13 * k);
    lemma_ordered_concat(g12, castle_moves(p, Castling::KINGSIDE), p, 0, 13 * k, 14 * k);
    assert(g13 == spec_moves(p));
}

/// No move is generated twice, and every generated move is pseudo-legal and
/// leaves a square that holds a piece of the side to move.
pub proof fn lemma_generated_distinct(p: PositionView)
    requires
        p.valid(),
    ensures
        spec_moves(p).no_duplicates(),
        forall|i: int|
            0 <= i < spec_moves(p).len() ==> pseudo_legal(p, #[trigger] spec_moves(p)[i]) && own_at(
                p,
                spec_moves(p)[i].m_src@,
            ),
{
    lemma_moves_ordered(p);
    let ms = spec_moves(p);
    assert forall|i: int, j: int| 0 <= i < ms.len() && 0 <= j < ms.len() && i != j implies ms[i]
        != ms[j] by {
        if i < j {
            assert(move_key(p, ms[i]) < move_key(p, ms[j]));
        } else {
            assert(move_key(p, ms[j]) < move_key(p, ms[i]));
        }
    }
}

/// A pseudo-legal move can be made, as long as the en-passant target is
/// sound and both clocks can still be counted up.
pub proof fn lemma_pseudo_legal_playable(p: PositionView, m: Move)
    requires
        p.valid(),
        en_passant_sound(p),
        p.top().hm_clock < u32::MAX,
        p.top().fm_number < u32::MAX,
        pseudo_legal(p, m),
    ensures
        playable(p, m),
{
}

/// After a pseudo-legal move the en-passant target is sound.
pub proof fn lemma_en_passant_stays_sound(p: PositionView, m: Move)
    requires
        p.valid(),
        pseudo_legal(p, m),
    ensures
        en_passant_sound(spec_make(p, m)),
{
    broadcast use Square::lemma_of_view;

    let q = spec_make(p, m);
    assert(q.top() == crate::position::frame_after(p, m));
}

proof fn lemma_concat_has(a: Seq<Move>, b: Seq<Move>, x: Move)
    requires
        a.contains(x) || b.contains(x),
    ensures
        (a + b).contains(x),
{
    if a.contains(x) {
        let i = choose|i: int| 0 <= i < a.len() && a[i] == x;
        assert((a + b)[i] == x);
    } else {
        let i = choose|i: int| 0 <= i < b.len() && b[i] == x;
        assert((a + b)[a.len() + i] == x);
    }
}

proof fn lemma_pawn_group_has(p: PositionView, g: int, n: int, s: int, x: Move)
    requires
        0 <= s < n <= 64,
        pawn_moves_at(p, g, s).contains(x),
    ensures
        pawn_group(p, g, n).contains(x),
    decreases n,
{
    if s < n - 1 {
        lemma_pawn_group_has(p, g, n - 1, s, x);
    }
    lemma_concat_has(pawn_group(p, g, n - 1), pawn_moves_at(p, g, n - 1), x);
}

proof fn lemma_targets_has(p: PositionView, ty: Type, s: int, n: int, t: int)
    requires
        0 <= t < n <= 64,
        target_ok(p, ty, s, t),
    ensures
        targets(p, ty, s, n).contains(plain(s, t)),
    decreases n,
{
    let prev = targets(p, ty, s, n - 1);
    if t < n - 1 {
        lemma_targets_has(p, ty, s, n - 1, t);
        let i = choose|i: int| 0 <= i < prev.len() && prev[i] == plain(s, t);
        assert(targets(p, ty, s, n)[i] == plain(s, t));
    } else {
        assert(targets(p, ty, s, n)[prev.len() as int] == plain(s, t));
    }
}

proof fn lemma_piece_group_has(p: PositionView, ty: Type, n: int, s: int, t: int)
    requires
        0 <= s < n <= 64,
        0 <= t < 64,
        mover_has(p, s, ty),
        target_ok(p, ty, s, t),
    ensures
        piece_group(p, ty, n).contains(plain(s, t)),
    decreases n,
{
    if s < n - 1 {
        lemma_piece_group_has(p, ty, n - 1, s, t);
        if mover_has(p, n - 1, ty) {
            lemma_concat_has(piece_group(p, ty, n - 1), targets(p, ty, n - 1, 64), plain(s, t));
        }
    } else {
        lemma_targets_has(p, ty, s, 64, t);
        lemma_concat_has(piece_group(p, ty, n - 1), targets(p, ty, s, 64), plain(s, t));
    }
}

/// The move belongs to one of the fourteen groups of generated moves.
spec fn in_some_group(p: PositionView, m: Move) -> bool {
    ||| pawn_group(p, 0, 64).contains(m)
    ||| pawn_group(p, 1, 64).contains(m)
    ||| pawn_group(p, 2, 64).contains(m)
    ||| pawn_group(p, 3, 64).contains(m)
    ||| pawn_group(p, 4, 64).contains(m)
    ||| pawn_group(p, 5, 64).contains(m)
    ||| pawn_group(p, 6, 64).contains(m)
    ||| piece_group(p, Type::QUEEN, 64).contains(m)
    ||| piece_group(p, Type::ROOK, 64).contains(m)
    ||| piece_group(p, Type::BISHOP, 64).contains(m)
    ||| piece_group(p, Type::KNIGHT, 64).contains(m)
    ||| piece_group(p, Type::KING, 64).contains(m)
    ||| castle_moves(p, Castling::QUEENSIDE).contains(m)
    ||| castle_moves(p, Castling::KINGSIDE).contains(m)
}

proof fn lemma_group_member_generated(p: PositionView, m: Move)
    requires
        in_some_group(p, m),
    ensures
        spec_moves(p).contains(m),
{
    let g0 = pawn_group(p, 0, 64);
    let g1 = g0 + pawn_group(p, 1, 64);
    let g2 = g1 + pawn_group(p, 2, 64);
    let g3 = g2 + pawn_group(p, 3, 64);
    let g4 = g3 + pawn_group(p, 4, 64);
    let g5 = g4 + pawn_group(p, 5, 64);
    let g6 = g5 + pawn_group(p, 6, 64);
    let g7 = g6 + piece_group(p, Type::QUEEN, 64);
    let g8 = g7 + piece_group(p, Type::ROOK, 64);
    let g9 = g8 + piece_group(p, Type::BISHOP, 64);
    let g10 = g9 + piece_group(p, Type::KNIGHT, 64);
    let g11 = g10 + piece_group(p, Type::KING, 64);
    let g12 = g11 + castle_moves(p, Castling::QUEENSIDE);
    let g13 = g12 + castle_moves(p, Castling::KINGSIDE);
    if g0.contains(m) || pawn_group(p, 1, 64).contains(m) {
        lemma_concat_has(g0, pawn_group(p, 1, 64), m);
    }
    if g1.contains(m) || pawn_group(p, 2, 64).contains(m) {
        lemma_concat_has(g1, pawn_group(p, 2, 64), m);
    }
    if g2.contains(m) || pawn_group(p, 3, 64).contains(m) {
        lemma_concat_has(g2, pawn_group(p, 3, 64), m);
    }
    if g3.contains(m) || pawn_group(p, 4, 64).contains(m) {
        lemma_concat_has(g3, pawn_group(p, 4, 64), m);
    }
    if g4.contains(m) || pawn_group(p, 5, 64).contains(m) {
        lemma_concat_has(g4, pawn_group(p, 5, 64), m);
    }
    if g5.contains(m) || pawn_group(p, 6, 64).contains(m) {
        lemma_concat_has(g5, pawn_group(p, 6, 64), m);
    }
    if g6.contains(m) || piece_group(p, Type::QUEEN, 64).contains(m) {
        lemma_concat_has(g6, piece_group(p, Type::QUEEN, 64), m);
    }
    if g7.contains(m) || piece_group(p, Type::ROOK, 64).contains(m) {
        lemma_concat_has(g7, piece_group(p, Type::ROOK, 64), m);
    }
    if g8.contains(m) || piece_group(p, Type::BISHOP, 64).contains(m) {
        lemma_concat_has(g8, piece_group(p, Type::BISHOP, 64), m);
    }
    if g9.contains(m) || piece_group(p, Type::KNIGHT, 64).contains(m) {
        lemma_concat_has(g9, piece_group(p, Type::KNIGHT, 64), m);
    }
    if g10.contains(m) || piece_group(p, Type::KING, 64).contains(m) {
        lemma_concat_has(g10, piece_group(p, Type::KING, 64), m);
    }
    if g11.contains(m) || castle_moves(p, Castling::QUEENSIDE).contains(m) {
        lemma_concat_has(g11, castle_moves(p, Castling::QUEENSIDE), m);
    }
    if g12.contains(m) || castle_moves(p, Castling::KINGSIDE).contains(m) {
        lemma_concat_has(g12, castle_moves(p, Castling::KINGSIDE), m);
    }
    assert(g13 == spec_moves(p));
}

/// Every pseudo-legal move is generated. Together with
/// `lemma_generated_distinct`: the generated moves are the pseudo-legal
/// moves, each of them once.
pub proof fn lemma_pseudo_legal_generated(p: PositionView, m: Move)
    requires
        p.valid(),
        pseudo_legal(p, m),
    ensures
        spec_moves(p).contains(m),
{
    broadcast use Square::lemma_of_view;

    let src = m.m_src@;
    let dst = m.m_dst@;
    Square::lemma_view_injective(Square::of(src), m.m_src);
    Square::lemma_view_injective(Square::of(dst), m.m_dst);
    match m.m_ptype {
        Some(t) => {
            let g: int = if pawn_target(p, 0, src) == Some(dst) {
                0
            } else if pawn_target(p, 1, src) == Some(dst) {
                1
            } else {
                2
            };
            let ms = pawn_moves_at(p, g, src);
            assert(ms == promotions(src, dst));
            let i: int = if t == Type::QUEEN {
                0
            } else if t == Type::KNIGHT {
                1
            } else if t == Type::ROOK {
                2
            } else {
                3
            };
            assert(ms[i] == m);
            lemma_pawn_group_has(p, g, 64, src, m);
        },
        None => {
            assert(m == plain(src, dst));
            if pawn_target(p, 3, src) == Some(dst) {
                assert(pawn_moves_at(p, 3, src)[0] == m);
                lemma_pawn_group_has(p, 3, 64, src, m);
            } else if pawn_target(p, 4, src) == Some(dst) {
                assert(pawn_moves_at(p, 4, src)[0] == m);
                lemma_pawn_group_has(p, 4, 64, src, m);
            } else if pawn_target(p, 5, src) == Some(dst) {
                assert(pawn_moves_at(p, 5, src)[0] == m);
                lemma_pawn_group_has(p, 5, 64, src, m);
            } else if pawn_target(p, 6, src) == Some(dst) {
                assert(pawn_moves_at(p, 6, src)[0] == m);
                lemma_pawn_group_has(p, 6, 64, src, m);
            } else if piece_move(p, src, dst) {
                let ty = p.board[src]->0.ptype;
                lemma_piece_group_has(p, ty, 64, src, dst);
            } else {
                let h = home_rank(p.ctm) * 8;
                if dst == h + 2 {
                    assert(castle_moves(p, Castling::QUEENSIDE)[0] == m);
                } else {
                    assert(castle_moves(p, Castling::KINGSIDE)[0] == m);
                }
            }
        },
    }
    lemma_group_member_generated(p, m);
}

/// Every generated move can be made and taken back, and taking it back gives
/// the position from before, as long as the en-passant target is sound and
/// both clocks can still be counted up.
pub proof fn lemma_generated_reversible(p: PositionView, i: int)
    requires
        p.valid(),
        en_passant_sound(p),
        p.top().hm_clock < u32::MAX,
        p.top().fm_number < u32::MAX,
        0 <= i < spec_moves(p).len(),
    ensures
        playable(p, spec_moves(p)[i]),
        retractable(spec_make(p, spec_moves(p)[i]), spec_moves(p)[i]),
        spec_unmake(spec_make(p, spec_moves(p)[i]), spec_moves(p)[i]) == p,
{
    lemma_moves_ordered(p);
    let m = spec_moves(p)[i];
    assert(pseudo_legal(p, m));
    lemma_pseudo_legal_playable(p, m);
    lemma_make_unmake(p, m);
}

} // verus!
