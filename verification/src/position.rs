//! Positions: a board, the side to move, and a stack of ply frames; making a
//! move and taking it back.

use vstd::prelude::*;
use crate::attacks::forward;
use crate::board::{attackers, attacks, lemma_board_determined, Board, Placement};
use crate::gmove::{is_promotion_type, Move};
use crate::piece::{Color, Piece, Type};
use crate::square::Square;

verus! {

/// The wing on which a king castles.
#[allow(non_camel_case_types)]
#[derive(PartialEq, Eq, Structural, Debug, Copy, Clone)]
pub enum Castling {
    QUEENSIDE,
    KINGSIDE,
}

impl Castling {
    /// 0 for the queen's wing, 1 for the king's.
    pub open spec fn ordinal(self) -> int {
        match self {
            Castling::QUEENSIDE => 0,
            Castling::KINGSIDE => 1,
        }
    }

    pub fn index(&self) -> (i: usize)
        ensures
            i == self.ordinal(),
            i < 2,
    {
        match self {
            Castling::QUEENSIDE => 0,
            Castling::KINGSIDE => 1,
        }
    }
}

/// The castling rights of both colors on both wings.
#[derive(PartialEq, Eq, Structural, Debug, Copy, Clone)]
pub struct Rights {
    pub white_queenside: bool,
    pub white_kingside: bool,
    pub black_queenside: bool,
    pub black_kingside: bool,
}

impl Rights {
    /// No right at all.
    pub open spec fn spec_none() -> Rights {
        Rights {
            white_queenside: false,
            white_kingside: false,
            black_queenside: false,
            black_kingside: false,
        }
    }

    /// Whether color `c` may still castle on wing `side`.
    pub open spec fn spec_has(self, c: Color, side: Castling) -> bool {
        match (c, side) {
            (Color::WHITE, Castling::QUEENSIDE) => self.white_queenside,
            (Color::WHITE, Castling::KINGSIDE) => self.white_kingside,
            (Color::BLACK, Castling::QUEENSIDE) => self.black_queenside,
            (Color::BLACK, Castling::KINGSIDE) => self.black_kingside,
        }
    }

    /// The rights with that of color `c` on wing `side` set to `v`.
    pub open spec fn spec_with(self, c: Color, side: Castling, v: bool) -> Rights {
        match (c, side) {
            (Color::WHITE, Castling::QUEENSIDE) => Rights { white_queenside: v, ..self },
            (Color::WHITE, Castling::KINGSIDE) => Rights { white_kingside: v, ..self },
            (Color::BLACK, Castling::QUEENSIDE) => Rights { black_queenside: v, ..self },
            (Color::BLACK, Castling::KINGSIDE) => Rights { black_kingside: v, ..self },
        }
    }

    /// The rights without those of color `c`.
    pub open spec fn spec_without_color(self, c: Color) -> Rights {
        self.spec_with(c, Castling::QUEENSIDE, false).spec_with(c, Castling::KINGSIDE, false)
    }

    pub fn none() -> (r: Rights)
        ensures
            r == Rights::spec_none(),
    {
        Rights {
            white_queenside: false,
            white_kingside: false,
            black_queenside: false,
            black_kingside: false,
        }
    }

    pub fn has(&self, c: Color, side: Castling) -> (r: bool)
        ensures
            r == self.spec_has(c, side),
    {
        match (c, side) {
            (Color::WHITE, Castling::QUEENSIDE) => self.white_queenside,
            (Color::WHITE, Castling::KINGSIDE) => self.white_kingside,
            (Color::BLACK, Castling::QUEENSIDE) => self.black_queenside,
            (Color::BLACK, Castling::KINGSIDE) => self.black_kingside,
        }
    }

    pub fn with(self, c: Color, side: Castling, v: bool) -> (r: Rights)
        ensures
            r == self.spec_with(c, side, v),
    {
        let mut r = self;
        match (c, side) {
            (Color::WHITE, Castling::QUEENSIDE) => {
                r.white_queenside = v;
            },
            (Color::WHITE, Castling::KINGSIDE) => {
                r.white_kingside = v;
            },
            (Color::BLACK, Castling::QUEENSIDE) => {
                r.black_queenside = v;
            },
            (Color::BLACK, Castling::KINGSIDE) => {
                r.black_kingside = v;
            },
        }
        r
    }

    pub fn without_color(self, c: Color) -> (r: Rights)
        ensures
            r == self.spec_without_color(c),
    {
        self.with(c, Castling::QUEENSIDE, false).with(c, Castling::KINGSIDE, false)
    }
}

/// A ply frame: what a position records beside its board for one half-move.
#[derive(Clone, Copy, Eq, PartialEq, Debug)]
pub struct State {
    /// The square that a pawn skipped on the move before, if it made a
    /// double step.
    pub ep_target: Option<Square>,
    /// The piece that the move before captured.
    pub captured: Option<Piece>,
    /// The square on which it was captured.
    pub capture_square: Option<Square>,
    /// The number of the full move.
    pub fm_number: u32,
    /// The halfmove clock.
    pub hm_clock: u32,
    /// The castling rights.
    pub castling: Rights,
    /// The move that led to this frame.
    pub last_move: Option<Move>,
}

/// What a position is: the pieces on the board, the side to move, and the
/// ply frames, the current one last.
pub struct PositionView {
    pub board: Placement,
    pub ctm: Color,
    pub frames: Seq<State>,
}

impl PositionView {
    /// The current frame.
    pub open spec fn top(self) -> State {
        self.frames.last()
    }

    /// A board of 64 squares and at least one frame.
    pub open spec fn valid(self) -> bool {
        self.board.len() == 64 && self.frames.len() >= 1
    }
}

/// The first rank of color `c`.
pub open spec fn home_rank(c: Color) -> int {
    match c {
        Color::WHITE => 0,
        Color::BLACK => 7,
    }
}

/// The number of files between `s` and `t`.
pub open spec fn file_gap(s: int, t: int) -> int {
    if s % 8 >= t % 8 {
        s % 8 - t % 8
    } else {
        t % 8 - s % 8
    }
}

/// The number of ranks between `s` and `t`.
pub open spec fn rank_gap(s: int, t: int) -> int {
    if s / 8 >= t / 8 {
        s / 8 - t / 8
    } else {
        t / 8 - s / 8
    }
}

/// The move takes a pawn to the en-passant target.
pub open spec fn is_en_passant(p: PositionView, m: Move) -> bool {
    p.top().ep_target is Some && p.board[m.m_src@] is Some && p.board[m.m_src@]->0.ptype
        == Type::PAWN && m.m_dst@ == p.top().ep_target->0@
}

/// The square of the pawn that an en-passant capture by the side to move
/// takes: one rank behind the target.
pub open spec fn victim_square(p: PositionView, m: Move) -> int {
    m.m_dst@ - 8 * forward(p.ctm)
}

/// The move takes a king more than one file away: it castles.
pub open spec fn is_castle(b: Placement, src: int, dst: int) -> bool {
    b[src] is Some && b[src]->0.ptype == Type::KING && file_gap(src, dst) > 1
}

/// The square that the rook leaves when the king castles from `src` to
/// `dst`.
pub open spec fn rook_from(src: int, dst: int) -> int {
    (src / 8) * 8 + (if dst % 8 == 2 {
        0int
    } else {
        7int
    })
}

/// The square that the rook reaches when the king castles from `src` to
/// `dst`.
pub open spec fn rook_to(src: int, dst: int) -> int {
    (src / 8) * 8 + (if dst % 8 == 2 {
        3int
    } else {
        5int
    })
}

/// The moves that `make_move` accepts in position `p`. The move takes a
/// piece of the side to move to another square that holds no piece of that
/// side. A promotion is that of a pawn, to queen, rook, bishop or knight. A
/// pawn that lands on the en-passant target finds the target empty and an
/// enemy piece one rank behind it. A king that goes more than one file lands
/// on file c or g, and finds a piece on the corner of its rank on that wing
/// and the square next to its destination empty. Both clocks can still be
/// counted up.
pub open spec fn playable(p: PositionView, m: Move) -> bool {
    let b = p.board;
    let src = m.m_src@;
    let dst = m.m_dst@;
    let v = victim_square(p, m);
    &&& 0 <= src < 64
    &&& 0 <= dst < 64
    &&& src != dst
    &&& b[src] is Some
    &&& b[src]->0.color == p.ctm
    &&& (b[dst] is Some ==> b[dst]->0.color != p.ctm)
    &&& (m.m_ptype is Some ==> b[src]->0.ptype == Type::PAWN && is_promotion_type(m.m_ptype->0))
    &&& (is_en_passant(p, m) ==> b[dst] is None && 0 <= v < 64 && b[v] is Some && b[v]->0.color
        != p.ctm)
    &&& (is_castle(b, src, dst) ==> (dst % 8 == 2 || dst % 8 == 6) && rook_from(src, dst) != src
        && b[rook_from(src, dst)] is Some && b[rook_to(src, dst)] is None)
    &&& p.top().hm_clock < u32::MAX
    &&& p.top().fm_number < u32::MAX
}

/// The piece that arrives on the destination: the promoted piece, or the
/// piece that left the source.
pub open spec fn arriving_piece(p: PositionView, m: Move) -> Piece {
    match m.m_ptype {
        Some(t) => Piece { ptype: t, color: p.ctm },
        None => p.board[m.m_src@]->0,
    }
}

/// The pieces on the board after the move.
pub open spec fn board_after(p: PositionView, m: Move) -> Placement {
    let b0 = p.board;
    let src = m.m_src@;
    let dst = m.m_dst@;
    let b1 = if is_en_passant(p, m) {
        b0.update(victim_square(p, m), None)
    } else {
        b0
    };
    let b2 = if is_castle(b0, src, dst) {
        b1.update(rook_from(src, dst), None).update(rook_to(src, dst), b0[rook_from(src, dst)])
    } else {
        b1
    };
    b2.update(src, None).update(dst, Some(arriving_piece(p, m)))
}

/// The castling rights after the move: a king's move takes both rights of
/// its color, a rook's move from a corner takes the right of that corner.
pub open spec fn rights_after(p: PositionView, m: Move) -> Rights {
    let r = p.top().castling;
    let ty = p.board[m.m_src@]->0.ptype;
    let src = m.m_src@;
    if ty == Type::KING {
        r.spec_without_color(p.ctm)
    } else if ty == Type::ROOK {
        if src == 0 {
            r.spec_with(Color::WHITE, Castling::QUEENSIDE, false)
        } else if src == 7 {
            r.spec_with(Color::WHITE, Castling::KINGSIDE, false)
        } else if src == 56 {
            r.spec_with(Color::BLACK, Castling::QUEENSIDE, false)
        } else if src == 63 {
            r.spec_with(Color::BLACK, Castling::KINGSIDE, false)
        } else {
            r
        }
    } else {
        r
    }
}

/// The frame that the move pushes.
pub open spec fn frame_after(p: PositionView, m: Move) -> State {
    let b = p.board;
    let src = m.m_src@;
    let dst = m.m_dst@;
    let ep = is_en_passant(p, m);
    State {
        ep_target: if b[src]->0.ptype == Type::PAWN && rank_gap(src, dst) > 1 {
            Some(Square::of(((src / 8 + dst / 8) / 2) * 8 + src % 8))
        } else {
            None
        },
        captured: if ep {
            b[victim_square(p, m)]
        } else {
            b[dst]
        },
        capture_square: if ep {
            Some(Square::of(victim_square(p, m)))
        } else if b[dst] is Some {
            Some(m.m_dst)
        } else {
            None
        },
        fm_number: (p.top().fm_number + (if p.ctm == Color::WHITE {
            1int
        } else {
            0int
        })) as u32,
        hm_clock: (p.top().hm_clock + 1) as u32,
        castling: rights_after(p, m),
        last_move: Some(m),
    }
}

/// The position after the move: the pieces moved, the new frame pushed, the
/// other side to move.
pub open spec fn spec_make(p: PositionView, m: Move) -> PositionView {
    PositionView {
        board: board_after(p, m),
        ctm: p.ctm.other(),
        frames: p.frames.push(frame_after(p, m)),
    }
}

/// Square `x` must not be attacked for a move of `mover` to be legal: it
/// holds the king of `mover`, or the king has just castled over it towards
/// the given wing.
pub open spec fn guarded(b: Placement, mover: Color, wing: Option<Castling>, x: int) -> bool {
    ||| b[x] == Some(Piece { ptype: Type::KING, color: mover })
    ||| (wing == Some(Castling::QUEENSIDE) && x / 8 == home_rank(mover) && 2 <= x % 8 <= 4)
    ||| (wing == Some(Castling::KINGSIDE) && x / 8 == home_rank(mover) && 4 <= x % 8 <= 6)
}

/// No guarded square is attacked by the other side.
pub open spec fn king_safe(b: Placement, mover: Color, wing: Option<Castling>) -> bool {
    forall|x: int|
        0 <= x < 64 && guarded(b, mover, wing, x) ==> #[trigger] attackers(b, mover.other(), x)
            == 0
}

/// The wing towards which the move castles, if it castles.
pub open spec fn castle_wing(p: PositionView, m: Move) -> Option<Castling> {
    if is_castle(p.board, m.m_src@, m.m_dst@) {
        if m.m_dst@ % 8 == 2 {
            Some(Castling::QUEENSIDE)
        } else {
            Some(Castling::KINGSIDE)
        }
    } else {
        None
    }
}

/// The move is legal: after it, no piece of the other side attacks the
/// mover's king, nor, if the king castled, a square that it started from,
/// crossed or reached.
pub open spec fn is_legal(p: PositionView, m: Move) -> bool {
    king_safe(board_after(p, m), p.ctm, castle_wing(p, m))
}

/// The piece that goes back to the source when the move is taken back: a
/// pawn if the move promoted, else the piece on the destination.
pub open spec fn returning_piece(q: PositionView, m: Move) -> Piece {
    if m.m_ptype is Some {
        Piece { ptype: Type::PAWN, color: q.ctm.other() }
    } else {
        q.board[m.m_dst@]->0
    }
}

/// The board after a castling rook has gone back, if the move castled.
pub open spec fn board_uncastled(q: PositionView, m: Move) -> Placement {
    let b0 = q.board;
    let src = m.m_src@;
    let dst = m.m_dst@;
    if is_castle(b0, dst, src) {
        b0.update(rook_to(src, dst), None).update(rook_from(src, dst), b0[rook_to(src, dst)])
    } else {
        b0
    }
}

/// The board after the moved piece has gone back.
pub open spec fn board_returned(q: PositionView, m: Move) -> Placement {
    board_uncastled(q, m).update(m.m_dst@, None).update(m.m_src@, Some(returning_piece(q, m)))
}

/// The moves that `unmake_move` accepts in position `q`: the move is the
/// one that the current frame records, there is a frame below it, and the
/// board is one on which the move can be taken back square by square.
pub open spec fn retractable(q: PositionView, m: Move) -> bool {
    let b0 = q.board;
    let src = m.m_src@;
    let dst = m.m_dst@;
    let b1 = board_uncastled(q, m);
    let b2 = board_returned(q, m);
    &&& q.frames.len() >= 2
    &&& q.top().last_move == Some(m)
    &&& 0 <= src < 64
    &&& 0 <= dst < 64
    &&& src != dst
    &&& b0[dst] is Some
    &&& (is_castle(b0, dst, src) ==> (dst % 8 == 2 || dst % 8 == 6) && b0[rook_to(src, dst)] is Some
        && b0[rook_from(src, dst)] is None)
    &&& b1[src] is None
    &&& (q.top().capture_square is Some ==> q.top().captured is Some && 0
        <= q.top().capture_square->0@ < 64 && b2[q.top().capture_square->0@] is None)
}

/// The position after the move has been taken back.
pub open spec fn spec_unmake(q: PositionView, m: Move) -> PositionView {
    let b2 = board_returned(q, m);
    PositionView {
        board: match q.top().capture_square {
            Some(sq) => b2.update(sq@, q.top().captured),
            None => b2,
        },
        ctm: q.ctm.other(),
        frames: q.frames.drop_last(),
    }
}

/// Making a move and taking it back gives the position from before.
pub proof fn lemma_make_unmake(p: PositionView, m: Move)
    requires
        p.valid(),
        playable(p, m),
    ensures
        retractable(spec_make(p, m), m),
        spec_unmake(spec_make(p, m), m) == p,
{
    broadcast use Square::lemma_of_view;

    let q = spec_make(p, m);
    let src = m.m_src@;
    let dst = m.m_dst@;
    let b0 = p.board;
    assert(q.frames.drop_last() =~= p.frames);
    assert(q.top() == frame_after(p, m));
    assert(q.ctm.other() == p.ctm);
    assert(is_castle(q.board, dst, src) == is_castle(b0, src, dst));
    let r = spec_unmake(q, m);
    if is_en_passant(p, m) {
        assert(!is_castle(b0, src, dst));
        assert(r.board =~= b0);
    } else if is_castle(b0, src, dst) {
        assert(r.board =~= b0);
    } else {
        assert(r.board =~= b0);
    }
}

/// A position.
#[derive(Clone, Eq, PartialEq, Debug)]
pub struct Position {
    ply: Vec<State>,
    b: Board,
    ctm: Color,
}

impl Position {
    pub closed spec fn view(&self) -> PositionView {
        PositionView { board: self.b@, ctm: self.ctm, frames: self.ply@ }
    }

    /// The board of the position.
    pub closed spec fn spec_board(&self) -> Board {
        self.b
    }

    /// The invariant of a position: its board is well formed, and there is at
    /// least one frame.
    pub open spec fn wf(&self) -> bool {
        &&& self.spec_board().wf()
        &&& self.spec_board()@ == self@.board
        &&& self@.frames.len() >= 1
    }

    /// The position with the given board, side to move and single frame.
    pub fn from_parts(b: Board, ctm: Color, frame: State) -> (p: Position)
        requires
            b.wf(),
        ensures
            p.wf(),
            p.spec_board() == b,
            p@ == (PositionView { board: b@, ctm, frames: seq![frame] }),
    {
        let mut ply: Vec<State> = Vec::new();
        ply.push(frame);
        assert(ply@ =~= seq![frame]);
        Position { ply, b, ctm }
    }

    /// The board of the position.
    pub fn board(&self) -> (b: &Board)
        ensures
            *b == self.spec_board(),
            b@ == self@.board,
    {
        &self.b
    }

    /// The side to move.
    pub fn side_to_move(&self) -> (c: Color)
        ensures
            c == self@.ctm,
    {
        self.ctm
    }

    /// The current frame.
    pub fn state(&self) -> (s: State)
        requires
            self.wf(),
        ensures
            s == self@.top(),
    {
        self.ply[self.ply.len() - 1]
    }

    /// The number of frames on the stack.
    pub fn ply_count(&self) -> (n: usize)
        ensures
            n == self@.frames.len(),
    {
        self.ply.len()
    }

    /// Whether no guarded square is attacked by the other side.
    fn is_safe(&self, mover: Color, wing: Option<Castling>) -> (r: bool)
        requires
            self.b.wf(),
        ensures
            r == king_safe(self.b@, mover, wing),
    {
        let opp = mover.flip();
        let home: usize = match mover {
            Color::WHITE => 0,
            Color::BLACK => 7,
        };
        let mut safe = true;
        let mut x: usize = 0;
        while x < 64
            invariant
                x <= 64,
                self.b.wf(),
                opp == mover.other(),
                home == home_rank(mover),
                safe == (forall|y: int|
                    0 <= y < x && guarded(self.b@, mover, wing, y) ==> #[trigger] attackers(
                        self.b@,
                        opp,
                        y,
                    ) == 0),
            decreases 64 - x,
        {
            let sq = Square::from_index(x).unwrap();
            let is_king = match self.b.piece_at(sq) {
                Some(pc) => pc.ptype == Type::KING && pc.color == mover,
                None => false,
            };
            let f = x % 8;
            let crossed = match wing {
                Some(Castling::QUEENSIDE) => x / 8 == home && 2 <= f && f <= 4,
                Some(Castling::KINGSIDE) => x / 8 == home && 4 <= f && f <= 6,
                None => false,
            };
            assert((is_king || crossed) == guarded(self.b@, mover, wing, x as int));
            if (is_king || crossed) && self.b.attack_count(opp, sq) > 0 {
                assert(self.b.ad_at(opp, x as int) == attackers(self.b@, opp, x as int));
                safe = false;
            } else {
                assert(self.b.ad_at(opp, x as int) == attackers(self.b@, opp, x as int));
            }
            x += 1;
        }
        safe
    }

    /// Whether `make_move` accepts the move `m` in this position.
    pub fn can_make(&self, m: &Move) -> (r: bool)
        requires
            self.wf(),
        ensures
            r == playable(self@, *m),
    {
        let top = self.state();
        let src = m.src();
        let dst = m.dst();
        let si = src.index();
        let di = dst.index();
        let mover = self.ctm;
        if si == di || top.hm_clock == u32::MAX || top.fm_number == u32::MAX {
            return false;
        }
        let pc = match self.b.piece_at(src) {
            Some(pc) => pc,
            None => {
                return false;
            },
        };
        if pc.color != mover {
            return false;
        }
        let target = self.b.piece_at(dst);
        match target {
            Some(q) => {
                if q.color == mover {
                    return false;
                }
            },
            None => {},
        }
        match m.ptype() {
            Some(t) => {
                if pc.ptype != Type::PAWN || t == Type::PAWN || t == Type::KING {
                    return false;
                }
            },
            None => {},
        }
        match top.ep_target {
            Some(e) => {
                if pc.ptype == Type::PAWN && di == e.index() {
                    if target.is_some() {
                        return false;
                    }
                    let v: usize = match mover {
                        Color::WHITE => {
                            if di < 8 {
                                return false;
                            }
                            di - 8
                        },
                        Color::BLACK => {
                            if di >= 56 {
                                return false;
                            }
                            di + 8
                        },
                    };
                    match self.b.piece_at(Square::from_index(v).unwrap()) {
                        Some(q) => {
                            if q.color == mover {
                                return false;
                            }
                        },
                        None => {
                            return false;
                        },
                    }
                }
            },
            None => {},
        }
        if pc.ptype == Type::KING {
            let fs = src.file();
            let fd = dst.file();
            let far = if fs > fd {
                fs - fd > 1
            } else {
                fd - fs > 1
            };
            if far {
                if fd != 2 && fd != 6 {
                    return false;
                }
                let (from_file, to_file): (usize, usize) = if fd == 2 {
                    (0, 3)
                } else {
                    (7, 5)
                };
                if fs == from_file {
                    return false;
                }
                if self.b.piece_at(Square::at(src.rank(), from_file)).is_none() {
                    return false;
                }
                if self.b.piece_at(Square::at(src.rank(), to_file)).is_some() {
                    return false;
                }
            }
        }
        true
    }

    /// Whether `unmake_move` accepts the move `m` in this position.
    pub fn can_unmake(&self, m: &Move) -> (r: bool)
        requires
            self.wf(),
        ensures
            r == retractable(self@, *m),
    {
        let ghost qv = self@;
        let top = self.state();
        let src = m.src();
        let dst = m.dst();
        let si = src.index();
        let di = dst.index();
        if self.ply.len() < 2 || si == di {
            return false;
        }
        match top.last_move {
            Some(l) => {
                let same_promotion = match (l.ptype(), m.ptype()) {
                    (Some(a), Some(b)) => a == b,
                    (None, None) => true,
                    _ => false,
                };
                if l.src().index() != si || l.dst().index() != di || !same_promotion {
                    proof {
                        assert(l != *m);
                    }
                    return false;
                }
                proof {
                    Square::lemma_view_injective(l.m_src, m.m_src);
                    Square::lemma_view_injective(l.m_dst, m.m_dst);
                    assert(l == *m);
                }
            },
            None => {
                return false;
            },
        }
        let moved = match self.b.piece_at(dst) {
            Some(pc) => pc,
            None => {
                return false;
            },
        };
        // The squares that a castling rook goes back from and to.
        let mut rook_squares: Option<(usize, usize)> = None;
        if moved.ptype == Type::KING {
            let fs = src.file();
            let fd = dst.file();
            let far = if fs > fd {
                fs - fd > 1
            } else {
                fd - fs > 1
            };
            if far {
                if fd != 2 && fd != 6 {
                    return false;
                }
                let (from_file, to_file): (usize, usize) = if fd == 2 {
                    (0, 3)
                } else {
                    (7, 5)
                };
                let from = src.rank() * 8 + from_file;
                let to = src.rank() * 8 + to_file;
                if self.b.piece_at(Square::from_index(to).unwrap()).is_none() {
                    return false;
                }
                if self.b.piece_at(Square::from_index(from).unwrap()).is_some() {
                    return false;
                }
                rook_squares = Some((from, to));
            }
        }
        let ghost b1 = board_uncastled(qv, *m);
        let ghost b2 = board_returned(qv, *m);
        // The source must be empty once the rook is back.
        let src_empty = match rook_squares {
            Some((from, to)) => si != from && (si == to || self.b.piece_at(src).is_none()),
            None => self.b.piece_at(src).is_none(),
        };
        assert(src_empty == (b1[si as int] is None));
        if !src_empty {
            return false;
        }
        match top.capture_square {
            Some(sq) => {
                if top.captured.is_none() {
                    return false;
                }
                let ci = sq.index();
                // The capture square must be empty once the piece is back.
                let empty = if ci == si {
                    false
                } else if ci == di {
                    true
                } else {
                    match rook_squares {
                        Some((from, to)) => ci != from && (ci == to || self.b.piece_at(
                            sq,
                        ).is_none()),
                        None => self.b.piece_at(sq).is_none(),
                    }
                };
                assert(empty == (b2[ci as int] is None));
                empty
            },
            None => true,
        }
    }

    /// Makes the move `m` and says whether it was legal. Legal or not, the
    /// move stands until it is taken back with `unmake_move`.
    pub fn make_move(&mut self, m: Move) -> (legal: bool)
        requires
            old(self).wf(),
            playable(old(self)@, m),
        ensures
            final(self).wf(),
            final(self)@ == spec_make(old(self)@, m),
            final(self).spec_board().zobrist() == old(self).spec_board().zobrist(),
            legal == is_legal(old(self)@, m),
    {
        broadcast use Square::lemma_of_view;

        let ghost pv = self@;
        let ghost b0 = self.b@;
        let n = self.ply.len();
        let last_state: State = self.ply[n - 1];
        let src = m.src();
        let dst = m.dst();
        let mover = self.ctm;
        let moving: Piece = self.b.piece_at(src).unwrap();

        let mut new_state = State {
            ep_target: None,
            captured: None,
            capture_square: None,
            fm_number: last_state.fm_number,
            hm_clock: last_state.hm_clock + 1,
            castling: last_state.castling,
            last_move: Some(m),
        };
        if mover == Color::WHITE {
            new_state.fm_number = new_state.fm_number + 1;
        }
        // A move onto an enemy piece captures it.

        if self.b.piece_at(dst).is_some() {
            new_state.captured = Some(self.b.remove(dst));
            new_state.capture_square = Some(dst);
        }
        // A pawn that lands on the en-passant target captures the pawn behind it.

        match last_state.ep_target {
            Some(t) => {
                if moving.ptype == Type::PAWN && dst.index() == t.index() {
                    let v: usize = match mover {
                        Color::WHITE => dst.index() - 8,
                        Color::BLACK => dst.index() + 8,
                    };
                    let ep_square = Square::from_index(v).unwrap();
                    new_state.captured = Some(self.b.remove(ep_square));
                    new_state.capture_square = Some(ep_square);
                    proof {
                        Square::lemma_view_injective(ep_square, Square::of(victim_square(pv, m)));
                    }
                }
            },
            None => {},
        }
        let mut wing: Option<Castling> = None;
        if moving.ptype == Type::KING {
            let fs = src.file();
            let fd = dst.file();
            let far = if fs > fd {
                fs - fd > 1
            } else {
                fd - fs > 1
            };
            if far {
                // The king castles: the rook goes to the square that the king crossed.
                let side = if fd == 2 {
                    Castling::QUEENSIDE
                } else {
                    Castling::KINGSIDE
                };
                wing = Some(side);
                let (from_file, to_file): (usize, usize) = match side {
                    Castling::QUEENSIDE => (0, 3),
                    Castling::KINGSIDE => (7, 5),
                };
                let rook = self.b.remove(Square::at(src.rank(), from_file));
                self.b.place(Square::at(src.rank(), to_file), rook);
            }
            new_state.castling = new_state.castling.without_color(mover);
        }
        if moving.ptype == Type::ROOK {
            let si = src.index();
            if si == 0 {
                new_state.castling = new_state.castling.with(
                    Color::WHITE,
                    Castling::QUEENSIDE,
                    false,
                );
            } else if si == 7 {
                new_state.castling = new_state.castling.with(
                    Color::WHITE,
                    Castling::KINGSIDE,
                    false,
                );
            } else if si == 56 {
                new_state.castling = new_state.castling.with(
                    Color::BLACK,
                    Castling::QUEENSIDE,
                    false,
                );
            } else if si == 63 {
                new_state.castling = new_state.castling.with(
                    Color::BLACK,
                    Castling::KINGSIDE,
                    false,
                );
            }
        }
        if moving.ptype == Type::PAWN {
            let rs = src.rank();
            let rd = dst.rank();
            let jump = if rs > rd {
                rs - rd > 1
            } else {
                rd - rs > 1
            };
            if jump {
                let t = Square::at((rs + rd) / 2, src.file());
                new_state.ep_target = Some(t);
                proof {
                    Square::lemma_view_injective(
                        t,
                        Square::of(((src@ / 8 + dst@ / 8) / 2) * 8 + src@ % 8),
                    );
                }
            }
        }
        let mut pc = self.b.remove(src);
        match m.ptype() {
            Some(t) => {
                pc = Piece::from(t, mover);
            },
            None => {},
        }
        self.b.place(dst, pc);
        proof {
            assert(self.b@ =~= board_after(pv, m));
            assert(wing == castle_wing(pv, m));
            assert(new_state == frame_after(pv, m));
        }
        let legal = self.is_safe(mover, wing);
        self.ply.push(new_state);
        self.ctm = mover.flip();
        legal
    }

    /// Takes back the move `m`, which must be the move made last.
    pub fn unmake_move(&mut self, m: Move)
        requires
            old(self).wf(),
            retractable(old(self)@, m),
        ensures
            final(self).wf(),
            final(self)@ == spec_unmake(old(self)@, m),
            final(self).spec_board().zobrist() == old(self).spec_board().zobrist(),
    {
        let ghost qv = self@;
        let last_state = self.ply.pop().unwrap();
        let src = m.src();
        let dst = m.dst();
        let mover = self.ctm.flip();
        let moved: Piece = self.b.piece_at(dst).unwrap();
        if moved.ptype == Type::KING {
            let fs = src.file();
            let fd = dst.file();
            let far = if fs > fd {
                fs - fd > 1
            } else {
                fd - fs > 1
            };
            if far {
                let (from_file, to_file): (usize, usize) = if fd == 2 {
                    (0, 3)
                } else {
                    (7, 5)
                };
                let rook = self.b.remove(Square::at(src.rank(), to_file));
                self.b.place(Square::at(src.rank(), from_file), rook);
            }
        }
        assert(self.b@ =~= board_uncastled(qv, m));
        let mut p = self.b.remove(dst);
        if m.ptype().is_some() {
            p = Piece::from(Type::PAWN, mover);
        }
        self.b.place(src, p);
        assert(self.b@ =~= board_returned(qv, m));
        match last_state.capture_square {
            Some(sq) => {
                let _ = sq.index();
                self.b.place(sq, last_state.captured.unwrap());
            },
            None => {},
        }
        self.ctm = mover;
    }
}

/// Making a move and taking it back leaves the position as it was, bit for
/// bit: the board with its key, occupancy sets and counters, the side to
/// move, and every frame of the stack.
pub proof fn lemma_make_unmake_exact(before: Position, made: Position, after: Position, m: Move)
    requires
        before.wf(),
        made.wf(),
        after.wf(),
        playable(before@, m),
        made@ == spec_make(before@, m),
        after@ == spec_unmake(made@, m),
        after.spec_board().zobrist() == before.spec_board().zobrist(),
    ensures
        after@ == before@,
        after.spec_board() == before.spec_board(),
{
    assert(before@.valid());
    lemma_make_unmake(before@, m);
    lemma_board_determined(after.spec_board(), before.spec_board());
}

} // verus!
