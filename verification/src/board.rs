//! The board: which piece stands on which square, the occupancy sets, the
//! Zobrist key, and for every square the number of pieces of each color that
//! attack it, kept up to date as pieces come and go.

use vstd::prelude::*;
use crate::attacks;
use crate::attacks::{
    between,
    bishop_line,
    clear,
    king_step,
    knight_step,
    pawn_step,
    rook_line,
};
use crate::bitboard::{
    bit,
    has,
    lemma_bit_and,
    lemma_bit_or,
    lemma_bit_xor,
    lemma_bit_zero,
};
use crate::count::{
    count,
    lemma_count_bound,
    lemma_count_differ_at,
    lemma_count_eq,
    lemma_count_none,
    lemma_count_positive,
    one_if,
};
use crate::piece::{Color, Piece, Type};
use crate::square::Square;
use crate::zobrist::Zobrist;

verus! {

/// The pieces of a board by square: entry `i` is the piece on square `i`.
pub type Placement = Seq<Option<Piece>>;

/// No square strictly between `s` and `t` holds a piece.
pub open spec fn path_clear(b: Placement, s: int, t: int) -> bool {
    forall|x: int| 0 <= x < 64 && between(s, t, x) ==> (#[trigger] b[x]) is None
}

/// A piece of type `ty` on `s` moves along the line from `s` to `t`.
pub open spec fn slides_along(ty: Type, s: int, t: int) -> bool {
    ((ty == Type::ROOK || ty == Type::QUEEN) && rook_line(s, t)) || ((ty == Type::BISHOP || ty
        == Type::QUEEN) && bishop_line(s, t))
}

/// The piece `p`, standing on `s`, attacks `t` on the board `b`.
pub open spec fn piece_attacks(b: Placement, p: Piece, s: int, t: int) -> bool {
    0 <= t < 64 && match p.ptype {
        Type::PAWN => pawn_step(p.color, s, t),
        Type::KNIGHT => knight_step(s, t),
        Type::KING => king_step(s, t),
        _ => slides_along(p.ptype, s, t) && path_clear(b, s, t),
    }
}

/// A piece of color `c` stands on `s` and attacks `t`.
pub open spec fn attacks(b: Placement, c: Color, s: int, t: int) -> bool {
    0 <= s < 64 && b[s] is Some && b[s]->0.color == c && piece_attacks(b, b[s]->0, s, t)
}

/// The number of pieces of color `c` that attack `t`.
pub open spec fn attackers(b: Placement, c: Color, t: int) -> nat {
    count(|s: int| attacks(b, c, s, t), 64)
}

/// A bishop, rook or queen stands on `u`, and `s` lies on one of its lines
/// with nothing in between.
pub open spec fn sees(b: Placement, u: int, s: int) -> bool {
    0 <= u < 64 && b[u] is Some && slides_along(b[u]->0.ptype, u, s) && path_clear(b, u, s)
}

/// What square `i` adds to the key: the key of its piece, or 0.
pub open spec fn key_term(b: Placement, z: Zobrist, i: int) -> u64 {
    match b[i] {
        Some(p) => z.piece_key(i, p.ordinal()),
        None => 0,
    }
}

/// The exclusive or of the keys of the pieces on the squares below `n`.
pub open spec fn key_fold(b: Placement, z: Zobrist, n: int) -> u64
    decreases n,
{
    if n <= 0 {
        0
    } else {
        key_fold(b, z, n - 1) ^ key_term(b, z, n - 1)
    }
}

/// The attackers of `t` that are not among the first `lim` squares of
/// `skip`.
pub open spec fn without_upto(b: Placement, c: Color, t: int, skip: u64, lim: int) -> spec_fn(
    int,
) -> bool {
    |u: int| attacks(b, c, u, t) && !(bit(skip, u) && u < lim)
}

/// The attackers of `t` that are not in `skip`, or are among its first `lim`
/// squares.
pub open spec fn with_upto(b: Placement, c: Color, t: int, skip: u64, lim: int) -> spec_fn(
    int,
) -> bool {
    |u: int| attacks(b, c, u, t) && (bit(skip, u) ==> u < lim)
}

pub proof fn lemma_between_symmetric(s: int, t: int, x: int)
    ensures
        between(s, t, x) == between(t, s, x),
{
}

/// A change of what stands on `s` leaves the attacks of the piece on `u`
/// as they were, unless that piece is a slider that sees `s`.
pub proof fn lemma_attack_unchanged(b0: Placement, b1: Placement, s: int, u: int, c: Color, t: int)
    requires
        b0.len() == 64,
        b1.len() == 64,
        0 <= s < 64,
        0 <= u < 64,
        u != s,
        forall|x: int| 0 <= x < 64 && x != s ==> b0[x] == b1[x],
        !sees(b0, u, s),
    ensures
        attacks(b0, c, u, t) == attacks(b1, c, u, t),
{
    assert(b0[u] == b1[u]);
    if b0[u] is Some && 0 <= t < 64 {
        let p = b0[u]->0;
        if slides_along(p.ptype, u, t) && (p.ptype == Type::ROOK || p.ptype == Type::BISHOP
            || p.ptype == Type::QUEEN) {
            if between(u, t, s) {
                assert(slides_along(p.ptype, u, s));
                assert(!path_clear(b0, u, s));
                let y = choose|y: int| 0 <= y < 64 && between(u, s, y) && !(#[trigger] b0[y] is None);
                assert(between(u, t, y));
                assert(b1[y] == b0[y]);
                assert(!path_clear(b0, u, t));
                assert(!path_clear(b1, u, t));
            } else {
                assert(path_clear(b0, u, t) == path_clear(b1, u, t)) by {
                    if path_clear(b0, u, t) {
                        assert forall|x: int| 0 <= x < 64 && between(u, t, x) implies (
                        #[trigger] b1[x]) is None by {
                            assert(b0[x] is None);
                        }
                    }
                    if path_clear(b1, u, t) {
                        assert forall|x: int| 0 <= x < 64 && between(u, t, x) implies (
                        #[trigger] b0[x]) is None by {
                            assert(b1[x] is None);
                        }
                    }
                }
            }
        }
    }
}

proof fn lemma_key_fold_change(b0: Placement, b1: Placement, z: Zobrist, s: int, n: int)
    requires
        0 <= s < 64,
        0 <= n <= 64,
        b0.len() == 64,
        b1.len() == 64,
        forall|x: int| 0 <= x < 64 && x != s ==> b0[x] == b1[x],
    ensures
        key_fold(b1, z, n) == (if s < n {
            key_fold(b0, z, n) ^ (key_term(b0, z, s) ^ key_term(b1, z, s))
        } else {
            key_fold(b0, z, n)
        }),
    decreases n,
{
    if n > 0 {
        lemma_key_fold_change(b0, b1, z, s, n - 1);
        let a = key_fold(b0, z, n - 1);
        let t0 = key_term(b0, z, s);
        let t1 = key_term(b1, z, s);
        if n - 1 == s {
            assert(a ^ t1 == (a ^ t0) ^ (t0 ^ t1)) by (bit_vector);
        } else if n - 1 > s {
            let t = key_term(b0, z, n - 1);
            assert(b0[n - 1] == b1[n - 1]);
            assert((a ^ (t0 ^ t1)) ^ t == (a ^ t) ^ (t0 ^ t1)) by (bit_vector);
        } else {
            assert(b0[n - 1] == b1[n - 1]);
        }
    }
}

proof fn lemma_key_fold_empty(b: Placement, z: Zobrist, n: int)
    requires
        0 <= n <= 64,
        b.len() == 64,
        forall|x: int| 0 <= x < 64 ==> (#[trigger] b[x]) is None,
    ensures
        key_fold(b, z, n) == 0,
    decreases n,
{
    if n > 0 {
        lemma_key_fold_empty(b, z, n - 1);
        assert(b[n - 1] is None);
        assert(0u64 ^ 0u64 == 0u64) by (bit_vector);
    }
}

/// The digit that stands for a run of `n` empty squares.
pub open spec fn digit_char(n: int) -> char {
    (('0' as int) + n) as char
}

/// The text of a run of `run` empty squares: its digit, or nothing for no
/// run.
pub open spec fn run_text(run: int) -> Seq<char> {
    if run > 0 {
        seq![digit_char(run)]
    } else {
        Seq::empty()
    }
}

/// The FEN text of rank `r` from file `f` on, after a run of `run` empty
/// squares.
pub open spec fn rank_text_from(b: Placement, r: int, f: int, run: int) -> Seq<char>
    decreases 8 - f,
{
    if f >= 8 {
        run_text(run)
    } else {
        match b[r * 8 + f] {
            Some(p) => run_text(run) + seq![p.letter()] + rank_text_from(b, r, f + 1, 0),
            None => rank_text_from(b, r, f + 1, run + 1),
        }
    }
}

/// The FEN text of rank `r`: the letters of its pieces from file a to file
/// h, with every run of empty squares written as its length.
pub open spec fn rank_text(b: Placement, r: int) -> Seq<char> {
    rank_text_from(b, r, 0, 0)
}

/// The FEN text of the ranks from `r` down to the first, separated by `/`.
pub open spec fn ranks_text_from(b: Placement, r: int) -> Seq<char>
    decreases r,
{
    if r <= 0 {
        rank_text(b, 0)
    } else {
        rank_text(b, r) + seq!['/'] + ranks_text_from(b, r - 1)
    }
}

/// The FEN text of the piece placement: the eight ranks, the eighth first.
pub open spec fn placement_text(b: Placement) -> Seq<char> {
    ranks_text_from(b, 7)
}

/// A board.
#[derive(Clone, PartialEq, Eq, Debug)]
pub struct Board {
    state: [Option<Piece>; 64],
    zkey: u64,
    ad: [[u64; 64]; 2],
    occ: u64,
    color: [u64; 2],
    piece: [u64; 6],
    keys: Zobrist,
}

impl Board {
    /// The piece on each square.
    pub closed spec fn view(&self) -> Placement {
        self.state@
    }

    /// The counter of attacks by color `c` on square `t`.
    pub closed spec fn ad_at(&self, c: Color, t: int) -> int {
        self.ad[c.ordinal()][t] as int
    }

    /// The Zobrist key that the board carries.
    pub closed spec fn spec_key(&self) -> u64 {
        self.zkey
    }

    /// The set of occupied squares that the board carries.
    pub closed spec fn spec_occ(&self) -> u64 {
        self.occ
    }

    /// The set of squares that the board carries for color `c`.
    pub closed spec fn spec_color_occ(&self, c: Color) -> u64 {
        self.color[c.ordinal()]
    }

    /// The set of squares that the board carries for type `t`.
    pub closed spec fn spec_piece_occ(&self, t: Type) -> u64 {
        self.piece[t.ordinal()]
    }

    /// The table of Zobrist keys that the board hashes with.
    pub closed spec fn zobrist(&self) -> Zobrist {
        self.keys
    }

    /// The occupancy sets agree with the pieces on the squares.
    pub open spec fn shape_ok(&self) -> bool {
        &&& self@.len() == 64
        &&& forall|i: int| #[trigger]
            bit(self.spec_occ(), i) == (0 <= i < 64 && self@[i] is Some)
        &&& forall|c: Color, i: int| #[trigger]
            bit(self.spec_color_occ(c), i) == (0 <= i < 64 && self@[i] is Some && self@[i]->0.color
                == c)
        &&& forall|t: Type, i: int| #[trigger]
            bit(self.spec_piece_occ(t), i) == (0 <= i < 64 && self@[i] is Some && self@[i]->0.ptype
                == t)
    }

    /// Every counter holds the number of attackers of its square.
    pub open spec fn counters_ok(&self) -> bool {
        forall|c: Color, t: int| 0 <= t < 64 ==> #[trigger] self.ad_at(c, t) == attackers(self@, c, t)
    }

    /// The invariant of a board: the occupancy sets agree with the pieces,
    /// every counter holds the number of pieces of its color that attack its
    /// square, and the key is the exclusive or of the keys of the pieces.
    pub open spec fn wf(&self) -> bool {
        &&& self.shape_ok()
        &&& self.counters_ok()
        &&& self.spec_key() == key_fold(self@, self.zobrist(), 64)
    }

    /// The two boards agree in everything but the counters.
    pub open spec fn same_pieces(&self, o: &Board) -> bool {
        &&& self@ == o@
        &&& self.spec_key() == o.spec_key()
        &&& self.spec_occ() == o.spec_occ()
        &&& forall|c: Color| #[trigger] self.spec_color_occ(c) == o.spec_color_occ(c)
        &&& forall|t: Type| #[trigger] self.spec_piece_occ(t) == o.spec_piece_occ(t)
        &&& self.zobrist() == o.zobrist()
    }

    proof fn lemma_same(self, b: Board)
        requires
            self.wf(),
            b.wf(),
            self@ == b@,
            self.zobrist() == b.zobrist(),
        ensures
            self == b,
    {
        assert(self.state =~= b.state);
        assert forall|i: int| 0 <= i < 64 implies bit(self.occ, i) == bit(b.occ, i) by {
            assert(bit(self.spec_occ(), i) == bit(b.spec_occ(), i));
        }
        crate::bitboard::lemma_bit_ext(self.occ, b.occ);
        assert(self.color =~= b.color) by {
            assert forall|i: int| 0 <= i < 2 implies self.color[i] == b.color[i] by {
                let c = if i == 0 {
                    Color::WHITE
                } else {
                    Color::BLACK
                };
                assert(self.color[i] == self.spec_color_occ(c));
                assert(b.color[i] == b.spec_color_occ(c));
                crate::bitboard::lemma_bit_ext(self.color[i], b.color[i]);
            }
        }
        assert(self.piece =~= b.piece) by {
            assert forall|i: int| 0 <= i < 6 implies self.piece[i] == b.piece[i] by {
                let t = if i == 0 {
                    Type::PAWN
                } else if i == 1 {
                    Type::BISHOP
                } else if i == 2 {
                    Type::KNIGHT
                } else if i == 3 {
                    Type::ROOK
                } else if i == 4 {
                    Type::QUEEN
                } else {
                    Type::KING
                };
                assert(self.piece[i] == self.spec_piece_occ(t));
                assert(b.piece[i] == b.spec_piece_occ(t));
                crate::bitboard::lemma_bit_ext(self.piece[i], b.piece[i]);
            }
        }
        assert(self.ad =~= b.ad) by {
            assert forall|i: int| 0 <= i < 2 implies self.ad[i] == b.ad[i] by {
                let c = if i == 0 {
                    Color::WHITE
                } else {
                    Color::BLACK
                };
                assert forall|t: int| 0 <= t < 64 implies self.ad[i][t] == b.ad[i][t] by {
                    assert(self.ad_at(c, t) == b.ad_at(c, t));
                }
                assert(self.ad[i] =~= b.ad[i]);
            }
        }
    }

    /// An empty board that hashes with the table `keys`.
    pub fn with_keys(keys: Zobrist) -> (b: Board)
        ensures
            b.wf(),
            b.zobrist() == keys,
            forall|i: int| 0 <= i < 64 ==> (#[trigger] b@[i]) is None,
    {
        let b = Board {
            state: [None;64],
            zkey: 0u64,
            ad: [[0;64];2],
            occ: 0u64,
            color: [0u64;2],
            piece: [0u64;6],
            keys,
        };
        proof {
            lemma_bit_zero();
            lemma_key_fold_empty(b@, keys, 64);
            assert forall|c: Color, t: int| 0 <= t < 64 implies #[trigger] b.ad_at(c, t)
                == attackers(b@, c, t) by {
                lemma_count_none(|s: int| attacks(b@, c, s, t), 64);
            }
        }
        b
    }

    /// An empty board with a table of fresh random keys.
    pub fn new() -> (b: Board)
        ensures
            b.wf(),
            b.zobrist()@.len() == 781,
            forall|i: int| 0 <= i < 64 ==> (#[trigger] b@[i]) is None,
    {
        Board::with_keys(Zobrist::new())
    }

    proof fn lemma_clear_matches(&self, s: int, t: int)
        requires
            self.shape_ok(),
        ensures
            clear(self.spec_occ(), s, t) == path_clear(self@, s, t),
    {
        if clear(self.spec_occ(), s, t) {
            assert forall|x: int| 0 <= x < 64 && between(s, t, x) implies (#[trigger] self@[x]) is None by {
                assert(!bit(self.spec_occ(), x));
            }
        }
        if path_clear(self@, s, t) {
            assert forall|x: int| 0 <= x < 64 && between(s, t, x) implies !#[trigger] bit(
                self.spec_occ(),
                x,
            ) by {
                assert(self@[x] is None);
            }
        }
    }

    /// The attack set that the piece `p` has on this board when it stands on
    /// `s`.
    pub fn attack_set(&self, s: Square, p: Piece) -> (att: u64)
        requires
            self.shape_ok(),
        ensures
            forall|t: int| #[trigger] bit(att, t) == piece_attacks(self@, p, s@, t),
    {
        let att = match p.ptype {
            Type::PAWN => attacks::pawn(p.color, s),
            Type::BISHOP => attacks::bishop(s, self.occ),
            Type::KNIGHT => attacks::knight(s),
            Type::ROOK => attacks::rook(s, self.occ),
            Type::QUEEN => attacks::queen(s, self.occ),
            Type::KING => attacks::king(s),
        };
        proof {
            assert forall|t: int| #[trigger] bit(att, t) == piece_attacks(self@, p, s@, t) by {
                self.lemma_clear_matches(s@, t);
            }
        }
        att
    }

    /// Counts the attacks of the piece on `s`: the counter of its color goes
    /// up by one on every square that it attacks.
    pub fn add_attacks(&mut self, s: Square)
        requires
            old(self).shape_ok(),
            old(self)@[s@] is Some,
            forall|t: int|
                0 <= t < 64 && attacks(old(self)@, old(self)@[s@]->0.color, s@, t) ==> old(
                    self,
                ).ad_at(old(self)@[s@]->0.color, t) < u64::MAX,
        ensures
            final(self).same_pieces(old(self)),
            forall|c: Color, t: int|
                0 <= t < 64 ==> #[trigger] final(self).ad_at(c, t) == old(self).ad_at(c, t)
                    + one_if(attacks(old(self)@, c, s@, t)),
    {
        let i = s.index();
        let p = self.state[i].unwrap();
        let c = p.color;
        let ci = c.index();
        let att = self.attack_set(s, p);
        let mut row: [u64; 64] = self.ad[ci];
        let mut t: usize = 0;
        while t < 64
            invariant
                t <= 64,
                i == s@,
                i < 64,
                ci == c.ordinal(),
                self@[s@] == Some(p),
                p.color == c,
                forall|x: int| #[trigger] bit(att, x) == piece_attacks(self@, p, s@, x),
                forall|x: int| 0 <= x < 64 && attacks(self@, c, s@, x) ==> self.ad_at(c, x) < u64::MAX,
                forall|x: int|
                    0 <= x < 64 ==> #[trigger] row[x] == self.ad_at(c, x) + one_if(
                        x < t && attacks(self@, c, s@, x),
                    ),
            decreases 64 - t,
        {
            if has(att, t) {
                assert(attacks(self@, c, s@, t as int));
                row[t] = row[t] + 1;
            }
            t += 1;
        }
        self.ad[ci] = row;
        proof {
            assert forall|k: Color, x: int| 0 <= x < 64 implies #[trigger] self.ad_at(k, x) == old(
                self,
            ).ad_at(k, x) + one_if(attacks(old(self)@, k, s@, x)) by {
                if k != c {
                    assert(k.ordinal() != ci);
                }
            }
        }
    }

    /// Takes back the attacks of the piece on `s`: the counter of its color
    /// goes down by one on every square that it attacks.
    pub fn remove_attacks(&mut self, s: Square)
        requires
            old(self).shape_ok(),
            old(self)@[s@] is Some,
            forall|t: int|
                0 <= t < 64 && attacks(old(self)@, old(self)@[s@]->0.color, s@, t) ==> old(
                    self,
                ).ad_at(old(self)@[s@]->0.color, t) >= 1,
        ensures
            final(self).same_pieces(old(self)),
            forall|c: Color, t: int|
                0 <= t < 64 ==> #[trigger] final(self).ad_at(c, t) == old(self).ad_at(c, t)
                    - one_if(attacks(old(self)@, c, s@, t)),
    {
        let i = s.index();
        let p = self.state[i].unwrap();
        let c = p.color;
        let ci = c.index();
        let att = self.attack_set(s, p);
        let mut row: [u64; 64] = self.ad[ci];
        let mut t: usize = 0;
        while t < 64
            invariant
                t <= 64,
                i == s@,
                i < 64,
                ci == c.ordinal(),
                self@[s@] == Some(p),
                p.color == c,
                forall|x: int| #[trigger] bit(att, x) == piece_attacks(self@, p, s@, x),
                forall|x: int| 0 <= x < 64 && attacks(self@, c, s@, x) ==> self.ad_at(c, x) >= 1,
                forall|x: int|
                    0 <= x < 64 ==> #[trigger] row[x] == self.ad_at(c, x) - one_if(
                        x < t && attacks(self@, c, s@, x),
                    ),
            decreases 64 - t,
        {
            if has(att, t) {
                assert(attacks(self@, c, s@, t as int));
                row[t] = row[t] - 1;
            }
            t += 1;
        }
        self.ad[ci] = row;
        proof {
            assert forall|k: Color, x: int| 0 <= x < 64 implies #[trigger] self.ad_at(k, x) == old(
                self,
            ).ad_at(k, x) - one_if(attacks(old(self)@, k, s@, x)) by {
                if k != c {
                    assert(k.ordinal() != ci);
                }
            }
        }
    }

    /// The set of bishops, rooks and queens that see `s`: the pieces whose
    /// attack sets change when a piece comes to `s` or leaves it.
    fn update_mask(&self, s: Square) -> (umask: u64)
        requires
            self.shape_ok(),
        ensures
            forall|u: int| #[trigger] bit(umask, u) == sees(self@, u, s@),
    {
        let q = self.piece[4];
        let ba = attacks::bishop(s, self.occ);
        let ra = attacks::rook(s, self.occ);
        let diag = (q | self.piece[1]) & ba;
        let line = (q | self.piece[3]) & ra;
        proof {
            lemma_bit_or(q, self.piece[1]);
            lemma_bit_or(q, self.piece[3]);
            lemma_bit_and(q | self.piece[1], ba);
            lemma_bit_and(q | self.piece[3], ra);
            lemma_bit_or(diag, line);
            assert(q == self.spec_piece_occ(Type::QUEEN));
            assert(self.piece[1] == self.spec_piece_occ(Type::BISHOP));
            assert(self.piece[3] == self.spec_piece_occ(Type::ROOK));
            assert forall|u: int| #[trigger] bit(diag | line, u) == sees(self@, u, s@) by {
                self.lemma_clear_matches(s@, u);
                assert(path_clear(self@, s@, u) == path_clear(self@, u, s@)) by {
                    assert forall|x: int| between(s@, u, x) == between(u, s@, x) by {
                        lemma_between_symmetric(s@, u, x);
                    }
                }
            }
        }
        diag | line
    }

    /// Takes back the attacks of every piece in `umask`.
    fn withdraw(&mut self, umask: u64)
        requires
            old(self).shape_ok(),
            old(self).counters_ok(),
            forall|u: int| bit(umask, u) ==> old(self)@[u] is Some,
        ensures
            final(self).same_pieces(old(self)),
            forall|c: Color, t: int|
                0 <= t < 64 ==> #[trigger] final(self).ad_at(c, t) == count(
                    without_upto(old(self)@, c, t, umask, 64),
                    64,
                ),
    {
        let ghost b = self@;
        proof {
            assert forall|c: Color, t: int| 0 <= t < 64 implies #[trigger] self.ad_at(c, t)
                == count(without_upto(b, c, t, umask, 0), 64) by {
                lemma_count_eq(|s: int| attacks(b, c, s, t), without_upto(b, c, t, umask, 0), 64);
            }
        }
        let mut i: usize = 0;
        while i < 64
            invariant
                i <= 64,
                b == old(self)@,
                self.same_pieces(old(self)),
                self.shape_ok(),
                forall|u: int| bit(umask, u) ==> b[u] is Some,
                forall|c: Color, t: int|
                    0 <= t < 64 ==> #[trigger] self.ad_at(c, t) == count(
                        without_upto(b, c, t, umask, i as int),
                        64,
                    ),
            decreases 64 - i,
        {
            let ghost before = *self;
            if has(umask, i) {
                let sq = Square::from_index(i).unwrap();
                proof {
                    let c0 = b[i as int]->0.color;
                    assert forall|t: int| 0 <= t < 64 && attacks(b, c0, i as int, t) implies self.ad_at(
                        c0,
                        t,
                    ) >= 1 by {
                        let f = without_upto(b, c0, t, umask, i as int);
                        assert(f(i as int));
                        lemma_count_positive(f, 64);
                    }
                }
                self.remove_attacks(sq);
                proof {
                    assert forall|c: Color, t: int| 0 <= t < 64 implies #[trigger] self.ad_at(c, t)
                        == count(without_upto(b, c, t, umask, i + 1), 64) by {
                        lemma_count_differ_at(
                            without_upto(b, c, t, umask, i as int),
                            without_upto(b, c, t, umask, i + 1),
                            64,
                            i as int,
                        );
                        assert(before.ad_at(c, t) == count(
                            without_upto(b, c, t, umask, i as int),
                            64,
                        ));
                    }
                }
            } else {
                proof {
                    assert forall|c: Color, t: int| 0 <= t < 64 implies #[trigger] self.ad_at(c, t)
                        == count(without_upto(b, c, t, umask, i + 1), 64) by {
                        lemma_count_eq(
                            without_upto(b, c, t, umask, i as int),
                            without_upto(b, c, t, umask, i + 1),
                            64,
                        );
                    }
                }
            }
            i += 1;
        }
    }

    /// Counts again the attacks of every piece in `umask`.
    fn restore(&mut self, umask: u64)
        requires
            old(self).shape_ok(),
            forall|u: int| bit(umask, u) ==> old(self)@[u] is Some,
            forall|c: Color, t: int|
                0 <= t < 64 ==> #[trigger] old(self).ad_at(c, t) == count(
                    without_upto(old(self)@, c, t, umask, 64),
                    64,
                ),
        ensures
            final(self).same_pieces(old(self)),
            final(self).counters_ok(),
    {
        let ghost b = self@;
        proof {
            assert forall|c: Color, t: int| 0 <= t < 64 implies #[trigger] self.ad_at(c, t)
                == count(with_upto(b, c, t, umask, 0), 64) by {
                lemma_count_eq(
                    without_upto(b, c, t, umask, 64),
                    with_upto(b, c, t, umask, 0),
                    64,
                );
            }
        }
        let mut i: usize = 0;
        while i < 64
            invariant
                i <= 64,
                b == old(self)@,
                self.same_pieces(old(self)),
                self.shape_ok(),
                forall|u: int| bit(umask, u) ==> b[u] is Some,
                forall|c: Color, t: int|
                    0 <= t < 64 ==> #[trigger] self.ad_at(c, t) == count(
                        with_upto(b, c, t, umask, i as int),
                        64,
                    ),
            decreases 64 - i,
        {
            let ghost before = *self;
            if has(umask, i) {
                let sq = Square::from_index(i).unwrap();
                proof {
                    let c0 = b[i as int]->0.color;
                    assert forall|t: int| 0 <= t < 64 && attacks(b, c0, i as int, t) implies self.ad_at(
                        c0,
                        t,
                    ) < u64::MAX by {
                        lemma_count_bound(with_upto(b, c0, t, umask, i as int), 64);
                    }
                }
                self.add_attacks(sq);
                proof {
                    assert forall|c: Color, t: int| 0 <= t < 64 implies #[trigger] self.ad_at(c, t)
                        == count(with_upto(b, c, t, umask, i + 1), 64) by {
                        lemma_count_differ_at(
                            with_upto(b, c, t, umask, i as int),
                            with_upto(b, c, t, umask, i + 1),
                            64,
                            i as int,
                        );
                        assert(before.ad_at(c, t) == count(
                            with_upto(b, c, t, umask, i as int),
                            64,
                        ));
                    }
                }
            } else {
                proof {
                    assert forall|c: Color, t: int| 0 <= t < 64 implies #[trigger] self.ad_at(c, t)
                        == count(with_upto(b, c, t, umask, i + 1), 64) by {
                        lemma_count_eq(
                            with_upto(b, c, t, umask, i as int),
                            with_upto(b, c, t, umask, i + 1),
                            64,
                        );
                    }
                }
            }
            i += 1;
        }
        proof {
            assert forall|c: Color, t: int| 0 <= t < 64 implies #[trigger] self.ad_at(c, t)
                == attackers(self@, c, t) by {
                lemma_count_eq(with_upto(b, c, t, umask, 64), |s: int| attacks(b, c, s, t), 64);
            }
        }
    }

    /// Puts the piece `p` on the empty square `s`.
    pub fn place(&mut self, s: Square, p: Piece)
        requires
            old(self).wf(),
            old(self)@[s@] is None,
        ensures
            final(self).wf(),
            final(self)@ == old(self)@.update(s@, Some(p)),
            final(self).zobrist() == old(self).zobrist(),
    {
        let i = s.index();
        let ghost b0 = self@;
        let ghost b1 = b0.update(s@, Some(p));
        let umask = self.update_mask(s);
        self.withdraw(umask);
        let ghost mid = *self;

        self.state[i] = Some(p);
        let k = self.keys.piece(s, p);
        self.zkey = self.zkey ^ k;
        let mask = s.mask();
        let ci = p.color.index();
        let ti = p.ptype.index();
        self.occ = self.occ ^ mask;
        self.color[ci] = self.color[ci] ^ mask;
        self.piece[ti] = self.piece[ti] ^ mask;
        proof {
            assert(self@ =~= b1);
            lemma_bit_xor(mid.occ, mask);
            lemma_bit_xor(mid.color[ci as int], mask);
            lemma_bit_xor(mid.piece[ti as int], mask);
            assert(self.shape_ok()) by {
                assert forall|c: Color, x: int| #[trigger]
                    bit(self.spec_color_occ(c), x) == (0 <= x < 64 && self@[x] is Some
                        && self@[x]->0.color == c) by {
                    assert(bit(mid.spec_color_occ(c), x) == (0 <= x < 64 && mid@[x] is Some
                        && mid@[x]->0.color == c));
                    if c != p.color {
                        assert(c.ordinal() != ci);
                    }
                }
                assert forall|t: Type, x: int| #[trigger]
                    bit(self.spec_piece_occ(t), x) == (0 <= x < 64 && self@[x] is Some
                        && self@[x]->0.ptype == t) by {
                    assert(bit(mid.spec_piece_occ(t), x) == (0 <= x < 64 && mid@[x] is Some
                        && mid@[x]->0.ptype == t));
                    if t != p.ptype {
                        assert(t.ordinal() != ti);
                    }
                }
                assert forall|x: int| #[trigger]
                    bit(self.spec_occ(), x) == (0 <= x < 64 && self@[x] is Some) by {
                    assert(bit(mid.spec_occ(), x) == (0 <= x < 64 && mid@[x] is Some));
                }
            }
            lemma_key_fold_change(b0, b1, self.keys, s@, 64);
            assert(key_term(b0, self.keys, s@) == 0);
            assert(0u64 ^ k == k) by (bit_vector);
            assert forall|t: int| 0 <= t < 64 && attacks(b1, p.color, s@, t) implies self.ad_at(
                p.color,
                t,
            ) < u64::MAX by {
                assert(self.ad_at(p.color, t) == mid.ad_at(p.color, t));
                lemma_count_bound(without_upto(b0, p.color, t, umask, 64), 64);
            }
        }
        let ghost placed = *self;
        assert(placed.ad == mid.ad);
        self.add_attacks(s);
        proof {
            assert forall|c: Color, t: int| 0 <= t < 64 implies #[trigger] self.ad_at(c, t)
                == count(without_upto(b1, c, t, umask, 64), 64) by {
                let f0 = without_upto(b0, c, t, umask, 64);
                let f1 = without_upto(b1, c, t, umask, 64);
                assert forall|u: int| 0 <= u < 64 && u != s@ implies #[trigger] f0(u) == f1(u) by {
                    if !bit(umask, u) {
                        lemma_attack_unchanged(b0, b1, s@, u, c, t);
                    }
                }
                lemma_count_differ_at(f0, f1, 64, s@);
                assert(!f0(s@));
                assert(!bit(umask, s@));
                assert(placed.ad_at(c, t) == mid.ad_at(c, t));
            }
        }
        self.restore(umask);
    }

    /// Takes the piece off the occupied square `s` and returns it.
    pub fn remove(&mut self, s: Square) -> (p: Piece)
        requires
            old(self).wf(),
            old(self)@[s@] is Some,
        ensures
            final(self).wf(),
            final(self)@ == old(self)@.update(s@, None),
            final(self).zobrist() == old(self).zobrist(),
            Some(p) == old(self)@[s@],
    {
        let i = s.index();
        let ghost b0 = self@;
        let ghost b1 = b0.update(s@, None);
        let umask = self.update_mask(s);
        self.withdraw(umask);
        let ghost drawn = *self;
        proof {
            let c0 = b0[s@]->0.color;
            assert(!bit(umask, s@));
            assert forall|t: int| 0 <= t < 64 && attacks(b0, c0, s@, t) implies self.ad_at(c0, t)
                >= 1 by {
                let f = without_upto(b0, c0, t, umask, 64);
                assert(f(s@));
                lemma_count_positive(f, 64);
            }
        }
        self.remove_attacks(s);
        let ghost mid = *self;

        let p: Piece = self.state[i].unwrap();
        self.state[i] = None;
        let k = self.keys.piece(s, p);
        self.zkey = self.zkey ^ k;
        let mask = s.mask();
        let ci = p.color.index();
        let ti = p.ptype.index();
        self.occ = self.occ ^ mask;
        self.color[ci] = self.color[ci] ^ mask;
        self.piece[ti] = self.piece[ti] ^ mask;
        proof {
            assert(self@ =~= b1);
            lemma_bit_xor(mid.occ, mask);
            lemma_bit_xor(mid.color[ci as int], mask);
            lemma_bit_xor(mid.piece[ti as int], mask);
            assert(self.shape_ok()) by {
                assert forall|c: Color, x: int| #[trigger]
                    bit(self.spec_color_occ(c), x) == (0 <= x < 64 && self@[x] is Some
                        && self@[x]->0.color == c) by {
                    assert(bit(mid.spec_color_occ(c), x) == (0 <= x < 64 && mid@[x] is Some
                        && mid@[x]->0.color == c));
                    if c != p.color {
                        assert(c.ordinal() != ci);
                    }
                }
                assert forall|t: Type, x: int| #[trigger]
                    bit(self.spec_piece_occ(t), x) == (0 <= x < 64 && self@[x] is Some
                        && self@[x]->0.ptype == t) by {
                    assert(bit(mid.spec_piece_occ(t), x) == (0 <= x < 64 && mid@[x] is Some
                        && mid@[x]->0.ptype == t));
                    if t != p.ptype {
                        assert(t.ordinal() != ti);
                    }
                }
                assert forall|x: int| #[trigger]
                    bit(self.spec_occ(), x) == (0 <= x < 64 && self@[x] is Some) by {
                    assert(bit(mid.spec_occ(), x) == (0 <= x < 64 && mid@[x] is Some));
                }
            }
            lemma_key_fold_change(b0, b1, self.keys, s@, 64);
            assert(key_term(b1, self.keys, s@) == 0);
            assert(k ^ 0u64 == k) by (bit_vector);
            assert forall|c: Color, t: int| 0 <= t < 64 implies #[trigger] self.ad_at(c, t)
                == count(without_upto(b1, c, t, umask, 64), 64) by {
                let f0 = without_upto(b0, c, t, umask, 64);
                let f1 = without_upto(b1, c, t, umask, 64);
                assert forall|u: int| 0 <= u < 64 && u != s@ implies #[trigger] f0(u) == f1(u) by {
                    if !bit(umask, u) {
                        lemma_attack_unchanged(b0, b1, s@, u, c, t);
                    }
                }
                lemma_count_differ_at(f0, f1, 64, s@);
                assert(!f1(s@));
                assert(f0(s@) == attacks(b0, c, s@, t));
                assert(drawn.ad_at(c, t) == count(f0, 64));
                assert(mid.ad_at(c, t) == drawn.ad_at(c, t) - one_if(attacks(b0, c, s@, t)));
            }
        }
        self.restore(umask);
        p
    }

    pub fn key(&self) -> (k: u64)
        ensures
            k == self.spec_key(),
    {
        self.zkey
    }

    pub fn piece_occ(&self, t: Type) -> (b: u64)
        ensures
            b == self.spec_piece_occ(t),
    {
        self.piece[t.index()]
    }

    pub fn color_occ(&self, c: Color) -> (b: u64)
        ensures
            b == self.spec_color_occ(c),
    {
        self.color[c.index()]
    }

    pub fn global_occ(&self) -> (b: u64)
        ensures
            b == self.spec_occ(),
    {
        self.occ
    }

    /// The counters, by color number and square.
    pub fn get_ad(&self) -> (r: [[u64; 64]; 2])
        ensures
            forall|c: Color, t: int|
                0 <= t < 64 ==> r[c.ordinal()][t] == #[trigger] self.ad_at(c, t),
    {
        self.ad
    }

    /// The counter of attacks by color `c` on square `s`.
    pub fn attack_count(&self, c: Color, s: Square) -> (n: u64)
        ensures
            n == self.ad_at(c, s@),
    {
        self.ad[c.index()][s.index()]
    }

    /// The table of Zobrist keys that the board hashes with.
    pub fn keys(&self) -> (z: Zobrist)
        ensures
            z == self.zobrist(),
    {
        self.keys
    }

    /// The piece on square `s`, if there is one.
    pub fn piece_at(&self, s: Square) -> (p: Option<Piece>)
        ensures
            p == self@[s@],
    {
        self.state[s.index()]
    }

    /// The piece placement in FEN: eight ranks separated by `/`, the eighth
    /// rank first.
    pub fn to_fen_string(&self) -> (output: String)
        ensures
            output@ == placement_text(self@),
    {
        let ghost b = self@;
        let mut output: String = String::new();
        let mut r: usize = 8;
        while r > 0
            invariant
                r <= 8,
                b == self@,
                r > 0 ==> output@ + ranks_text_from(b, r - 1) == placement_text(b),
                r == 0 ==> output@ == placement_text(b),
            decreases r,
        {
            r -= 1;
            let ghost pre = output@;
            let mut empty: u8 = 0;
            let mut f: usize = 0;
            while f < 8
                invariant
                    f <= 8,
                    r < 8,
                    empty <= f,
                    b == self@,
                    output@ + rank_text_from(b, r as int, f as int, empty as int) == pre
                        + rank_text(b, r as int),
                decreases 8 - f,
            {
                let ghost before = output@;
                match self.state[r * 8 + f] {
                    Some(p) => {
                        if empty > 0 {
                            output.push((48u8 + empty) as char);
                        }
                        output.push(p.to_fen());
                        assert(output@ =~= before + run_text(empty as int) + seq![p.letter()]);
                        assert(output@ + rank_text_from(b, r as int, f + 1, 0) =~= before + (
                        run_text(empty as int) + seq![p.letter()] + rank_text_from(
                            b,
                            r as int,
                            f + 1,
                            0,
                        )));
                        empty = 0;
                    },
                    None => {
                        empty += 1;
                    },
                }
                f += 1;
            }
            let ghost before = output@;
            if empty > 0 {
                output.push((48u8 + empty) as char);
            }
            assert(output@ =~= before + run_text(empty as int));
            assert(output@ == pre + rank_text(b, r as int));
            if r > 0 {
                output.push('/');
                assert(output@ + ranks_text_from(b, r - 1) =~= pre + (rank_text(b, r as int)
                    + seq!['/'] + ranks_text_from(b, r - 1)));
            }
        }
        output
    }
}

/// A board without pieces has key 0, and all its counters are 0. So a board
/// that is empty again after any run of placements and removals is back at
/// key 0 with all counters 0.
pub proof fn lemma_empty_board(b: Board)
    requires
        b.wf(),
        forall|i: int| 0 <= i < 64 ==> (#[trigger] b@[i]) is None,
    ensures
        b.spec_key() == 0,
        forall|c: Color, t: int| 0 <= t < 64 ==> #[trigger] b.ad_at(c, t) == 0,
{
    lemma_key_fold_empty(b@, b.zobrist(), 64);
    assert forall|c: Color, t: int| 0 <= t < 64 implies #[trigger] b.ad_at(c, t) == 0 by {
        lemma_count_none(|s: int| attacks(b@, c, s, t), 64);
    }
}

/// On every board, the counter of a color on a square is the number of
/// pieces of that color whose attack set, computed from the pieces as they
/// stand, holds the square. It is positive exactly when some piece of the
/// color attacks the square.
pub proof fn lemma_counters_exact(b: Board, c: Color, t: int)
    requires
        b.wf(),
        0 <= t < 64,
    ensures
        b.ad_at(c, t) == attackers(b@, c, t),
        0 <= b.ad_at(c, t) <= 64,
        b.ad_at(c, t) > 0 <==> exists|s: int| 0 <= s < 64 && attacks(b@, c, s, t),
{
    let f = |s: int| attacks(b@, c, s, t);
    lemma_count_bound(f, 64);
    lemma_count_positive(f, 64);
    if b.ad_at(c, t) > 0 {
        let s = choose|s: int| 0 <= s < 64 && #[trigger] f(s);
        assert(0 <= s < 64 && attacks(b@, c, s, t));
    }
    if exists|s: int| 0 <= s < 64 && attacks(b@, c, s, t) {
        let s = choose|s: int| 0 <= s < 64 && attacks(b@, c, s, t);
        assert(f(s));
    }
}

/// The occupancy sets of a board partition its occupied squares: the two
/// colors are disjoint and make up the occupancy, and so do the six types.
pub proof fn lemma_occupancy_partition(b: Board)
    requires
        b.shape_ok(),
    ensures
        b.spec_occ() == b.spec_color_occ(Color::WHITE) | b.spec_color_occ(Color::BLACK),
        b.spec_color_occ(Color::WHITE) & b.spec_color_occ(Color::BLACK) == 0,
        b.spec_occ() == b.spec_piece_occ(Type::PAWN) | b.spec_piece_occ(Type::BISHOP)
            | b.spec_piece_occ(Type::KNIGHT) | b.spec_piece_occ(Type::ROOK) | b.spec_piece_occ(
            Type::QUEEN,
        ) | b.spec_piece_occ(Type::KING),
        forall|t: Type, u: Type| t != u ==> #[trigger] b.spec_piece_occ(t) & #[trigger] b.spec_piece_occ(u) == 0,
{
    let w = b.spec_color_occ(Color::WHITE);
    let k = b.spec_color_occ(Color::BLACK);
    lemma_bit_zero();
    lemma_bit_or(w, k);
    lemma_bit_and(w, k);
    crate::bitboard::lemma_bit_ext(b.spec_occ(), w | k);
    crate::bitboard::lemma_bit_ext(w & k, 0);
    let pawns = b.spec_piece_occ(Type::PAWN);
    let bishops = b.spec_piece_occ(Type::BISHOP);
    let knights = b.spec_piece_occ(Type::KNIGHT);
    let rooks = b.spec_piece_occ(Type::ROOK);
    let queens = b.spec_piece_occ(Type::QUEEN);
    let kings = b.spec_piece_occ(Type::KING);
    lemma_bit_or(pawns, bishops);
    lemma_bit_or(pawns | bishops, knights);
    lemma_bit_or(pawns | bishops | knights, rooks);
    lemma_bit_or(pawns | bishops | knights | rooks, queens);
    lemma_bit_or(pawns | bishops | knights | rooks | queens, kings);
    crate::bitboard::lemma_bit_ext(b.spec_occ(), pawns | bishops | knights | rooks | queens | kings);
    assert forall|t: Type, u: Type| t != u implies #[trigger] b.spec_piece_occ(t) & #[trigger] b.spec_piece_occ(u) == 0 by {
        lemma_bit_and(b.spec_piece_occ(t), b.spec_piece_occ(u));
        crate::bitboard::lemma_bit_ext(b.spec_piece_occ(t) & b.spec_piece_occ(u), 0);
    }
}

/// A board is determined by its pieces and its table of keys: two boards
/// that agree in both agree in their key, their occupancy sets and their
/// counters, bit for bit.
pub proof fn lemma_board_determined(a: Board, b: Board)
    requires
        a.wf(),
        b.wf(),
        a@ == b@,
        a.zobrist() == b.zobrist(),
    ensures
        a == b,
{
    a.lemma_same(b);
}

} // verus!
