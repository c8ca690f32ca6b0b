//! Attack sets: the squares that a piece on a given square attacks.
//!
//! King, knight and pawn attacks depend on the square alone. Bishop, rook and
//! queen attacks run along lines until the first occupied square, which is
//! part of the attack set.

use vstd::prelude::*;
use crate::bitboard::{bit, has, lemma_bit_or, lemma_bit_single, lemma_bit_zero};
use crate::piece::Color;
use crate::square::Square;

verus! {

/// A king on `s` attacks `t`: a different square at most one rank and one
/// file away.
pub open spec fn king_step(s: int, t: int) -> bool {
    s != t && -1 <= t / 8 - s / 8 <= 1 && -1 <= t % 8 - s % 8 <= 1
}

/// A knight on `s` attacks `t`.
pub open spec fn knight_step(s: int, t: int) -> bool {
    let dr = t / 8 - s / 8;
    let df = t % 8 - s % 8;
    ((dr == 1 || dr == -1) && (df == 2 || df == -2)) || ((dr == 2 || dr == -2) && (df == 1 || df
        == -1))
}

/// The rank offset of a pawn's advance: up for White, down for Black.
pub open spec fn forward(c: Color) -> int {
    match c {
        Color::WHITE => 1,
        Color::BLACK => -1,
    }
}

/// A pawn of color `c` on `s` attacks `t`: one rank forward, one file aside.
pub open spec fn pawn_step(c: Color, s: int, t: int) -> bool {
    t / 8 - s / 8 == forward(c) && (t % 8 - s % 8 == 1 || t % 8 - s % 8 == -1)
}

/// `s` and `t` are different squares on one rank or one file.
pub open spec fn rook_line(s: int, t: int) -> bool {
    s != t && (s / 8 == t / 8 || s % 8 == t % 8)
}

/// `s` and `t` are different squares on one diagonal.
pub open spec fn bishop_line(s: int, t: int) -> bool {
    s != t && (t / 8 - s / 8 == t % 8 - s % 8 || t / 8 - s / 8 == s % 8 - t % 8)
}

/// `x` lies strictly between `s` and `t` on a rank, file or diagonal that
/// holds both.
pub open spec fn between(s: int, t: int, x: int) -> bool {
    let rs = s / 8;
    let fs = s % 8;
    let rt = t / 8;
    let ft = t % 8;
    let rx = x / 8;
    let fx = x % 8;
    ||| (rs == rt && rx == rs && (fs < fx < ft || ft < fx < fs))
    ||| (fs == ft && fx == fs && (rs < rx < rt || rt < rx < rs))
    ||| (rt - rs == ft - fs && rx - rs == fx - fs && (rs < rx < rt || rt < rx < rs))
    ||| (rt - rs == fs - ft && rx - rs == fs - fx && (rs < rx < rt || rt < rx < rs))
}

/// No square strictly between `s` and `t` is a member of `occ`.
pub open spec fn clear(occ: u64, s: int, t: int) -> bool {
    forall|x: int| 0 <= x < 64 && between(s, t, x) ==> !#[trigger] bit(occ, x)
}

/// A rook on `s` attacks `t` when the occupied squares are `occ`.
pub open spec fn rook_hits(occ: u64, s: int, t: int) -> bool {
    0 <= t < 64 && rook_line(s, t) && clear(occ, s, t)
}

/// A bishop on `s` attacks `t` when the occupied squares are `occ`.
pub open spec fn bishop_hits(occ: u64, s: int, t: int) -> bool {
    0 <= t < 64 && bishop_line(s, t) && clear(occ, s, t)
}

/// A queen on `s` attacks `t` when the occupied squares are `occ`.
pub open spec fn queen_hits(occ: u64, s: int, t: int) -> bool {
    rook_hits(occ, s, t) || bishop_hits(occ, s, t)
}

/// The sign of `d`: -1, 0 or 1.
pub open spec fn sign(d: int) -> int {
    if d < 0 {
        -1
    } else if d > 0 {
        1
    } else {
        0
    }
}

/// The number of king steps from `s` to `t`.
pub open spec fn distance(s: int, t: int) -> int {
    let dr = if t / 8 >= s / 8 {
        t / 8 - s / 8
    } else {
        s / 8 - t / 8
    };
    let df = if t % 8 >= s % 8 {
        t % 8 - s % 8
    } else {
        s % 8 - t % 8
    };
    if dr >= df {
        dr
    } else {
        df
    }
}

/// `t` lies on the ray that leaves `s` in the direction `(dr, df)`.
pub open spec fn on_ray(s: int, dr: int, df: int, t: int) -> bool {
    let a = t / 8 - s / 8;
    let b = t % 8 - s % 8;
    sign(a) == dr && sign(b) == df && (dr == 0 || df == 0 || a == b || a == -b)
}

/// The attack set of a king on `s`.
pub fn king(s: Square) -> (b: u64)
    ensures
        forall|t: int| #[trigger] bit(b, t) == (0 <= t < 64 && king_step(s@, t)),
{
    let r: i32 = s.rank() as i32;
    let f: i32 = s.file() as i32;
    let mut b: u64 = 0;
    let mut t: usize = 0;
    proof {
        lemma_bit_zero();
    }
    while t < 64
        invariant
            t <= 64,
            r == s@ / 8,
            f == s@ % 8,
            0 <= s@ < 64,
            forall|i: int| #[trigger] bit(b, i) == (0 <= i < t && king_step(s@, i)),
        decreases 64 - t,
    {
        let dr: i32 = (t / 8) as i32 - r;
        let df: i32 = (t % 8) as i32 - f;
        if (dr != 0 || df != 0) && -1 <= dr && dr <= 1 && -1 <= df && df <= 1 {
            proof {
                lemma_bit_single(t as int);
                lemma_bit_or(b, 1u64 << (t as u64));
            }
            b = b | (1u64 << (t as u64));
        }
        t += 1;
    }
    b
}

/// The attack set of a knight on `s`.
pub fn knight(s: Square) -> (b: u64)
    ensures
        forall|t: int| #[trigger] bit(b, t) == (0 <= t < 64 && knight_step(s@, t)),
{
    let r: i32 = s.rank() as i32;
    let f: i32 = s.file() as i32;
    let mut b: u64 = 0;
    let mut t: usize = 0;
    proof {
        lemma_bit_zero();
    }
    while t < 64
        invariant
            t <= 64,
            r == s@ / 8,
            f == s@ % 8,
            0 <= s@ < 64,
            forall|i: int| #[trigger] bit(b, i) == (0 <= i < t && knight_step(s@, i)),
        decreases 64 - t,
    {
        let dr: i32 = (t / 8) as i32 - r;
        let df: i32 = (t % 8) as i32 - f;
        if ((dr == 1 || dr == -1) && (df == 2 || df == -2)) || ((dr == 2 || dr == -2) && (df == 1
            || df == -1)) {
            proof {
                lemma_bit_single(t as int);
                lemma_bit_or(b, 1u64 << (t as u64));
            }
            b = b | (1u64 << (t as u64));
        }
        t += 1;
    }
    b
}

/// The attack set of a pawn of color `c` on `s`: the two squares diagonally
/// ahead of it, as far as they are on the board.
pub fn pawn(c: Color, s: Square) -> (b: u64)
    ensures
        forall|t: int| #[trigger] bit(b, t) == (0 <= t < 64 && pawn_step(c, s@, t)),
{
    let r: i32 = s.rank() as i32;
    let f: i32 = s.file() as i32;
    let fw: i32 = match c {
        Color::WHITE => 1,
        Color::BLACK => -1,
    };
    let mut b: u64 = 0;
    let mut t: usize = 0;
    proof {
        lemma_bit_zero();
    }
    while t < 64
        invariant
            t <= 64,
            r == s@ / 8,
            f == s@ % 8,
            fw == forward(c),
            0 <= s@ < 64,
            forall|i: int| #[trigger] bit(b, i) == (0 <= i < t && pawn_step(c, s@, i)),
        decreases 64 - t,
    {
        let dr: i32 = (t / 8) as i32 - r;
        let df: i32 = (t % 8) as i32 - f;
        if dr == fw && (df == 1 || df == -1) {
            proof {
                lemma_bit_single(t as int);
                lemma_bit_or(b, 1u64 << (t as u64));
            }
            b = b | (1u64 << (t as u64));
        }
        t += 1;
    }
    b
}

/// Adds to `acc` the squares that a slider on `s` attacks along the ray in
/// direction `(dr, df)`: every square of the ray up to and including the first
/// member of `occ`.
fn ray(s: Square, occ: u64, dr: i32, df: i32, acc: u64) -> (b: u64)
    requires
        -1 <= dr <= 1,
        -1 <= df <= 1,
        dr != 0 || df != 0,
    ensures
        forall|t: int| #[trigger]
            bit(b, t) == (bit(acc, t) || (0 <= t < 64 && on_ray(s@, dr as int, df as int, t)
                && clear(occ, s@, t))),
{
    let rs: i32 = s.rank() as i32;
    let fs: i32 = s.file() as i32;
    let mut b: u64 = acc;
    let mut r: i32 = rs + dr;
    let mut f: i32 = fs + df;
    let mut go: bool = true;
    let ghost mut n: int = 1;
    let ghost mut stop: int = 0;
    while go && 0 <= r && r < 8 && 0 <= f && f < 8
        invariant
            0 <= s@ < 64,
            rs == s@ / 8,
            fs == s@ % 8,
            -1 <= dr <= 1,
            -1 <= df <= 1,
            dr != 0 || df != 0,
            1 <= n <= 9,
            r == rs + n * dr,
            f == fs + n * df,
            !go ==> n >= 2 && 0 <= stop < 64 && on_ray(s@, dr as int, df as int, stop) && distance(
                s@,
                stop,
            ) == n - 1 && bit(occ, stop),
            forall|x: int|
                0 <= x < 64 && on_ray(s@, dr as int, df as int, x) && distance(s@, x) < n && (go
                    || distance(s@, x) < n - 1) ==> !#[trigger] bit(occ, x),
            forall|t: int| #[trigger]
                bit(b, t) == (bit(acc, t) || (0 <= t < 64 && on_ray(s@, dr as int, df as int, t)
                    && distance(s@, t) < n)),
        decreases 9 - n,
    {
        let t: usize = (r * 8 + f) as usize;
        proof {
            assert(n * dr == (if dr == 1 {
                n
            } else if dr == -1 {
                -n
            } else {
                0
            })) by (nonlinear_arith)
                requires
                    -1 <= dr <= 1,
            ;
            assert(n * df == (if df == 1 {
                n
            } else if df == -1 {
                -n
            } else {
                0
            })) by (nonlinear_arith)
                requires
                    -1 <= df <= 1,
            ;
            assert((n + 1) * dr == n * dr + dr) by (nonlinear_arith);
            assert((n + 1) * df == n * df + df) by (nonlinear_arith);
            lemma_bit_single(t as int);
            lemma_bit_or(b, 1u64 << (t as u64));
            assert(t as int / 8 == r && t as int % 8 == f);
            assert(on_ray(s@, dr as int, df as int, t as int));
            assert(distance(s@, t as int) == n);
        }
        b = b | (1u64 << (t as u64));
        if has(occ, t) {
            go = false;
            proof {
                stop = t as int;
            }
        }
        r = r + dr;
        f = f + df;
        proof {
            n = n + 1;
        }
    }
    proof {
        assert(n * dr == (if dr == 1 {
            n
        } else if dr == -1 {
            -n
        } else {
            0
        })) by (nonlinear_arith)
            requires
                -1 <= dr <= 1,
        ;
        assert(n * df == (if df == 1 {
            n
        } else if df == -1 {
            -n
        } else {
            0
        })) by (nonlinear_arith)
            requires
                -1 <= df <= 1,
        ;
        assert forall|t: int| #[trigger]
            bit(b, t) == (bit(acc, t) || (0 <= t < 64 && on_ray(s@, dr as int, df as int, t)
                && clear(occ, s@, t))) by {
            if 0 <= t < 64 && on_ray(s@, dr as int, df as int, t) {
                if go {
                    assert(distance(s@, t) < n);
                    assert(clear(occ, s@, t));
                } else {
                    if distance(s@, t) < n {
                        assert(clear(occ, s@, t));
                    } else {
                        assert(between(s@, t, stop));
                        assert(!clear(occ, s@, t));
                    }
                }
            }
        }
    }
    b
}

/// The attack set of a rook on `s` when the occupied squares are `occ`.
pub fn rook(s: Square, occ: u64) -> (b: u64)
    ensures
        forall|t: int| #[trigger] bit(b, t) == rook_hits(occ, s@, t),
{
    let _ = s.index();
    proof {
        lemma_bit_zero();
    }
    let b = ray(s, occ, 1, 0, 0);
    let b = ray(s, occ, -1, 0, b);
    let b = ray(s, occ, 0, 1, b);
    let b = ray(s, occ, 0, -1, b);
    proof {
        assert forall|t: int| #[trigger] bit(b, t) == rook_hits(occ, s@, t) by {
            if 0 <= t < 64 {
                assert(rook_line(s@, t) == (on_ray(s@, 1, 0, t) || on_ray(s@, -1, 0, t) || on_ray(
                    s@,
                    0,
                    1,
                    t,
                ) || on_ray(s@, 0, -1, t)));
            }
        }
    }
    b
}

/// The attack set of a bishop on `s` when the occupied squares are `occ`.
pub fn bishop(s: Square, occ: u64) -> (b: u64)
    ensures
        forall|t: int| #[trigger] bit(b, t) == bishop_hits(occ, s@, t),
{
    let _ = s.index();
    proof {
        lemma_bit_zero();
    }
    let b = ray(s, occ, 1, 1, 0);
    let b = ray(s, occ, 1, -1, b);
    let b = ray(s, occ, -1, 1, b);
    let b = ray(s, occ, -1, -1, b);
    proof {
        assert forall|t: int| #[trigger] bit(b, t) == bishop_hits(occ, s@, t) by {
            if 0 <= t < 64 {
                assert(bishop_line(s@, t) == (on_ray(s@, 1, 1, t) || on_ray(s@, 1, -1, t)
                    || on_ray(s@, -1, 1, t) || on_ray(s@, -1, -1, t)));
            }
        }
    }
    b
}

/// The attack set of a queen on `s` when the occupied squares are `occ`: that
/// of a rook together with that of a bishop.
pub fn queen(s: Square, occ: u64) -> (b: u64)
    ensures
        forall|t: int| #[trigger] bit(b, t) == queen_hits(occ, s@, t),
{
    let r = rook(s, occ);
    let d = bishop(s, occ);
    proof {
        lemma_bit_or(r, d);
    }
    r | d
}

} // verus!
