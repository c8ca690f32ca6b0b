//! 64-bit sets of squares. Bit `rank * 8 + file` stands for the square on that
//! rank and file.

use vstd::prelude::*;
use crate::square::Square;

verus! {

/// Whether square `i` is a member of the set `b`. False outside `0..64`.
pub open spec fn bit(b: u64, i: int) -> bool {
    0 <= i < 64 && (b >> (i as u64)) & 1 == 1
}

/// The set that holds exactly the squares of rank `r`.
pub open spec fn rank_mask(r: int) -> u64 {
    0xFFu64 << ((8 * r) as u64)
}

/// The set that holds exactly the squares of file `f`.
pub open spec fn file_mask(f: int) -> u64 {
    0x0101010101010101u64 << (f as u64)
}

/// The sets of the squares of each rank, the first rank first.
pub const RANKS: [u64; 8] = [
    0x00000000000000FF,
    0x000000000000FF00,
    0x0000000000FF0000,
    0x00000000FF000000,
    0x000000FF00000000,
    0x0000FF0000000000,
    0x00FF000000000000,
    0xFF00000000000000,
];

/// The sets of the squares of each file, the a-file first.
pub const FILES: [u64; 8] = [
    0x0101010101010101,
    0x0202020202020202,
    0x0404040404040404,
    0x0808080808080808,
    0x1010101010101010,
    0x2020202020202020,
    0x4040404040404040,
    0x8080808080808080,
];

/// The number 0 is the empty set.
pub proof fn lemma_bit_zero()
    ensures
        forall|i: int| !#[trigger] bit(0u64, i),
{
    assert forall|i: int| !#[trigger] bit(0u64, i) by {
        if 0 <= i < 64 {
            let k = i as u64;
            assert((0u64 >> k) & 1 == 0) by (bit_vector);
        }
    }
}

/// `&` is the intersection of two sets.
pub proof fn lemma_bit_and(a: u64, b: u64)
    ensures
        forall|i: int| #[trigger] bit(a & b, i) == (bit(a, i) && bit(b, i)),
{
    assert forall|i: int| #[trigger] bit(a & b, i) == (bit(a, i) && bit(b, i)) by {
        if 0 <= i < 64 {
            let k = i as u64;
            assert((((a & b) >> k) & 1 == 1) == (((a >> k) & 1 == 1) && ((b >> k) & 1 == 1)))
                by (bit_vector);
        }
    }
}

/// `|` is the union of two sets.
pub proof fn lemma_bit_or(a: u64, b: u64)
    ensures
        forall|i: int| #[trigger] bit(a | b, i) == (bit(a, i) || bit(b, i)),
{
    assert forall|i: int| #[trigger] bit(a | b, i) == (bit(a, i) || bit(b, i)) by {
        if 0 <= i < 64 {
            let k = i as u64;
            assert((((a | b) >> k) & 1 == 1) == (((a >> k) & 1 == 1) || ((b >> k) & 1 == 1)))
                by (bit_vector);
        }
    }
}

/// `^` holds the squares that are in exactly one of two sets.
pub proof fn lemma_bit_xor(a: u64, b: u64)
    ensures
        forall|i: int| #[trigger] bit(a ^ b, i) == (bit(a, i) != bit(b, i)),
{
    assert forall|i: int| #[trigger] bit(a ^ b, i) == (bit(a, i) != bit(b, i)) by {
        if 0 <= i < 64 {
            let k = i as u64;
            assert((((a ^ b) >> k) & 1 == 1) == (((a >> k) & 1 == 1) != ((b >> k) & 1 == 1)))
                by (bit_vector);
        }
    }
}

/// `1 << s` holds the square `s` and no other.
pub proof fn lemma_bit_single(s: int)
    requires
        0 <= s < 64,
    ensures
        forall|i: int| #[trigger] bit(1u64 << (s as u64), i) == (i == s),
{
    let n = s as u64;
    assert forall|i: int| #[trigger] bit(1u64 << n, i) == (i == s) by {
        if 0 <= i < 64 {
            let k = i as u64;
            assert((((1u64 << n) >> k) & 1 == 1) == (k == n)) by (bit_vector)
                requires
                    n < 64,
                    k < 64,
            ;
        }
    }
}

/// A left shift by `n` moves every member up by `n` squares and drops those
/// that would leave the board.
pub proof fn lemma_bit_shl(b: u64, n: int)
    requires
        0 <= n < 64,
    ensures
        forall|i: int| #[trigger] bit(b << (n as u64), i) == (0 <= i < 64 && bit(b, i - n)),
{
    let m = n as u64;
    assert forall|i: int| #[trigger] bit(b << m, i) == (0 <= i < 64 && bit(b, i - n)) by {
        if 0 <= i < 64 {
            let k = i as u64;
            if i >= n {
                let j = (i - n) as u64;
                assert((((b << m) >> k) & 1 == 1) == ((b >> j) & 1 == 1)) by (bit_vector)
                    requires
                        m < 64,
                        k < 64,
                        k >= m,
                        j == k - m,
                ;
            } else {
                assert(((b << m) >> k) & 1 == 0) by (bit_vector)
                    requires
                        m < 64,
                        k < m,
                ;
            }
        }
    }
}

/// A right shift by `n` moves every member down by `n` squares and drops
/// those that would leave the board.
pub proof fn lemma_bit_shr(b: u64, n: int)
    requires
        0 <= n < 64,
    ensures
        forall|i: int| #[trigger] bit(b >> (n as u64), i) == (0 <= i < 64 && bit(b, i + n)),
{
    let m = n as u64;
    assert forall|i: int| #[trigger] bit(b >> m, i) == (0 <= i < 64 && bit(b, i + n)) by {
        if 0 <= i < 64 {
            let k = i as u64;
            if i + n < 64 {
                let j = (i + n) as u64;
                assert((((b >> m) >> k) & 1 == 1) == ((b >> j) & 1 == 1)) by (bit_vector)
                    requires
                        m < 64,
                        k < 64,
                        j == k + m,
                        j < 64,
                ;
            } else {
                assert(((b >> m) >> k) & 1 == 0) by (bit_vector)
                    requires
                        m < 64,
                        k < 64,
                        k + m >= 64,
                ;
            }
        }
    }
}

proof fn lemma_ext_step(a: u64, b: u64, n: int)
    requires
        0 <= n <= 63,
        forall|i: int| n <= i < 64 ==> bit(a, i) == bit(b, i),
    ensures
        a >> (n as u64) == b >> (n as u64),
    decreases 63 - n,
{
    let k = n as u64;
    assert(bit(a, n) == bit(b, n));
    if n == 63 {
        assert(a >> 63 == b >> 63) by (bit_vector)
            requires
                ((a >> 63) & 1 == 1) == ((b >> 63) & 1 == 1),
        ;
    } else {
        lemma_ext_step(a, b, n + 1);
        let k1 = (n + 1) as u64;
        assert(a >> k == b >> k) by (bit_vector)
            requires
                k < 63,
                k1 == k + 1,
                a >> k1 == b >> k1,
                ((a >> k) & 1 == 1) == ((b >> k) & 1 == 1),
        ;
    }
}

/// Two sets with the same members are the same number.
pub proof fn lemma_bit_ext(a: u64, b: u64)
    requires
        forall|i: int| 0 <= i < 64 ==> bit(a, i) == bit(b, i),
    ensures
        a == b,
{
    lemma_ext_step(a, b, 0);
    assert(a == b) by (bit_vector)
        requires
            a >> 0 == b >> 0,
    ;
}

/// Entry `r` of `RANKS` holds exactly the squares of rank `r`.
pub proof fn lemma_rank_mask(r: int)
    requires
        0 <= r < 8,
    ensures
        forall|i: int| #[trigger] bit(rank_mask(r), i) == (0 <= i < 64 && i / 8 == r),
        RANKS[r] == rank_mask(r),
{
    let q = r as u64;
    let sh = (8 * r) as u64;
    assert forall|i: int| #[trigger] bit(rank_mask(r), i) == (0 <= i < 64 && i / 8 == r) by {
        if 0 <= i < 64 {
            let k = i as u64;
            assert((((0xFFu64 << sh) >> k) & 1 == 1) == (k / 8 == q)) by (bit_vector)
                requires
                    q < 8,
                    sh == 8 * q,
                    k < 64,
            ;
        }
    }
    assert(0xFFu64 << 0 == 0xFF && 0xFFu64 << 8 == 0xFF00 && 0xFFu64 << 16 == 0xFF0000 && 0xFFu64
        << 24 == 0xFF000000 && 0xFFu64 << 32 == 0xFF00000000 && 0xFFu64 << 40 == 0xFF0000000000
        && 0xFFu64 << 48 == 0xFF000000000000 && 0xFFu64 << 56 == 0xFF00000000000000)
        by (bit_vector);
}

/// Entry `f` of `FILES` holds exactly the squares of file `f`.
pub proof fn lemma_file_mask(f: int)
    requires
        0 <= f < 8,
    ensures
        forall|i: int| #[trigger] bit(file_mask(f), i) == (0 <= i < 64 && i % 8 == f),
        FILES[f] == file_mask(f),
{
    let q = f as u64;
    assert forall|i: int| #[trigger] bit(file_mask(f), i) == (0 <= i < 64 && i % 8 == f) by {
        if 0 <= i < 64 {
            let k = i as u64;
            assert((((0x0101010101010101u64 << q) >> k) & 1 == 1) == (k % 8 == q))
                by (bit_vector)
                requires
                    q < 8,
                    k < 64,
            ;
        }
    }
    assert(0x0101010101010101u64 << 0 == 0x0101010101010101 && 0x0101010101010101u64 << 1
        == 0x0202020202020202 && 0x0101010101010101u64 << 2 == 0x0404040404040404
        && 0x0101010101010101u64 << 3 == 0x0808080808080808 && 0x0101010101010101u64 << 4
        == 0x1010101010101010 && 0x0101010101010101u64 << 5 == 0x2020202020202020
        && 0x0101010101010101u64 << 6 == 0x4040404040404040 && 0x0101010101010101u64 << 7
        == 0x8080808080808080) by (bit_vector);
}

/// Whether square `i` is a member of `b`.
pub fn has(b: u64, i: usize) -> (r: bool)
    requires
        i < 64,
    ensures
        r == bit(b, i as int),
{
    (b >> (i as u64)) & 1 == 1
}

/// The signed shift of a set: every member `i` of `b` moves to `i + d`, and
/// members that would leave `0..64` are dropped. A shift by 64 or more, either
/// way, gives the empty set.
pub fn shift(b: u64, d: i32) -> (r: u64)
    ensures
        forall|i: int| #[trigger] bit(r, i) == (0 <= i < 64 && bit(b, i - d)),
{
    if d >= 64 || d <= -64 {
        proof {
            lemma_bit_zero();
        }
        0
    } else if d > 0 {
        proof {
            lemma_bit_shl(b, d as int);
        }
        b << (d as u64)
    } else {
        proof {
            lemma_bit_shr(b, -d as int);
        }
        b >> ((-d) as u64)
    }
}

/// The character at place `k` of the text dump of `b`: rows of eight
/// characters, rank 8 first, each row but the last followed by a newline;
/// `#` for a member, `.` for any other square.
pub open spec fn pretty_char(b: u64, k: int) -> char {
    if k % 9 == 8 {
        '\n'
    } else if bit(b, (7 - k / 9) * 8 + k % 9) {
        '#'
    } else {
        '.'
    }
}

/// The text dump of `b`: 71 characters.
pub open spec fn pretty(b: u64) -> Seq<char> {
    Seq::new(71, |k: int| pretty_char(b, k))
}

/// The text dump of a set: eight lines, rank 8 on top, `#` for a member and
/// `.` for any other square.
pub fn to_pretty(b: u64) -> (output: String)
    ensures
        output@ == pretty(b),
{
    let mut output: String = String::new();
    let mut row: usize = 0;
    while row < 8
        invariant
            row <= 8,
            output@.len() == (if row == 8 {
                71
            } else {
                9 * row as int
            }),
            forall|k: int| 0 <= k < output@.len() ==> output@[k] == pretty_char(b, k),
        decreases 8 - row,
    {
        let r: usize = 7 - row;
        let mut f: usize = 0;
        while f < 8
            invariant
                row < 8,
                r == 7 - row,
                f <= 8,
                output@.len() == 9 * row + f,
                forall|k: int| 0 <= k < output@.len() ==> output@[k] == pretty_char(b, k),
            decreases 8 - f,
        {
            if has(b, r * 8 + f) {
                output.push('#');
            } else {
                output.push('.');
            }
            f += 1;
        }
        if r > 0 {
            output.push('\n');
        }
        row += 1;
    }
    assert(output@ =~= pretty(b));
    output
}

/// The members of `b` below `n`, in ascending order.
pub open spec fn members_below(b: u64, n: int) -> Seq<Square>
    decreases n,
{
    if n <= 0 {
        Seq::empty()
    } else if bit(b, n - 1) {
        members_below(b, n - 1).push(Square::of(n - 1))
    } else {
        members_below(b, n - 1)
    }
}

/// The members of `b`, lowest first.
pub open spec fn members(b: u64) -> Seq<Square> {
    members_below(b, 64)
}

/// The squares of a set, lowest first.
pub fn squares(b: u64) -> (v: Vec<Square>)
    ensures
        v@ == members(b),
{
    let mut v: Vec<Square> = Vec::new();
    let mut i: usize = 0;
    while i < 64
        invariant
            i <= 64,
            v@ == members_below(b, i as int),
        decreases 64 - i,
    {
        if has(b, i) {
            let s = Square::from_index(i).unwrap();
            v.push(s);
        }
        i += 1;
    }
    v
}

/// Calls `c` on every square of `b`, lowest first: on the squares of
/// `squares(b)`, in their order.
pub fn for_each<F>(b: u64, mut c: F) where F: FnMut(Square)
    requires
        forall|s: Square| c.requires((s,)),
{
    let v = squares(b);
    let mut i: usize = 0;
    while i < v.len()
        invariant
            forall|s: Square| c.requires((s,)),
        decreases v.len() - i,
    {
        c(v[i]);
        i += 1;
    }
}

} // verus!
