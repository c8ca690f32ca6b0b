//! Positions as FEN text: reading a position from its six fields and writing
//! it back.

use vstd::prelude::*;
use crate::board::{digit_char, placement_text, Board, Placement};
use crate::piece::{Color, Piece};
use crate::position::{Castling, Position, PositionView, Rights, State};
use crate::square::{parse_square, square_text_withnull, Square};
use crate::zobrist::Zobrist;

verus! {

/// The parts into which the separator `sep` cuts the first `n` characters of
/// `s`. There is always at least one part; two separators in a row have an
/// empty part between them.
pub open spec fn split_upto(s: Seq<char>, sep: char, n: int) -> Seq<Seq<char>>
    decreases n,
{
    if n <= 0 {
        seq![Seq::<char>::empty()]
    } else {
        let prev = split_upto(s, sep, n - 1);
        if s[n - 1] == sep {
            prev.push(Seq::<char>::empty())
        } else {
            prev.update(prev.len() - 1, prev.last().push(s[n - 1]))
        }
    }
}

/// The parts into which the separator `sep` cuts `s`.
pub open spec fn split(s: Seq<char>, sep: char) -> Seq<Seq<char>> {
    split_upto(s, sep, s.len() as int)
}

/// Whether `c` is one of the digits `0` to `9`.
pub open spec fn is_digit(c: char) -> bool {
    '0' <= c <= '9'
}

/// The number that the digit `c` stands for.
pub open spec fn digit_value(c: char) -> int {
    (c as int) - ('0' as int)
}

/// A rank of eight empty squares.
pub open spec fn empty_row() -> Seq<Option<Piece>> {
    Seq::new(8, |i: int| None)
}

/// The rank and the file reached after the first `n` characters of the rank
/// text `cs`: a digit skips that many files, a piece letter puts the piece on
/// the current file and goes on to the next. There is no result if a
/// character comes when the eight files are used up, or is neither a digit
/// nor a piece letter.
pub open spec fn rank_scan(cs: Seq<char>, n: int) -> Option<(Seq<Option<Piece>>, int)>
    decreases n,
{
    if n <= 0 {
        Some((empty_row(), 0int))
    } else {
        match rank_scan(cs, n - 1) {
            None => None,
            Some((row, f)) => {
                let c = cs[n - 1];
                if f >= 8 {
                    None
                } else if is_digit(c) {
                    Some((row, f + digit_value(c)))
                } else {
                    match Piece::of_letter(c) {
                        Some(p) => Some((row.update(f, Some(p)), f + 1)),
                        None => None,
                    }
                }
            },
        }
    }
}

/// The eight squares that a rank text describes.
pub open spec fn parse_rank(cs: Seq<char>) -> Option<Seq<Option<Piece>>> {
    match rank_scan(cs, cs.len() as int) {
        Some((row, f)) => Some(row),
        None => None,
    }
}

/// The pieces that eight rank texts describe, the eighth rank first.
pub open spec fn parse_placement(ranks: Seq<Seq<char>>) -> Option<Placement> {
    if ranks.len() == 8 && (forall|r: int| 0 <= r < 8 ==> parse_rank(#[trigger] ranks[r]) is Some) {
        Some(Seq::new(64, |i: int| parse_rank(ranks[7 - i / 8])->0[i % 8]))
    } else {
        None
    }
}

/// The castling rights that a text grants: each of the letters `K`, `Q`,
/// `k`, `q` that occurs in it grants its right; other characters say nothing.
pub open spec fn parse_rights(cs: Seq<char>) -> Rights {
    Rights {
        white_queenside: cs.contains('Q'),
        white_kingside: cs.contains('K'),
        black_queenside: cs.contains('q'),
        black_kingside: cs.contains('k'),
    }
}

/// The value of the first `n` characters of `cs`, read as decimal digits.
pub open spec fn digits_value(cs: Seq<char>, n: int) -> int
    decreases n,
{
    if n <= 0 {
        0
    } else {
        10 * digits_value(cs, n - 1) + digit_value(cs[n - 1])
    }
}

/// The digits of a number text: the text without a leading `+`.
pub open spec fn number_body(cs: Seq<char>) -> Seq<char> {
    if cs.len() > 0 && cs[0] == '+' {
        cs.subrange(1, cs.len() as int)
    } else {
        cs
    }
}

/// The number that a text stands for: one or more decimal digits, with or
/// without a `+` before them, whose value fits in 32 bits.
pub open spec fn parse_number(cs: Seq<char>) -> Option<u32> {
    let b = number_body(cs);
    if b.len() > 0 && (forall|i: int| 0 <= i < b.len() ==> is_digit(#[trigger] b[i]))
        && digits_value(b, b.len() as int) <= u32::MAX {
        Some(digits_value(b, b.len() as int) as u32)
    } else {
        None
    }
}

/// The position that a FEN text describes. The text has six fields separated
/// by single spaces: eight ranks separated by `/`; the side to move, `w` or
/// `b`; the castling rights; the en-passant target, where anything but the
/// name of a square means none; the halfmove clock; the number of the full
/// move.
pub open spec fn parse_fen(s: Seq<char>) -> Option<PositionView> {
    let parts = split(s, ' ');
    if parts.len() != 6 {
        None
    } else {
        let board = parse_placement(split(parts[0], '/'));
        let hm = parse_number(parts[4]);
        let fm = parse_number(parts[5]);
        if board is None || parts[1].len() != 1 || Color::of_letter(parts[1][0]) is None || hm
            is None || fm is None {
            None
        } else {
            Some(
                PositionView {
                    board: board->0,
                    ctm: Color::of_letter(parts[1][0])->0,
                    frames: seq![
                        State {
                            ep_target: match parse_square(parts[3]) {
                                Some(i) => Some(Square::of(i)),
                                None => None,
                            },
                            captured: None,
                            capture_square: None,
                            fm_number: fm->0,
                            hm_clock: hm->0,
                            castling: parse_rights(parts[2]),
                            last_move: None,
                        },
                    ],
                },
            )
        }
    }
}

/// The decimal digits of `n`.
pub open spec fn decimal(n: nat) -> Seq<char>
    decreases n,
{
    if n < 10 {
        seq![digit_char(n as int)]
    } else {
        decimal(n / 10).push(digit_char((n % 10) as int))
    }
}

/// One letter if `b` holds, else nothing.
pub open spec fn letter_if(b: bool, c: char) -> Seq<char> {
    if b {
        seq![c]
    } else {
        Seq::empty()
    }
}

/// The text of the castling rights: the letters of the rights in the order
/// `KQkq`, or `-` if there is none.
pub open spec fn rights_text(r: Rights) -> Seq<char> {
    let t = letter_if(r.white_kingside, 'K') + letter_if(r.white_queenside, 'Q') + letter_if(
        r.black_kingside,
        'k',
    ) + letter_if(r.black_queenside, 'q');
    if t.len() == 0 {
        seq!['-']
    } else {
        t
    }
}

/// The index of an optional square.
pub open spec fn index_of(s: Option<Square>) -> Option<int> {
    match s {
        Some(q) => Some(q@),
        None => None,
    }
}

/// The FEN text of a position: its six fields, separated by single spaces.
pub open spec fn fen_text(p: PositionView) -> Seq<char> {
    placement_text(p.board) + seq![' ', p.ctm.letter(), ' '] + rights_text(p.top().castling)
        + seq![' '] + square_text_withnull(index_of(p.top().ep_target)) + seq![' '] + decimal(
        p.top().hm_clock as nat,
    ) + seq![' '] + decimal(p.top().fm_number as nat)
}

/// The texts that a vector of character vectors holds.
pub open spec fn texts(parts: Seq<Vec<char>>) -> Seq<Seq<char>> {
    Seq::new(parts.len(), |i: int| parts[i]@)
}

/// Once a rank text has no result, it has none however it goes on.
proof fn lemma_rank_scan_fails_on(cs: Seq<char>, k: int, n: int)
    requires
        0 <= k <= n,
        rank_scan(cs, k) is None,
    ensures
        rank_scan(cs, n) is None,
    decreases n - k,
{
    if k < n {
        lemma_rank_scan_fails_on(cs, k, n - 1);
    }
}

/// The value of a run of digits does not shrink as the run goes on.
proof fn lemma_digits_value_grows(cs: Seq<char>, k: int, n: int)
    requires
        0 <= k <= n <= cs.len(),
        forall|i: int| 0 <= i < cs.len() ==> is_digit(#[trigger] cs[i]),
    ensures
        0 <= digits_value(cs, k) <= digits_value(cs, n),
    decreases n,
{
    if n > 0 {
        assert(is_digit(cs[n - 1]));
        if k < n {
            lemma_digits_value_grows(cs, k, n - 1);
        } else {
            lemma_digits_value_grows(cs, k - 1, n - 1);
        }
    }
}

/// The characters of a string.
fn chars_of(s: &String) -> (v: Vec<char>)
    ensures
        v@ == s@,
{
    let t = s.as_str();
    let n = t.unicode_len();
    let mut v: Vec<char> = Vec::new();
    let mut i: usize = 0;
    while i < n
        invariant
            i <= n,
            n == s@.len(),
            t@ == s@,
            v@ == s@.subrange(0, i as int),
        decreases n - i,
    {
        v.push(t.get_char(i));
        assert(v@ =~= s@.subrange(0, i + 1));
        i += 1;
    }
    assert(v@ =~= s@);
    v
}

/// Cuts `s` at every `sep`.
fn split_chars(s: &Vec<char>, sep: char) -> (parts: Vec<Vec<char>>)
    ensures
        texts(parts@) == split(s@, sep),
{
    let mut parts: Vec<Vec<char>> = Vec::new();
    let mut cur: Vec<char> = Vec::new();
    let mut i: usize = 0;
    assert(texts(parts@).push(cur@) =~= split_upto(s@, sep, 0));
    while i < s.len()
        invariant
            i <= s.len(),
            texts(parts@).push(cur@) == split_upto(s@, sep, i as int),
        decreases s.len() - i,
    {
        let ghost before = texts(parts@);
        let ghost old_cur = cur@;
        let c = s[i];
        if c == sep {
            parts.push(cur);
            cur = Vec::new();
            assert(texts(parts@) =~= before.push(old_cur));
        } else {
            cur.push(c);
            assert(texts(parts@).push(cur@) =~= before.push(old_cur).update(
                before.len() as int,
                old_cur.push(c),
            ));
        }
        i += 1;
    }
    let ghost before = texts(parts@);
    let ghost last = cur@;
    parts.push(cur);
    assert(texts(parts@) =~= before.push(last));
    parts
}

/// Reads a number.
fn read_number(cs: &Vec<char>) -> (r: Option<u32>)
    ensures
        r == parse_number(cs@),
{
    let n = cs.len();
    let start: usize = if n > 0 && cs[0] == '+' {
        1
    } else {
        0
    };
    let ghost b = number_body(cs@);
    assert(b.len() == n - start);
    assert(forall|k: int| 0 <= k < b.len() ==> b[k] == cs@[start + k]);
    if start == n {
        return None;
    }
    let mut acc: u64 = 0;
    let mut i: usize = start;
    while i < n
        invariant
            start <= i <= n,
            n == cs@.len(),
            b == number_body(cs@),
            b.len() == n - start,
            forall|k: int| 0 <= k < b.len() ==> b[k] == cs@[start + k],
            forall|k: int| 0 <= k < i - start ==> is_digit(#[trigger] b[k]),
            acc == digits_value(b, i - start),
            acc <= u32::MAX,
        decreases n - i,
    {
        let c = cs[i];
        if c < '0' || c > '9' {
            assert(!is_digit(b[i - start]));
            return None;
        }
        let d: u64 = (c as u32 - '0' as u32) as u64;
        let next: u64 = acc * 10 + d;
        if next > 0xFFFF_FFFF {
            proof {
                if forall|k: int| 0 <= k < b.len() ==> is_digit(#[trigger] b[k]) {
                    lemma_digits_value_grows(b, i - start + 1, b.len() as int);
                }
            }
            return None;
        }
        acc = next;
        i += 1;
    }
    Some(acc as u32)
}

/// Reads the castling rights.
fn read_rights(cs: &Vec<char>) -> (r: Rights)
    ensures
        r == parse_rights(cs@),
{
    let mut r = Rights::none();
    let mut i: usize = 0;
    while i < cs.len()
        invariant
            i <= cs.len(),
            r == parse_rights(cs@.subrange(0, i as int)),
        decreases cs.len() - i,
    {
        let c = cs[i];
        let ghost pre = cs@.subrange(0, i as int);
        let ghost post = cs@.subrange(0, i + 1);
        proof {
            assert(post =~= pre.push(c));
            assert forall|x: char| post.contains(x) == (pre.contains(x) || x == c) by {
                if pre.contains(x) {
                    let k = choose|k: int| 0 <= k < pre.len() && pre[k] == x;
                    assert(post[k] == x);
                }
                if x == c {
                    assert(post[i as int] == x);
                }
            }
        }
        if c == 'Q' {
            r = r.with(Color::WHITE, Castling::QUEENSIDE, true);
        } else if c == 'K' {
            r = r.with(Color::WHITE, Castling::KINGSIDE, true);
        } else if c == 'q' {
            r = r.with(Color::BLACK, Castling::QUEENSIDE, true);
        } else if c == 'k' {
            r = r.with(Color::BLACK, Castling::KINGSIDE, true);
        }
        i += 1;
    }
    assert(cs@.subrange(0, cs.len() as int) =~= cs@);
    r
}

/// Reads the en-passant target.
fn read_square(cs: &Vec<char>) -> (r: Option<Square>)
    ensures
        r == (match parse_square(cs@) {
            Some(i) => Some(Square::of(i)),
            None => None,
        }),
{
    if cs.len() != 2 {
        return None;
    }
    assert(cs@ =~= seq![cs@[0], cs@[1]]);
    crate::square::square_from_chars(cs[0], cs[1])
}

/// Puts the pieces of eight rank texts on an empty board.
fn read_placement(ranks: &Vec<Vec<char>>, keys: Zobrist) -> (r: Option<Board>)
    ensures
        r is Some <==> parse_placement(texts(ranks@)) is Some,
        r is Some ==> r->0.wf() && r->0@ == parse_placement(texts(ranks@))->0 && r->0.zobrist()
            == keys,
{
    if ranks.len() != 8 {
        return None;
    }
    let ghost rs = texts(ranks@);
    let mut b = Board::with_keys(keys);
    let mut r: usize = 0;
    while r < 8
        invariant
            r <= 8,
            ranks@.len() == 8,
            rs == texts(ranks@),
            b.wf(),
            b.zobrist() == keys,
            b@.len() == 64,
            forall|q: int| 0 <= q < r ==> parse_rank(#[trigger] rs[q]) is Some,
            forall|i: int|
                0 <= i < 64 ==> #[trigger] b@[i] == (if 7 - i / 8 < r {
                    parse_rank(rs[7 - i / 8])->0[i % 8]
                } else {
                    None
                }),
        decreases 8 - r,
    {
        let cs = &ranks[r];
        assert(cs@ == rs[r as int]);
        let ghost done = b@;
        let ghost mut row = empty_row();
        let mut f: usize = 0;
        let mut k: usize = 0;
        while k < cs.len()
            invariant
                k <= cs.len(),
                r < 8,
                f <= 17,
                ranks@.len() == 8,
                rs == texts(ranks@),
                cs@ == rs[r as int],
                b.wf(),
                b.zobrist() == keys,
                b@.len() == 64,
                row.len() == 8,
                rank_scan(cs@, k as int) == Some((row, f as int)),
                forall|j: int| f <= j < 8 ==> (#[trigger] row[j]) is None,
                forall|i: int|
                    0 <= i < 64 ==> #[trigger] b@[i] == (if 7 - i / 8 == r {
                        row[i % 8]
                    } else {
                        done[i]
                    }),
            decreases cs.len() - k,
        {
            if f >= 8 {
                proof {
                    lemma_rank_scan_fails_on(cs@, k + 1, cs@.len() as int);
                    assert(parse_rank(rs[r as int]) is None);
                }
                return None;
            }
            let c = cs[k];
            if c >= '0' && c <= '9' {
                f = f + (c as u32 - '0' as u32) as usize;
            } else {
                match Piece::from_fen(c) {
                    Some(p) => {
                        let sq = Square::at(7 - r, f);
                        assert(b@[sq@] == row[f as int]);
                        b.place(sq, p);
                        proof {
                            row = row.update(f as int, Some(p));
                        }
                        f = f + 1;
                    },
                    None => {
                        proof {
                            lemma_rank_scan_fails_on(cs@, k + 1, cs@.len() as int);
                            assert(parse_rank(rs[r as int]) is None);
                        }
                        return None;
                    },
                }
            }
            k += 1;
        }
        assert(parse_rank(rs[r as int]) == Some(row));
        r += 1;
    }
    assert(b@ =~= parse_placement(rs)->0);
    Some(b)
}

/// Appends the decimal digits of `n`.
fn push_decimal(out: &mut String, n: u32)
    ensures
        final(out)@ == old(out)@ + decimal(n as nat),
    decreases n,
{
    if n >= 10 {
        push_decimal(out, n / 10);
    }
    out.push((48u8 + (n % 10) as u8) as char);
    assert(out@ =~= old(out)@ + decimal(n as nat));
}

impl Position {
    /// Reads a position from its FEN text, with the table `keys` for its
    /// hash. A text that is not a FEN gives `None`.
    pub fn with_keys(fen: String, keys: Zobrist) -> (r: Option<Position>)
        ensures
            r is Some <==> parse_fen(fen@) is Some,
            r is Some ==> r->0.wf() && r->0@ == parse_fen(fen@)->0 && r->0.spec_board().zobrist()
                == keys,
    {
        let cs = chars_of(&fen);
        let parts = split_chars(&cs, ' ');
        if parts.len() != 6 {
            return None;
        }
        let ghost ps = split(fen@, ' ');
        assert(forall|i: int| 0 <= i < 6 ==> parts@[i]@ == #[trigger] ps[i]);
        let ranks = split_chars(&parts[0], '/');
        let b = match read_placement(&ranks, keys) {
            Some(b) => b,
            None => {
                return None;
            },
        };
        if parts[1].len() != 1 {
            return None;
        }
        let ctm = match Color::from_fen(parts[1][0]) {
            Some(c) => c,
            None => {
                return None;
            },
        };
        let rights = read_rights(&parts[2]);
        let ep_target = read_square(&parts[3]);
        let hm_clock = match read_number(&parts[4]) {
            Some(n) => n,
            None => {
                return None;
            },
        };
        let fm_number = match read_number(&parts[5]) {
            Some(n) => n,
            None => {
                return None;
            },
        };
        Some(
            Position::from_parts(
                b,
                ctm,
                State {
                    ep_target,
                    captured: None,
                    capture_square: None,
                    fm_number,
                    hm_clock,
                    castling: rights,
                    last_move: None,
                },
            ),
        )
    }

    /// Reads a position from its FEN text. A text that is not a FEN gives
    /// `None`. The position hashes with a table of fresh random keys.
    pub fn new(fen: String) -> (r: Option<Position>)
        ensures
            r is Some <==> parse_fen(fen@) is Some,
            r is Some ==> r->0.wf() && r->0@ == parse_fen(fen@)->0 && r->0.spec_board().zobrist()@.len()
                == 781,
    {
        Position::with_keys(fen, Zobrist::new())
    }

    /// The FEN text of the position.
    pub fn to_fen(&self) -> (output: String)
        requires
            self.wf(),
        ensures
            output@ == fen_text(self@),
    {
        let top = self.state();
        let mut output: String = self.board().to_fen_string();
        output.push(' ');
        output.push(self.side_to_move().to_fen());
        output.push(' ');
        assert(output@ =~= placement_text(self@.board) + seq![' ', self@.ctm.letter(), ' ']);
        let ghost head = output@;
        let mut any = false;
        if top.castling.has(Color::WHITE, Castling::KINGSIDE) {
            output.push('K');
            any = true;
        }
        if top.castling.has(Color::WHITE, Castling::QUEENSIDE) {
            output.push('Q');
            any = true;
        }
        if top.castling.has(Color::BLACK, Castling::KINGSIDE) {
            output.push('k');
            any = true;
        }
        if top.castling.has(Color::BLACK, Castling::QUEENSIDE) {
            output.push('q');
            any = true;
        }
        if !any {
            output.push('-');
        }
        assert(output@ =~= head + rights_text(top.castling));
        output.push(' ');
        let ep = Square::to_str_withnull(&top.ep_target);
        output.append(ep.as_str());
        output.push(' ');
        push_decimal(&mut output, top.hm_clock);
        output.push(' ');
        push_decimal(&mut output, top.fm_number);
        assert(output@ =~= fen_text(self@));
        output
    }
}

} // verus!
