//! The FEN text of a position reads back as that position.

use vstd::prelude::*;
use crate::board::{
    digit_char,
    placement_text,
    rank_text,
    rank_text_from,
    ranks_text_from,
    run_text,
    Placement,
};
use crate::fen::{
    decimal,
    digit_value,
    digits_value,
    empty_row,
    fen_text,
    index_of,
    is_digit,
    letter_if,
    number_body,
    parse_fen,
    parse_number,
    parse_placement,
    parse_rank,
    parse_rights,
    rank_scan,
    rights_text,
    split,
    split_upto,
};
use crate::piece::{lemma_piece_letter_round_trip, Piece};
use crate::position::{PositionView, Rights, State};
use crate::square::{lemma_square_text_parses, square_text_withnull, Square};

verus! {

/// The character `c` does not occur in `s`.
pub open spec fn free_of(s: Seq<char>, c: char) -> bool {
    forall|i: int| 0 <= i < s.len() ==> #[trigger] s[i] != c
}

proof fn lemma_split_prefix(a: Seq<char>, x: Seq<char>, sep: char, k: int)
    requires
        free_of(a, sep),
        0 <= k <= a.len(),
    ensures
        split_upto(a + x, sep, k) == seq![a.subrange(0, k)],
    decreases k,
{
    if k > 0 {
        lemma_split_prefix(a, x, sep, k - 1);
        assert((a + x)[k - 1] == a[k - 1]);
        assert(a.subrange(0, k - 1).push(a[k - 1]) =~= a.subrange(0, k));
        assert(seq![a.subrange(0, k - 1)].update(0, a.subrange(0, k)) =~= seq![a.subrange(0, k)]);
    } else {
        assert(a.subrange(0, 0) =~= Seq::<char>::empty());
    }
}

/// A text without separator is its own single part.
proof fn lemma_split_plain(a: Seq<char>, sep: char)
    requires
        free_of(a, sep),
    ensures
        split(a, sep) == seq![a],
{
    lemma_split_prefix(a, Seq::empty(), sep, a.len() as int);
    assert(a + Seq::<char>::empty() =~= a);
    assert(a.subrange(0, a.len() as int) =~= a);
}

proof fn lemma_split_head_upto(a: Seq<char>, t: Seq<char>, sep: char, k: int)
    requires
        free_of(a, sep),
        0 <= k <= t.len(),
    ensures
        split_upto(a + seq![sep] + t, sep, a.len() + 1 + k) == seq![a] + split_upto(t, sep, k),
    decreases k,
{
    let s = a + seq![sep] + t;
    if k == 0 {
        lemma_split_prefix(a, seq![sep] + t, sep, a.len() as int);
        assert(a + (seq![sep] + t) =~= s);
        assert(a.subrange(0, a.len() as int) =~= a);
        assert(s[a.len() as int] == sep);
        assert(seq![a].push(Seq::<char>::empty()) =~= seq![a] + seq![Seq::<char>::empty()]);
    } else {
        lemma_split_head_upto(a, t, sep, k - 1);
        let prev = split_upto(t, sep, k - 1);
        lemma_split_upto_nonempty(t, sep, k - 1);
        assert(s[a.len() + 1 + k - 1] == t[k - 1]);
        if t[k - 1] == sep {
            assert((seq![a] + prev).push(Seq::<char>::empty()) =~= seq![a] + prev.push(
                Seq::<char>::empty(),
            ));
        } else {
            assert((seq![a] + prev).update(
                (seq![a] + prev).len() - 1,
                (seq![a] + prev).last().push(t[k - 1]),
            ) =~= seq![a] + prev.update(prev.len() - 1, prev.last().push(t[k - 1])));
        }
    }
}

proof fn lemma_split_upto_nonempty(t: Seq<char>, sep: char, k: int)
    ensures
        split_upto(t, sep, k).len() >= 1,
    decreases k,
{
    if k > 0 {
        lemma_split_upto_nonempty(t, sep, k - 1);
    }
}

/// A text that starts with a part without separator, followed by a
/// separator, splits into that part and the parts of the rest.
proof fn lemma_split_head(a: Seq<char>, t: Seq<char>, sep: char)
    requires
        free_of(a, sep),
    ensures
        split(a + seq![sep] + t, sep) == seq![a] + split(t, sep),
{
    lemma_split_head_upto(a, t, sep, t.len() as int);
}

/// The run of a rank text is written with a digit from 1 to 8.
proof fn lemma_run_text(run: int)
    requires
        0 <= run <= 8,
    ensures
        run > 0 ==> run_text(run).len() == 1 && is_digit(run_text(run)[0]) && digit_value(
            run_text(run)[0],
        ) == run && run_text(run)[0] != '/' && run_text(run)[0] != ' ',
        run == 0 ==> run_text(run).len() == 0,
{
}

proof fn lemma_letter_is_no_digit(p: Piece)
    ensures
        !is_digit(p.letter()),
        p.letter() != '/',
        p.letter() != ' ',
{
}

/// The FEN text of a rank holds neither `/` nor a space.
proof fn lemma_rank_text_free(b: Placement, r: int, f: int, run: int)
    requires
        0 <= run <= f <= 8,
    ensures
        free_of(rank_text_from(b, r, f, run), '/'),
        free_of(rank_text_from(b, r, f, run), ' '),
    decreases 8 - f,
{
    lemma_run_text(run);
    if f < 8 {
        match b[r * 8 + f] {
            Some(p) => {
                lemma_rank_text_free(b, r, f + 1, 0);
                lemma_letter_is_no_digit(p);
            },
            None => {
                lemma_rank_text_free(b, r, f + 1, run + 1);
            },
        }
    }
}

/// Scanning the FEN text of a rank gives the squares of that rank.
proof fn lemma_scan_emitted(
    cs: Seq<char>,
    k: int,
    b: Placement,
    r: int,
    f: int,
    run: int,
    row: Seq<Option<Piece>>,
)
    requires
        0 <= r < 8,
        b.len() == 64,
        0 <= run <= f <= 8,
        0 <= k <= cs.len(),
        cs.subrange(k, cs.len() as int) == rank_text_from(b, r, f, run),
        rank_scan(cs, k) == Some((row, f - run)),
        row.len() == 8,
        forall|j: int| 0 <= j < f - run ==> #[trigger] row[j] == b[r * 8 + j],
        forall|j: int| f - run <= j < 8 ==> (#[trigger] row[j]) is None,
        forall|j: int| f - run <= j < f ==> (#[trigger] b[r * 8 + j]) is None,
    ensures
        parse_rank(cs) == Some(Seq::new(8, |j: int| b[r * 8 + j])),
    decreases 8 - f,
{
    let rest = cs.subrange(k, cs.len() as int);
    let n = cs.len() as int;
    lemma_run_text(run);
    if f >= 8 {
        if run > 0 {
            assert(rest.len() == 1);
            assert(cs[k] == rest[0]);
            assert(n == k + 1);
            assert(rank_scan(cs, n) == Some((row, 8int)));
        } else {
            assert(rest.len() == 0);
            assert(n == k);
        }
        assert(row =~= Seq::new(8, |j: int| b[r * 8 + j]));
    } else {
        match b[r * 8 + f] {
            Some(p) => {
                lemma_letter_is_no_digit(p);
                lemma_piece_letter_round_trip(p);
                let tail = rank_text_from(b, r, f + 1, 0);
                assert(rest == run_text(run) + seq![p.letter()] + tail);
                let k1 = k + run_text(run).len();
                if run > 0 {
                    assert(cs[k] == rest[0]);
                    assert(rank_scan(cs, k1) == Some((row, f)));
                }
                assert(cs[k1] == rest[k1 - k]);
                assert(cs[k1] == p.letter());
                let row2 = row.update(f, Some(p));
                assert(rank_scan(cs, k1 + 1) == Some((row2, f + 1)));
                assert(rest.len() == run_text(run).len() + 1 + tail.len());
                assert forall|i: int| 0 <= i < tail.len() implies cs.subrange(k1 + 1, n)[i]
                    == tail[i] by {
                    assert(cs[k1 + 1 + i] == rest[k1 + 1 + i - k]);
                }
                assert(cs.subrange(k1 + 1, n) =~= tail);
                lemma_scan_emitted(cs, k1 + 1, b, r, f + 1, 0, row2);
            },
            None => {
                lemma_scan_emitted(cs, k, b, r, f + 1, run + 1, row);
            },
        }
    }
}

/// The FEN text of a rank reads back as the squares of that rank.
proof fn lemma_rank_round_trip(b: Placement, r: int)
    requires
        0 <= r < 8,
        b.len() == 64,
    ensures
        parse_rank(rank_text(b, r)) == Some(Seq::new(8, |j: int| b[r * 8 + j])),
{
    let cs = rank_text(b, r);
    assert(cs.subrange(0, cs.len() as int) =~= cs);
    lemma_scan_emitted(cs, 0, b, r, 0, 0, empty_row());
}

/// The text of the ranks from `r` down splits at `/` into the texts of those
/// ranks.
proof fn lemma_ranks_split(b: Placement, r: int)
    requires
        0 <= r < 8,
    ensures
        split(ranks_text_from(b, r), '/').len() == r + 1,
        forall|q: int|
            0 <= q <= r ==> #[trigger] split(ranks_text_from(b, r), '/')[q] == rank_text(b, r - q),
        free_of(ranks_text_from(b, r), ' '),
    decreases r,
{
    lemma_rank_text_free(b, r, 0, 0);
    if r == 0 {
        lemma_split_plain(rank_text(b, 0), '/');
    } else {
        lemma_ranks_split(b, r - 1);
        lemma_split_head(rank_text(b, r), ranks_text_from(b, r - 1), '/');
        let parts = split(ranks_text_from(b, r), '/');
        let tail = split(ranks_text_from(b, r - 1), '/');
        assert forall|q: int| 0 <= q <= r implies #[trigger] parts[q] == rank_text(b, r - q) by {
            if q > 0 {
                assert(parts[q] == tail[q - 1]);
            }
        }
    }
}

/// The FEN text of a placement reads back as that placement.
proof fn lemma_placement_round_trip(b: Placement)
    requires
        b.len() == 64,
    ensures
        parse_placement(split(placement_text(b), '/')) == Some(b),
        free_of(placement_text(b), ' '),
{
    lemma_ranks_split(b, 7);
    let ranks = split(placement_text(b), '/');
    assert forall|r: int| 0 <= r < 8 implies parse_rank(#[trigger] ranks[r]) == Some(
        Seq::new(8, |j: int| b[(7 - r) * 8 + j]),
    ) by {
        lemma_rank_round_trip(b, 7 - r);
    }
    assert(parse_placement(ranks)->0 =~= b) by {
        assert forall|i: int| 0 <= i < 64 implies parse_placement(ranks)->0[i] == b[i] by {
            let r = 7 - i / 8;
            assert(parse_rank(ranks[r]) == Some(Seq::new(8, |j: int| b[(7 - r) * 8 + j])));
        }
    }
}

proof fn lemma_digits_value_prefix(x: Seq<char>, c: char, n: int)
    requires
        0 <= n <= x.len(),
    ensures
        digits_value(x.push(c), n) == digits_value(x, n),
    decreases n,
{
    if n > 0 {
        lemma_digits_value_prefix(x, c, n - 1);
    }
}

/// The decimal digits of a number are digits, and their value is the
/// number.
proof fn lemma_decimal(n: nat)
    ensures
        decimal(n).len() >= 1,
        forall|i: int| 0 <= i < decimal(n).len() ==> is_digit(#[trigger] decimal(n)[i]),
        digits_value(decimal(n), decimal(n).len() as int) == n,
    decreases n,
{
    if n >= 10 {
        lemma_decimal(n / 10);
        let x = decimal(n / 10);
        let c = digit_char((n % 10) as int);
        lemma_digits_value_prefix(x, c, x.len() as int);
        assert(decimal(n) == x.push(c));
        assert(digit_value(c) == n % 10);
    } else {
        assert(digit_value(digit_char(n as int)) == n);
        assert(digits_value(decimal(n), 0) == 0);
    }
}

/// The decimal digits of a 32-bit number read back as that number.
proof fn lemma_number_round_trip(n: u32)
    ensures
        parse_number(decimal(n as nat)) == Some(n),
        free_of(decimal(n as nat), ' '),
{
    lemma_decimal(n as nat);
    let d = decimal(n as nat);
    assert(is_digit(d[0]));
    assert(number_body(d) == d);
}

/// The text of the castling rights reads back as those rights.
proof fn lemma_rights_round_trip(r: Rights)
    ensures
        parse_rights(rights_text(r)) == r,
        free_of(rights_text(r), ' '),
{
    let a = letter_if(r.white_kingside, 'K');
    let b = letter_if(r.white_queenside, 'Q');
    let c = letter_if(r.black_kingside, 'k');
    let d = letter_if(r.black_queenside, 'q');
    let t = a + b + c + d;
    let s = rights_text(r);
    assert forall|x: char| s.contains(x) implies x == '-' || (x == 'K' && r.white_kingside) || (x
        == 'Q' && r.white_queenside) || (x == 'k' && r.black_kingside) || (x == 'q'
        && r.black_queenside) by {
        let i = choose|i: int| 0 <= i < s.len() && s[i] == x;
        if t.len() > 0 {
            if i < a.len() {
            } else if i < a.len() + b.len() {
                assert(t[i] == b[i - a.len()]);
            } else if i < a.len() + b.len() + c.len() {
                assert(t[i] == c[i - a.len() - b.len()]);
            } else {
                assert(t[i] == d[i - a.len() - b.len() - c.len()]);
            }
        }
    }
    if r.white_kingside {
        assert(t[0] == 'K');
        assert(s.contains('K'));
    }
    if r.white_queenside {
        assert(t[a.len() as int] == 'Q');
        assert(s.contains('Q'));
    }
    if r.black_kingside {
        assert(t[(a.len() + b.len()) as int] == 'k');
        assert(s.contains('k'));
    }
    if r.black_queenside {
        assert(t[(a.len() + b.len() + c.len()) as int] == 'q');
        assert(s.contains('q'));
    }
    assert forall|i: int| 0 <= i < s.len() implies #[trigger] s[i] != ' ' by {
        assert(s.contains(s[i]));
    }
}

/// Six fields with single spaces between them.
pub open spec fn six_fields(
    f0: Seq<char>,
    f1: Seq<char>,
    f2: Seq<char>,
    f3: Seq<char>,
    f4: Seq<char>,
    f5: Seq<char>,
) -> Seq<char> {
    f0 + seq![' '] + f1 + seq![' '] + f2 + seq![' '] + f3 + seq![' '] + f4 + seq![' '] + f5
}

/// Six fields without spaces, written with single spaces between them, split
/// at the spaces into the six fields.
proof fn lemma_fields_split(
    f0: Seq<char>,
    f1: Seq<char>,
    f2: Seq<char>,
    f3: Seq<char>,
    f4: Seq<char>,
    f5: Seq<char>,
)
    requires
        free_of(f0, ' '),
        free_of(f1, ' '),
        free_of(f2, ' '),
        free_of(f3, ' '),
        free_of(f4, ' '),
        free_of(f5, ' '),
    ensures
        split(six_fields(f0, f1, f2, f3, f4, f5), ' ') == seq![f0, f1, f2, f3, f4, f5],
{
    let sp = seq![' '];
    let t4 = f4 + sp + f5;
    let t3 = f3 + sp + t4;
    let t2 = f2 + sp + t3;
    let t1 = f1 + sp + t2;
    let t0 = f0 + sp + t1;
    lemma_split_plain(f5, ' ');
    lemma_split_head(f4, f5, ' ');
    assert(split(t4, ' ') =~= seq![f4, f5]);
    lemma_split_head(f3, t4, ' ');
    assert(split(t3, ' ') =~= seq![f3, f4, f5]);
    lemma_split_head(f2, t3, ' ');
    assert(split(t2, ' ') =~= seq![f2, f3, f4, f5]);
    lemma_split_head(f1, t2, ' ');
    assert(split(t1, ' ') =~= seq![f1, f2, f3, f4, f5]);
    lemma_split_head(f0, t1, ' ');
    assert(split(t0, ' ') =~= seq![f0, f1, f2, f3, f4, f5]);
    assert(six_fields(f0, f1, f2, f3, f4, f5) =~= t0);
}

/// What a position keeps when it is written as FEN: its pieces, the side to
/// move, and of its current frame the en-passant target, the clocks and the
/// castling rights.
pub open spec fn fen_view(p: PositionView) -> PositionView {
    PositionView {
        board: p.board,
        ctm: p.ctm,
        frames: seq![
            State {
                ep_target: match p.top().ep_target {
                    Some(s) => Some(Square::of(s@)),
                    None => None,
                },
                captured: None,
                capture_square: None,
                fm_number: p.top().fm_number,
                hm_clock: p.top().hm_clock,
                castling: p.top().castling,
                last_move: None,
            },
        ],
    }
}

/// The FEN text of a position reads back as what the text describes of it,
/// and that position is written as the same text again. So reading a text
/// that was written by `to_fen` and writing the result gives the identical
/// text.
pub proof fn lemma_fen_round_trip(p: PositionView)
    requires
        p.valid(),
        p.top().ep_target is Some ==> 0 <= p.top().ep_target->0@ < 64,
    ensures
        parse_fen(fen_text(p)) == Some(fen_view(p)),
        fen_text(fen_view(p)) == fen_text(p),
{
    broadcast use Square::lemma_of_view;

    let top = p.top();
    let f0 = placement_text(p.board);
    let f1 = seq![p.ctm.letter()];
    let f2 = rights_text(top.castling);
    let f3 = square_text_withnull(index_of(top.ep_target));
    let f4 = decimal(top.hm_clock as nat);
    let f5 = decimal(top.fm_number as nat);
    lemma_placement_round_trip(p.board);
    lemma_rights_round_trip(top.castling);
    lemma_number_round_trip(top.hm_clock);
    lemma_number_round_trip(top.fm_number);
    assert(free_of(f1, ' '));
    assert(free_of(f3, ' '));
    lemma_fields_split(f0, f1, f2, f3, f4, f5);
    assert(fen_text(p) =~= six_fields(f0, f1, f2, f3, f4, f5));
    let parts = split(fen_text(p), ' ');
    assert(parts[0] == f0 && parts[1] == f1 && parts[2] == f2 && parts[3] == f3 && parts[4] == f4
        && parts[5] == f5);
    match top.ep_target {
        Some(s) => {
            lemma_square_text_parses(s@);
        },
        None => {},
    }
    assert(fen_view(p).top() == fen_view(p).frames[0]);
    assert(index_of(fen_view(p).top().ep_target) == index_of(top.ep_target));
    assert(parse_fen(fen_text(p))->0.frames =~= fen_view(p).frames);
}

} // verus!
