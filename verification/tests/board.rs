use neocortex::attacks;
use neocortex::bitboard::has;
use neocortex::board::Board;
use neocortex::piece::{Color, Piece, Type};
use neocortex::square::Square;
use neocortex::zobrist::Zobrist;

fn recount(b: &Board) -> [[u64; 64]; 2] {
    let mut ad = [[0u64; 64]; 2];
    for i in 0..64 {
        let s = Square::from_index(i).unwrap();
        if let Some(p) = b.piece_at(s) {
            let occ = b.global_occ();
            let att = match p.get_type() {
                Type::PAWN => attacks::pawn(p.get_color(), s),
                Type::BISHOP => attacks::bishop(s, occ),
                Type::KNIGHT => attacks::knight(s),
                Type::ROOK => attacks::rook(s, occ),
                Type::QUEEN => attacks::queen(s, occ),
                Type::KING => attacks::king(s),
            };
            for t in 0..64 {
                if has(att, t) {
                    ad[p.get_color().index()][t] += 1;
                }
            }
        }
    }
    ad
}

fn check_invariants(b: &Board) {
    assert_eq!(b.get_ad(), recount(b));
    let w = b.color_occ(Color::WHITE);
    let k = b.color_occ(Color::BLACK);
    assert_eq!(b.global_occ(), w | k);
    assert_eq!(w & k, 0);
    let types = [
        Type::PAWN,
        Type::BISHOP,
        Type::KNIGHT,
        Type::ROOK,
        Type::QUEEN,
        Type::KING,
    ];
    let mut all = 0u64;
    let mut key = 0u64;
    for t in types {
        assert_eq!(all & b.piece_occ(t), 0);
        all |= b.piece_occ(t);
    }
    assert_eq!(all, b.global_occ());
    for i in 0..64 {
        let s = Square::from_index(i).unwrap();
        match b.piece_at(s) {
            Some(p) => {
                assert!(has(b.global_occ(), i));
                assert!(has(b.color_occ(p.get_color()), i));
                assert!(has(b.piece_occ(p.get_type()), i));
                key ^= b.keys().piece(s, p);
            }
            None => assert!(!has(b.global_occ(), i)),
        }
    }
    assert_eq!(b.key(), key);
}

#[test]
fn board_place_works() {
    let mut b: Board = Board::new();

    b.place(Square::at(0, 0), Piece::from_fen('Q').unwrap());
}

#[test]
fn board_remove_works() {
    let mut b: Board = Board::new();

    b.place(Square::at(0, 0), Piece::from_fen('Q').unwrap());
    assert_eq!(b.remove(Square::at(0, 0)), Piece::from_fen('Q').unwrap());
}

#[test]
fn board_zkey_sanity() {
    let mut b: Board = Board::new();

    b.place(Square::at(0, 0), Piece::from_fen('Q').unwrap());
    b.place(Square::at(0, 1), Piece::from_fen('B').unwrap());
    b.place(Square::at(0, 2), Piece::from_fen('n').unwrap());
    b.place(Square::at(0, 3), Piece::from_fen('k').unwrap());
    b.place(Square::at(0, 4), Piece::from_fen('p').unwrap());
    b.place(Square::at(0, 5), Piece::from_fen('P').unwrap());
    b.place(Square::at(0, 6), Piece::from_fen('N').unwrap());
    b.place(Square::at(0, 7), Piece::from_fen('b').unwrap());

    for i in 0..8 {
        b.remove(Square::at(0, i));
    }

    assert_eq!(b.key(), 0u64);
}

#[test]
fn board_to_fen_string_works() {
    let b: Board = Board::new();

    assert_eq!(b.to_fen_string(), "8/8/8/8/8/8/8/8");
}

#[test]
fn board_to_fen_string_writes_runs_and_letters() {
    let mut b = Board::new();
    b.place(Square::at(7, 0), Piece::from_fen('r').unwrap());
    b.place(Square::at(7, 4), Piece::from_fen('k').unwrap());
    b.place(Square::at(7, 7), Piece::from_fen('r').unwrap());
    b.place(Square::at(3, 3), Piece::from_fen('P').unwrap());
    b.place(Square::at(3, 4), Piece::from_fen('p').unwrap());
    b.place(Square::at(0, 7), Piece::from_fen('K').unwrap());
    assert_eq!(b.to_fen_string(), "r3k2r/8/8/8/3Pp3/8/8/7K");
}

#[test]
fn board_new_is_empty_with_zero_key_and_counters() {
    let b = Board::new();
    assert_eq!(b.key(), 0);
    assert_eq!(b.global_occ(), 0);
    assert_eq!(b.get_ad(), [[0u64; 64]; 2]);
    for i in 0..64 {
        assert_eq!(b.piece_at(Square::from_index(i).unwrap()), None);
    }
}

#[test]
fn board_counters_match_a_recount_after_every_change() {
    let mut b = Board::new();
    let placements = [
        (0, 0, 'R'),
        (0, 4, 'K'),
        (0, 7, 'R'),
        (3, 3, 'Q'),
        (3, 6, 'b'),
        (5, 3, 'n'),
        (6, 6, 'p'),
        (1, 1, 'P'),
        (7, 4, 'k'),
        (3, 0, 'r'),
        (5, 5, 'B'),
        (3, 1, 'q'),
    ];
    check_invariants(&b);
    for (r, f, c) in placements {
        b.place(Square::at(r, f), Piece::from_fen(c).unwrap());
        check_invariants(&b);
    }
    assert_eq!(b.attack_count(Color::WHITE, Square::at(3, 1)), 1);
    assert_eq!(b.attack_count(Color::BLACK, Square::at(3, 3)), 1);
    for (r, f, c) in placements {
        assert_eq!(b.remove(Square::at(r, f)), Piece::from_fen(c).unwrap());
        check_invariants(&b);
    }
    assert_eq!(b.key(), 0);
    assert_eq!(b.get_ad(), [[0u64; 64]; 2]);
    assert_eq!(b.global_occ(), 0);
}

#[test]
fn board_blocker_cuts_and_reopens_a_slider() {
    let mut b = Board::new();
    b.place(Square::at(0, 0), Piece::from_fen('R').unwrap());
    assert_eq!(b.attack_count(Color::WHITE, Square::at(0, 7)), 1);
    b.place(Square::at(0, 3), Piece::from_fen('n').unwrap());
    assert_eq!(b.attack_count(Color::WHITE, Square::at(0, 3)), 1);
    assert_eq!(b.attack_count(Color::WHITE, Square::at(0, 4)), 0);
    assert_eq!(b.attack_count(Color::WHITE, Square::at(0, 7)), 0);
    b.remove(Square::at(0, 3));
    assert_eq!(b.attack_count(Color::WHITE, Square::at(0, 7)), 1);
    check_invariants(&b);
}

#[test]
fn board_add_and_remove_attacks_are_inverse() {
    let mut b = Board::new();
    b.place(Square::at(3, 3), Piece::from_fen('Q').unwrap());
    b.place(Square::at(6, 2), Piece::from_fen('n').unwrap());
    let before = b.clone();
    b.remove_attacks(Square::at(3, 3));
    assert_eq!(b.attack_count(Color::WHITE, Square::at(3, 7)), 0);
    assert_eq!(b.attack_count(Color::BLACK, Square::at(4, 3)), 1);
    assert_eq!(b.piece_at(Square::at(3, 3)), Piece::from_fen('Q'));
    b.add_attacks(Square::at(3, 3));
    assert_eq!(b, before);
    b.add_attacks(Square::at(6, 2));
    assert_eq!(b.attack_count(Color::BLACK, Square::at(4, 3)), 2);
    b.remove_attacks(Square::at(6, 2));
    assert_eq!(b, before);
}

#[test]
fn board_with_keys_hashes_with_the_given_table() {
    let mut keys = [0u64; 781];
    for (i, k) in keys.iter_mut().enumerate() {
        *k = (i as u64 + 1).wrapping_mul(0x9e37_79b9_7f4a_7c15);
    }
    let z = Zobrist::from_keys(keys);
    let mut b = Board::with_keys(z);
    let q = Piece::from_fen('Q').unwrap();
    let n = Piece::from_fen('n').unwrap();
    b.place(Square::at(0, 0), q);
    assert_eq!(b.key(), keys[q.index()]);
    b.place(Square::at(1, 2), n);
    assert_eq!(b.key(), keys[q.index()] ^ keys[10 * 12 + n.index()]);
    b.remove(Square::at(0, 0));
    assert_eq!(b.key(), keys[10 * 12 + n.index()]);
    assert_eq!(b.attack_set(Square::at(1, 2), n), attacks::knight(Square::at(1, 2)));
}
