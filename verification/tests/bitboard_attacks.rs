use neocortex::attacks;
use neocortex::bitboard::{for_each, has, shift, squares, to_pretty, FILES, RANKS};
use neocortex::piece::Color;
use neocortex::square::Square;

#[test]
fn bitboard_to_pretty_works() {
    assert_eq!(
        to_pretty(0xfe79e8a5c9b8095c),
        ".#######\n#..####.\n...#.###\n#.#..#.#\n#..#..##\n...###.#\n#..#....\n..###.#."
    );
}

#[test]
fn bitboard_to_pretty_of_empty_and_full() {
    assert_eq!(
        to_pretty(0),
        "........\n........\n........\n........\n........\n........\n........\n........"
    );
    assert_eq!(
        to_pretty(u64::MAX),
        "########\n########\n########\n########\n########\n########\n########\n########"
    );
    assert_eq!(to_pretty(1).len(), 71);
    assert!(to_pretty(1).ends_with("#......."));
}

#[test]
fn bitboard_shift_moves_members() {
    assert_eq!(shift(0x00ff, 8), 0xff00);
    assert_eq!(shift(0xff00, -8), 0x00ff);
    assert_eq!(shift(0x8000_0000_0000_0000, 1), 0);
    assert_eq!(shift(1, -1), 0);
    assert_eq!(shift(0x81, 9), 0x10200);
    assert_eq!(shift(0x1234, 0), 0x1234);
}

#[test]
fn bitboard_shift_out_of_range_is_empty() {
    assert_eq!(shift(u64::MAX, 64), 0);
    assert_eq!(shift(u64::MAX, -64), 0);
    assert_eq!(shift(u64::MAX, 1000), 0);
    assert_eq!(shift(u64::MAX, i32::MIN), 0);
    assert_eq!(shift(u64::MAX, i32::MAX), 0);
    assert_eq!(shift(u64::MAX, 63), 0x8000_0000_0000_0000);
    assert_eq!(shift(u64::MAX, -63), 1);
}

#[test]
fn bitboard_squares_are_lowest_first() {
    let v = squares(0x8000_0000_0001_0005);
    let idx: Vec<usize> = v.iter().map(|s| s.index()).collect();
    assert_eq!(idx, vec![0, 2, 16, 63]);
    assert!(squares(0).is_empty());
    assert_eq!(squares(u64::MAX).len(), 64);
}

#[test]
fn bitboard_for_each_visits_every_member_in_order() {
    let mut seen: Vec<usize> = Vec::new();
    for_each(0x0000_0000_0000_8421, |s| seen.push(s.index()));
    assert_eq!(seen, vec![0, 5, 10, 15]);
    let mut count = 0;
    for_each(0, |_s| count += 1);
    assert_eq!(count, 0);
}

#[test]
fn bitboard_rank_and_file_masks() {
    for r in 0..8 {
        for f in 0..8 {
            let i = r * 8 + f;
            for k in 0..8 {
                assert_eq!(has(RANKS[k], i), k == r);
                assert_eq!(has(FILES[k], i), k == f);
            }
        }
    }
    assert_eq!(RANKS[1], 0xff00);
    assert_eq!(FILES[7], 0x8080_8080_8080_8080);
}

#[test]
fn attacks_of_sliders_stop_at_the_first_blocker() {
    assert_eq!(attacks::rook(Square::at(0, 0), 0), 0x0101_0101_0101_01fe);
    let occ = Square::at(5, 3).mask() | Square::at(3, 5).mask();
    assert_eq!(attacks::rook(Square::at(3, 3), occ), 0x0000_0808_3708_0808);
    assert_eq!(attacks::bishop(Square::at(0, 2), 0), 0x0000_8040_2011_0a00);
    assert_eq!(
        attacks::bishop(Square::at(3, 3), Square::at(5, 5).mask()),
        0x0001_2214_0014_2241
    );
    assert_eq!(attacks::queen(Square::at(0, 0), 128237), 0x8040_2010_0805_0306);
    assert_eq!(attacks::queen(Square::at(3, 3), 0), 0x8849_2a1c_f71c_2a49);
}

#[test]
fn attacks_of_queen_are_rook_and_bishop_together() {
    let occ = 0x00ff_0012_3400_ff00u64;
    for i in 0..64 {
        let s = Square::from_index(i).unwrap();
        assert_eq!(
            attacks::queen(s, occ),
            attacks::rook(s, occ) | attacks::bishop(s, occ)
        );
        assert_eq!(attacks::rook(s, occ) & s.mask(), 0);
    }
}

#[test]
fn attacks_of_king_knight_and_pawn() {
    assert_eq!(attacks::king(Square::at(0, 4)), 0x3828);
    assert_eq!(attacks::king(Square::at(0, 0)), 0x302);
    assert_eq!(attacks::king(Square::at(3, 3)), 0x0000_001c_141c_0000);
    assert_eq!(attacks::knight(Square::at(0, 1)), 0x0005_0800);
    assert_eq!(attacks::knight(Square::at(3, 3)), 0x0000_1422_0022_1400);
    assert_eq!(attacks::knight(Square::at(7, 7)), 0x0020_4000_0000_0000);
    assert_eq!(attacks::pawn(Color::WHITE, Square::at(1, 4)), 0x0028_0000);
    assert_eq!(attacks::pawn(Color::WHITE, Square::at(1, 0)), 0x0002_0000);
    assert_eq!(attacks::pawn(Color::BLACK, Square::at(6, 7)), 0x0000_4000_0000_0000);
    assert_eq!(attacks::pawn(Color::BLACK, Square::at(6, 4)), 0x0000_2800_0000_0000);
    assert_eq!(attacks::pawn(Color::WHITE, Square::at(7, 4)), 0);
    assert_eq!(attacks::pawn(Color::BLACK, Square::at(0, 4)), 0);
}
