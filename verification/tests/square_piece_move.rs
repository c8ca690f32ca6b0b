use neocortex::gmove::Move;
use neocortex::piece::{Color, Piece, Type};
use neocortex::square::{Direction, Square};

#[test]
fn square_at_works() {
    assert_eq!(Square::at(0, 0).rank(), 0);
    assert_eq!(Square::at(0, 0).file(), 0);
    assert_eq!(Square::at(5, 0).rank(), 5);
    assert_eq!(Square::at(0, 5).file(), 5);
}

#[test]
fn square_to_str_works() {
    assert_eq!(Square::at(0, 0).to_str(), "a1");
    assert_eq!(Square::at(3, 3).to_str(), "d4");
    assert_eq!(Square::at(7, 1).to_str(), "b8");
    assert_eq!(Square::at(5, 4).to_str(), "e6");
}

#[test]
fn square_to_str_withnull_works() {
    assert_eq!(Square::to_str_withnull(&None), "-");
    assert_eq!(Square::to_str_withnull(&Some(Square::at(5, 5))), "f6");
}

#[test]
fn square_from_uci_works() {
    assert_eq!(
        Square::from_uci(&"e1".to_string()).unwrap(),
        Square::at(0, 4)
    );
    assert_eq!(
        Square::from_uci(&"b4".to_string()).unwrap(),
        Square::at(3, 1)
    );
    assert_eq!(
        Square::from_uci(&"g2".to_string()).unwrap(),
        Square::at(1, 6)
    );
    assert_eq!(
        Square::from_uci(&"a8".to_string()).unwrap(),
        Square::at(7, 0)
    );

    assert_eq!(Square::from_uci(&"-".to_string()), None);
    assert_eq!(Square::from_uci(&"I'MTOOLONG!".to_string()), None);
    assert_eq!(Square::from_uci(&"b0".to_string()), None);
    assert_eq!(Square::from_uci(&"b9".to_string()), None);
    assert_eq!(Square::from_uci(&"A1".to_string()), None);
    assert_eq!(Square::from_uci(&"i1".to_string()), None);
}

#[test]
fn square_index_mask_and_bounds() {
    let s = Square::at(3, 4);
    assert_eq!(s.index(), 28);
    assert_eq!(s.mask(), 1u64 << 28);
    assert_eq!(Square::at(7, 7).mask(), 0x8000_0000_0000_0000);
    assert_eq!(Square::from_index(0).unwrap(), Square::at(0, 0));
    assert_eq!(Square::from_index(63).unwrap(), Square::at(7, 7));
    assert_eq!(Square::from_index(64), None);
    assert_eq!(Square::from_index(1000), None);
}

#[test]
fn square_text_round_trips_for_every_square() {
    for i in 0..64 {
        let s = Square::from_index(i).unwrap();
        assert_eq!(s.rank() * 8 + s.file(), i);
        assert_eq!(Square::from_uci(&s.to_str()), Some(s));
    }
    assert_eq!(Square::from_uci(&"".to_string()), None);
    assert_eq!(Square::from_uci(&"e".to_string()), None);
    assert_eq!(Square::from_uci(&"\u{e9}1".to_string()), None);
}

#[test]
fn direction_offsets() {
    assert_eq!(Direction::NORTH.offset(), 8);
    assert_eq!(Direction::SOUTH.offset(), -8);
    assert_eq!(Direction::EAST.offset(), 1);
    assert_eq!(Direction::WEST.offset(), -1);
    assert_eq!(Direction::NORTHEAST.offset(), 9);
    assert_eq!(Direction::NORTHWEST.offset(), 7);
    assert_eq!(Direction::SOUTHEAST.offset(), -7);
    assert_eq!(Direction::SOUTHWEST.offset(), -9);
}

#[test]
fn color_to_fen_works() {
    assert_eq!(Color::WHITE.to_fen(), 'w');
    assert_eq!(Color::BLACK.to_fen(), 'b');
}

#[test]
fn color_from_fen_works() {
    assert_eq!(Color::from_fen('w').unwrap(), Color::WHITE);
    assert_eq!(Color::from_fen('b').unwrap(), Color::BLACK);
    assert_eq!(Color::from_fen('a'), None);
}

#[test]
fn color_flip_and_index() {
    assert_eq!(Color::WHITE.flip(), Color::BLACK);
    assert_eq!(Color::BLACK.flip(), Color::WHITE);
    assert_eq!(Color::WHITE.index(), 0);
    assert_eq!(Color::BLACK.index(), 1);
}

#[test]
fn type_to_fen_works() {
    assert_eq!(Type::PAWN.to_fen(), 'p');
    assert_eq!(Type::BISHOP.to_fen(), 'b');
    assert_eq!(Type::KNIGHT.to_fen(), 'n');
    assert_eq!(Type::ROOK.to_fen(), 'r');
    assert_eq!(Type::QUEEN.to_fen(), 'q');
    assert_eq!(Type::KING.to_fen(), 'k');
}

#[test]
fn type_from_fen_works() {
    assert_eq!(Type::from_fen('p').unwrap(), Type::PAWN);
    assert_eq!(Type::from_fen('b').unwrap(), Type::BISHOP);
    assert_eq!(Type::from_fen('n').unwrap(), Type::KNIGHT);
    assert_eq!(Type::from_fen('r').unwrap(), Type::ROOK);
    assert_eq!(Type::from_fen('q').unwrap(), Type::QUEEN);
    assert_eq!(Type::from_fen('k').unwrap(), Type::KING);

    assert_eq!(Type::from_fen('a'), None);
}

#[test]
fn type_index_is_the_declared_order() {
    assert_eq!(Type::PAWN.index(), 0);
    assert_eq!(Type::BISHOP.index(), 1);
    assert_eq!(Type::KNIGHT.index(), 2);
    assert_eq!(Type::ROOK.index(), 3);
    assert_eq!(Type::QUEEN.index(), 4);
    assert_eq!(Type::KING.index(), 5);
}

#[test]
fn piece_to_fen_works() {
    assert_eq!(Piece::from(Type::PAWN, Color::WHITE).to_fen(), 'P');
    assert_eq!(Piece::from(Type::KNIGHT, Color::BLACK).to_fen(), 'n');
    assert_eq!(Piece::from(Type::QUEEN, Color::WHITE).to_fen(), 'Q');
    assert_eq!(Piece::from(Type::KING, Color::BLACK).to_fen(), 'k');
}

#[test]
fn piece_from_fen_works() {
    assert_eq!(
        Piece::from(Type::PAWN, Color::BLACK),
        Piece::from_fen('p').unwrap()
    );
    assert_eq!(
        Piece::from(Type::KNIGHT, Color::WHITE),
        Piece::from_fen('N').unwrap()
    );
    assert_eq!(
        Piece::from(Type::QUEEN, Color::BLACK),
        Piece::from_fen('q').unwrap()
    );
    assert_eq!(
        Piece::from(Type::KING, Color::WHITE),
        Piece::from_fen('K').unwrap()
    );

    assert_eq!(Piece::from_fen('a'), None);
}

#[test]
fn piece_letters_round_trip_and_indices_are_a_bijection() {
    let types = [
        Type::PAWN,
        Type::BISHOP,
        Type::KNIGHT,
        Type::ROOK,
        Type::QUEEN,
        Type::KING,
    ];
    let mut seen = [false; 12];
    for c in [Color::WHITE, Color::BLACK] {
        for t in types {
            let p = Piece::from(t, c);
            assert_eq!(p.get_type(), t);
            assert_eq!(p.get_color(), c);
            assert_eq!(Piece::from_fen(p.to_fen()), Some(p));
            assert_eq!(p.index(), c.index() * 6 + t.index());
            assert!(!seen[p.index()]);
            seen[p.index()] = true;
        }
    }
    assert_eq!(Piece::from_fen('\u{212a}'), None);
    assert_eq!(Piece::from_fen('1'), None);
}

#[test]
fn move_new_works() {
    let src: Square = Square::from_uci(&"a1".to_string()).unwrap();
    let dst: Square = Square::from_uci(&"e2".to_string()).unwrap();
    let ptype: Option<Type> = Some(Type::QUEEN);

    let m: Move = Move::new(src, dst, ptype);

    assert_eq!(m.src(), src);
    assert_eq!(m.dst(), dst);
    assert_eq!(m.ptype(), ptype);
}

#[test]
fn move_to_uci_works() {
    assert_eq!(Move::new(Square::at(0, 0), Square::at(4, 5), None).to_uci(), "a1f5");

    assert_eq!(Move::new(Square::at(6, 1), Square::at(7, 1), Some(Type::QUEEN)).to_uci(), "b7b8q");
    assert_eq!(Move::new(Square::at(6, 1), Square::at(7, 1), Some(Type::BISHOP)).to_uci(), "b7b8b");
    assert_eq!(Move::new(Square::at(6, 1), Square::at(7, 1), Some(Type::KNIGHT)).to_uci(), "b7b8n");
    assert_eq!(Move::new(Square::at(6, 1), Square::at(7, 1), Some(Type::ROOK)).to_uci(), "b7b8r");
}

#[test]
fn move_to_uci_withnull_works() {
    assert_eq!(Move::to_uci_withnull(&None), "0000");
    assert_eq!(Move::to_uci_withnull(&Some(Move::new(Square::at(6, 1), Square::at(7, 1), Some(Type::KNIGHT)))), "b7b8n");
}

#[test]
fn move_from_uci_works() {
    assert_eq!(Move::from_uci(&"0000".to_string()), None);
    assert_eq!(Move::from_uci(&"a1e4".to_string()).unwrap(), Move::new(Square::at(0, 0), Square::at(3, 4), None));
    assert_eq!(Move::from_uci(&"c7c8q".to_string()).unwrap(), Move::new(Square::at(6, 2), Square::at(7, 2), Some(Type::QUEEN)));
}

#[test]
fn move_from_uci_rejects_malformed_text() {
    for bad in ["", "e2", "e2e", "e2e4qq", "e9e4", "e2i4", "E2E4", "e2e4k", "e2e4p", "e2e4Q", "e2-e4"] {
        assert_eq!(Move::from_uci(&bad.to_string()), None);
    }
}

#[test]
fn move_uci_text_round_trips() {
    for text in ["e2e4", "a1h8", "h8a1", "e7e8q", "e7e8r", "e7e8b", "e7e8n", "a2a1n", "g1f3"] {
        let m = Move::from_uci(&text.to_string()).unwrap();
        assert_eq!(m.to_uci(), text);
        assert_eq!(Move::from_uci(&m.to_uci()), Some(m));
        assert_eq!(Move::to_uci_withnull(&Some(m)), text);
    }
    assert_eq!(Move::from_uci(&Move::to_uci_withnull(&None)), None);
}
