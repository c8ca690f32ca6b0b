use neocortex::gmove::Move;
use neocortex::piece::{Color, Piece, Type};
use neocortex::position::{Castling, Position, Rights};
use neocortex::square::Square;
use neocortex::zobrist::Zobrist;

fn pos(fen: &str) -> Position {
    Position::new(fen.to_string()).unwrap()
}

fn mv(text: &str) -> Move {
    Move::from_uci(&text.to_string()).unwrap()
}

fn sq(text: &str) -> Square {
    Square::from_uci(&text.to_string()).unwrap()
}

#[test]
fn position_parse_fen_works() {
    Position::new("rnbqkbnr/pppppppp/8/8/8/8/PPPPPPPP/RNBQKBNR w KQkq - 0 1".to_string())
        .unwrap();
}

#[test]
fn position_write_fen_works() {
    assert_eq!(
        Position::new("rnbqkbnr/pppppppp/8/8/8/8/PPPPPPPP/RNBQKBNR w KQkq - 0 1".to_string())
            .unwrap()
            .to_fen(),
        "rnbqkbnr/pppppppp/8/8/8/8/PPPPPPPP/RNBQKBNR w KQkq - 0 1"
    );
}

#[test]
fn position_invalid_fen_works() {
    /* too many parts */
    assert!(Position::new(
        "rnbqkbnr/pppppppp/8/8/8/8/PPPPPPPP/RNBQKBNR w KQkq - 0 1 100".to_string()
    )
    .is_none());

    /* bad rank count */
    assert!(Position::new(
        "rnbqkbnr/pppppppp/8/8/8/8/8/PPPPPPPP/RNBQKBNR w KQkq - 0 1".to_string()
    )
    .is_none());

    /* bad rank content */
    assert!(Position::new(
        "rnbqkbnrQ/pppppppp/8/8/8/8/PPPPPPPP/RNBQKBNR w KQkq - 0 1".to_string()
    )
    .is_none());

    /* bad piece chars */
    assert!(Position::new(
        "rnbqkbnrv/pppppppp/8/8/8/8/PPPPPPPP/RNBQKBNR w KQkq - 0 1".to_string()
    )
    .is_none());

    /* invalid color */
    assert!(Position::new(
        "rnbqkbnr/pppppppp/8/8/8/8/PPPPPPPP/RNBQKBNR k KQkq - 0 1".to_string()
    )
    .is_none());
    assert!(Position::new(
        "rnbqkbnr/pppppppp/8/8/8/8/PPPPPPPP/RNBQKBNR sdfkjns KQkq - 0 1 100".to_string()
    )
    .is_none());

    /* bad hm clock */
    assert!(Position::new(
        "rnbqkbnr/pppppppp/8/8/8/8/PPPPPPPP/RNBQKBNR w KQkq - abc 1".to_string()
    )
    .is_none());

    /* bad fm number */
    assert!(Position::new(
        "rnbqkbnr/pppppppp/8/8/8/8/PPPPPPPP/RNBQKBNR w KQkq - 0 abc".to_string()
    )
    .is_none());
}

#[test]
fn position_fen_rejects_every_fault() {
    for bad in [
        "",
        "8/8/8/8/8/8/8/8",
        "8/8/8/8/8/8/8/8 w - - 0",
        "8/8/8/8/8/8/8/8  w - - 0 1",
        "8/8/8/8/8/8/8 w - - 0 1",
        "8/8/8/8/8/8/8/8/ w - - 0 1",
        "8/8/8/8/8/8/8/ppppppppp w - - 0 1",
        "8/8/8/8/8/8/8/8p w - - 0 1",
        "8/8/8/8/8/8/8/7x w - - 0 1",
        "8/8/8/8/8/8/8/8 W - - 0 1",
        "8/8/8/8/8/8/8/8 wb - - 0 1",
        "8/8/8/8/8/8/8/8 w - - -1 1",
        "8/8/8/8/8/8/8/8 w - - 0 1.5",
        "8/8/8/8/8/8/8/8 w - - 0 ",
        "8/8/8/8/8/8/8/8 w - - + 1",
        "8/8/8/8/8/8/8/8 w - - 4294967296 1",
        "8/8/8/8/8/8/8/8 w - - 0 99999999999999999999",
    ] {
        assert!(Position::new(bad.to_string()).is_none(), "{}", bad);
    }
}

#[test]
fn position_fen_tolerates_oddities() {
    let p = pos("4k3/8/8/8/8/8/8/4K3 w xK?q zz +7 0012");
    assert_eq!(p.to_fen(), "4k3/8/8/8/8/8/8/4K3 w Kq - 7 12");
    let p = pos("4k3/8/8/8/8/8/8/4K3 b - - 4294967295 4294967295");
    assert_eq!(p.to_fen(), "4k3/8/8/8/8/8/8/4K3 b - - 4294967295 4294967295");
    let p = pos("ppp/08/44/9/pp/8/8/4K3 w qkQK e3 0 1");
    assert_eq!(p.to_fen(), "ppp5/8/8/8/pp6/8/8/4K3 w KQkq e3 0 1");
    assert_eq!(p.state().ep_target, Some(sq("e3")));
}

#[test]
fn position_fen_round_trips() {
    for fen in [
        "rnbqkbnr/pppppppp/8/8/8/8/PPPPPPPP/RNBQKBNR w KQkq - 0 1",
        "r3k2r/p1ppqpb1/bn2pnp1/3PN3/1p2P3/2N2Q1p/PPPBBPPP/R3K2R w KQkq - 0 1",
        "8/2p5/3p4/KP5r/1R3p1k/8/4P1P1/8 w - - 0 1",
        "r3k2r/Pppp1ppp/1b3nbN/nP6/BBP1P3/q4N2/Pp1P2PP/R2Q1RK1 w kq - 0 1",
        "rnbqkbnr/ppp2ppp/4p3/3pP3/8/8/PPPP1PPP/RNBQKBNR w KQkq d6 0 3",
        "8/8/8/8/8/8/8/8 b Kq a3 100 250",
        "1p1p1p1p/p1p1p1p1/8/8/8/8/8/8 b - - 10 4000000000",
    ] {
        assert_eq!(pos(fen).to_fen(), fen);
    }
}

#[test]
fn position_new_reads_every_field() {
    let p = pos("r3k2r/8/8/8/8/8/8/R3K2R b Kq c3 12 34");
    assert_eq!(p.side_to_move(), Color::BLACK);
    let st = p.state();
    assert_eq!(st.ep_target, Some(Square::at(2, 2)));
    assert_eq!(st.captured, None);
    assert_eq!(st.capture_square, None);
    assert_eq!(st.hm_clock, 12);
    assert_eq!(st.fm_number, 34);
    assert_eq!(st.last_move, None);
    assert!(st.castling.has(Color::WHITE, Castling::KINGSIDE));
    assert!(!st.castling.has(Color::WHITE, Castling::QUEENSIDE));
    assert!(!st.castling.has(Color::BLACK, Castling::KINGSIDE));
    assert!(st.castling.has(Color::BLACK, Castling::QUEENSIDE));
    assert_eq!(p.ply_count(), 1);
    assert_eq!(p.board().piece_at(sq("a8")), Piece::from_fen('r'));
    assert_eq!(p.board().piece_at(sq("e1")), Piece::from_fen('K'));
    assert_eq!(p.board().piece_at(sq("e4")), None);
    assert_eq!(p.board().to_fen_string(), "r3k2r/8/8/8/8/8/8/R3K2R");
}

#[test]
fn position_with_keys_gives_equal_positions_for_equal_text() {
    let z = Zobrist::new();
    let fen = "r3k2r/p1ppqpb1/bn2pnp1/3PN3/1p2P3/2N2Q1p/PPPBBPPP/R3K2R w KQkq - 0 1";
    let a = Position::with_keys(fen.to_string(), z).unwrap();
    let b = Position::with_keys(fen.to_string(), z).unwrap();
    assert_eq!(a, b);
    assert_eq!(a.board().key(), b.board().key());
    assert!(a.board().key() != 0);
    assert!(Position::with_keys("nonsense".to_string(), z).is_none());
}

#[test]
fn rights_are_set_and_cleared_one_by_one() {
    let none = Rights::none();
    for c in [Color::WHITE, Color::BLACK] {
        for s in [Castling::QUEENSIDE, Castling::KINGSIDE] {
            assert!(!none.has(c, s));
            let one = none.with(c, s, true);
            for c2 in [Color::WHITE, Color::BLACK] {
                for s2 in [Castling::QUEENSIDE, Castling::KINGSIDE] {
                    assert_eq!(one.has(c2, s2), c == c2 && s == s2);
                }
            }
            assert_eq!(one.with(c, s, false), none);
            assert_eq!(one.without_color(c), none);
            assert_eq!(one.without_color(c.flip()), one);
        }
    }
    assert_eq!(Castling::QUEENSIDE.index(), 0);
    assert_eq!(Castling::KINGSIDE.index(), 1);
}

#[test]
fn position_pseudolegal_gen_standard_count() {
    assert_eq!(
        Position::new("rnbqkbnr/pppppppp/8/8/8/8/PPPPPPPP/RNBQKBNR w KQkq - 0 1".to_string())
            .unwrap()
            .gen_pseudolegal_moves()
            .len(),
        20
    );
}

#[test]
fn position_pseudolegal_ep_gen_works() {
    let p = Position::new(
        "rnbqkbnr/ppp2ppp/4p3/3pP3/8/8/PPPP1PPP/RNBQKBNR w KQkq d6 0 3".to_string(),
    )
    .unwrap();
    let m = Move::from_uci(&"e5d6".to_string()).unwrap();

    assert!(p.gen_pseudolegal_moves().contains(&m));
}

#[test]
fn position_ep_is_legal() {
    let mut p = Position::new(
        "rnbqkbnr/ppp2ppp/4p3/3pP3/8/8/PPPP1PPP/RNBQKBNR w KQkq d6 0 3".to_string(),
    )
    .unwrap();
    let m = Move::from_uci(&"e5d6".to_string()).unwrap();

    assert!(p.make_move(m));
}

#[test]
fn position_ep_capture_takes_the_pawn_behind_the_target_and_unmake_restores_it() {
    let mut p = pos("rnbqkbnr/ppp2ppp/4p3/3pP3/8/8/PPPP1PPP/RNBQKBNR w KQkq d6 0 3");
    let before = p.clone();
    assert!(p.make_move(mv("e5d6")));
    assert_eq!(p.board().piece_at(sq("d5")), None);
    assert_eq!(p.board().piece_at(sq("e5")), None);
    assert_eq!(p.board().piece_at(sq("d6")), Piece::from_fen('P'));
    assert_eq!(p.state().captured, Piece::from_fen('p'));
    assert_eq!(p.state().capture_square, Some(sq("d5")));
    assert_eq!(p.state().ep_target, None);
    assert_eq!(p.side_to_move(), Color::BLACK);
    assert_eq!(p.to_fen(), "rnbqkbnr/ppp2ppp/3Pp3/8/8/8/PPPP1PPP/RNBQKBNR b KQkq - 1 4");
    p.unmake_move(mv("e5d6"));
    assert_eq!(p, before);
    assert_eq!(p.board().piece_at(sq("d5")), Piece::from_fen('p'));
    assert_eq!(p.board().piece_at(sq("e5")), Piece::from_fen('P'));
}

#[test]
fn position_make_unmake_unchanged() {
    let mut p = Position::new(
        "r3k2r/p1ppqpb1/bn2pnp1/3PN3/1p2P3/2N2Q1p/PPPBBPPP/R3K2R w KQkq - 0 1".to_string(),
    )
    .unwrap();

    let pclone = p.clone();

    p.make_move(Move::from_uci(&"a2b3".to_string()).unwrap());
    for m in p.gen_pseudolegal_moves() {
        p.make_move(m.clone());
        p.unmake_move(m);
    }
    p.unmake_move(Move::from_uci(&"a2b3".to_string()).unwrap());

    assert_eq!(p, pclone);
}

#[test]
fn position_make_unmake_restores_every_generated_move() {
    for fen in [
        "rnbqkbnr/pppppppp/8/8/8/8/PPPPPPPP/RNBQKBNR w KQkq - 0 1",
        "r3k2r/p1ppqpb1/bn2pnp1/3PN3/1p2P3/2N2Q1p/PPPBBPPP/R3K2R w KQkq - 0 1",
        "r3k2r/p1ppqpb1/bn2pnp1/3PN3/1p2P3/2N2Q1p/PPPBBPPP/R3K2R b KQkq - 0 1",
        "r3k2r/Pppp1ppp/1b3nbN/nP6/BBP1P3/q4N2/Pp1P2PP/R2Q1RK1 w kq - 0 1",
        "r3k2r/Pppp1ppp/1b3nbN/nP6/BBPPP3/q4N2/Pp4PP/R2Q1RK1 b kq - 0 1",
        "rnbqkbnr/ppp2ppp/4p3/3pP3/8/8/PPPP1PPP/RNBQKBNR w KQkq d6 0 3",
        "8/2p5/3p4/KP5r/1R3p1k/8/4P1P1/8 w - - 0 1",
    ] {
        let mut p = pos(fen);
        let before = p.clone();
        for m in p.gen_pseudolegal_moves() {
            p.make_move(m);
            assert_eq!(p.ply_count(), 2);
            assert_eq!(p.state().last_move, Some(m));
            assert_eq!(p.side_to_move(), before.side_to_move().flip());
            p.unmake_move(m);
            assert_eq!(p, before);
            assert_eq!(p.board().key(), before.board().key());
            assert_eq!(p.board().get_ad(), before.board().get_ad());
        }
    }
}

#[test]
fn position_generator_has_no_duplicates_and_moves_only_own_pieces() {
    for fen in [
        "rnbqkbnr/pppppppp/8/8/8/8/PPPPPPPP/RNBQKBNR w KQkq - 0 1",
        "r3k2r/p1ppqpb1/bn2pnp1/3PN3/1p2P3/2N2Q1p/PPPBBPPP/R3K2R w KQkq - 0 1",
        "r3k2r/Pppp1ppp/1b3nbN/nP6/BBPPP3/q4N2/Pp4PP/R2Q1RK1 b kq - 0 1",
        "8/8/8/8/8/8/8/8 w KQkq - 0 1",
        "4k3/8/8/8/8/8/8/4K3 w KQkq - 0 1",
    ] {
        let p = pos(fen);
        let moves = p.gen_pseudolegal_moves();
        for (i, m) in moves.iter().enumerate() {
            let pc = p.board().piece_at(m.src()).unwrap();
            assert_eq!(pc.get_color(), p.side_to_move());
            for n in &moves[i + 1..] {
                assert!(m != n);
            }
        }
        assert_eq!(moves, p.gen_pseudolegal_moves());
    }
    assert!(pos("8/8/8/8/8/8/8/8 w KQkq - 0 1").gen_pseudolegal_moves().is_empty());
}

#[test]
fn position_generator_emits_groups_in_order() {
    let p = pos("1n2k3/P6p/8/8/8/8/1P6/R3K2R w KQ - 0 1");
    let texts: Vec<String> = p.gen_pseudolegal_moves().iter().map(|m| m.to_uci()).collect();
    assert_eq!(
        texts,
        vec![
            "a7a8q", "a7a8n", "a7a8r", "a7a8b", "a7b8q", "a7b8n", "a7b8r", "a7b8b", "b2b3",
            "b2b4", "a1b1", "a1c1", "a1d1", "a1a2", "a1a3", "a1a4", "a1a5", "a1a6", "h1f1",
            "h1g1", "h1h2", "h1h3", "h1h4", "h1h5", "h1h6", "h1h7", "e1d1", "e1f1",
            "e1d2", "e1e2", "e1f2", "e1c1", "e1g1",
        ]
    );
}

#[test]
fn position_castling_needs_king_rook_and_empty_squares() {
    let castles = |fen: &str| -> Vec<String> {
        pos(fen)
            .gen_pseudolegal_moves()
            .iter()
            .map(|m| m.to_uci())
            .filter(|t| t == "e1c1" || t == "e1g1" || t == "e8c8" || t == "e8g8")
            .collect()
    };
    assert_eq!(castles("r3k2r/8/8/8/8/8/8/R3K2R w KQkq - 0 1"), vec!["e1c1", "e1g1"]);
    assert_eq!(castles("r3k2r/8/8/8/8/8/8/R3K2R b KQkq - 0 1"), vec!["e8c8", "e8g8"]);
    assert_eq!(castles("r3k2r/8/8/8/8/8/8/R3K2R w kq - 0 1"), Vec::<String>::new());
    assert_eq!(castles("r3k2r/8/8/8/8/8/8/R3K2R w K - 0 1"), vec!["e1g1"]);
    assert_eq!(castles("r3k2r/8/8/8/8/8/8/RN2K1NR w KQ - 0 1"), Vec::<String>::new());
    assert_eq!(castles("r3k2r/8/8/8/8/8/8/4K2R w KQ - 0 1"), vec!["e1g1"]);
    assert_eq!(castles("r3k2r/8/8/8/8/8/8/R3K2r w KQ - 0 1"), vec!["e1c1"]);
    assert_eq!(castles("r3k2r/8/8/8/8/8/8/R2K3R w KQ - 0 1"), Vec::<String>::new());
}

#[test]
fn position_castling_moves_the_rook_and_is_illegal_through_check() {
    let mut p = pos("r3k2r/8/8/8/8/8/8/R3K2R w KQkq - 0 1");
    let before = p.clone();
    assert!(p.make_move(mv("e1g1")));
    assert_eq!(p.to_fen(), "r3k2r/8/8/8/8/8/8/R4RK1 b kq - 1 2");
    p.unmake_move(mv("e1g1"));
    assert_eq!(p, before);
    assert!(p.make_move(mv("e1c1")));
    assert_eq!(p.to_fen(), "r3k2r/8/8/8/8/8/8/2KR3R b kq - 1 2");
    assert!(!p.make_move(mv("e8c8")));
    assert_eq!(p.to_fen(), "2kr3r/8/8/8/8/8/8/2KR3R w - - 2 2");
    p.unmake_move(mv("e8c8"));
    assert!(p.make_move(mv("e8g8")));
    assert_eq!(p.to_fen(), "r4rk1/8/8/8/8/8/8/2KR3R w - - 2 2");
    p.unmake_move(mv("e8g8"));
    p.unmake_move(mv("e1c1"));
    assert_eq!(p, before);

    // A rook on f8 attacks f1, which the king crosses; one on e8 gives check.
    let mut p = pos("4kr2/8/8/8/8/8/8/R3K2R w KQ - 0 1");
    assert!(!p.make_move(mv("e1g1")));
    p.unmake_move(mv("e1g1"));
    assert!(p.make_move(mv("e1c1")));
    p.unmake_move(mv("e1c1"));
    let mut p = pos("3kr3/8/8/8/8/8/8/R3K2R w KQ - 0 1");
    assert!(!p.make_move(mv("e1g1")));
    p.unmake_move(mv("e1g1"));
    assert!(!p.make_move(mv("e1c1")));
    p.unmake_move(mv("e1c1"));
}

#[test]
fn position_rook_and_king_moves_revoke_rights() {
    let start = "r3k2r/8/8/8/8/8/8/R3K2R w KQkq - 0 1";
    let after = |first: &str, second: Option<&str>| -> String {
        let mut p = pos(start);
        p.make_move(mv(first));
        if let Some(s) = second {
            p.make_move(mv(s));
        }
        p.to_fen().split(' ').nth(2).unwrap().to_string()
    };
    assert_eq!(after("a1a2", None), "Kkq");
    assert_eq!(after("h1h2", None), "Qkq");
    assert_eq!(after("e1e2", None), "kq");
    assert_eq!(after("e1d1", Some("a8a7")), "k");
    assert_eq!(after("e1d1", Some("h8h7")), "q");
    assert_eq!(after("e1d1", Some("e8e7")), "-");
    assert_eq!(after("a1a8", None), "Kkq");
}

#[test]
fn position_make_move_counts_clocks_and_sets_the_ep_target() {
    let mut p = pos("rnbqkbnr/pppppppp/8/8/8/8/PPPPPPPP/RNBQKBNR w KQkq - 0 1");
    assert!(p.make_move(mv("e2e4")));
    assert_eq!(p.to_fen(), "rnbqkbnr/pppppppp/8/8/4P3/8/PPPP1PPP/RNBQKBNR b KQkq e3 1 2");
    assert!(p.make_move(mv("g8f6")));
    assert_eq!(p.to_fen(), "rnbqkb1r/pppppppp/5n2/8/4P3/8/PPPP1PPP/RNBQKBNR w KQkq - 2 2");
    assert!(p.make_move(mv("e4e5")));
    assert!(p.make_move(mv("d7d5")));
    assert_eq!(p.state().ep_target, Some(sq("d6")));
    assert_eq!(p.ply_count(), 5);
    assert!(p.make_move(mv("e5f6")));
    assert_eq!(p.state().captured, Piece::from_fen('n'));
    assert_eq!(p.state().capture_square, Some(sq("f6")));
    p.unmake_move(mv("e5f6"));
    p.unmake_move(mv("d7d5"));
    p.unmake_move(mv("e4e5"));
    p.unmake_move(mv("g8f6"));
    p.unmake_move(mv("e2e4"));
    assert_eq!(p.to_fen(), "rnbqkbnr/pppppppp/8/8/8/8/PPPPPPPP/RNBQKBNR w KQkq - 0 1");
    assert_eq!(p.ply_count(), 1);
}

#[test]
fn position_promotion_replaces_the_pawn_and_unmake_brings_it_back() {
    let mut p = pos("1n2k3/P6p/8/8/8/8/8/4K3 w - - 0 1");
    let before = p.clone();
    for (text, piece) in [("a7a8q", 'Q'), ("a7b8n", 'N'), ("a7a8r", 'R'), ("a7b8b", 'B')] {
        let m = mv(text);
        p.make_move(m);
        assert_eq!(p.board().piece_at(m.dst()), Piece::from_fen(piece));
        assert_eq!(p.board().piece_at(sq("a7")), None);
        assert_eq!(m.ptype().map(|t| Piece::from(t, Color::WHITE)), Piece::from_fen(piece));
        p.unmake_move(m);
        assert_eq!(p, before);
    }
    assert_eq!(Type::QUEEN.to_fen(), 'q');
}

#[test]
fn position_moves_that_leave_the_king_attacked_are_illegal() {
    let mut p = pos("4k3/8/8/8/8/8/4r3/4K3 w - - 0 1");
    assert!(!p.make_move(mv("e1f2")));
    p.unmake_move(mv("e1f2"));
    assert!(p.make_move(mv("e1e2")));
    p.unmake_move(mv("e1e2"));
    assert!(p.make_move(mv("e1d1")));
    p.unmake_move(mv("e1d1"));
    let mut p = pos("4k3/8/8/8/8/8/4r3/3NK3 w - - 0 1");
    assert!(!p.make_move(mv("d1c3")));
    p.unmake_move(mv("d1c3"));
}

#[test]
fn position_can_make_tells_playable_moves_apart() {
    let p = pos("r3k2r/p1ppqpb1/bn2pnp1/3PN3/1p2P3/2N2Q1p/PPPBBPPP/R3K2R w KQkq - 0 1");
    for m in p.gen_pseudolegal_moves() {
        assert!(p.can_make(&m), "{}", m.to_uci());
    }
    assert!(p.can_make(&mv("a2b3")));
    assert!(p.can_make(&mv("e1g1")));
    // No piece on the source, an enemy piece on it, an own piece on the destination.
    assert!(!p.can_make(&mv("a3a4")));
    assert!(!p.can_make(&mv("e8e7")));
    assert!(!p.can_make(&mv("e1d2")));
    assert!(!p.can_make(&mv("a1a2")));
    // A promotion of a piece that is no pawn.
    assert!(!p.can_make(&mv("f3f6q")));
    assert!(p.can_make(&mv("d5e6q")));
    // A king that goes far but not to file c or g, or without a piece in the corner.
    assert!(!p.can_make(&mv("e1b1")));
    assert!(!pos("4k3/8/8/8/8/8/8/4K3 w K - 0 1").can_make(&mv("e1g1")));
    assert!(!pos("4k3/8/8/8/8/8/8/4KB1R w K - 0 1").can_make(&mv("e1g1")));
    // A source that is the destination.
    assert!(!p.can_make(&Move::new(sq("e1"), sq("e1"), None)));
    // Clocks that cannot be counted up.
    assert!(!pos("4k3/8/8/8/8/8/8/4K3 w - - 4294967295 1").can_make(&mv("e1e2")));
    assert!(!pos("4k3/8/8/8/8/8/8/4K3 w - - 1 4294967295").can_make(&mv("e1e2")));
    assert!(pos("4k3/8/8/8/8/8/8/4K3 w - - 4294967294 4294967294").can_make(&mv("e1e2")));
}

#[test]
fn position_en_passant_soundness() {
    assert!(pos("rnbqkbnr/pppppppp/8/8/8/8/PPPPPPPP/RNBQKBNR w KQkq - 0 1").en_passant_is_sound());
    let p = pos("rnbqkbnr/ppp2ppp/4p3/3pP3/8/8/PPPP1PPP/RNBQKBNR w KQkq d6 0 3");
    assert!(p.en_passant_is_sound());
    assert!(p.can_make(&mv("e5d6")));
    // No pawn behind the target, a target that is occupied, a target on the edge.
    let q = pos("rnbqkbnr/ppp2ppp/4p3/4P3/8/8/PPPP1PPP/RNBQKBNR w KQkq d6 0 3");
    assert!(!q.en_passant_is_sound());
    assert!(q.gen_pseudolegal_moves().contains(&mv("e5d6")));
    assert!(!q.can_make(&mv("e5d6")));
    assert!(!pos("rnbqkbnr/ppp2ppp/3np3/3pP3/8/8/PPPP1PPP/RNBQKB1R w KQkq d6 0 3")
        .en_passant_is_sound());
    assert!(!pos("4k3/8/8/8/8/8/8/4K3 w - a1 0 1").en_passant_is_sound());
    assert!(!pos("4k3/8/8/8/8/8/8/4K3 b - h8 0 1").en_passant_is_sound());
    assert!(pos("4k3/8/8/8/4P3/8/8/4K3 b - e3 0 1").en_passant_is_sound());
    // After every generated move the target is sound again.
    let mut p = pos("rnbqkbnr/pppppppp/8/8/8/8/PPPPPPPP/RNBQKBNR w KQkq - 0 1");
    for m in p.gen_pseudolegal_moves() {
        p.make_move(m);
        assert!(p.en_passant_is_sound());
        p.unmake_move(m);
    }
}

#[test]
fn position_can_unmake_accepts_only_the_last_move() {
    let mut p = pos("r3k2r/p1ppqpb1/bn2pnp1/3PN3/1p2P3/2N2Q1p/PPPBBPPP/R3K2R w KQkq - 0 1");
    assert!(!p.can_unmake(&mv("e1g1")));
    for m in p.gen_pseudolegal_moves() {
        p.make_move(m);
        assert!(p.can_unmake(&m), "{}", m.to_uci());
        p.unmake_move(m);
    }
    p.make_move(mv("e1g1"));
    assert!(p.can_unmake(&mv("e1g1")));
    assert!(!p.can_unmake(&mv("e1c1")));
    assert!(!p.can_unmake(&mv("e1f1")));
    assert!(!p.can_unmake(&mv("g1e1")));
    p.make_move(mv("b4c3"));
    assert!(p.can_unmake(&mv("b4c3")));
    assert!(!p.can_unmake(&mv("e1g1")));
    p.unmake_move(mv("b4c3"));
    assert!(p.can_unmake(&mv("e1g1")));
    let mut q = pos("1n2k3/P6p/8/8/8/8/8/4K3 w - - 0 1");
    q.make_move(mv("a7b8q"));
    assert!(q.can_unmake(&mv("a7b8q")));
    assert!(!q.can_unmake(&mv("a7b8r")));
    assert!(!q.can_unmake(&Move::new(sq("a7"), sq("b8"), None)));
}

#[test]
fn position_from_parts_takes_board_side_and_frame() {
    let src = pos("r3k2r/8/8/8/8/8/8/R3K2R b Kq c3 12 34");
    let p = Position::from_parts(src.board().clone(), Color::WHITE, src.state());
    assert_eq!(p.to_fen(), "r3k2r/8/8/8/8/8/8/R3K2R w Kq c3 12 34");
    assert_eq!(p.ply_count(), 1);
    assert_eq!(p.board(), src.board());
}
