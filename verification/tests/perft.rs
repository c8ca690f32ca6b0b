use neocortex::position::Position;

#[test]
fn position_perft1_nodes() {
    let mut p: Position =
        Position::new("rnbqkbnr/pppppppp/8/8/8/8/PPPPPPPP/RNBQKBNR w KQkq - 0 1".to_string())
            .unwrap();

    assert_eq!(p.perft(0), 1);
    assert_eq!(p.perft(1), 20);
    assert_eq!(p.perft(2), 400);
    assert_eq!(p.perft(3), 8902);
    assert_eq!(p.perft(4), 197281);
}

#[test]
fn position_perft2_nodes() {
    let mut p: Position = Position::new(
        "r3k2r/p1ppqpb1/bn2pnp1/3PN3/1p2P3/2N2Q1p/PPPBBPPP/R3K2R w KQkq - 0 1".to_string(),
    )
    .unwrap();

    assert_eq!(p.perft(1), 48);
    assert_eq!(p.perft(2), 2039);
    assert_eq!(p.perft(3), 97862);
}

#[test]
fn position_perft3_nodes() {
    let mut p: Position =
        Position::new("8/2p5/3p4/KP5r/1R3p1k/8/4P1P1/8 w - - 0 1".to_string()).unwrap();

    assert_eq!(p.perft(1), 14);
    assert_eq!(p.perft(2), 191);
    assert_eq!(p.perft(3), 2812);
    assert_eq!(p.perft(4), 43238);
}

#[test]
fn position_perft4_nodes() {
    let mut p: Position = Position::new(
        "r3k2r/Pppp1ppp/1b3nbN/nP6/BBP1P3/q4N2/Pp1P2PP/R2Q1RK1 w kq - 0 1".to_string(),
    )
    .unwrap();

    assert_eq!(p.perft(1), 6);
    assert_eq!(p.perft(2), 264);
    assert_eq!(p.perft(3), 9467);
}

#[test]
fn position_perft5_nodes() {
    let mut p: Position = Position::new(
        "r3k2r/Pppp1ppp/1b3nbN/nP6/BBPPP3/q4N2/Pp4PP/R2Q1RK1 b kq - 0 1".to_string(),
    )
    .unwrap();

    assert_eq!(p.perft(1), 43);
}

#[test]
fn position_perft6_nodes() {
    let mut p: Position = Position::new(
        "r3k2r/p1ppqpb1/bn2pnp1/3PN3/1p2P3/1PN2Q1p/P1PBBPPP/R3K2R b KQkq - 0 1".to_string(),
    )
    .unwrap();

    assert_eq!(p.perft(1), 42);
}

#[test]
fn position_perft_leaves_the_position_as_it_was() {
    let mut p = Position::new(
        "r3k2r/p1ppqpb1/bn2pnp1/3PN3/1p2P3/2N2Q1p/PPPBBPPP/R3K2R w KQkq - 0 1".to_string(),
    )
    .unwrap();
    let before = p.clone();
    assert_eq!(p.perft(2), 2039);
    assert_eq!(p, before);
    assert_eq!(p.to_fen(), "r3k2r/p1ppqpb1/bn2pnp1/3PN3/1p2P3/2N2Q1p/PPPBBPPP/R3K2R w KQkq - 0 1");
}

#[test]
fn position_perft_counts_rook_moves_from_the_black_corners() {
    let mut p = Position::new("r3k2r/8/8/8/8/8/8/R3K2R w KQkq - 0 1".to_string()).unwrap();
    assert_eq!(p.perft(1), 26);
    assert_eq!(p.perft(2), 568);
    assert_eq!(p.perft(3), 13744);
    assert_eq!(p.perft(4), 314346);
}

#[test]
fn position_perft_of_a_position_without_moves() {
    let mut p = Position::new("8/8/8/8/8/8/8/8 w - - 0 1".to_string()).unwrap();
    assert_eq!(p.perft(0), 1);
    assert_eq!(p.perft(1), 0);
    assert_eq!(p.perft(5), 0);
}

#[test]
fn position_try_perft_counts_or_declines() {
    let mut p =
        Position::new("rnbqkbnr/pppppppp/8/8/8/8/PPPPPPPP/RNBQKBNR w KQkq - 0 1".to_string())
            .unwrap();
    let before = p.clone();
    assert_eq!(p.try_perft(0), Some(1));
    assert_eq!(p.try_perft(1), Some(20));
    assert_eq!(p.try_perft(3), Some(8902));
    assert_eq!(p, before);

    // An en-passant target without a pawn behind it: the capture onto it
    // cannot be made, so only the walk of depth 0 is defined.
    let mut q =
        Position::new("rnbqkbnr/ppp2ppp/4p3/4P3/8/8/PPPP1PPP/RNBQKBNR w KQkq d6 0 3".to_string())
            .unwrap();
    let before = q.clone();
    assert_eq!(q.try_perft(0), Some(1));
    assert_eq!(q.try_perft(1), None);
    assert_eq!(q.try_perft(2), None);
    assert_eq!(q, before);

    // An unsound target that no pawn can reach does no harm.
    let mut q = Position::new("4k3/8/8/8/8/8/8/4K3 w - a1 0 1".to_string()).unwrap();
    assert!(!q.en_passant_is_sound());
    assert_eq!(q.try_perft(1), Some(5));
    assert_eq!(q.try_perft(2), Some(25));
    assert_eq!(q.perft(2), 25);

    // Clocks that cannot be counted up as often as the walk is deep.
    let mut r = Position::new("4k3/8/8/8/8/8/8/4K3 w - - 4294967294 1".to_string()).unwrap();
    assert_eq!(r.try_perft(0), Some(1));
    assert_eq!(r.try_perft(1), Some(5));
    assert_eq!(r.try_perft(2), None);
    let mut r = Position::new("4k3/8/8/8/8/8/8/4K3 b - - 0 4294967295".to_string()).unwrap();
    assert_eq!(r.try_perft(0), Some(1));
    assert_eq!(r.try_perft(1), None);

    // Without a move to make the clocks are never counted.
    let mut e = Position::new("8/8/8/8/8/8/8/8 w - - 4294967295 4294967295".to_string()).unwrap();
    assert_eq!(e.try_perft(0), Some(1));
    assert_eq!(e.try_perft(3), Some(0));
}
