use libchess::game::{Game, GameMove, GameState, RawMove};
use libchess::piece::{PieceInfo, PieceKind, Team};
use libchess::position::Position;
use libchess::zobrist::{ZKey, ZKeySet, ZobKeys, ZobristHash, KEY_WORDS};
use rand::{Rng, SeedableRng};

fn keys(seed: u64) -> ZobKeys {
    let mut rng = rand::rngs::StdRng::seed_from_u64(seed);
    ZobKeys::generate(&mut rng)
}

#[test]
fn hash_after_e4_matches_the_hash_from_scratch() {
    let keys = keys(1);
    let start = Game::default();
    let h0 = start.get_zobrist_hash(&keys).unwrap();
    let mut game = start;
    let mut hash = h0;
    let e4 = GameMove::Regular(RawMove::new(
        Position::new(1, 4),
        Position::new(3, 4),
        PieceInfo { kind: PieceKind::Pawn, team: Team::White },
    ));
    game.make_move_hashed(e4, &mut hash, &keys);
    assert_eq!(Some(hash), game.get_zobrist_hash(&keys));
    assert_ne!(hash, h0);
    // Taking the move back: the board and the flags of the start, and the
    // same keys folded out again.
    let delta = start.board_delta_key(Team::White, e4, &keys);
    let mut back = hash;
    back.0 ^= delta.0 ^ game.flags_key(&keys).0 ^ start.flags_key(&keys).0;
    assert_eq!(back, h0);
}

#[test]
fn hash_stays_in_step_through_random_games() {
    let keys = keys(2);
    let mut rng = rand::rngs::StdRng::seed_from_u64(3);
    let mut seen_kinds = [false; 7];
    for _ in 0..40 {
        let mut game = Game::default();
        let mut hash = game.get_zobrist_hash(&keys).unwrap();
        for _ in 0..300 {
            let mut buf = Vec::new();
            if game.get_all_moves(&mut buf).is_err() {
                break;
            }
            assert!(!buf.is_empty());
            let m = buf[rng.gen_range(0..buf.len())];
            let kind = match m {
                GameMove::Regular(_) => 0,
                GameMove::Capture(_) => 1,
                GameMove::Enpassant(_) => 2,
                GameMove::Promote { .. } => 3,
                GameMove::CapturePromote { .. } => 4,
                GameMove::CastleKingside(_) => 5,
                GameMove::CastleQueenside(_) => 6,
            };
            seen_kinds[kind] = true;
            let mut plain = game;
            plain.make_move(m);
            game.make_move_hashed(m, &mut hash, &keys);
            assert_eq!(plain.to_fen_str(), game.to_fen_str());
            assert!(game.is_valid());
            assert!(game.board.verify());
            assert_eq!(game.board.pieces(Team::White, PieceKind::King).count(), 1);
            assert_eq!(game.board.pieces(Team::Black, PieceKind::King).count(), 1);
            match game.get_zobrist_hash(&keys) {
                Some(full) => assert_eq!(full, hash),
                None => assert!(game.get_active_team().is_none()),
            }
        }
    }
    assert!(seen_kinds[0] && seen_kinds[1]);
}

#[test]
fn no_hash_once_the_game_is_over() {
    let keys = keys(4);
    let mut game = Game::default();
    for state in [GameState::WhiteVictory, GameState::BlackVictory, GameState::Stalemate] {
        game.state = state;
        assert_eq!(game.get_zobrist_hash(&keys), None);
    }
}

#[test]
fn side_to_move_and_keys_enter_the_hash() {
    let keys = keys(5);
    let white = Game::default();
    let mut black = white;
    black.state = GameState::BlackToMove;
    let hw = white.get_zobrist_hash(&keys).unwrap();
    let hb = black.get_zobrist_hash(&keys).unwrap();
    let mut expect = hw;
    expect.update(keys.black_to_move);
    assert_eq!(hb, expect);
    let mut fewer = white;
    fewer.castling.unset_white_kingside();
    let mut expect = hw;
    expect.update(keys.castle_white_ks);
    assert_eq!(fewer.get_zobrist_hash(&keys).unwrap(), expect);
}

#[test]
fn update_folds_a_key_in_and_out() {
    let mut rng = rand::rngs::StdRng::seed_from_u64(6);
    let a: ZKey = ZKey::generate(&mut rng);
    let b: ZKey = ZKey::generate(&mut rng);
    let mut h = ZobristHash(0x1234);
    h.update(a);
    h.update(b);
    h.update(a);
    h.update(b);
    assert_eq!(h, ZobristHash(0x1234));
    let set = ZKeySet::generate(&mut rng);
    let mut h1 = ZobristHash(0);
    h1.update(set.at_pos(Position::from_integral(5)));
    let mut h2 = ZobristHash(0);
    h2.update(set.at_pos(Position::from_integral(6)));
    assert_ne!(h1, h2);
    let keys = keys(7);
    let mut x = ZobristHash(0);
    x.update(keys.enpassant_keys_for(Position::new(2, 3)));
    let mut y = ZobristHash(0);
    y.update(keys.enpassant_keys_for(Position::new(5, 3)));
    assert_eq!(x, y);
    let mut z = ZobristHash(0);
    z.update(keys.piece_keys_for(PieceKind::Rook, Team::Black).at_pos(Position::new(0, 0)));
    let mut w = ZobristHash(0);
    w.update(keys.black_rook.at_pos(Position::new(0, 0)));
    assert_eq!(z, w);
}

fn bits_of(key: ZKey) -> u64 {
    let mut h = ZobristHash(0);
    h.update(key);
    h.0
}

#[test]
fn keys_are_made_of_the_words_in_their_places() {
    assert_eq!(bits_of(ZKey::from_bits(0)), 0);
    assert_eq!(bits_of(ZKey::from_bits(0xDEAD_BEEF_0123_4567)), 0xDEAD_BEEF_0123_4567);
    let words: Vec<u64> = (0..KEY_WORDS as u64).map(|i| i * 1_000_003 + 17).collect();
    assert_eq!(KEY_WORDS, 12 * 64 + 1 + 8 + 4);
    let set = ZKeySet::from_words(&words, 100);
    for sq in 0..64u8 {
        assert_eq!(bits_of(set.at_pos(Position::from_integral(sq))), words[100 + sq as usize]);
    }
    let last = ZKeySet::from_words(&words, KEY_WORDS - 64);
    assert_eq!(bits_of(last.at_pos(Position::from_integral(63))), words[KEY_WORDS - 1]);
    let keys = ZobKeys::from_words(&words);
    let order = [
        (Team::Black, PieceKind::Knight),
        (Team::Black, PieceKind::Rook),
        (Team::Black, PieceKind::Queen),
        (Team::Black, PieceKind::King),
        (Team::Black, PieceKind::Bishop),
        (Team::Black, PieceKind::Pawn),
        (Team::White, PieceKind::Knight),
        (Team::White, PieceKind::Rook),
        (Team::White, PieceKind::Queen),
        (Team::White, PieceKind::King),
        (Team::White, PieceKind::Bishop),
        (Team::White, PieceKind::Pawn),
    ];
    for (place, (team, kind)) in order.iter().enumerate() {
        let set = keys.piece_keys_for(*kind, *team);
        for sq in 0..64u8 {
            assert_eq!(
                bits_of(set.at_pos(Position::from_integral(sq))),
                words[64 * place + sq as usize]
            );
        }
    }
    assert_eq!(bits_of(keys.white_pawn.at_pos(Position::from_integral(0))), words[704]);
    assert_eq!(bits_of(keys.black_to_move), words[768]);
    for col in 0..8u8 {
        assert_eq!(
            bits_of(keys.enpassant_keys_for(Position::new(2, col))),
            words[769 + col as usize]
        );
    }
    assert_eq!(bits_of(keys.enpassant_a), words[769]);
    assert_eq!(bits_of(keys.enpassant_h), words[776]);
    assert_eq!(bits_of(keys.castle_black_ks), words[777]);
    assert_eq!(bits_of(keys.castle_black_qs), words[778]);
    assert_eq!(bits_of(keys.castle_white_ks), words[779]);
    assert_eq!(bits_of(keys.castle_white_qs), words[780]);
}

#[test]
fn drawn_keys_are_the_draws_in_order() {
    let mut rng = rand::rngs::StdRng::seed_from_u64(99);
    let mut same = rand::rngs::StdRng::seed_from_u64(99);
    let first: u64 = same.gen();
    assert_eq!(bits_of(ZKey::generate(&mut rng)), first);
    let draws: Vec<u64> = (0..64).map(|_| same.gen::<u64>()).collect();
    let set = ZKeySet::generate(&mut rng);
    for sq in 0..64u8 {
        assert_eq!(bits_of(set.at_pos(Position::from_integral(sq))), draws[sq as usize]);
    }
    let draws: Vec<u64> = (0..KEY_WORDS).map(|_| same.gen::<u64>()).collect();
    let drawn = ZobKeys::generate(&mut rng);
    let made = ZobKeys::from_words(&draws);
    let game = Game::default();
    assert_eq!(game.get_zobrist_hash(&drawn), game.get_zobrist_hash(&made));
    assert_eq!(bits_of(drawn.black_knight.at_pos(Position::from_integral(0))), draws[0]);
    assert_eq!(bits_of(drawn.castle_white_qs), draws[780]);
    assert_eq!(bits_of(drawn.enpassant_c), draws[771]);
    // The generator has moved on by as many draws as there are keys.
    assert_eq!(rng.gen::<u64>(), same.gen::<u64>());
}
