use libchess::bitboard::Bitboard;
use libchess::board::ChessBoard;
use libchess::game::{CastleInfo, Game, GameMove, GameState, MoveGenerationError, Promotion, RawMove};
use libchess::perft::perft;
use libchess::piece::{PieceInfo, PieceKind, Team};
use libchess::position::Position;

/// Reads the fields of a position in Forsyth-Edwards notation.
fn position(fen: &str) -> Game {
    let fields: Vec<&str> = fen.split(' ').collect();
    let mut board = ChessBoard {
        kings: Bitboard::from_bits(0),
        queens: Bitboard::from_bits(0),
        knights: Bitboard::from_bits(0),
        rooks: Bitboard::from_bits(0),
        bishops: Bitboard::from_bits(0),
        pawns: Bitboard::from_bits(0),
        blacks: Bitboard::from_bits(0),
        whites: Bitboard::from_bits(0),
    };
    let mut row: u32 = 7;
    let mut col: u32 = 0;
    for ch in fields[0].chars() {
        if ch == '/' {
            row -= 1;
            col = 0;
        } else if let Some(d) = ch.to_digit(10) {
            col += d;
        } else {
            let bit = 1u64 << (row * 8 + col);
            if ch.is_ascii_uppercase() {
                board.whites.data |= bit;
            } else {
                board.blacks.data |= bit;
            }
            match ch.to_ascii_lowercase() {
                'k' => board.kings.data |= bit,
                'q' => board.queens.data |= bit,
                'r' => board.rooks.data |= bit,
                'b' => board.bishops.data |= bit,
                'n' => board.knights.data |= bit,
                _ => board.pawns.data |= bit,
            }
            col += 1;
        }
    }
    let mut castling = CastleInfo::default();
    if !fields[2].contains('K') {
        castling.unset_white_kingside();
    }
    if !fields[2].contains('Q') {
        castling.unset_white_queenside();
    }
    if !fields[2].contains('k') {
        castling.unset_black_kingside();
    }
    if !fields[2].contains('q') {
        castling.unset_black_queenside();
    }
    let enpassant = if fields[3] == "-" {
        Bitboard::from_bits(0)
    } else {
        let bytes = fields[3].as_bytes();
        Bitboard::from_piece_index((bytes[1] - b'1') * 8 + (bytes[0] - b'a'))
    };
    let game = Game {
        board,
        halfmove_num: fields[4].parse().unwrap(),
        fullmove_num: fields[5].parse().unwrap(),
        enpassant,
        castling,
        state: if fields[1] == "w" { GameState::WhiteToMove } else { GameState::BlackToMove },
    };
    assert!(game.is_valid(), "{fen}");
    game
}

fn moves_of(game: &Game) -> Vec<GameMove> {
    let mut buf = Vec::new();
    game.get_all_moves(&mut buf).unwrap();
    buf
}

fn sq(name: &str) -> Position {
    let bytes = name.as_bytes();
    Position::new(bytes[1] - b'1', bytes[0] - b'a')
}

fn raw(from: &str, to: &str, kind: PieceKind, team: Team) -> RawMove {
    RawMove::new(sq(from), sq(to), PieceInfo { kind, team })
}

const KIWIPETE: &str = "r3k2r/p1ppqpb1/bn2pnp1/3PN3/1p2P3/2N2Q1p/PPPBBPPP/R3K2R w KQkq - 0 1";

#[test]
fn kiwipete_depth_1() {
    let data = perft(position(KIWIPETE), 1);
    assert_eq!(data.nodes, 48);
    assert_eq!(data.captures, 8);
    assert_eq!(data.enpassant, 0);
    assert_eq!(data.castles, 2);
    assert_eq!(data.kingside_castles, 1);
    assert_eq!(data.queenside_castles, 1);
    assert_eq!(data.promotions, 0);
    assert_eq!(data.regulars, 38);
}

#[test]
fn kiwipete_depth_2() {
    let data = perft(position(KIWIPETE), 2);
    assert_eq!(data.nodes, 2039);
    assert_eq!(data.captures, 351);
    assert_eq!(data.enpassant, 1);
    assert_eq!(data.castles, 91);
    assert_eq!(data.promotions, 0);
}

#[test]
fn kiwipete_depth_3() {
    let data = perft(position(KIWIPETE), 3);
    assert_eq!(data.nodes, 97862);
    assert_eq!(data.captures, 17102);
    assert_eq!(data.enpassant, 45);
    assert_eq!(data.castles, 3162);
    assert_eq!(data.promotions, 0);
}

const ROOK_ENDING: &str = "8/2p5/3p4/KP5r/1R3p1k/8/4P1P1/8 w - - 0 1";

#[test]
fn rook_ending_depths_1_to_4() {
    let nodes: Vec<u64> = (1..=4).map(|d| perft(position(ROOK_ENDING), d).nodes).collect();
    assert_eq!(nodes, vec![14, 191, 2812, 43238]);
    let deep = perft(position(ROOK_ENDING), 4);
    assert_eq!(deep.captures, 3348);
    assert_eq!(deep.enpassant, 123);
    assert_eq!(deep.castles, 0);
    assert_eq!(deep.promotions, 0);
}

const PROMOTIONS: &str = "r3k2r/Pppp1ppp/1b3nbN/nP6/BBP1P3/q4N2/Pp1P2PP/R2Q1RK1 w kq - 0 1";

#[test]
fn promotion_position_depths_1_to_3() {
    let one = perft(position(PROMOTIONS), 1);
    assert_eq!(one.nodes, 6);
    assert_eq!(one.captures, 0);
    let two = perft(position(PROMOTIONS), 2);
    assert_eq!(two.nodes, 264);
    assert_eq!(two.captures, 87);
    assert_eq!(two.castles, 6);
    assert_eq!(two.promotions, 48);
    let three = perft(position(PROMOTIONS), 3);
    assert_eq!(three.nodes, 9467);
    assert_eq!(three.captures, 1021);
    assert_eq!(three.enpassant, 4);
    assert_eq!(three.castles, 0);
    assert_eq!(three.promotions, 120);
}

const BUGCATCHER: &str = "rnbq1k1r/pp1Pbppp/2p5/8/2B5/8/PPP1NnPP/RNBQK2R w KQ - 1 8";

#[test]
fn bugcatcher_depths_1_to_3() {
    let nodes: Vec<u64> = (1..=3).map(|d| perft(position(BUGCATCHER), d).nodes).collect();
    assert_eq!(nodes, vec![44, 1486, 62379]);
}

#[test]
fn default_position_has_twenty_regular_moves() {
    let game = Game::default();
    let moves = moves_of(&game);
    assert_eq!(moves.len(), 20);
    let mut pawn_moves = 0;
    let mut knight_targets = Vec::new();
    for m in &moves {
        match m {
            GameMove::Regular(mov) => {
                assert_eq!(mov.piece.team, Team::White);
                match mov.piece.kind {
                    PieceKind::Pawn => pawn_moves += 1,
                    PieceKind::Knight => knight_targets.push(mov.to.integral()),
                    other => panic!("unexpected mover {:?}", other),
                }
            }
            other => panic!("unexpected move {:?}", other),
        }
    }
    assert_eq!(pawn_moves, 16);
    knight_targets.sort();
    assert_eq!(knight_targets, vec![16, 18, 21, 23]);
    for col in 0..8u8 {
        let from = Position::new(1, col);
        let pawn = PieceInfo { kind: PieceKind::Pawn, team: Team::White };
        assert!(moves.contains(&GameMove::Regular(RawMove::new(from, Position::new(2, col), pawn))));
        assert!(moves.contains(&GameMove::Regular(RawMove::new(from, Position::new(3, col), pawn))));
    }
}

#[test]
fn en_passant_is_offered_and_takes_the_pawn() {
    let mut game = Game::default();
    game.make_move(GameMove::Regular(raw("e2", "e4", PieceKind::Pawn, Team::White)));
    game.make_move(GameMove::Regular(raw("a7", "a6", PieceKind::Pawn, Team::Black)));
    game.make_move(GameMove::Regular(raw("e4", "e5", PieceKind::Pawn, Team::White)));
    game.make_move(GameMove::Regular(raw("d7", "d5", PieceKind::Pawn, Team::Black)));
    assert_eq!(game.enpassant, Bitboard::from_position(sq("d6")));
    let take = GameMove::Enpassant(raw("e5", "d6", PieceKind::Pawn, Team::White));
    assert!(moves_of(&game).contains(&take));
    game.make_move(take);
    assert_eq!(game.board.get_piece_info(sq("d5")), None);
    assert_eq!(game.board.get_piece_info(sq("e5")), None);
    assert_eq!(
        game.board.get_piece_info(sq("d6")),
        Some(PieceInfo { kind: PieceKind::Pawn, team: Team::White })
    );
    assert!(game.enpassant.empty());
    assert_eq!(game.halfmove_num, 0);
    assert!(game.board.verify());
}

#[test]
fn en_passant_that_bares_the_king_is_not_offered() {
    // The white pawn on e5 is all that stands between the rook and the king.
    let game = position("8/8/8/K2pP2r/8/8/8/7k w - d6 0 1");
    let take = GameMove::Enpassant(raw("e5", "d6", PieceKind::Pawn, Team::White));
    assert!(!moves_of(&game).contains(&take));
}

#[test]
fn castling_both_sides_is_offered() {
    let game = position("4k3/8/8/8/8/8/8/R3K2R w KQ - 0 1");
    let moves = moves_of(&game);
    assert!(moves.contains(&GameMove::CastleKingside(Team::White)));
    assert!(moves.contains(&GameMove::CastleQueenside(Team::White)));
}

#[test]
fn castling_moves_king_and_rook_and_spends_the_rights() {
    let mut game = position("r3k2r/8/8/8/8/8/8/R3K2R w KQkq - 0 1");
    game.make_move(GameMove::CastleKingside(Team::White));
    let king = PieceInfo { kind: PieceKind::King, team: Team::White };
    let rook = PieceInfo { kind: PieceKind::Rook, team: Team::White };
    assert_eq!(game.board.get_piece_info(sq("g1")), Some(king));
    assert_eq!(game.board.get_piece_info(sq("f1")), Some(rook));
    assert_eq!(game.board.get_piece_info(sq("e1")), None);
    assert_eq!(game.board.get_piece_info(sq("h1")), None);
    assert!(!game.castling.white_kingside());
    assert!(!game.castling.white_queenside());
    assert!(game.castling.black_kingside());
    assert!(game.castling.black_queenside());
    assert_eq!(game.state, GameState::BlackToMove);
    game.make_move(GameMove::CastleQueenside(Team::Black));
    assert_eq!(
        game.board.get_piece_info(sq("c8")),
        Some(PieceInfo { kind: PieceKind::King, team: Team::Black })
    );
    assert_eq!(
        game.board.get_piece_info(sq("d8")),
        Some(PieceInfo { kind: PieceKind::Rook, team: Team::Black })
    );
    assert!(!game.castling.black_kingside());
    assert!(!game.castling.black_queenside());
    assert!(game.board.verify());
}

#[test]
fn castling_is_refused_through_an_attacked_square() {
    // The black rook on f8 attacks f1; the queenside is free.
    let game = position("4kr2/8/8/8/8/8/8/R3K2R w KQ - 0 1");
    let moves = moves_of(&game);
    assert!(!moves.contains(&GameMove::CastleKingside(Team::White)));
    assert!(moves.contains(&GameMove::CastleQueenside(Team::White)));
}

#[test]
fn castling_queenside_is_allowed_with_b1_attacked() {
    // The black rook on b8 attacks b1, which the king does not cross.
    let game = position("1r2k3/8/8/8/8/8/8/R3K2R w KQ - 0 1");
    assert!(moves_of(&game).contains(&GameMove::CastleQueenside(Team::White)));
}

#[test]
fn castling_is_refused_when_blocked_or_without_the_right() {
    let blocked = position("4k3/8/8/8/8/8/8/RN2K1NR w KQ - 0 1");
    let moves = moves_of(&blocked);
    assert!(!moves.contains(&GameMove::CastleKingside(Team::White)));
    assert!(!moves.contains(&GameMove::CastleQueenside(Team::White)));
    let spent = position("4k3/8/8/8/8/8/8/R3K2R w - - 0 1");
    let moves = moves_of(&spent);
    assert!(!moves.contains(&GameMove::CastleKingside(Team::White)));
    assert!(!moves.contains(&GameMove::CastleQueenside(Team::White)));
}

#[test]
fn pawn_on_the_seventh_promotes_four_ways() {
    let game = position("k7/4P3/8/8/8/8/8/4K3 w - - 0 1");
    let moves = moves_of(&game);
    let mov = raw("e7", "e8", PieceKind::Pawn, Team::White);
    for promotion in [Promotion::Queen, Promotion::Rook, Promotion::Bishop, Promotion::Knight] {
        assert!(moves.contains(&GameMove::Promote { promotion, mov }));
    }
    assert!(!moves.contains(&GameMove::Regular(mov)));
    let promotions = moves.iter().filter(|m| matches!(m, GameMove::Promote { .. })).count();
    assert_eq!(promotions, 4);
}

#[test]
fn promotion_puts_the_new_piece_on_the_board() {
    let mut game = position("k7/4P3/8/8/8/8/8/4K3 w - - 0 1");
    let mov = raw("e7", "e8", PieceKind::Pawn, Team::White);
    game.make_move(GameMove::Promote { promotion: Promotion::Knight, mov });
    assert_eq!(
        game.board.get_piece_info(sq("e8")),
        Some(PieceInfo { kind: PieceKind::Knight, team: Team::White })
    );
    assert_eq!(game.board.get_piece_info(sq("e7")), None);
    assert!(game.board.pawns.empty());
    assert!(game.board.verify());
}

#[test]
fn capture_on_the_last_row_is_a_capturing_promotion_only() {
    let game = position("k2r4/4P3/8/8/8/8/8/4K3 w - - 0 1");
    let moves = moves_of(&game);
    let mov = raw("e7", "d8", PieceKind::Pawn, Team::White);
    assert!(moves.contains(&GameMove::CapturePromote { promotion: Promotion::Queen, mov }));
    assert!(!moves.contains(&GameMove::Capture(mov)));
}

#[test]
fn capturing_a_rook_on_its_corner_spends_that_right() {
    let mut game = position("r3k2r/8/8/8/8/8/6B1/4K3 w kq - 0 1");
    game.make_move(GameMove::Capture(raw("g2", "a8", PieceKind::Bishop, Team::White)));
    assert!(!game.castling.black_queenside());
    assert!(game.castling.black_kingside());
    let mut game = position("r3k2r/8/8/8/8/8/1B6/4K3 w kq - 0 1");
    game.make_move(GameMove::Capture(raw("b2", "h8", PieceKind::Bishop, Team::White)));
    assert!(game.castling.black_queenside());
    assert!(!game.castling.black_kingside());
}

#[test]
fn moving_a_rook_from_its_corner_spends_that_right() {
    let mut game = position("4k3/8/8/8/8/8/8/R3K2R w KQ - 0 1");
    game.make_move(GameMove::Regular(raw("a1", "a2", PieceKind::Rook, Team::White)));
    assert!(!game.castling.white_queenside());
    assert!(game.castling.white_kingside());
}

#[test]
fn halfmove_clock_counts_quiet_moves_and_resets() {
    let mut game = Game::default();
    game.make_move(GameMove::Regular(raw("g1", "f3", PieceKind::Knight, Team::White)));
    assert_eq!(game.halfmove_num, 1);
    game.make_move(GameMove::Regular(raw("g8", "f6", PieceKind::Knight, Team::Black)));
    assert_eq!(game.halfmove_num, 2);
    game.make_move(GameMove::Regular(raw("e2", "e4", PieceKind::Pawn, Team::White)));
    assert_eq!(game.halfmove_num, 0);
    game.make_move(GameMove::Capture(raw("f6", "e4", PieceKind::Knight, Team::Black)));
    assert_eq!(game.halfmove_num, 0);
    assert_eq!(game.fullmove_num, 0);
}

#[test]
fn fifty_quiet_moves_each_end_in_stalemate() {
    let mut game = Game::default();
    let there = [("g1", "f3", Team::White), ("g8", "f6", Team::Black)];
    let back = [("f3", "g1", Team::White), ("f6", "g8", Team::Black)];
    for round in 0..50 {
        let pair = if round % 2 == 0 { there } else { back };
        for (from, to, team) in pair {
            assert!(matches!(game.state, GameState::WhiteToMove | GameState::BlackToMove));
            let m = GameMove::Regular(raw(from, to, PieceKind::Knight, team));
            assert!(moves_of(&game).contains(&m));
            game.make_move(m);
        }
    }
    assert_eq!(game.halfmove_num, 100);
    assert_eq!(game.state, GameState::Stalemate);
    let mut buf = Vec::new();
    assert_eq!(
        game.get_all_moves(&mut buf),
        Err(MoveGenerationError::GameFinished(GameState::Stalemate))
    );
    assert!(buf.is_empty());
    assert_eq!(game.get_active_team(), None);
}

#[test]
fn fools_mate_is_a_black_victory() {
    let mut game = Game::default();
    game.make_move(GameMove::Regular(raw("f2", "f3", PieceKind::Pawn, Team::White)));
    game.make_move(GameMove::Regular(raw("e7", "e5", PieceKind::Pawn, Team::Black)));
    game.make_move(GameMove::Regular(raw("g2", "g4", PieceKind::Pawn, Team::White)));
    game.make_move(GameMove::Regular(raw("d8", "h4", PieceKind::Queen, Team::Black)));
    assert_eq!(game.state, GameState::BlackVictory);
    let mut buf = Vec::new();
    assert_eq!(
        game.get_all_moves(&mut buf),
        Err(MoveGenerationError::GameFinished(GameState::BlackVictory))
    );
    assert_eq!(perft(game, 3).checkmates, 1);
    assert_eq!(perft(game, 3).nodes, 1);
}

#[test]
fn back_rank_mate_is_a_white_victory() {
    let mut game = position("6k1/5ppp/8/8/8/8/r7/4R1K1 w - - 0 1");
    game.make_move(GameMove::Regular(raw("e1", "e8", PieceKind::Rook, Team::White)));
    assert_eq!(game.state, GameState::WhiteVictory);
    assert!(game.is_valid());
}

#[test]
fn check_that_can_be_blocked_is_no_mate() {
    // After the check on a1 the king has no square, but the rook can step
    // in between on b1.
    let mut game = position("r6k/8/8/8/8/8/1R4PP/7K b - - 0 1");
    game.make_move(GameMove::Regular(raw("a8", "a1", PieceKind::Rook, Team::Black)));
    assert!(game.board.is_pos_attacked(Team::Black, sq("h1")));
    assert!(game.board.get_piece_legal_moves(Team::White, PieceKind::King, sq("h1")).empty());
    assert_eq!(game.state, GameState::WhiteToMove);
    assert_eq!(
        moves_of(&game),
        vec![GameMove::Regular(raw("b2", "b1", PieceKind::Rook, Team::White))]
    );
}

#[test]
fn positions_that_play_cannot_reach_are_told_apart() {
    assert!(Game::default().is_valid());
    let mut no_king = Game::default();
    no_king.board.kill_piece(Bitboard::from_position(sq("e8")));
    assert!(!no_king.is_valid());
    let mut two_on_a_square = Game::default();
    two_on_a_square.board.whites.data |= 1 << 60;
    assert!(!two_on_a_square.is_valid());
    let mut right_without_rook = Game::default();
    right_without_rook.board.kill_piece(Bitboard::from_position(sq("h1")));
    assert!(!right_without_rook.is_valid());
    right_without_rook.castling.unset_white_kingside();
    assert!(right_without_rook.is_valid());
    let mut stray_en_passant = Game::default();
    stray_en_passant.enpassant = Bitboard::from_position(sq("e6"));
    assert!(!stray_en_passant.is_valid());
    let mut late = Game::default();
    late.halfmove_num = 100;
    assert!(!late.is_valid());
    late.state = GameState::Stalemate;
    assert!(late.is_valid());
    // The side that is not to move may not stand in check.
    let mut in_check = Game::default();
    in_check.board.kill_piece(Bitboard::from_position(sq("e7")));
    in_check.board.kill_piece(Bitboard::from_position(sq("e2")));
    in_check.board.kill_piece(Bitboard::from_position(sq("d1")));
    in_check.board.restore(
        Some(PieceInfo { kind: PieceKind::Queen, team: Team::White }),
        sq("e2"),
    );
    assert!(!in_check.is_valid());
    in_check.state = GameState::BlackToMove;
    assert!(in_check.is_valid());
    assert!(in_check.castling_fits());
    assert!(in_check.en_passant_fits(Team::Black));
}

#[test]
fn no_move_without_check_is_stalemate() {
    let mut game = position("7k/5K2/8/6Q1/8/8/8/8 w - - 0 1");
    game.make_move(GameMove::Regular(raw("g5", "g6", PieceKind::Queen, Team::White)));
    assert_eq!(game.state, GameState::Stalemate);
}

#[test]
fn legal_moves_are_told_from_others() {
    let game = Game::default();
    assert!(game.is_legal(GameMove::Regular(raw("e2", "e4", PieceKind::Pawn, Team::White))));
    assert!(game.is_legal(GameMove::Regular(raw("g1", "f3", PieceKind::Knight, Team::White))));
    assert!(!game.is_legal(GameMove::Regular(raw("e2", "e5", PieceKind::Pawn, Team::White))));
    assert!(!game.is_legal(GameMove::Capture(raw("e2", "e4", PieceKind::Pawn, Team::White))));
    assert!(!game.is_legal(GameMove::Regular(raw("e2", "e4", PieceKind::Queen, Team::White))));
    assert!(!game.is_legal(GameMove::Regular(raw("e7", "e5", PieceKind::Pawn, Team::Black))));
    assert!(!game.is_legal(GameMove::CastleKingside(Team::White)));
    let mut over = game;
    over.state = GameState::Stalemate;
    assert!(!over.is_legal(GameMove::Regular(raw("e2", "e4", PieceKind::Pawn, Team::White))));
    let pinned = position("4r2k/8/8/8/8/8/4N3/4K3 w - - 0 1");
    assert!(!pinned.is_legal(GameMove::Regular(raw("e2", "c3", PieceKind::Knight, Team::White))));
    assert!(pinned.is_legal(GameMove::Regular(raw("e1", "d1", PieceKind::King, Team::White))));
}

#[test]
fn pinned_piece_may_not_leave_the_line() {
    let game = position("4r2k/8/8/8/8/8/4N3/4K3 w - - 0 1");
    let legal = game.board.get_piece_legal_moves(Team::White, PieceKind::Knight, sq("e2"));
    assert!(legal.empty());
    let pseudo = game.board.get_piece_pseudo_moves(Team::White, PieceKind::Knight, sq("e2"));
    assert_eq!(pseudo.count(), 6);
}

#[test]
fn perft_of_a_position_without_moves_counts_a_stalemate() {
    let game = position("7k/5K2/6Q1/8/8/8/8/8 b - - 0 1");
    let data = perft(game, 2);
    assert_eq!(data.stalemates, 1);
    assert_eq!(data.nodes, 0);
}
