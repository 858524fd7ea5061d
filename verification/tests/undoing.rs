use libchess::bitboard::Bitboard;
use libchess::board::ChessBoard;
use libchess::game::{Game, GameMove, Promotion, RawMove};
use libchess::perft::{perft, perft_cached, PerftCache, PerftKey, PerftResults, _perft};
use libchess::piece::{PieceInfo, PieceKind, Team};
use libchess::position::{Coord, Position};
use libchess::zobrist::ZobKeys;
use rand::{Rng, SeedableRng};

fn board_of(rows: [&str; 8]) -> ChessBoard {
    let z = Bitboard::from_bits(0);
    let mut board = ChessBoard {
        kings: z,
        queens: z,
        knights: z,
        rooks: z,
        bishops: z,
        pawns: z,
        blacks: z,
        whites: z,
    };
    for (r, text) in rows.iter().enumerate() {
        for (c, ch) in text.chars().enumerate() {
            if ch == '.' {
                continue;
            }
            let bit = Bitboard::from_piece_index(((7 - r) * 8 + c) as u8);
            if ch.is_ascii_uppercase() {
                board.whites |= bit;
            } else {
                board.blacks |= bit;
            }
            match ch.to_ascii_lowercase() {
                'k' => board.kings |= bit,
                'q' => board.queens |= bit,
                'r' => board.rooks |= bit,
                'b' => board.bishops |= bit,
                'n' => board.knights |= bit,
                _ => board.pawns |= bit,
            }
        }
    }
    board
}

fn team_to_move(game: &Game) -> Team {
    game.get_active_team().unwrap()
}

#[test]
fn every_move_of_random_games_can_be_taken_back() {
    let mut rng = rand::rngs::StdRng::seed_from_u64(21);
    let mut kinds = [0u32; 7];
    for _ in 0..60 {
        let mut game = Game::default();
        for _ in 0..250 {
            let mut buf = Vec::new();
            if game.get_all_moves(&mut buf).is_err() {
                break;
            }
            let team = team_to_move(&game);
            for m in &buf {
                let captured = game.captured(team, *m);
                let mut after = game;
                after.make_move(*m);
                let mut back = after.board;
                back.unmake_move(team, *m, captured);
                assert_eq!(back, game.board);
            }
            let m = buf[rng.gen_range(0..buf.len())];
            kinds[match m {
                GameMove::Regular(_) => 0,
                GameMove::Capture(_) => 1,
                GameMove::Enpassant(_) => 2,
                GameMove::Promote { .. } => 3,
                GameMove::CapturePromote { .. } => 4,
                GameMove::CastleKingside(_) => 5,
                GameMove::CastleQueenside(_) => 6,
            }] += 1;
            game.make_move(m);
        }
    }
    assert!(kinds[0] > 0 && kinds[1] > 0);
}

#[test]
fn taking_back_each_kind_of_move() {
    let start = board_of([
        "r...k..r", "P....ppp", "........", "..pP....", "........", "........", ".....PPP",
        "R...K..R",
    ]);
    let mut game = Game::default();
    game.board = start;
    game.enpassant = Bitboard::from_position(Position::new(5, 2));
    assert!(game.is_valid());
    let pawn = PieceInfo { kind: PieceKind::Pawn, team: Team::White };
    let moves = [
        GameMove::CastleKingside(Team::White),
        GameMove::CastleQueenside(Team::White),
        GameMove::Enpassant(RawMove::new(Position::new(4, 3), Position::new(5, 2), pawn)),
        GameMove::Regular(RawMove::new(Position::new(1, 7), Position::new(3, 7), pawn)),
        GameMove::Capture(RawMove::new(
            Position::new(0, 0),
            Position::new(6, 0),
            PieceInfo { kind: PieceKind::Rook, team: Team::Black },
        )),
    ];
    let mut listed = Vec::new();
    game.get_all_moves(&mut listed).unwrap();
    for m in &moves[..4] {
        assert!(listed.contains(m));
        let captured = game.captured(Team::White, *m);
        let mut after = game;
        after.make_move(*m);
        assert_ne!(after.board, start);
        let mut back = after.board;
        back.unmake_move(Team::White, *m, captured);
        assert_eq!(back, start);
    }
    let ep = moves[2];
    assert_eq!(
        game.captured(Team::White, ep),
        Some(PieceInfo { kind: PieceKind::Pawn, team: Team::Black })
    );
    assert_eq!(game.captured(Team::White, moves[3]), None);
    let promo = board_of([
        ".n..k...", "P.......", "........", "........", "........", "........", "........",
        "....K...",
    ]);
    let mut game = Game::default();
    game.board = promo;
    game.castling.unset_white();
    game.castling.unset_black();
    assert!(game.is_valid());
    let mov = RawMove::new(Position::new(6, 0), Position::new(7, 1), pawn);
    let m = GameMove::CapturePromote { promotion: Promotion::Queen, mov };
    let captured = game.captured(Team::White, m);
    assert_eq!(captured, Some(PieceInfo { kind: PieceKind::Knight, team: Team::Black }));
    let mut after = game;
    after.make_move(m);
    assert_eq!(
        after.board.get_piece_info(Position::new(7, 1)),
        Some(PieceInfo { kind: PieceKind::Queen, team: Team::White })
    );
    let mut back = after.board;
    back.unmake_move(Team::White, m, captured);
    assert_eq!(back, promo);
}

#[test]
fn board_sets_change_in_place() {
    let mut board = ChessBoard::default();
    let e2e4 = Bitboard::from_bits((1 << 12) | (1 << 28));
    *board.get_mut_team_bb_rt(Team::White) ^= e2e4;
    *board.get_mut_piece_bb_rt(PieceKind::Pawn) ^= e2e4;
    assert_eq!(
        board.get_piece_info(Position::new(3, 4)),
        Some(PieceInfo { kind: PieceKind::Pawn, team: Team::White })
    );
    assert_eq!(board.get_piece_info(Position::new(1, 4)), None);
    assert!(board.verify());
    let mut other = ChessBoard::default();
    other.switch(Team::White, PieceKind::Pawn, e2e4);
    assert_eq!(other, board);
    other.kill_piece(Bitboard::from_bits(1 << 28));
    assert_eq!(other.get_piece_info(Position::new(3, 4)), None);
    assert_eq!(other.pawns.count(), 15);
    other.flip_kind(PieceKind::Queen, Bitboard::from_bits(1 << 3));
    assert!(!other.verify());
    other.restore(Some(PieceInfo { kind: PieceKind::Queen, team: Team::White }), Position::new(3, 3));
    assert_eq!(
        other.get_piece_info(Position::new(3, 3)),
        Some(PieceInfo { kind: PieceKind::Queen, team: Team::White })
    );
    let mut game = Game::default();
    game.mask(Bitboard::from_bits(0xFFFF));
    assert_eq!(game.board.blacks.data, 0);
    assert_eq!(game.board.whites.data, 0xFFFF);
    game.switch(Bitboard::from_bits(1));
    assert_eq!(game.board.whites.data, 0xFFFE);
    assert_eq!(game.board.rooks.data, 0x80);
    assert_eq!(game.board.kings.data, 0x11);
}

#[test]
fn operators_on_sets_of_squares() {
    let a = Bitboard::from_bits(0b1100);
    let b = Bitboard::from_bits(0b1010);
    assert_eq!((a | b).data, 0b1110);
    assert_eq!((a & b).data, 0b1000);
    assert_eq!((a ^ b).data, 0b0110);
    assert_eq!((a << 4).data, 0b1100_0000);
    assert_eq!((a >> 2).data, 0b11);
    let mut c = a;
    c |= b;
    assert_eq!(c.data, 0b1110);
    c &= b;
    assert_eq!(c.data, 0b1010);
    c ^= a;
    assert_eq!(c.data, 0b0110);
    assert_eq!(Bitboard::from_bits(1 << 42).piece_index(), 42);
    assert_eq!(Coord::from_idx(42), Coord { row: 5, col: 2 });
    assert_eq!(Coord::from_idx(7), Coord { row: 0, col: 7 });
}

#[test]
fn counts_add_field_by_field_and_wrap() {
    let one = PerftResults {
        nodes: 1,
        captures: 2,
        enpassant: 3,
        castles: 4,
        kingside_castles: 5,
        queenside_castles: 6,
        promotions: 7,
        regulars: 8,
        checkmates: 9,
        stalemates: 10,
    };
    let two = one.add(one);
    assert_eq!(two.nodes, 2);
    assert_eq!(two.stalemates, 20);
    assert_eq!(two.kingside_castles, 10);
    assert_eq!(one.add(PerftResults::default()), one);
    assert_eq!(PerftResults::sum(&vec![one, two, one]).captures, 8);
    assert_eq!(PerftResults::sum(&Vec::new()), PerftResults::default());
    let big = PerftResults { nodes: u64::MAX, ..PerftResults::default() };
    assert_eq!(big.add(one).nodes, 0);
}

#[test]
fn cached_counts_are_the_plain_counts() {
    let mut rng = rand::rngs::StdRng::seed_from_u64(5);
    let keys = ZobKeys::generate(&mut rng);
    let game = Game::default();
    let hash = game.get_zobrist_hash(&keys).unwrap();
    let mut cache = PerftCache::new();
    assert_eq!(cache.get(PerftKey { depth: 3, hash }), None);
    let plain = perft(game, 4);
    assert_eq!(perft_cached(&game, 4, hash, &keys, &mut cache), plain);
    assert_eq!(cache.get(PerftKey { depth: 4, hash }), Some(plain));
    assert_eq!(cache.get(PerftKey { depth: 3, hash }), None);
    assert_eq!(perft_cached(&game, 4, hash, &keys, &mut cache), plain);
    assert_eq!(perft_cached(&game, 3, hash, &keys, &mut cache), perft(game, 3));
    assert_eq!(perft_cached(&game, 0, hash, &keys, &mut cache), PerftResults::default());
    let marked = PerftResults { nodes: 77, ..PerftResults::default() };
    cache.insert(PerftKey { depth: 4, hash }, marked);
    assert_eq!(perft_cached(&game, 4, hash, &keys, &mut cache), marked);
    assert_eq!(_perft(&game, 2).nodes, 400);
}
