use libchess::bitboard::Bitboard;
use libchess::board::ChessBoard;
use libchess::fen::{digit, piece_letter, push_decimal};
use libchess::game::{Game, GameMove, GameState, RawMove};
use libchess::piece::{PieceInfo, PieceKind, Team};
use libchess::position::Position;

fn step(from: (u8, u8), to: (u8, u8), kind: PieceKind, team: Team) -> GameMove {
    GameMove::Regular(RawMove::new(
        Position::new(from.0, from.1),
        Position::new(to.0, to.1),
        PieceInfo { kind, team },
    ))
}

#[test]
fn start_position_in_notation() {
    let game = Game::default();
    assert_eq!(game.board.to_fen(), "rnbqkbnr/pppppppp/8/8/8/8/PPPPPPPP/RNBQKBNR");
    assert_eq!(game.to_fen_str(), "rnbqkbnr/pppppppp/8/8/8/8/PPPPPPPP/RNBQKBNR w KQkq - 0 0");
}

#[test]
fn notation_after_a_few_moves() {
    let mut game = Game::default();
    game.make_move(step((1, 4), (3, 4), PieceKind::Pawn, Team::White));
    assert_eq!(
        game.to_fen_str(),
        "rnbqkbnr/pppppppp/8/8/4P3/8/PPPP1PPP/RNBQKBNR b KQkq e3 0 0"
    );
    game.make_move(step((6, 2), (4, 2), PieceKind::Pawn, Team::Black));
    assert_eq!(
        game.to_fen_str(),
        "rnbqkbnr/pp1ppppp/8/2p5/4P3/8/PPPP1PPP/RNBQKBNR w KQkq c6 0 0"
    );
    game.make_move(step((0, 6), (2, 5), PieceKind::Knight, Team::White));
    assert_eq!(
        game.to_fen_str(),
        "rnbqkbnr/pp1ppppp/8/2p5/4P3/5N2/PPPP1PPP/RNBQKB1R b KQkq - 1 0"
    );
    game.make_move(step((7, 1), (5, 2), PieceKind::Knight, Team::Black));
    game.make_move(step((0, 4), (1, 4), PieceKind::King, Team::White));
    assert_eq!(
        game.to_fen_str(),
        "r1bqkbnr/pp1ppppp/2n5/2p5/4P3/5N2/PPPPKPPP/RNBQ1B1R b kq - 3 0"
    );
}

#[test]
fn notation_of_an_ended_game_and_large_clocks() {
    let mut game = Game::default();
    game.state = GameState::Stalemate;
    game.halfmove_num = 100;
    game.fullmove_num = 18_446_744_073_709_551_615;
    game.castling.unset_white();
    game.castling.unset_black();
    assert_eq!(
        game.to_fen_str(),
        "rnbqkbnr/pppppppp/8/8/8/8/PPPPPPPP/RNBQKBNR - - - 100 18446744073709551615"
    );
}

#[test]
fn notation_of_an_empty_and_a_sparse_board() {
    let z = Bitboard::from_bits(0);
    let mut board = ChessBoard {
        kings: z,
        queens: z,
        knights: z,
        rooks: z,
        bishops: z,
        pawns: z,
        blacks: z,
        whites: z,
    };
    assert_eq!(board.to_fen(), "8/8/8/8/8/8/8/8");
    board.queens = Bitboard::from_bits(1 << 27);
    board.blacks = Bitboard::from_bits(1 << 27);
    board.kings = Bitboard::from_bits(1 | (1 << 63));
    board.whites = Bitboard::from_bits(1 | (1 << 63));
    assert_eq!(board.to_fen(), "7K/8/8/8/3q4/8/8/K7");
}

#[test]
fn digits_letters_and_decimals() {
    assert_eq!(digit(0), '0');
    assert_eq!(digit(9), '9');
    assert_eq!(piece_letter(PieceInfo { kind: PieceKind::Knight, team: Team::White }), 'N');
    assert_eq!(piece_letter(PieceInfo { kind: PieceKind::Knight, team: Team::Black }), 'n');
    let mut out = vec!['x'];
    push_decimal(0, &mut out);
    push_decimal(7, &mut out);
    push_decimal(1203, &mut out);
    assert_eq!(out, vec!['x', '0', '7', '1', '2', '0', '3']);
}

#[test]
fn notation_is_a_function_of_the_position() {
    let mut a = Game::default();
    let mut b = Game::default();
    let m = step((1, 3), (3, 3), PieceKind::Pawn, Team::White);
    a.make_move(m);
    b.make_move(m);
    assert_eq!(a.to_fen_str(), b.to_fen_str());
}
