//! Positions written in Forsyth-Edwards notation.

use vstd::prelude::*;
use crate::board::ChessBoard;
use crate::game::{Game, GameState};
use crate::piece::{PieceInfo, PieceKind, Team};
use crate::position::Position;

verus! {

/// Makes a string of `chars` by `String::from_iter`: the string holds those
/// characters in that order.
#[verifier::external_body]
pub(crate) fn string_of(chars: &Vec<char>) -> (s: String)
    ensures
        s@ == chars@,
{
    String::from_iter(chars)
}

/// The letter of a piece: upper case for white, lower case for black.
pub open spec fn piece_char(p: PieceInfo) -> char {
    match p.team {
        Team::White => match p.kind {
            PieceKind::King => 'K',
            PieceKind::Queen => 'Q',
            PieceKind::Rook => 'R',
            PieceKind::Bishop => 'B',
            PieceKind::Knight => 'N',
            PieceKind::Pawn => 'P',
        },
        Team::Black => match p.kind {
            PieceKind::King => 'k',
            PieceKind::Queen => 'q',
            PieceKind::Rook => 'r',
            PieceKind::Bishop => 'b',
            PieceKind::Knight => 'n',
            PieceKind::Pawn => 'p',
        },
    }
}

/// The character of the digit `d`.
pub open spec fn digit_char(d: int) -> char {
    if d == 0 {
        '0'
    } else if d == 1 {
        '1'
    } else if d == 2 {
        '2'
    } else if d == 3 {
        '3'
    } else if d == 4 {
        '4'
    } else if d == 5 {
        '5'
    } else if d == 6 {
        '6'
    } else if d == 7 {
        '7'
    } else if d == 8 {
        '8'
    } else {
        '9'
    }
}

/// The number `n` written in decimal digits.
pub open spec fn decimal(n: nat) -> Seq<char>
    decreases n,
{
    if n < 10 {
        seq![digit_char(n as int)]
    } else {
        decimal(n / 10).push(digit_char((n % 10) as int))
    }
}

/// The lower-case letter of column `col`.
pub open spec fn file_char(col: int) -> char {
    if col == 0 {
        'a'
    } else if col == 1 {
        'b'
    } else if col == 2 {
        'c'
    } else if col == 3 {
        'd'
    } else if col == 4 {
        'e'
    } else if col == 5 {
        'f'
    } else if col == 6 {
        'g'
    } else {
        'h'
    }
}

/// A run of `blanks` empty squares: its length as a digit, or nothing for
/// no square.
pub open spec fn blank_run(blanks: int) -> Seq<char> {
    if blanks == 0 {
        Seq::empty()
    } else {
        seq![digit_char(blanks)]
    }
}

/// Row `row` of the board from column `col` on, after a run of `blanks`
/// empty squares: each piece by its letter, each run of empty squares by
/// its length.
pub open spec fn fen_row_from(board: ChessBoard, row: int, col: int, blanks: int) -> Seq<char>
    decreases 8 - col,
{
    if col >= 8 {
        blank_run(blanks)
    } else {
        match board.piece_at(row * 8 + col) {
            Some(p) => blank_run(blanks) + seq![piece_char(p)] + fen_row_from(
                board,
                row,
                col + 1,
                0,
            ),
            None => fen_row_from(board, row, col + 1, blanks + 1),
        }
    }
}

/// The rows of the board from row `row` down to row 0, separated by `/`.
pub open spec fn fen_rows(board: ChessBoard, row: int) -> Seq<char>
    decreases row,
{
    if row <= 0 {
        fen_row_from(board, 0, 0, 0)
    } else {
        fen_row_from(board, row, 0, 0) + seq!['/'] + fen_rows(board, row - 1)
    }
}

/// The board field: the rows from the eighth down to the first.
pub open spec fn fen_board(board: ChessBoard) -> Seq<char> {
    fen_rows(board, 7)
}

/// The side field: `w` or `b`, or `-` once the game is over.
pub open spec fn fen_side(state: GameState) -> char {
    match state {
        GameState::WhiteToMove => 'w',
        GameState::BlackToMove => 'b',
        _ => '-',
    }
}

/// The castling field: a letter for each right that is left, or `-`.
pub open spec fn fen_castling(g: Game) -> Seq<char> {
    let r = g.castling@;
    let s = (if r.white_kingside {
        seq!['K']
    } else {
        Seq::empty()
    }) + (if r.white_queenside {
        seq!['Q']
    } else {
        Seq::empty()
    }) + (if r.black_kingside {
        seq!['k']
    } else {
        Seq::empty()
    }) + (if r.black_queenside {
        seq!['q']
    } else {
        Seq::empty()
    });
    if s.len() == 0 {
        seq!['-']
    } else {
        s
    }
}

/// The en passant field: the square by column letter and row digit, or `-`.
pub open spec fn fen_ep(g: Game) -> Seq<char> {
    if g.enpassant.data == 0 {
        seq!['-']
    } else {
        seq![file_char(g.ep_square() % 8), digit_char(g.ep_square() / 8 + 1)]
    }
}

/// The position in Forsyth-Edwards notation: board, side to move, castling
/// rights, en passant square, halfmove clock and fullmove number, separated
/// by single spaces.
pub open spec fn fen_of(g: Game) -> Seq<char> {
    fen_board(g.board) + seq![' ', fen_side(g.state), ' '] + fen_castling(g) + seq![' '] + fen_ep(
        g,
    ) + seq![' '] + decimal(g.halfmove_num as nat) + seq![' '] + decimal(g.fullmove_num as nat)
}

/// The character of the digit `d`.
pub fn digit(d: u8) -> (c: char)
    requires
        d < 10,
    ensures
        c == digit_char(d as int),
{
    if d == 0 {
        '0'
    } else if d == 1 {
        '1'
    } else if d == 2 {
        '2'
    } else if d == 3 {
        '3'
    } else if d == 4 {
        '4'
    } else if d == 5 {
        '5'
    } else if d == 6 {
        '6'
    } else if d == 7 {
        '7'
    } else if d == 8 {
        '8'
    } else {
        '9'
    }
}

/// Appends `n` in decimal digits.
pub fn push_decimal(n: u64, out: &mut Vec<char>)
    ensures
        final(out)@ == old(out)@ + decimal(n as nat),
    decreases n,
{
    if n >= 10 {
        push_decimal(n / 10, out);
    }
    out.push(digit((n % 10) as u8));
    proof {
        if n >= 10 {
            assert(final(out)@ =~= old(out)@ + decimal((n / 10) as nat).push(
                digit_char((n % 10) as int),
            ));
        } else {
            assert(final(out)@ =~= old(out)@ + seq![digit_char(n as int)]);
        }
    }
}

/// The letter of a piece: upper case for white, lower case for black.
pub fn piece_letter(p: PieceInfo) -> (c: char)
    ensures
        c == piece_char(p),
{
    match p.team {
        Team::White => match p.kind {
            PieceKind::King => 'K',
            PieceKind::Queen => 'Q',
            PieceKind::Rook => 'R',
            PieceKind::Bishop => 'B',
            PieceKind::Knight => 'N',
            PieceKind::Pawn => 'P',
        },
        Team::Black => match p.kind {
            PieceKind::King => 'k',
            PieceKind::Queen => 'q',
            PieceKind::Rook => 'r',
            PieceKind::Bishop => 'b',
            PieceKind::Knight => 'n',
            PieceKind::Pawn => 'p',
        },
    }
}

impl ChessBoard {
    /// Appends row `row` of the board.
    fn push_fen_row(&self, row: u8, out: &mut Vec<char>)
        requires
            row < 8,
        ensures
            final(out)@ == old(out)@ + fen_row_from(*self, row as int, 0, 0),
    {
        let ghost start = out@;
        let ghost whole = fen_row_from(*self, row as int, 0, 0);
        let mut blanks: u8 = 0;
        let mut col: u8 = 0;
        proof {
            assert(start + whole =~= out@ + whole);
        }
        while col < 8
            invariant
                row < 8,
                col <= 8,
                blanks <= col,
                out@ + fen_row_from(*self, row as int, col as int, blanks as int) == start + whole,
            decreases 8 - col,
        {
            let ghost before = out@;
            let ghost b0 = blanks as int;
            let ghost rest = fen_row_from(*self, row as int, col + 1, 0);
            match self.get_piece_info(Position::new(row, col)) {
                Some(pi) => {
                    if blanks != 0 {
                        out.push(digit(blanks));
                        blanks = 0;
                    }
                    out.push(piece_letter(pi));
                    proof {
                        assert(out@ =~= before + (blank_run(b0) + seq![piece_char(pi)]));
                        assert(out@ + rest =~= before + (blank_run(b0) + seq![piece_char(pi)]
                            + rest));
                    }
                },
                None => {
                    blanks = blanks + 1;
                },
            }
            col = col + 1;
        }
        let ghost before = out@;
        if blanks != 0 {
            out.push(digit(blanks));
        }
        proof {
            assert(out@ =~= before + blank_run(blanks as int));
        }
    }

    /// The board field of the notation, as characters.
    pub fn fen_chars(&self) -> (out: Vec<char>)
        ensures
            out@ == fen_board(*self),
    {
        let mut out: Vec<char> = Vec::new();
        let mut row: u8 = 7;
        proof {
            assert(out@ + fen_rows(*self, 7) =~= fen_board(*self));
        }
        loop
            invariant_except_break
                out@ + fen_rows(*self, row as int) == fen_board(*self),
            invariant
                row <= 7,
            ensures
                out@ == fen_board(*self),
            decreases row,
        {
            let ghost before = out@;
            self.push_fen_row(row, &mut out);
            if row == 0 {
                break ;
            }
            out.push('/');
            proof {
                let this = fen_row_from(*self, row as int, 0, 0);
                assert(out@ + fen_rows(*self, row - 1) =~= before + (this + seq!['/'] + fen_rows(
                    *self,
                    row - 1,
                )));
            }
            row = row - 1;
        }
        out
    }

    /// The board field of the notation: the rows from the eighth down to the
    /// first, separated by `/`; in each row the pieces by their letters,
    /// upper case for white and lower case for black, and each run of empty
    /// squares by its length.
    pub fn to_fen(&self) -> (s: String)
        ensures
            s@ == fen_board(*self),
    {
        let out = self.fen_chars();
        string_of(&out)
    }
}

/// The upper-case letter of column `col`.
pub open spec fn column_char(col: int) -> char {
    if col == 0 {
        'A'
    } else if col == 1 {
        'B'
    } else if col == 2 {
        'C'
    } else if col == 3 {
        'D'
    } else if col == 4 {
        'E'
    } else if col == 5 {
        'F'
    } else if col == 6 {
        'G'
    } else {
        'H'
    }
}

/// The letter of column `col`, in upper or lower case.
pub fn column_letter(col: u8, upper: bool) -> (c: char)
    requires
        col < 8,
    ensures
        c == if upper {
            column_char(col as int)
        } else {
            file_char(col as int)
        },
{
    if upper {
        if col == 0 {
            'A'
        } else if col == 1 {
            'B'
        } else if col == 2 {
            'C'
        } else if col == 3 {
            'D'
        } else if col == 4 {
            'E'
        } else if col == 5 {
            'F'
        } else if col == 6 {
            'G'
        } else {
            'H'
        }
    } else {
        if col == 0 {
            'a'
        } else if col == 1 {
            'b'
        } else if col == 2 {
            'c'
        } else if col == 3 {
            'd'
        } else if col == 4 {
            'e'
        } else if col == 5 {
            'f'
        } else if col == 6 {
            'g'
        } else {
            'h'
        }
    }
}

impl Position {
    /// The square in algebraic form: its column letter, A to H, and its row
    /// digit, 1 to 8.
    pub fn as_alphanum(&self) -> (s: String)
        ensures
            s@ == seq![column_char(self@ % 8), digit_char(self@ / 8 + 1)],
    {
        let mut out: Vec<char> = Vec::new();
        out.push(column_letter(self.col(), true));
        out.push(digit(self.row() + 1));
        proof {
            assert(out@ =~= seq![column_char(self@ % 8), digit_char(self@ / 8 + 1)]);
        }
        string_of(&out)
    }
}

impl Game {
    /// Appends the castling field.
    fn push_fen_castling(&self, out: &mut Vec<char>)
        ensures
            final(out)@ == old(out)@ + fen_castling(*self),
    {
        let start: usize = out.len();
        let ghost a = out@;
        if self.castling.white_kingside() {
            out.push('K');
        }
        let ghost b = out@;
        if self.castling.white_queenside() {
            out.push('Q');
        }
        let ghost c = out@;
        if self.castling.black_kingside() {
            out.push('k');
        }
        let ghost d = out@;
        if self.castling.black_queenside() {
            out.push('q');
        }
        let ghost e = out@;
        if out.len() == start {
            out.push('-');
        }
        proof {
            let r = self.castling@;
            let s1: Seq<char> = if r.white_kingside {
                seq!['K']
            } else {
                Seq::empty()
            };
            let s2: Seq<char> = if r.white_queenside {
                seq!['Q']
            } else {
                Seq::empty()
            };
            let s3: Seq<char> = if r.black_kingside {
                seq!['k']
            } else {
                Seq::empty()
            };
            let s4: Seq<char> = if r.black_queenside {
                seq!['q']
            } else {
                Seq::empty()
            };
            assert(b =~= a + s1);
            assert(c =~= b + s2);
            assert(d =~= c + s3);
            assert(e =~= d + s4);
            assert(e =~= a + (s1 + s2 + s3 + s4));
            if (s1 + s2 + s3 + s4).len() == 0 {
                assert(out@ =~= a + seq!['-']);
            }
        }
    }

    /// Appends the en passant field.
    fn push_fen_ep(&self, out: &mut Vec<char>)
        requires
            self.enpassant.data == 0 || exists|e: int| self.enpassant.single(e),
        ensures
            final(out)@ == old(out)@ + fen_ep(*self),
    {
        let ghost a = out@;
        if self.enpassant.empty() {
            out.push('-');
            proof {
                assert(out@ =~= a + seq!['-']);
            }
        } else {
            let pos = self.enpassant.piece_position();
            proof {
                self.lemma_ep_square(pos@);
            }
            out.push(column_letter(pos.col(), false));
            out.push(digit(pos.row() + 1));
            proof {
                assert(out@ =~= a + seq![file_char(pos@ % 8), digit_char(pos@ / 8 + 1)]);
            }
        }
    }

    /// The position in Forsyth-Edwards notation: six fields separated by
    /// single spaces.
    pub fn to_fen_str(&self) -> (s: String)
        requires
            self.enpassant.data == 0 || exists|e: int| self.enpassant.single(e),
        ensures
            s@ == fen_of(*self),
    {
        let mut out = self.board.fen_chars();
        let side = match self.state {
            GameState::WhiteToMove => 'w',
            GameState::BlackToMove => 'b',
            _ => '-',
        };
        out.push(' ');
        out.push(side);
        out.push(' ');
        let ghost f1 = out@;
        self.push_fen_castling(&mut out);
        out.push(' ');
        let ghost f2 = out@;
        self.push_fen_ep(&mut out);
        out.push(' ');
        let ghost f3 = out@;
        push_decimal(self.halfmove_num, &mut out);
        out.push(' ');
        let ghost f4 = out@;
        push_decimal(self.fullmove_num, &mut out);
        proof {
            assert(f1 =~= fen_board(self.board) + seq![' ', fen_side(self.state), ' ']);
            assert(f2 =~= f1 + fen_castling(*self) + seq![' ']);
            assert(f3 =~= f2 + fen_ep(*self) + seq![' ']);
            assert(f4 =~= f3 + decimal(self.halfmove_num as nat) + seq![' ']);
            assert(out@ =~= f4 + decimal(self.fullmove_num as nat));
        }
        string_of(&out)
    }
}

} // verus!
