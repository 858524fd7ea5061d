//! Taking a move back: from the board after a move, the move and what it
//! captured, the board before it.

use vstd::prelude::*;
use crate::bitboard::Bitboard;
use crate::bits::{lemma_bit_restore, lemma_flip_twice};
use crate::board::{king_switch, rook_switch, ChessBoard};
use crate::game::{Game, GameMove, RawMove};
use crate::geometry::{forward, on_board};
use crate::hashing::{board_delta, board_hash, flags_hash, hash_of, lemma_board_hash_after};
use crate::laws::lemma_cells_after;
use crate::piece::{PieceInfo, PieceKind, Team};
use crate::position::Position;
use crate::zobrist::ZobKeys;

verus! {

/// The two squares of a step, as a set.
pub open spec fn step_squares(from: int, to: int) -> Bitboard {
    Bitboard { data: (1u64 << (to as u64)) | (1u64 << (from as u64)) }
}

impl ChessBoard {
    /// The board with `piece` put on the empty square `sq`, or taken off it.
    pub open spec fn placed(self, piece: PieceInfo, sq: int) -> ChessBoard {
        self.switched(piece.team, piece.kind, Bitboard { data: 1u64 << (sq as u64) })
    }

    /// The board with a captured piece, if there was one, back on `sq`.
    pub open spec fn restored(self, captured: Option<PieceInfo>, sq: int) -> ChessBoard {
        match captured {
            Some(p) => self.placed(p, sq),
            None => self,
        }
    }

    /// The board before an unpromoted step of a piece of `team` and `kind`
    /// from `from` to `to` that captured `captured` on `at`.
    pub open spec fn unstepped(
        self,
        team: Team,
        kind: PieceKind,
        from: int,
        to: int,
        captured: Option<PieceInfo>,
        at: int,
    ) -> ChessBoard {
        self.switched(team, kind, step_squares(from, to)).restored(captured, at)
    }

    /// The board before move `m` of `team`, which captured `captured`, was
    /// made on it.
    pub open spec fn unmade(self, team: Team, m: GameMove, captured: Option<PieceInfo>) -> ChessBoard {
        match m {
            GameMove::Regular(mov) => self.unstepped(
                team,
                mov.piece.kind,
                mov.from@,
                mov.to@,
                captured,
                mov.to@,
            ),
            GameMove::Capture(mov) => self.unstepped(
                team,
                mov.piece.kind,
                mov.from@,
                mov.to@,
                captured,
                mov.to@,
            ),
            GameMove::Promote { promotion, mov } => self.promoted(
                promotion.spec_kind(),
                mov.to@,
            ).unstepped(team, PieceKind::Pawn, mov.from@, mov.to@, captured, mov.to@),
            GameMove::CapturePromote { promotion, mov } => self.promoted(
                promotion.spec_kind(),
                mov.to@,
            ).unstepped(team, PieceKind::Pawn, mov.from@, mov.to@, captured, mov.to@),
            GameMove::Enpassant(mov) => self.unstepped(
                team,
                PieceKind::Pawn,
                mov.from@,
                mov.to@,
                captured,
                mov.to@ - 8 * forward(team),
            ),
            GameMove::CastleKingside(_) => self.castled(team, true),
            GameMove::CastleQueenside(_) => self.castled(team, false),
        }
    }

    /// Puts `captured`, if there is one, back on `at`.
    pub fn restore(&mut self, captured: Option<PieceInfo>, at: Position)
        ensures
            *final(self) == old(self).restored(captured, at@),
    {
        match captured {
            Some(p) => {
                self.switch(p.team, p.kind, Bitboard::from_position(at));
            },
            None => {},
        }
    }

    /// Takes back move `gmove` of `team`, which captured `captured`: the
    /// moving piece goes back to its square, as the pawn it was where it was
    /// promoted, and the captured piece goes back to where it stood.
    pub fn unmake_move(&mut self, team: Team, gmove: GameMove, captured: Option<PieceInfo>)
        requires
            gmove matches GameMove::Enpassant(mov) ==> 8 <= mov.to@ < 56,
        ensures
            *final(self) == old(self).unmade(team, gmove, captured),
    {
        match gmove {
            GameMove::Regular(mov) => {
                self.unstep(team, mov.piece.kind, mov);
                self.restore(captured, mov.to);
            },
            GameMove::Capture(mov) => {
                self.unstep(team, mov.piece.kind, mov);
                self.restore(captured, mov.to);
            },
            GameMove::Promote { promotion, mov } => {
                let mask = Bitboard::from_position(mov.to);
                self.flip_kind(PieceKind::Pawn, mask);
                self.flip_kind(promotion.kind(), mask);
                self.unstep(team, PieceKind::Pawn, mov);
                self.restore(captured, mov.to);
            },
            GameMove::CapturePromote { promotion, mov } => {
                let mask = Bitboard::from_position(mov.to);
                self.flip_kind(PieceKind::Pawn, mask);
                self.flip_kind(promotion.kind(), mask);
                self.unstep(team, PieceKind::Pawn, mov);
                self.restore(captured, mov.to);
            },
            GameMove::Enpassant(mov) => {
                let e: u8 = mov.to.integral();
                let cap: u8 = match team {
                    Team::White => e - 8,
                    Team::Black => e + 8,
                };
                self.unstep(team, PieceKind::Pawn, mov);
                self.restore(captured, Position::from_integral(cap));
            },
            GameMove::CastleKingside(_) => {
                self.castle(team, true);
            },
            GameMove::CastleQueenside(_) => {
                self.castle(team, false);
            },
        }
    }

    /// Moves the piece of `team` and `kind` between the two squares of `mov`.
    fn unstep(&mut self, team: Team, kind: PieceKind, mov: RawMove)
        ensures
            *final(self) == old(self).switched(team, kind, step_squares(mov.from@, mov.to@)),
    {
        let to_mask = Bitboard::from_position(mov.to);
        let from_mask = Bitboard::from_position(mov.from);
        self.switch(team, kind, to_mask.combine_with(from_mask));
    }
}

impl Game {
    /// What move `m` of `team` captures: what stands on its target for a
    /// capture, the pawn behind its target for en passant, nothing
    /// otherwise.
    pub open spec fn captured_by(self, team: Team, m: GameMove) -> Option<PieceInfo> {
        match m {
            GameMove::Capture(mov) => self.board.piece_at(mov.to@),
            GameMove::CapturePromote { promotion, mov } => self.board.piece_at(mov.to@),
            GameMove::Enpassant(mov) => self.board.piece_at(mov.to@ - 8 * forward(team)),
            _ => None,
        }
    }

    /// What move `gmove` of `team` captures, read off the position before
    /// the move.
    pub fn captured(&self, team: Team, gmove: GameMove) -> (r: Option<PieceInfo>)
        requires
            gmove matches GameMove::Enpassant(mov) ==> 8 <= mov.to@ < 56,
        ensures
            r == self.captured_by(team, gmove),
    {
        match gmove {
            GameMove::Capture(mov) => self.board.get_piece_info(mov.to),
            GameMove::CapturePromote { promotion, mov } => self.board.get_piece_info(mov.to),
            GameMove::Enpassant(mov) => {
                let e: u8 = mov.to.integral();
                let cap: u8 = match team {
                    Team::White => e - 8,
                    Team::Black => e + 8,
                };
                self.board.get_piece_info(Position::from_integral(cap))
            },
            _ => None,
        }
    }
}

impl ChessBoard {
    /// Moving the piece back after a step leaves the board as it was but
    /// for the target square, which is empty.
    pub proof fn lemma_unstep(self, team: Team, kind: PieceKind, from: int, to: int)
        ensures
            self.stepped(team, kind, from, to).switched(team, kind, step_squares(from, to))
                == self.without(to),
    {
        let sw = step_squares(from, to).data;
        let b = self.without(to);
        lemma_flip_twice(b.whites.data, sw, 0);
        lemma_flip_twice(b.blacks.data, sw, 0);
        lemma_flip_twice(b.kings.data, sw, 0);
        lemma_flip_twice(b.queens.data, sw, 0);
        lemma_flip_twice(b.rooks.data, sw, 0);
        lemma_flip_twice(b.bishops.data, sw, 0);
        lemma_flip_twice(b.knights.data, sw, 0);
        lemma_flip_twice(b.pawns.data, sw, 0);
    }

    /// Putting back on a square what stood there before it was emptied gives
    /// the board back.
    pub proof fn lemma_restore(self, sq: int)
        requires
            on_board(sq),
            self.square_wf(sq),
        ensures
            self.without(sq).restored(self.piece_at(sq), sq) == self,
    {
        let i = sq as u64;
        lemma_bit_restore(self.whites.data, i);
        lemma_bit_restore(self.blacks.data, i);
        lemma_bit_restore(self.kings.data, i);
        lemma_bit_restore(self.queens.data, i);
        lemma_bit_restore(self.rooks.data, i);
        lemma_bit_restore(self.bishops.data, i);
        lemma_bit_restore(self.knights.data, i);
        lemma_bit_restore(self.pawns.data, i);
    }

    /// Promoting and taking the promotion back gives the board back.
    pub proof fn lemma_unpromote(self, kind: PieceKind, sq: int)
        requires
            kind != PieceKind::Pawn,
        ensures
            self.promoted(kind, sq).promoted(kind, sq) == self,
    {
        let m = 1u64 << (sq as u64);
        lemma_flip_twice(self.kings.data, m, 0);
        lemma_flip_twice(self.queens.data, m, 0);
        lemma_flip_twice(self.rooks.data, m, 0);
        lemma_flip_twice(self.bishops.data, m, 0);
        lemma_flip_twice(self.knights.data, m, 0);
        lemma_flip_twice(self.pawns.data, m, 0);
    }

    /// Castling and castling back gives the board back.
    pub proof fn lemma_uncastle(self, team: Team, kingside: bool)
        ensures
            self.castled(team, kingside).castled(team, kingside) == self,
    {
        let ks = king_switch(team, kingside).data;
        let rs = rook_switch(team, kingside).data;
        lemma_flip_twice(self.whites.data, ks, rs);
        lemma_flip_twice(self.blacks.data, ks, rs);
        lemma_flip_twice(self.kings.data, ks, 0);
        lemma_flip_twice(self.rooks.data, rs, 0);
    }
}

/// A legal move made and then taken back, with what it captured, leaves the
/// board as it was.
pub proof fn lemma_unmake(g: Game, team: Team, m: GameMove)
    requires
        g.wf(),
        g.active_team() == Some(team),
        g.legal_for(team, m),
    ensures
        g.board_after(team, m).unmade(team, m, g.captured_by(team, m)) == g.board,
{
    let b = g.board;
    lemma_cells_after(g, team, m);
    match m {
        GameMove::Regular(mov) => {
            assert(b.square_wf(mov.to@));
            b.lemma_piece_at(mov.to@);
            b.lemma_unstep(team, mov.piece.kind, mov.from@, mov.to@);
            b.lemma_restore(mov.to@);
        },
        GameMove::Capture(mov) => {
            assert(b.square_wf(mov.to@));
            b.lemma_unstep(team, mov.piece.kind, mov.from@, mov.to@);
            b.lemma_restore(mov.to@);
        },
        GameMove::Promote { promotion, mov } => {
            assert(b.square_wf(mov.to@));
            b.lemma_piece_at(mov.to@);
            b.stepped(team, PieceKind::Pawn, mov.from@, mov.to@).lemma_unpromote(
                promotion.spec_kind(),
                mov.to@,
            );
            b.lemma_unstep(team, PieceKind::Pawn, mov.from@, mov.to@);
            b.lemma_restore(mov.to@);
        },
        GameMove::CapturePromote { promotion, mov } => {
            assert(b.square_wf(mov.to@));
            b.stepped(team, PieceKind::Pawn, mov.from@, mov.to@).lemma_unpromote(
                promotion.spec_kind(),
                mov.to@,
            );
            b.lemma_unstep(team, PieceKind::Pawn, mov.from@, mov.to@);
            b.lemma_restore(mov.to@);
        },
        GameMove::Enpassant(mov) => {
            let to = mov.to@;
            let cap = to - 8 * forward(team);
            let e = choose|e: int| g.ep_at(team, e);
            assert(g.ep_at(team, e));
            g.lemma_ep_square(e);
            g.lemma_ep_square(to);
            assert(on_board(cap) && on_board(to));
            assert(b.square_wf(cap));
            let b1 = b.without(cap);
            b1.lemma_unstep(team, PieceKind::Pawn, mov.from@, to);
            assert(b1.without(to) == b1) by {
                b.lemma_masked(Bitboard { data: !(1u64 << (cap as u64)) });
                assert(b.square_wf(to));
                lemma_bit_restore(b1.whites.data, to as u64);
                lemma_bit_restore(b1.blacks.data, to as u64);
                lemma_bit_restore(b1.kings.data, to as u64);
                lemma_bit_restore(b1.queens.data, to as u64);
                lemma_bit_restore(b1.rooks.data, to as u64);
                lemma_bit_restore(b1.bishops.data, to as u64);
                lemma_bit_restore(b1.knights.data, to as u64);
                lemma_bit_restore(b1.pawns.data, to as u64);
                assert(!b1.whites.has(to) && !b1.blacks.has(to) && !b1.kings.has(to)
                    && !b1.queens.has(to) && !b1.rooks.has(to) && !b1.bishops.has(to)
                    && !b1.knights.has(to) && !b1.pawns.has(to)) by {
                    assert(b1.team_board(Team::White).has(to) == b1.whites.has(to));
                    assert(b1.team_board(Team::Black).has(to) == b1.blacks.has(to));
                    assert(b1.kind_board(PieceKind::King).has(to) == b1.kings.has(to));
                    assert(b1.kind_board(PieceKind::Queen).has(to) == b1.queens.has(to));
                    assert(b1.kind_board(PieceKind::Rook).has(to) == b1.rooks.has(to));
                    assert(b1.kind_board(PieceKind::Bishop).has(to) == b1.bishops.has(to));
                    assert(b1.kind_board(PieceKind::Knight).has(to) == b1.knights.has(to));
                    assert(b1.kind_board(PieceKind::Pawn).has(to) == b1.pawns.has(to));
                }
            }
            b.lemma_restore(cap);
        },
        GameMove::CastleKingside(_) => {
            b.lemma_uncastle(team, true);
        },
        GameMove::CastleQueenside(_) => {
            b.lemma_uncastle(team, false);
        },
    }
}

/// Folding the keys of a move out of the hash of the position after it, and
/// the keys of the flags before it in for those after it, gives the hash of
/// the position before the move.
pub proof fn lemma_hash_back(keys: ZobKeys, g: Game, team: Team, m: GameMove)
    requires
        g.wf(),
        g.active_team() == Some(team),
        g.legal_for(team, m),
    ensures
        hash_of(keys, g) == ((hash_of(keys, g.after(m)) ^ board_delta(keys, g, team, m))
            ^ flags_hash(keys, g.after(m))) ^ flags_hash(keys, g),
{
    lemma_board_hash_after(keys, g, team, m);
    let fa = flags_hash(keys, g.after(m));
    let fb = flags_hash(keys, g);
    let x = board_hash(keys, g.board);
    let d = board_delta(keys, g, team, m);
    assert(g.after(m).board == g.board_after(team, m));
    assert((((fa ^ (x ^ d)) ^ d) ^ fa) ^ fb == fb ^ x) by (bit_vector);
}

} // verus!
