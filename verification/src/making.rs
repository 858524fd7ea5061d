//! What a move does to a position.

use vstd::prelude::*;
use crate::bitboard::Bitboard;
use crate::bits::group_bit_ops;
use crate::board::{castle_king_to, castle_rook_to, king_home, rook_home, ChessBoard};
use crate::game::{CastleInfo, CastleRights, Game, GameMove, GameState, Promotion, RawMove};
use crate::geometry::{forward, move_set, on_board, pawn_attacks, pawn_targets, row_of};
use crate::movegen::{castle_clears, castle_safes, last_row};
use crate::piece::{PieceInfo, PieceKind, Team};
use crate::position::Position;

verus! {

/// The state in which the enemy of `team` is to move.
pub open spec fn next_turn(team: Team) -> GameState {
    match team {
        Team::White => GameState::BlackToMove,
        Team::Black => GameState::WhiteToMove,
    }
}

/// The state in which `team` has won.
pub open spec fn victory(team: Team) -> GameState {
    match team {
        Team::White => GameState::WhiteVictory,
        Team::Black => GameState::BlackVictory,
    }
}

/// The rights `r` without the right of `team` on the given side.
pub open spec fn without_right(r: CastleRights, team: Team, kingside: bool) -> CastleRights {
    match team {
        Team::White => if kingside {
            CastleRights { white_kingside: false, ..r }
        } else {
            CastleRights { white_queenside: false, ..r }
        },
        Team::Black => if kingside {
            CastleRights { black_kingside: false, ..r }
        } else {
            CastleRights { black_queenside: false, ..r }
        },
    }
}

/// The rights left when a piece of `team` and `kind` leaves `from`: a king
/// gives up both rights of its team, a rook that leaves its corner the right
/// on that side.
pub open spec fn rights_after_leaving(r: CastleRights, team: Team, kind: PieceKind, from: int) -> CastleRights {
    match kind {
        PieceKind::King => without_right(without_right(r, team, true), team, false),
        PieceKind::Rook => if from == rook_home(team, false) {
            without_right(r, team, false)
        } else if from == rook_home(team, true) {
            without_right(r, team, true)
        } else {
            r
        },
        _ => r,
    }
}

/// The rights left when a piece of `team` and `kind` is captured on `to`: a
/// rook captured on its corner loses its team the right on that side.
pub open spec fn rights_after_capture(r: CastleRights, team: Team, kind: PieceKind, to: int) -> CastleRights {
    if kind == PieceKind::Rook && to == rook_home(team, false) {
        without_right(r, team, false)
    } else if kind == PieceKind::Rook && to == rook_home(team, true) {
        without_right(r, team, true)
    } else {
        r
    }
}

impl GameMove {
    /// The kind of the piece that moves.
    pub open spec fn kind(self) -> PieceKind {
        match self {
            GameMove::Promote { promotion, mov } => mov.piece.kind,
            GameMove::CapturePromote { promotion, mov } => mov.piece.kind,
            GameMove::CastleKingside(_) => PieceKind::King,
            GameMove::CastleQueenside(_) => PieceKind::King,
            GameMove::Enpassant(mov) => mov.piece.kind,
            GameMove::Regular(mov) => mov.piece.kind,
            GameMove::Capture(mov) => mov.piece.kind,
        }
    }

    /// The square that the moving piece leaves; for castling, the king's.
    pub open spec fn from_sq(self, team: Team) -> int {
        match self {
            GameMove::Promote { promotion, mov } => mov.from@,
            GameMove::CapturePromote { promotion, mov } => mov.from@,
            GameMove::CastleKingside(_) => king_home(team),
            GameMove::CastleQueenside(_) => king_home(team),
            GameMove::Enpassant(mov) => mov.from@,
            GameMove::Regular(mov) => mov.from@,
            GameMove::Capture(mov) => mov.from@,
        }
    }

    /// The square that the moving piece reaches; for castling, the king's.
    pub open spec fn to_sq(self, team: Team) -> int {
        match self {
            GameMove::Promote { promotion, mov } => mov.to@,
            GameMove::CapturePromote { promotion, mov } => mov.to@,
            GameMove::CastleKingside(_) => castle_king_to(team, true),
            GameMove::CastleQueenside(_) => castle_king_to(team, false),
            GameMove::Enpassant(mov) => mov.to@,
            GameMove::Regular(mov) => mov.to@,
            GameMove::Capture(mov) => mov.to@,
        }
    }

    /// The move takes a piece.
    pub open spec fn is_capture(self) -> bool {
        self is Capture || self is CapturePromote || self is Enpassant
    }

    /// The move takes the piece that stands on its target square.
    pub open spec fn takes_on_target(self) -> bool {
        self is Capture || self is CapturePromote
    }
}

impl Game {

    /// The board after `team` has made move `m`.
    pub open spec fn board_after(self, team: Team, m: GameMove) -> ChessBoard {
        match m {
            GameMove::Regular(mov) => self.board.stepped(team, mov.piece.kind, mov.from@, mov.to@),
            GameMove::Capture(mov) => self.board.stepped(team, mov.piece.kind, mov.from@, mov.to@),
            GameMove::Promote { promotion, mov } => self.board.stepped(
                team,
                PieceKind::Pawn,
                mov.from@,
                mov.to@,
            ).promoted(promotion.spec_kind(), mov.to@),
            GameMove::CapturePromote { promotion, mov } => self.board.stepped(
                team,
                PieceKind::Pawn,
                mov.from@,
                mov.to@,
            ).promoted(promotion.spec_kind(), mov.to@),
            GameMove::Enpassant(mov) => self.board.ep_taken(team, mov.from@, mov.to@),
            GameMove::CastleKingside(_) => self.board.castled(team, true),
            GameMove::CastleQueenside(_) => self.board.castled(team, false),
        }
    }

    /// The en passant set after a piece of `team` and `kind` has gone from
    /// `from` to `to`: the square a pawn has jumped over in a push of two
    /// rows, or no square.
    pub open spec fn ep_after_step(team: Team, kind: PieceKind, from: int, to: int) -> Bitboard {
        if kind == PieceKind::Pawn && to - from == 16 * forward(team) {
            Bitboard { data: 1u64 << ((from + 8 * forward(team)) as u64) }
        } else {
            Bitboard { data: 0 }
        }
    }

    /// The en passant set after `team` has made move `m`.
    pub open spec fn ep_after(team: Team, m: GameMove) -> Bitboard {
        Self::ep_after_step(team, m.kind(), m.from_sq(team), m.to_sq(team))
    }

    /// The castling rights after `team` has made move `m`.
    pub open spec fn rights_after(self, team: Team, m: GameMove) -> CastleRights {
        let left = rights_after_leaving(self.castling@, team, m.kind(), m.from_sq(team));
        if m.takes_on_target() {
            match self.board.piece_at(m.to_sq(team)) {
                Some(cap) => rights_after_capture(left, cap.team, cap.kind, m.to_sq(team)),
                None => left,
            }
        } else {
            left
        }
    }

    /// The halfmove clock after move `m`: back to 0 on a pawn move or a
    /// capture, one more otherwise.
    pub open spec fn halfmove_after(self, m: GameMove) -> int {
        if m.kind() == PieceKind::Pawn || m.is_capture() {
            0
        } else {
            self.halfmove_num + 1
        }
    }

    /// The position after `team` has made move `m`, with its enemy to move
    /// and before it is decided whether the game goes on.
    pub open spec fn after_moving(self, team: Team, m: GameMove) -> Game {
        Game {
            board: self.board_after(team, m),
            halfmove_num: self.halfmove_after(m) as u64,
            fullmove_num: self.fullmove_num,
            enpassant: Self::ep_after(team, m),
            castling: CastleInfo::of(self.rights_after(team, m)),
            state: next_turn(team),
        }
    }

    /// The position after the side to move has made move `m`.
    pub open spec fn after(self, m: GameMove) -> Game {
        let team = self.active_team().unwrap();
        let g = self.after_moving(team, m);
        Game { state: g.outcome(team), ..g }
    }

    /// How the game stands for a position in which `mover` has just moved
    /// and the state still says that its enemy is to move: a draw once the
    /// halfmove clock has reached 100; otherwise, where the enemy has no
    /// move, a win for `mover` if the enemy's king is attacked and a draw if
    /// it is not; otherwise the enemy is to move.
    pub open spec fn outcome(self, mover: Team) -> GameState {
        if self.halfmove_num == 100 {
            GameState::Stalemate
        } else if self.team_moves(mover.spec_enemy()).len() == 0 {
            if self.board.king_safe(mover.spec_enemy()) {
                GameState::Stalemate
            } else {
                victory(mover)
            }
        } else {
            next_turn(mover)
        }
    }
}

impl GameMove {
    /// The squares on which move `m` of `team` changes the board.
    pub open spec fn touches(self, team: Team, sq: int) -> bool {
        match self {
            GameMove::CastleKingside(_) => sq == king_home(team) || sq == castle_king_to(
                team,
                true,
            ) || sq == rook_home(team, true) || sq == castle_rook_to(team, true),
            GameMove::CastleQueenside(_) => sq == king_home(team) || sq == castle_king_to(
                team,
                false,
            ) || sq == rook_home(team, false) || sq == castle_rook_to(team, false),
            GameMove::Enpassant(mov) => sq == mov.from@ || sq == mov.to@ || sq == mov.to@ - 8
                * forward(team),
            _ => sq == self.from_sq(team) || sq == self.to_sq(team),
        }
    }

    /// The squares that move `m` of `team` leaves empty: where the moving
    /// piece stood, where a pawn captured en passant stood, and where the
    /// rook stood in castling.
    pub open spec fn vacates(self, team: Team, sq: int) -> bool {
        match self {
            GameMove::CastleKingside(_) => sq == king_home(team) || sq == rook_home(team, true),
            GameMove::CastleQueenside(_) => sq == king_home(team) || sq == rook_home(team, false),
            GameMove::Enpassant(mov) => sq == mov.from@ || sq == mov.to@ - 8 * forward(team),
            _ => sq == self.from_sq(team),
        }
    }

    /// The kind of the piece that stands on the target square after the move.
    pub open spec fn final_kind(self) -> PieceKind {
        match self {
            GameMove::Promote { promotion, mov } => promotion.spec_kind(),
            GameMove::CapturePromote { promotion, mov } => promotion.spec_kind(),
            _ => self.kind(),
        }
    }
}

impl Game {
    /// A legal move leaves the board well formed and the mover's king
    /// unattacked. The moved piece stands on its target, and off the squares
    /// that the move touches nothing has changed.
    pub proof fn lemma_board_after(self, team: Team, m: GameMove)
        requires
            self.wf(),
            self.active_team() == Some(team),
            self.legal_for(team, m),
        ensures
            self.board_after(team, m).wf(),
            self.board_after(team, m).king_safe(team),
            self.board_after(team, m).holds(m.to_sq(team), team, m.final_kind()),
            forall|t: int, tm: Team, k: PieceKind|
                !m.touches(team, t) ==> #[trigger] self.board_after(team, m).holds(t, tm, k)
                    == self.board.holds(t, tm, k),
            forall|t: int|
                !m.touches(team, t) ==> #[trigger] self.board_after(team, m).occupied(t)
                    == self.board.occupied(t),
            forall|t: int| m.vacates(team, t) ==> !self.board_after(team, m).occupied(t),
            m is CastleKingside ==> self.board_after(team, m).holds(
                castle_rook_to(team, true),
                team,
                PieceKind::Rook,
            ),
            m is CastleQueenside ==> self.board_after(team, m).holds(
                castle_rook_to(team, false),
                team,
                PieceKind::Rook,
            ),
            on_board(m.from_sq(team)),
            on_board(m.to_sq(team)),
    {
        let b = self.board;
        let enemy = team.spec_enemy();
        match m {
            GameMove::Regular(mov) => {
                self.lemma_step_after(team, mov);
            },
            GameMove::Capture(mov) => {
                self.lemma_step_after(team, mov);
            },
            GameMove::Promote { promotion, mov } => {
                self.lemma_promote_after(team, promotion, mov);
            },
            GameMove::CapturePromote { promotion, mov } => {
                self.lemma_promote_after(team, promotion, mov);
            },
            GameMove::Enpassant(mov) => {
                let e = choose|e: int| self.ep_at(team, e);
                assert(self.ep_at(team, e));
                self.lemma_ep_square(e);
                self.lemma_ep_square(mov.to@);
                b.lemma_ep_taken(team, mov.from@, mov.to@);
            },
            GameMove::CastleKingside(_) => {
                self.lemma_castle_after(team, true);
            },
            GameMove::CastleQueenside(_) => {
                self.lemma_castle_after(team, false);
            },
        }
    }

    /// What `lemma_board_after` says, for a capture or a quiet move.
    pub proof fn lemma_step_after(self, team: Team, mov: RawMove)
        requires
            self.wf(),
            self.active_team() == Some(team),
            self.legal_step(team, mov),
        ensures
            self.board.stepped(team, mov.piece.kind, mov.from@, mov.to@).wf(),
            self.board.stepped(team, mov.piece.kind, mov.from@, mov.to@).king_safe(team),
            forall|t: int, tm: Team, k: PieceKind| #[trigger]
                self.board.stepped(team, mov.piece.kind, mov.from@, mov.to@).holds(t, tm, k)
                    == if t == mov.to@ {
                    tm == team && k == mov.piece.kind
                } else if t == mov.from@ {
                    false
                } else {
                    self.board.holds(t, tm, k)
                },
            forall|t: int| #[trigger]
                self.board.stepped(team, mov.piece.kind, mov.from@, mov.to@).occupied(t) == (t
                    == mov.to@ || (t != mov.from@ && self.board.occupied(t))),
            self.board.stepped(team, mov.piece.kind, mov.from@, mov.to@).king_sq(team)
                == if mov.piece.kind == PieceKind::King {
                mov.to@
            } else {
                self.board.king_sq(team)
            },
            !self.board.kings.has(mov.to@),
            mov.to@ != mov.from@,
            on_board(mov.to@),
            on_board(mov.from@),
            self.board.occupied(mov.to@) ==> self.board.team_board(team.spec_enemy()).has(
                mov.to@,
            ),
    {
        let b = self.board;
        let kind = mov.piece.kind;
        let from = mov.from@;
        let to = mov.to@;
        assert(b.pseudo_targets(team, kind, from).contains(to));
        b.lemma_target_not_king(team, kind, from, to);
        b.lemma_stepped_wf(team, kind, from, to);
    }

    /// What `lemma_board_after` says, for a promotion.
    pub proof fn lemma_promote_after(self, team: Team, promotion: Promotion, mov: RawMove)
        requires
            self.wf(),
            self.active_team() == Some(team),
            self.legal_step(team, mov),
            mov.piece.kind == PieceKind::Pawn,
        ensures
            self.board.stepped(team, PieceKind::Pawn, mov.from@, mov.to@).promoted(
                promotion.spec_kind(),
                mov.to@,
            ).wf(),
            self.board.stepped(team, PieceKind::Pawn, mov.from@, mov.to@).promoted(
                promotion.spec_kind(),
                mov.to@,
            ).king_safe(team),
            forall|t: int, tm: Team, k: PieceKind| #[trigger]
                self.board.stepped(team, PieceKind::Pawn, mov.from@, mov.to@).promoted(
                    promotion.spec_kind(),
                    mov.to@,
                ).holds(t, tm, k) == if t == mov.to@ {
                    tm == team && k == promotion.spec_kind()
                } else if t == mov.from@ {
                    false
                } else {
                    self.board.holds(t, tm, k)
                },
            forall|t: int| #[trigger]
                self.board.stepped(team, PieceKind::Pawn, mov.from@, mov.to@).promoted(
                    promotion.spec_kind(),
                    mov.to@,
                ).occupied(t) == (t == mov.to@ || (t != mov.from@ && self.board.occupied(t))),
    {
        let enemy = team.spec_enemy();
        let s = self.board.stepped(team, PieceKind::Pawn, mov.from@, mov.to@);
        let kind = promotion.spec_kind();
        let p = s.promoted(kind, mov.to@);
        self.lemma_step_after(team, mov);
        assert(s.holds(mov.to@, team, PieceKind::Pawn));
        s.lemma_promoted(team, kind, mov.to@);
        assert forall|t: int, k: PieceKind| s.holds(t, enemy, k) == p.holds(t, enemy, k) by {}
        s.lemma_attacked_same(p, s.king_sq(team), enemy);
        assert forall|t: int| #[trigger]
            p.occupied(t) == (t == mov.to@ || (t != mov.from@ && self.board.occupied(t))) by {
            assert(p.occupancy().contains(t) == p.occupied(t));
            assert(s.occupancy().contains(t) == s.occupied(t));
        }
    }

    /// What `lemma_board_after` says, for castling.
    pub proof fn lemma_castle_after(self, team: Team, kingside: bool)
        requires
            self.wf(),
            self.active_team() == Some(team),
            self.can_castle(team, kingside),
        ensures
            self.board.castled(team, kingside).wf(),
            self.board.castled(team, kingside).king_safe(team),
            forall|t: int, tm: Team, k: PieceKind| #[trigger]
                self.board.castled(team, kingside).holds(t, tm, k) == if t == castle_king_to(
                    team,
                    kingside,
                ) {
                    tm == team && k == PieceKind::King
                } else if t == castle_rook_to(team, kingside) {
                    tm == team && k == PieceKind::Rook
                } else if t == king_home(team) || t == rook_home(team, kingside) {
                    false
                } else {
                    self.board.holds(t, tm, k)
                },
            forall|t: int| #[trigger]
                self.board.castled(team, kingside).occupied(t) == if t == castle_king_to(
                    team,
                    kingside,
                ) || t == castle_rook_to(team, kingside) {
                    true
                } else if t == king_home(team) || t == rook_home(team, kingside) {
                    false
                } else {
                    self.board.occupied(t)
                },
    {
        let kt = castle_king_to(team, kingside);
        let rt = castle_rook_to(team, kingside);
        assert(self.right(team, kingside));
        assert(castle_clears(team, kingside).has(kt) && castle_clears(team, kingside).has(rt)
            && castle_safes(team, kingside).has(kt)) by {
            broadcast use group_bit_ops;
        }
        self.board.lemma_castled(team, kingside);
        self.board.lemma_castled_king_safe(team, kingside);
    }
}

impl Game {
    /// A pawn of `team` that moves from `from` to one of its targets `to`
    /// two rows ahead has jumped over an empty square from its home row onto
    /// an empty square.
    pub proof fn lemma_double_push(team: Team, from: int, to: int, occ: Set<int>)
        requires
            pawn_targets(team, from, occ).contains(to),
            to - from == 16 * forward(team),
        ensures
            !occ.contains(from + 8 * forward(team)),
            !occ.contains(to),
            row_of(from + 8 * forward(team)) == last_row(team.spec_enemy()) - 2 * forward(
                team.spec_enemy(),
            ),
            row_of(to) != last_row(team),
            on_board(from + 8 * forward(team)),
            on_board(from),
            on_board(to),
    {
    }

    /// No pawn attacks a square two rows ahead.
    pub proof fn lemma_attack_is_no_jump(team: Team, from: int, to: int)
        requires
            pawn_attacks(team, from).contains(to),
        ensures
            to - from != 16 * forward(team),
    {
    }

    /// A legal pawn move of two rows is a quiet move onto an empty square
    /// over an empty square.
    pub proof fn lemma_jump_is_quiet(self, team: Team, m: GameMove)
        requires
            self.legal_for(team, m),
            m.kind() == PieceKind::Pawn,
            m.to_sq(team) - m.from_sq(team) == 16 * forward(team),
        ensures
            m is Regular,
            !self.board.occupied(m.from_sq(team) + 8 * forward(team)),
            row_of(m.from_sq(team) + 8 * forward(team)) == last_row(team.spec_enemy()) - 2
                * forward(team.spec_enemy()),
            on_board(m.from_sq(team) + 8 * forward(team)),
            on_board(m.from_sq(team)),
            on_board(m.to_sq(team)),
    {
        let from = m.from_sq(team);
        let to = m.to_sq(team);
        let occ = self.board.occupancy();
        if m is Enpassant {
            let mov = m->Enpassant_0;
            self.lemma_ep_square(to);
            Self::lemma_attack_is_no_jump(team, from, to);
        } else {
            let mov = match m {
                GameMove::Regular(mov) => mov,
                GameMove::Capture(mov) => mov,
                GameMove::Promote { promotion, mov } => mov,
                GameMove::CapturePromote { promotion, mov } => mov,
                _ => arbitrary(),
            };
            assert(self.legal_step(team, mov));
            assert(self.board.pseudo_targets(team, PieceKind::Pawn, from).contains(to));
            assert(move_set(PieceKind::Pawn, team, from, occ).contains(to));
            Self::lemma_double_push(team, from, to, occ);
            assert(occ.contains(to) == self.board.occupied(to));
            assert(occ.contains(from + 8 * forward(team)) == self.board.occupied(
                from + 8 * forward(team),
            ));
        }
    }

    /// A legal move leaves a position that play can go on from: the board is
    /// well formed, the castling rights that are left fit it, the en passant
    /// square fits the enemy, who is to move, and the mover's king is not
    /// attacked.
    pub proof fn lemma_after_wf(self, g: Game, team: Team, m: GameMove)
        requires
            self.wf(),
            self.active_team() == Some(team),
            self.legal_for(team, m),
            g.board == self.board_after(team, m),
            g.enpassant == Self::ep_after(team, m),
            g.castling@ == self.rights_after(team, m),
        ensures
            g.board.wf(),
            g.castling_ok(),
            g.ep_valid_for(team.spec_enemy()),
            g.board.king_safe(team),
    {
        self.lemma_board_after(team, m);
        self.lemma_rights_fit(g, team, m);
        self.lemma_ep_fits(g, team, m);
    }

    /// The en passant square that a move leaves fits the enemy of the mover.
    pub proof fn lemma_ep_fits(self, g: Game, team: Team, m: GameMove)
        requires
            self.wf(),
            self.active_team() == Some(team),
            self.legal_for(team, m),
            g.board == self.board_after(team, m),
            g.enpassant == Self::ep_after(team, m),
        ensures
            g.ep_valid_for(team.spec_enemy()),
    {
        let from = m.from_sq(team);
        let to = m.to_sq(team);
        if m.kind() == PieceKind::Pawn && to - from == 16 * forward(team) {
            let e = from + 8 * forward(team);
            self.lemma_jump_is_quiet(team, m);
            let mov = m->Regular_0;
            assert(self.legal_step(team, mov));
            self.lemma_step_after(team, mov);
            let s = self.board.stepped(team, PieceKind::Pawn, from, to);
            assert(g.board == s);
            assert(s.occupied(e) == (e == to || (e != from && self.board.occupied(e))));
            assert(s.holds(to, team, PieceKind::Pawn));
            g.lemma_ep_entered(team.spec_enemy(), e);
        }
    }

    /// A position with the one en passant square `e`, which is empty, in
    /// the right row for `team` and has a pawn of the enemy behind it, has
    /// an en passant square that fits `team`.
    pub proof fn lemma_ep_entered(self, team: Team, e: int)
        requires
            on_board(e),
            self.enpassant.data == 1u64 << (e as u64),
            row_of(e) == last_row(team) - 2 * forward(team),
            !self.board.occupied(e),
            self.board.holds(e - 8 * forward(team), team.spec_enemy(), PieceKind::Pawn),
        ensures
            self.ep_valid_for(team),
    {
        assert(self.enpassant.single(e)) by {
            broadcast use group_bit_ops;
        }
        assert(self.ep_at(team, e));
    }

    /// The castling rights that a move leaves fit the board that it leaves.
    pub proof fn lemma_rights_fit(self, g: Game, team: Team, m: GameMove)
        requires
            self.wf(),
            self.active_team() == Some(team),
            self.legal_for(team, m),
            g.board == self.board_after(team, m),
            g.castling@ == self.rights_after(team, m),
        ensures
            g.castling_ok(),
    {
        assert forall|tm: Team, kingside: bool| #[trigger] g.right(tm, kingside) implies g.board.holds(
            king_home(tm),
            tm,
            PieceKind::King,
        ) && g.board.holds(rook_home(tm, kingside), tm, PieceKind::Rook) by {
            match m {
                GameMove::Regular(mov) => {
                    self.lemma_right_kept_step(g, team, m, mov, tm, kingside);
                },
                GameMove::Capture(mov) => {
                    self.lemma_right_kept_step(g, team, m, mov, tm, kingside);
                },
                GameMove::Promote { promotion, mov } => {
                    self.lemma_right_kept_step(g, team, m, mov, tm, kingside);
                },
                GameMove::CapturePromote { promotion, mov } => {
                    self.lemma_right_kept_step(g, team, m, mov, tm, kingside);
                },
                GameMove::Enpassant(mov) => {
                    self.lemma_right_kept_ep(g, team, mov, tm, kingside);
                },
                GameMove::CastleKingside(_) => {
                    self.lemma_right_kept_castle(g, team, true, tm, kingside);
                },
                GameMove::CastleQueenside(_) => {
                    self.lemma_right_kept_castle(g, team, false, tm, kingside);
                },
            }
        }
    }

    /// A right that is left after a step belongs to a king and a rook that
    /// the step has not touched.
    pub proof fn lemma_right_kept_step(
        self,
        g: Game,
        team: Team,
        m: GameMove,
        mov: RawMove,
        tm: Team,
        kingside: bool,
    )
        requires
            self.wf(),
            self.active_team() == Some(team),
            self.legal_for(team, m),
            m == GameMove::Regular(mov) || m == GameMove::Capture(mov) || (exists|p: Promotion|
                m == (GameMove::Promote { promotion: p, mov })) || (exists|p: Promotion|
                m == (GameMove::CapturePromote { promotion: p, mov })),
            g.board == self.board_after(team, m),
            g.castling@ == self.rights_after(team, m),
            g.right(tm, kingside),
        ensures
            g.board.holds(king_home(tm), tm, PieceKind::King),
            g.board.holds(rook_home(tm, kingside), tm, PieceKind::Rook),
    {
        let b = self.board;
        let kind = mov.piece.kind;
        let from = mov.from@;
        let to = mov.to@;
        assert(self.legal_step(team, mov));
        assert(m.kind() == kind && m.from_sq(team) == from && m.to_sq(team) == to);
        self.lemma_step_after(team, mov);
        if m is Promote || m is CapturePromote {
            let p = if m is Promote {
                m->Promote_promotion
            } else {
                m->CapturePromote_promotion
            };
            self.lemma_promote_after(team, p, mov);
        }
        assert(b.square_wf(from));
        assert(b.square_wf(to));
        b.lemma_piece_at(to);
        let left = rights_after_leaving(self.castling@, team, kind, from);
        let cleared_by_capture = m.takes_on_target() && b.holds(to, tm, PieceKind::Rook) && to
            == rook_home(tm, kingside);
        assert(!cleared_by_capture) by {
            if cleared_by_capture {
                assert(b.piece_at(to) == Some(PieceInfo { kind: PieceKind::Rook, team: tm }));
            }
        }
        assert(self.right(tm, kingside));
        assert(!(kind == PieceKind::King && tm == team));
        assert(!(kind == PieceKind::Rook && tm == team && from == rook_home(tm, kingside)));
        self.lemma_home_kept(g.board, team, kind, from, to, tm, kingside);
    }

    /// A king and a rook on their home squares are still there after a step
    /// of another piece that has not captured that rook.
    pub proof fn lemma_home_kept(
        self,
        after: ChessBoard,
        team: Team,
        kind: PieceKind,
        from: int,
        to: int,
        tm: Team,
        kingside: bool,
    )
        requires
            self.board.wf(),
            self.castling_ok(),
            self.right(tm, kingside),
            self.board.holds(from, team, kind),
            on_board(to),
            !self.board.kings.has(to),
            !(kind == PieceKind::King && tm == team),
            !(kind == PieceKind::Rook && tm == team && from == rook_home(tm, kingside)),
            !(self.board.holds(to, tm, PieceKind::Rook) && to == rook_home(tm, kingside)),
            forall|t: int, tm2: Team, k: PieceKind|
                t != from && t != to ==> #[trigger] after.holds(t, tm2, k) == self.board.holds(
                    t,
                    tm2,
                    k,
                ),
        ensures
            after.holds(king_home(tm), tm, PieceKind::King),
            after.holds(rook_home(tm, kingside), tm, PieceKind::Rook),
    {
        let b = self.board;
        let kh = king_home(tm);
        let rh = rook_home(tm, kingside);
        assert(b.holds(kh, tm, PieceKind::King));
        assert(b.holds(rh, tm, PieceKind::Rook));
        assert(on_board(from));
        assert(b.square_wf(from));
        assert(kh != from);
        assert(kh != to);
        assert(rh != from);
        assert(rh != to);
    }

    /// A right that is left after an en passant capture belongs to a king
    /// and a rook that the capture has not touched.
    pub proof fn lemma_right_kept_ep(self, g: Game, team: Team, mov: RawMove, tm: Team, kingside: bool)
        requires
            self.wf(),
            self.active_team() == Some(team),
            self.legal_for(team, GameMove::Enpassant(mov)),
            g.board == self.board_after(team, GameMove::Enpassant(mov)),
            g.castling@ == self.rights_after(team, GameMove::Enpassant(mov)),
            g.right(tm, kingside),
        ensures
            g.board.holds(king_home(tm), tm, PieceKind::King),
            g.board.holds(rook_home(tm, kingside), tm, PieceKind::Rook),
    {
        let b = self.board;
        let from = mov.from@;
        let to = mov.to@;
        let cap = to - 8 * forward(team);
        let e = choose|e: int| self.ep_at(team, e);
        assert(self.ep_at(team, e));
        self.lemma_ep_square(e);
        self.lemma_ep_square(to);
        b.lemma_ep_taken(team, from, to);
        let kh = king_home(tm);
        let rh = rook_home(tm, kingside);
        assert(self.right(tm, kingside));
        assert(b.holds(kh, tm, PieceKind::King));
        assert(b.holds(rh, tm, PieceKind::Rook));
        assert(on_board(from) && on_board(cap));
        assert(b.square_wf(from));
        assert(b.square_wf(cap));
        assert(b.square_wf(to));
    }

    /// A right that is left after castling is a right of the other team, and
    /// belongs to a king and a rook that castling has not touched.
    pub proof fn lemma_right_kept_castle(
        self,
        g: Game,
        team: Team,
        side: bool,
        tm: Team,
        kingside: bool,
    )
        requires
            self.wf(),
            self.active_team() == Some(team),
            self.can_castle(team, side),
            g.board == self.board.castled(team, side),
            g.castling@ == rights_after_leaving(
                self.castling@,
                team,
                PieceKind::King,
                king_home(team),
            ),
            g.right(tm, kingside),
        ensures
            g.board.holds(king_home(tm), tm, PieceKind::King),
            g.board.holds(rook_home(tm, kingside), tm, PieceKind::Rook),
    {
        self.lemma_castle_after(team, side);
        assert(tm != team);
        assert(self.right(tm, kingside));
        assert(self.board.holds(king_home(tm), tm, PieceKind::King));
        assert(self.board.holds(rook_home(tm, kingside), tm, PieceKind::Rook));
    }
}

impl Game {
    /// What follows from a piece having left `from` for `to`, whatever kind
    /// of move it was: the en passant square is set after a pawn's push of
    /// two rows and cleared otherwise; a king gives up its team's castling
    /// rights and a rook that leaves its corner the right on that side; the
    /// halfmove clock goes back to 0 after a pawn move and on by one
    /// otherwise.
    pub fn handle_move_side_effects(&mut self, piece: PieceInfo, from: Position, to: Position)
        requires
            old(self).halfmove_num < u64::MAX,
        ensures
            final(self).enpassant == Self::ep_after_step(piece.team, piece.kind, from@, to@),
            final(self).castling@ == rights_after_leaving(
                old(self).castling@,
                piece.team,
                piece.kind,
                from@,
            ),
            final(self).halfmove_num == if piece.kind == PieceKind::Pawn {
                0
            } else {
                old(self).halfmove_num + 1
            },
            final(self).board == old(self).board,
            final(self).fullmove_num == old(self).fullmove_num,
            final(self).state == old(self).state,
    {
        let f: u8 = from.integral();
        let t: u8 = to.integral();
        self.enpassant = Bitboard::const_default();
        match piece.kind {
            PieceKind::King => {
                match piece.team {
                    Team::White => {
                        self.castling.unset_white();
                    },
                    Team::Black => {
                        self.castling.unset_black();
                    },
                }
            },
            PieceKind::Rook => {
                match piece.team {
                    Team::White => {
                        if f == 0 {
                            self.castling.unset_white_queenside();
                        } else if f == 7 {
                            self.castling.unset_white_kingside();
                        }
                    },
                    Team::Black => {
                        if f == 56 {
                            self.castling.unset_black_queenside();
                        } else if f == 63 {
                            self.castling.unset_black_kingside();
                        }
                    },
                }
            },
            PieceKind::Pawn => {
                match piece.team {
                    Team::White => {
                        if t >= 16 && t - 16 == f {
                            self.enpassant = Bitboard::from_piece_index(f + 8);
                        }
                    },
                    Team::Black => {
                        if f >= 16 && f - 16 == t {
                            self.enpassant = Bitboard::from_piece_index(f - 8);
                        }
                    },
                }
            },
            _ => {},
        }
        match piece.kind {
            PieceKind::Pawn => {
                self.halfmove_num = 0;
            },
            _ => {
                self.halfmove_num = self.halfmove_num + 1;
            },
        }
    }

    /// What follows from `piece` having captured `cap` on `to`: a rook
    /// captured on its corner loses its team the castling right on that
    /// side, and the halfmove clock goes back to 0.
    pub fn handle_cap_side_effects(
        &mut self,
        piece: PieceInfo,
        from: Position,
        to: Position,
        cap: PieceInfo,
    )
        requires
            piece.team.spec_enemy() == cap.team,
        ensures
            final(self).castling@ == rights_after_capture(
                old(self).castling@,
                cap.team,
                cap.kind,
                to@,
            ),
            final(self).halfmove_num == 0,
            final(self).enpassant == old(self).enpassant,
            final(self).board == old(self).board,
            final(self).fullmove_num == old(self).fullmove_num,
            final(self).state == old(self).state,
    {
        let t: u8 = to.integral();
        match cap.kind {
            PieceKind::Rook => {
                match cap.team {
                    Team::White => {
                        if t == 0 {
                            self.castling.unset_white_queenside();
                        } else if t == 7 {
                            self.castling.unset_white_kingside();
                        }
                    },
                    Team::Black => {
                        if t == 56 {
                            self.castling.unset_black_queenside();
                        } else if t == 63 {
                            self.castling.unset_black_kingside();
                        }
                    },
                }
            },
            _ => {},
        }
        self.halfmove_num = 0;
    }

    /// Whether `team` has no move.
    pub fn has_no_moves(&self, team: Team) -> (r: bool)
        requires
            self.board.wf(),
            self.ep_valid_for(team),
        ensures
            r == (self.team_moves(team).len() == 0),
    {
        let mut replies: Vec<GameMove> = Vec::new();
        self.static_get_all_moves(team, &mut replies);
        proof {
            assert(replies@ =~= self.team_moves(team));
        }
        replies.len() == 0
    }

    /// Whether `team` has checkmated its enemy: the enemy's king is attacked
    /// and the enemy has no move.
    pub fn check_checkmated(&self, team: Team) -> (r: bool)
        requires
            self.board.wf(),
            self.ep_valid_for(team.spec_enemy()),
        ensures
            r == (!self.board.king_safe(team.spec_enemy()) && self.team_moves(
                team.spec_enemy(),
            ).len() == 0),
    {
        let enemy = team.enemy();
        proof {
            assert(self.board.king_on(enemy, self.board.king_sq(enemy)));
        }
        if self.board.is_valid_postmove(enemy) {
            false
        } else {
            self.has_no_moves(enemy)
        }
    }

    /// Makes a legal move of the side to move.
    ///
    /// The board, the en passant square, the castling rights and the
    /// halfmove clock change as the move says. Then the game is drawn if the
    /// halfmove clock has reached 100; otherwise, if the enemy has no move,
    /// it is won where the enemy's king is attacked and drawn where it is
    /// not; otherwise the enemy is to move. The position that is left is
    /// again one that play can reach.
    pub fn make_move(&mut self, gmove: GameMove)
        requires
            old(self).wf(),
            old(self).legal(gmove),
        ensures
            *final(self) == old(self).after(gmove),
            final(self).wf(),
    {
        let ghost pre = *self;
        let team = match self.state {
            GameState::WhiteToMove => Team::White,
            _ => Team::Black,
        };
        self.apply_move(team, gmove);
        self.state = match team {
            Team::White => GameState::BlackToMove,
            Team::Black => GameState::WhiteToMove,
        };
        proof {
            pre.lemma_after_wf(*self, team, gmove);
            use_type_invariant(&self.castling);
            self.castling.lemma_canonical();
            assert(*self == pre.after_moving(team, gmove));
        }
        self.settle(team);
    }

    /// Decides how the game stands once `mover` has moved and the state says
    /// that its enemy is to move.
    pub fn settle(&mut self, mover: Team)
        requires
            old(self).board.wf(),
            old(self).castling_ok(),
            old(self).ep_valid_for(mover.spec_enemy()),
            old(self).board.king_safe(mover),
            old(self).halfmove_num <= 100,
            old(self).state == next_turn(mover),
        ensures
            final(self).wf(),
            final(self).state == old(self).outcome(mover),
            final(self).board == old(self).board,
            final(self).enpassant == old(self).enpassant,
            final(self).castling == old(self).castling,
            final(self).halfmove_num == old(self).halfmove_num,
            final(self).fullmove_num == old(self).fullmove_num,
    {
        if self.halfmove_num == 100 {
            self.state = GameState::Stalemate;
        } else if self.check_checkmated(mover) {
            self.state = match mover {
                Team::White => GameState::WhiteVictory,
                Team::Black => GameState::BlackVictory,
            };
        } else if self.has_no_moves(mover.enemy()) {
            self.state = GameState::Stalemate;
        }
        proof {
            assert(final(self).castling_ok()) by {
                assert forall|team: Team, kingside: bool| #[trigger]
                    self.right(team, kingside) implies self.board.holds(
                    king_home(team),
                    team,
                    PieceKind::King,
                ) && self.board.holds(rook_home(team, kingside), team, PieceKind::Rook) by {
                    assert(old(self).right(team, kingside));
                }
            }
        }
    }

    /// Changes board, en passant square, castling rights and halfmove clock
    /// as move `gmove` of `team` says.
    pub fn apply_move(&mut self, team: Team, gmove: GameMove)
        requires
            old(self).wf(),
            old(self).active_team() == Some(team),
            old(self).legal_for(team, gmove),
        ensures
            final(self).board == old(self).board_after(team, gmove),
            final(self).enpassant == Self::ep_after(team, gmove),
            final(self).castling@ == old(self).rights_after(team, gmove),
            final(self).halfmove_num == old(self).halfmove_after(gmove),
            final(self).fullmove_num == old(self).fullmove_num,
            final(self).state == old(self).state,
    {
        match gmove {
            GameMove::Regular(mov) => {
                self.apply_step(mov);
                self.handle_move_side_effects(mov.piece, mov.from, mov.to);
            },
            GameMove::Capture(mov) => {
                self.apply_capture(team, mov, None);
            },
            GameMove::Promote { promotion, mov } => {
                self.apply_step(mov);
                self.apply_promotion(promotion, mov.to);
                self.handle_move_side_effects(mov.piece, mov.from, mov.to);
            },
            GameMove::CapturePromote { promotion, mov } => {
                self.apply_capture(team, mov, Some(promotion));
            },
            GameMove::Enpassant(mov) => {
                self.apply_en_passant(team, mov);
            },
            GameMove::CastleKingside(_) => {
                self.apply_castle(team, true);
            },
            GameMove::CastleQueenside(_) => {
                self.apply_castle(team, false);
            },
        }
    }

    /// The capture `mov`, with a promotion where one is given.
    pub open spec fn capture_of(mov: RawMove, promotion: Option<Promotion>) -> GameMove {
        match promotion {
            Some(p) => GameMove::CapturePromote { promotion: p, mov },
            None => GameMove::Capture(mov),
        }
    }

    /// Makes the capture `mov` of `team`, with a promotion where one is given.
    pub fn apply_capture(&mut self, team: Team, mov: RawMove, promotion: Option<Promotion>)
        requires
            old(self).wf(),
            old(self).active_team() == Some(team),
            old(self).legal_for(team, Self::capture_of(mov, promotion)),
        ensures
            final(self).board == old(self).board_after(team, Self::capture_of(mov, promotion)),
            final(self).enpassant == Self::ep_after(team, Self::capture_of(mov, promotion)),
            final(self).castling@ == old(self).rights_after(
                team,
                Self::capture_of(mov, promotion),
            ),
            final(self).halfmove_num == 0,
            final(self).fullmove_num == old(self).fullmove_num,
            final(self).state == old(self).state,
    {
        proof {
            old(self).lemma_step_after(team, mov);
            old(self).board.lemma_piece_at(mov.to@);
        }
        let cap_pi = self.board.get_piece_info(mov.to);
        self.apply_step(mov);
        match promotion {
            Some(p) => {
                self.apply_promotion(p, mov.to);
            },
            None => {},
        }
        self.handle_move_side_effects(mov.piece, mov.from, mov.to);
        match cap_pi {
            Some(cap) => {
                self.handle_cap_side_effects(mov.piece, mov.from, mov.to, cap);
            },
            None => {},
        }
    }

    /// Makes the en passant capture `mov` of `team`.
    pub fn apply_en_passant(&mut self, team: Team, mov: RawMove)
        requires
            old(self).wf(),
            old(self).active_team() == Some(team),
            old(self).legal_for(team, GameMove::Enpassant(mov)),
        ensures
            final(self).board == old(self).board.ep_taken(team, mov.from@, mov.to@),
            final(self).enpassant == Self::ep_after(team, GameMove::Enpassant(mov)),
            final(self).castling@ == old(self).castling@,
            final(self).halfmove_num == 0,
            final(self).fullmove_num == old(self).fullmove_num,
            final(self).state == old(self).state,
    {
        proof {
            let e = choose|e: int| old(self).ep_at(team, e);
            assert(old(self).ep_at(team, e));
            old(self).lemma_ep_square(e);
            old(self).lemma_ep_square(mov.to@);
            assert(on_board(mov.to@ - 8 * forward(team)));
            assert(old(self).board.square_wf(mov.to@ - 8 * forward(team)));
            old(self).board.lemma_piece_at(mov.to@ - 8 * forward(team));
        }
        let e: u8 = mov.to.integral();
        let cap: u8 = match team {
            Team::White => e - 8,
            Team::Black => e + 8,
        };
        let cap_pos = Position::from_integral(cap);
        let cap_pi = self.board.get_piece_info(cap_pos);
        self.board.kill_piece(Bitboard::from_position(cap_pos));
        self.apply_step(mov);
        self.handle_move_side_effects(mov.piece, mov.from, mov.to);
        match cap_pi {
            Some(cap) => {
                self.handle_cap_side_effects(mov.piece, mov.from, mov.to, cap);
            },
            None => {},
        }
    }

    /// Moves the piece of `mov` from its square to its target, taking what
    /// stands there.
    pub fn apply_step(&mut self, mov: RawMove)
        ensures
            final(self).board == old(self).board.stepped(
                mov.piece.team,
                mov.piece.kind,
                mov.from@,
                mov.to@,
            ),
            final(self).halfmove_num == old(self).halfmove_num,
            final(self).fullmove_num == old(self).fullmove_num,
            final(self).enpassant == old(self).enpassant,
            final(self).castling == old(self).castling,
            final(self).state == old(self).state,
    {
        let to_mask = Bitboard::from_position(mov.to);
        let from_mask = Bitboard::from_position(mov.from);
        self.board.kill_piece(to_mask);
        self.board.switch(mov.piece.team, mov.piece.kind, to_mask.combine_with(from_mask));
    }

    /// Replaces the pawn on `at` by the piece that it is promoted to.
    pub fn apply_promotion(&mut self, promotion: Promotion, at: Position)
        ensures
            final(self).board == old(self).board.promoted(promotion.spec_kind(), at@),
            final(self).halfmove_num == old(self).halfmove_num,
            final(self).fullmove_num == old(self).fullmove_num,
            final(self).enpassant == old(self).enpassant,
            final(self).castling == old(self).castling,
            final(self).state == old(self).state,
    {
        let mask = Bitboard::from_position(at);
        self.board.flip_kind(PieceKind::Pawn, mask);
        self.board.flip_kind(promotion.kind(), mask);
    }

    /// Castles for `team` on the given side: king and rook change squares,
    /// and what follows from a king's move follows.
    pub fn apply_castle(&mut self, team: Team, kingside: bool)
        requires
            old(self).halfmove_num < u64::MAX,
        ensures
            final(self).board == old(self).board.castled(team, kingside),
            final(self).enpassant.data == 0,
            final(self).castling@ == rights_after_leaving(
                old(self).castling@,
                team,
                PieceKind::King,
                king_home(team),
            ),
            final(self).halfmove_num == old(self).halfmove_num + 1,
            final(self).fullmove_num == old(self).fullmove_num,
            final(self).state == old(self).state,
    {
        let (king_from, king_to) = match team {
            Team::White => if kingside {
                (Position::new(0, 4), Position::new(0, 6))
            } else {
                (Position::new(0, 4), Position::new(0, 2))
            },
            Team::Black => if kingside {
                (Position::new(7, 4), Position::new(7, 6))
            } else {
                (Position::new(7, 4), Position::new(7, 2))
            },
        };
        self.board.castle(team, kingside);
        self.handle_move_side_effects(PieceInfo { team, kind: PieceKind::King }, king_from, king_to);
    }
}

} // verus!
