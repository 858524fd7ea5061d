//! The moves of a position: which moves are legal, and the list of them.

use vstd::prelude::*;
use crate::bitboard::{
    listing, Bitboard, B_KINGSIDE_CLEARS, B_KINGSIDE_SAFES, B_QUEENSIDE_CLEARS,
    B_QUEENSIDE_SAFES, ROW_1, ROW_8, W_KINGSIDE_CLEARS, W_KINGSIDE_SAFES, W_QUEENSIDE_CLEARS,
    W_QUEENSIDE_SAFES,
};
use crate::bits::group_bit_ops;
use crate::game::{Game, GameMove, MoveGenerationError, Promotion, RawMove};
use crate::geometry::{on_board, pawn_attacks, row_of};
use crate::laws::lemma_moves_are_the_legal_moves;
use crate::piece::{PieceInfo, PieceKind, Team};
use crate::position::Position;
use crate::precalc::masks::pawn_attack_mask;

verus! {

/// The row on which the pawns of `team` promote.
pub open spec fn last_row(team: Team) -> int {
    match team {
        Team::White => 7,
        Team::Black => 0,
    }
}

/// The squares on which the pawns of `team` promote.
pub open spec fn promo_row(team: Team) -> Set<int> {
    Set::new(|t: int| on_board(t) && row_of(t) == last_row(team))
}

/// The squares between king and rook, which must be empty to castle.
pub open spec fn castle_clears(team: Team, kingside: bool) -> Bitboard {
    Bitboard {
        data: match team {
            Team::White => if kingside {
                W_KINGSIDE_CLEARS
            } else {
                W_QUEENSIDE_CLEARS
            },
            Team::Black => if kingside {
                B_KINGSIDE_CLEARS
            } else {
                B_QUEENSIDE_CLEARS
            },
        },
    }
}

/// The squares the king stands on, passes and reaches in castling, none of
/// which may be attacked.
pub open spec fn castle_safes(team: Team, kingside: bool) -> Bitboard {
    Bitboard {
        data: match team {
            Team::White => if kingside {
                W_KINGSIDE_SAFES
            } else {
                W_QUEENSIDE_SAFES
            },
            Team::Black => if kingside {
                B_KINGSIDE_SAFES
            } else {
                B_QUEENSIDE_SAFES
            },
        },
    }
}

/// One move from `from` to each square of `targets` in turn: captures, or
/// quiet moves.
pub open spec fn plain_to(from: int, piece: PieceInfo, targets: Seq<int>, capture: bool) -> Seq<
    GameMove,
> {
    targets.map_values(
        |to: int|
            if capture {
                GameMove::Capture(RawMove::of(from, to, piece))
            } else {
                GameMove::Regular(RawMove::of(from, to, piece))
            },
    )
}

/// The four promotions of a pawn that goes from `from` to `to`.
pub open spec fn promotions_at(from: int, piece: PieceInfo, to: int, capture: bool) -> Seq<
    GameMove,
> {
    let mov = RawMove::of(from, to, piece);
    if capture {
        seq![
            GameMove::CapturePromote { promotion: Promotion::Rook, mov },
            GameMove::CapturePromote { promotion: Promotion::Bishop, mov },
            GameMove::CapturePromote { promotion: Promotion::Queen, mov },
            GameMove::CapturePromote { promotion: Promotion::Knight, mov },
        ]
    } else {
        seq![
            GameMove::Promote { promotion: Promotion::Rook, mov },
            GameMove::Promote { promotion: Promotion::Bishop, mov },
            GameMove::Promote { promotion: Promotion::Queen, mov },
            GameMove::Promote { promotion: Promotion::Knight, mov },
        ]
    }
}

/// The four promotions to each square of `targets` in turn.
pub open spec fn promotions_to(from: int, piece: PieceInfo, targets: Seq<int>, capture: bool) -> Seq<
    GameMove,
>
    decreases targets.len(),
{
    if targets.len() == 0 {
        Seq::empty()
    } else {
        promotions_at(from, piece, targets[0], capture) + promotions_to(
            from,
            piece,
            targets.skip(1),
            capture,
        )
    }
}

impl Game {
    /// `team` may castle on the given side now: it has the right, the squares
    /// between king and rook are empty, and none of the squares the king
    /// stands on, passes and reaches is attacked.
    pub open spec fn can_castle(self, team: Team, kingside: bool) -> bool {
        &&& self.right(team, kingside)
        &&& forall|sq: int| castle_clears(team, kingside).has(sq) ==> !self.board.occupied(sq)
        &&& forall|sq: int|
            castle_safes(team, kingside).has(sq) ==> !self.board.attacked_by(
                sq,
                team.spec_enemy(),
            )
    }

    /// The captures and then the quiet moves of the piece of `team` and
    /// `kind` on `from`, each in ascending order of the target square. For a
    /// pawn, moves onto the last row are left out: they are promotions.
    pub open spec fn step_moves(self, team: Team, kind: PieceKind, from: int) -> Seq<GameMove> {
        let legals = self.board.legal_targets(team, kind, from);
        let plain = if kind == PieceKind::Pawn {
            legals.difference(promo_row(team))
        } else {
            legals
        };
        let enemies = self.board.team_board(team.spec_enemy())@;
        let piece = PieceInfo { kind, team };
        plain_to(from, piece, listing(plain.intersect(enemies)), true) + plain_to(
            from,
            piece,
            listing(plain.difference(enemies)),
            false,
        )
    }

    /// The pawn of `team` on `from` may capture en passant: the en passant
    /// square is one it attacks, and its king is safe once it has captured.
    pub open spec fn can_take_ep(self, team: Team, from: int) -> bool {
        &&& self.enpassant.data != 0
        &&& pawn_attacks(team, from).contains(self.ep_square())
        &&& self.board.ep_taken(team, from, self.ep_square()).king_safe(team)
    }

    /// The moves of the pawn of `team` on `from`: en passant, captures, quiet
    /// moves, capturing promotions, quiet promotions.
    pub open spec fn pawn_moves(self, team: Team, from: int) -> Seq<GameMove> {
        let piece = PieceInfo { kind: PieceKind::Pawn, team };
        let legals = self.board.legal_targets(team, PieceKind::Pawn, from);
        let last = legals.intersect(promo_row(team));
        let enemies = self.board.team_board(team.spec_enemy())@;
        let ep = if self.can_take_ep(team, from) {
            seq![GameMove::Enpassant(RawMove::of(from, self.ep_square(), piece))]
        } else {
            Seq::empty()
        };
        ep + self.step_moves(team, PieceKind::Pawn, from) + promotions_to(
            from,
            piece,
            listing(last.intersect(enemies)),
            true,
        ) + promotions_to(from, piece, listing(last.difference(enemies)), false)
    }

    /// The castling moves of `team`: kingside, then queenside.
    pub open spec fn castle_moves(self, team: Team) -> Seq<GameMove> {
        (if self.can_castle(team, true) {
            seq![GameMove::CastleKingside(team)]
        } else {
            Seq::empty()
        }) + (if self.can_castle(team, false) {
            seq![GameMove::CastleQueenside(team)]
        } else {
            Seq::empty()
        })
    }

    /// The moves of the piece of `team` and `kind` on `from`.
    pub open spec fn piece_moves(self, team: Team, kind: PieceKind, from: int) -> Seq<GameMove> {
        match kind {
            PieceKind::Pawn => self.pawn_moves(team, from),
            PieceKind::King => self.step_moves(team, kind, from) + self.castle_moves(team),
            _ => self.step_moves(team, kind, from),
        }
    }

    /// The moves of pieces of `team` and `kind` on each square of `squares`
    /// in turn.
    pub open spec fn moves_over(self, team: Team, kind: PieceKind, squares: Seq<int>) -> Seq<
        GameMove,
    >
        decreases squares.len(),
    {
        if squares.len() == 0 {
            Seq::empty()
        } else {
            self.piece_moves(team, kind, squares[0]) + self.moves_over(
                team,
                kind,
                squares.skip(1),
            )
        }
    }

    /// The moves of all pieces of `team` and `kind`, in ascending order of
    /// their squares.
    pub open spec fn kind_moves(self, team: Team, kind: PieceKind) -> Seq<GameMove> {
        self.moves_over(team, kind, self.board.pieces_of(team, kind).squares())
    }

    /// The moves of `team`: of its pawns, rooks, knights, king, queens and
    /// bishops, in that order.
    pub open spec fn team_moves(self, team: Team) -> Seq<GameMove> {
        self.kind_moves(team, PieceKind::Pawn) + self.kind_moves(team, PieceKind::Rook)
            + self.kind_moves(team, PieceKind::Knight) + self.kind_moves(team, PieceKind::King)
            + self.kind_moves(team, PieceKind::Queen) + self.kind_moves(team, PieceKind::Bishop)
    }

    /// The moves of the side to move; none once the game is over.
    pub open spec fn moves(self) -> Seq<GameMove> {
        match self.active_team() {
            Some(team) => self.team_moves(team),
            None => Seq::empty(),
        }
    }

    /// `mov` takes a piece of `team` from the square where it stands to one
    /// of its legal targets.
    pub open spec fn legal_step(self, team: Team, mov: RawMove) -> bool {
        &&& mov.from.valid()
        &&& mov.to.valid()
        &&& mov.piece.team == team
        &&& self.board.holds(mov.from@, team, mov.piece.kind)
        &&& self.board.legal_targets(team, mov.piece.kind, mov.from@).contains(mov.to@)
    }

    /// `mov` is a pawn move onto the last row.
    pub open spec fn promotes(team: Team, mov: RawMove) -> bool {
        mov.piece.kind == PieceKind::Pawn && row_of(mov.to@) == last_row(team)
    }

    /// `m` is a legal move of `team` in this position.
    pub open spec fn legal_for(self, team: Team, m: GameMove) -> bool {
        match m {
            GameMove::Regular(mov) => self.legal_step(team, mov) && !self.board.occupied(mov.to@)
                && !Self::promotes(team, mov),
            GameMove::Capture(mov) => self.legal_step(team, mov) && self.board.occupied(mov.to@)
                && !Self::promotes(team, mov),
            GameMove::Promote { promotion, mov } => self.legal_step(team, mov)
                && !self.board.occupied(mov.to@) && Self::promotes(team, mov),
            GameMove::CapturePromote { promotion, mov } => self.legal_step(team, mov)
                && self.board.occupied(mov.to@) && Self::promotes(team, mov),
            GameMove::Enpassant(mov) => {
                &&& mov.from.valid()
                &&& mov.to.valid()
                &&& mov.piece == PieceInfo { kind: PieceKind::Pawn, team }
                &&& self.board.holds(mov.from@, team, PieceKind::Pawn)
                &&& self.enpassant.single(mov.to@)
                &&& self.can_take_ep(team, mov.from@)
            },
            GameMove::CastleKingside(t) => t == team && self.can_castle(team, true),
            GameMove::CastleQueenside(t) => t == team && self.can_castle(team, false),
        }
    }

    /// `m` is a legal move of the side to move.
    pub open spec fn legal(self, m: GameMove) -> bool {
        match self.active_team() {
            Some(team) => self.legal_for(team, m),
            None => false,
        }
    }
}

/// Appends one move from `from` to each square of `targets`, in ascending
/// order: captures, or quiet moves.
pub fn push_plain(
    from: Position,
    piece: PieceInfo,
    targets: Bitboard,
    capture: bool,
    move_buf: &mut Vec<GameMove>,
)
    ensures
        final(move_buf)@ == old(move_buf)@ + plain_to(from@, piece, targets.squares(), capture),
{
    let mut it = targets.positions();
    let ghost all = targets.squares();
    let ghost mut done: int = 0;
    let ghost start = move_buf@;
    proof {
        assert(all.take(0) =~= Seq::<int>::empty());
        assert(start + plain_to(from@, piece, all.take(0), capture) =~= start);
    }
    loop
        invariant_except_break
            it@ == all.skip(done),
        invariant
            0 <= done <= all.len(),
            move_buf@ == start + plain_to(from@, piece, all.take(done), capture),
        ensures
            done == all.len(),
        decreases all.len() - done,
    {
        match it.next() {
            None => {
                break ;
            },
            Some(to) => {
                let mov = RawMove::new(from, to, piece);
                proof {
                    from.lemma_at_view();
                    to.lemma_at_view();
                    assert(mov == RawMove::of(from@, all[done], piece));
                }
                if capture {
                    move_buf.push(GameMove::Capture(mov));
                } else {
                    move_buf.push(GameMove::Regular(mov));
                }
                proof {
                    assert(all.take(done + 1) =~= all.take(done).push(all[done]));
                    assert(plain_to(from@, piece, all.take(done + 1), capture) =~= plain_to(
                        from@,
                        piece,
                        all.take(done),
                        capture,
                    ).push(
                        if capture {
                            GameMove::Capture(mov)
                        } else {
                            GameMove::Regular(mov)
                        },
                    ));
                    assert(all.skip(done).skip(1) =~= all.skip(done + 1));
                    done = done + 1;
                }
            },
        }
    }
    proof {
        assert(all.take(done) =~= all);
    }
}

/// Appends the four promotions from `from` to each square of `targets`, in
/// ascending order: capturing, or quiet.
pub fn push_promotions(
    from: Position,
    piece: PieceInfo,
    targets: Bitboard,
    capture: bool,
    move_buf: &mut Vec<GameMove>,
)
    ensures
        final(move_buf)@ == old(move_buf)@ + promotions_to(
            from@,
            piece,
            targets.squares(),
            capture,
        ),
{
    let mut it = targets.positions();
    let ghost all = targets.squares();
    let ghost start = move_buf@;
    proof {
        assert(move_buf@ + promotions_to(from@, piece, all, capture) =~= start + promotions_to(
            from@,
            piece,
            all,
            capture,
        ));
    }
    loop
        invariant
            move_buf@ + promotions_to(from@, piece, it@, capture) == start + promotions_to(
                from@,
                piece,
                all,
                capture,
            ),
        ensures
            move_buf@ == start + promotions_to(from@, piece, all, capture),
        decreases it@.len(),
    {
        let ghost rest = it@;
        let ghost before = move_buf@;
        match it.next() {
            None => {
                proof {
                    assert(before + Seq::<GameMove>::empty() =~= before);
                }
                break ;
            },
            Some(to) => {
                let mov = RawMove::new(from, to, piece);
                proof {
                    from.lemma_at_view();
                    to.lemma_at_view();
                    assert(mov == RawMove::of(from@, rest[0], piece));
                }
                if capture {
                    move_buf.push(GameMove::CapturePromote { mov, promotion: Promotion::Rook });
                    move_buf.push(GameMove::CapturePromote { mov, promotion: Promotion::Bishop });
                    move_buf.push(GameMove::CapturePromote { mov, promotion: Promotion::Queen });
                    move_buf.push(GameMove::CapturePromote { mov, promotion: Promotion::Knight });
                } else {
                    move_buf.push(GameMove::Promote { mov, promotion: Promotion::Rook });
                    move_buf.push(GameMove::Promote { mov, promotion: Promotion::Bishop });
                    move_buf.push(GameMove::Promote { mov, promotion: Promotion::Queen });
                    move_buf.push(GameMove::Promote { mov, promotion: Promotion::Knight });
                }
                proof {
                    let four = promotions_at(from@, piece, rest[0], capture);
                    assert(move_buf@ =~= before + four);
                    assert(promotions_to(from@, piece, rest, capture) == four + promotions_to(
                        from@,
                        piece,
                        rest.skip(1),
                        capture,
                    ));
                    assert((before + four) + promotions_to(from@, piece, rest.skip(1), capture)
                        =~= before + (four + promotions_to(
                        from@,
                        piece,
                        rest.skip(1),
                        capture,
                    )));
                }
            },
        }
    }
}

/// The squares of the row on which the pawns of `team` promote.
pub fn promotion_row(team: Team) -> (r: Bitboard)
    ensures
        r@ == promo_row(team),
{
    broadcast use group_bit_ops;
    let r = match team {
        Team::White => Bitboard::from_bits(ROW_8),
        Team::Black => Bitboard::from_bits(ROW_1),
    };
    assert(r@ =~= promo_row(team));
    r
}

impl Game {
    /// Whether a piece of `by` attacks one of `squares`.
    pub fn any_attacked(&self, squares: Bitboard, by: Team) -> (r: bool)
        ensures
            r == exists|sq: int| squares.has(sq) && self.board.attacked_by(sq, by),
    {
        let mut it = squares.positions();
        let ghost all = squares.squares();
        let ghost mut done: int = 0;
        proof {
            squares.lemma_squares_contents(0);
        }
        loop
            invariant_except_break
                it@ == all.skip(done),
            invariant
                all == squares.squares(),
                0 <= done <= all.len(),
                forall|i: int| 0 <= i < all.len() ==> squares.has(#[trigger] all[i]),
                forall|i: int| 0 <= i < done ==> !self.board.attacked_by(#[trigger] all[i], by),
            ensures
                done == all.len(),
            decreases all.len() - done,
        {
            match it.next() {
                None => {
                    break ;
                },
                Some(pos) => {
                    if self.board.is_pos_attacked(by, pos) {
                        proof {
                            assert(squares.has(all[done]));
                        }
                        return true;
                    }
                    proof {
                        assert(all.skip(done).skip(1) =~= all.skip(done + 1));
                        done = done + 1;
                    }
                },
            }
        }
        proof {
            assert forall|sq: int| squares.has(sq) implies !self.board.attacked_by(sq, by) by {
                assert(all.contains(sq));
                let i = choose|i: int| 0 <= i < all.len() && all[i] == sq;
                assert(!self.board.attacked_by(all[i], by));
            }
        }
        false
    }

    /// Appends the captures and the quiet moves among `plain`, the targets of
    /// the piece on `piece` that are no promotions.
    fn push_steps(
        &self,
        team: Team,
        kind: PieceKind,
        piece: Position,
        plain: Bitboard,
        move_buf: &mut Vec<GameMove>,
    )
        requires
            plain@ == if kind == PieceKind::Pawn {
                self.board.legal_targets(team, kind, piece@).difference(promo_row(team))
            } else {
                self.board.legal_targets(team, kind, piece@)
            },
        ensures
            final(move_buf)@ == old(move_buf)@ + self.step_moves(team, kind, piece@),
    {
        let info = PieceInfo { kind, team };
        let enemies = self.board.team_pieces(team.enemy());
        let captures = plain.where_also(enemies);
        let noncaptures = plain.where_not(enemies);
        let ghost start = move_buf@;
        push_plain(piece, info, captures, true, move_buf);
        push_plain(piece, info, noncaptures, false, move_buf);
        proof {
            captures.lemma_squares_listing(0);
            noncaptures.lemma_squares_listing(0);
            let a = plain_to(piece@, info, captures.squares(), true);
            let b = plain_to(piece@, info, noncaptures.squares(), false);
            assert((start + a) + b =~= start + (a + b));
        }
    }

    /// Appends the moves of the piece of `team` and `kind` on `piece`, for a
    /// kind whose moves are captures and quiet moves only.
    fn get_step_moves(
        &self,
        team: Team,
        kind: PieceKind,
        piece: Position,
        move_buf: &mut Vec<GameMove>,
    )
        requires
            self.board.wf(),
            self.board.holds(piece@, team, kind),
            kind != PieceKind::Pawn,
        ensures
            final(move_buf)@ == old(move_buf)@ + self.step_moves(team, kind, piece@),
    {
        let legals = self.board.get_piece_legal_moves(team, kind, piece);
        self.push_steps(team, kind, piece, legals, move_buf);
    }

    /// Appends the moves of the queen of `team` on `piece`.
    pub fn get_queen_moves(&self, team: Team, piece: Position, move_buf: &mut Vec<GameMove>)
        requires
            self.board.wf(),
            self.board.holds(piece@, team, PieceKind::Queen),
        ensures
            final(move_buf)@ == old(move_buf)@ + self.piece_moves(team, PieceKind::Queen, piece@),
    {
        self.get_step_moves(team, PieceKind::Queen, piece, move_buf);
    }

    /// Appends the moves of the rook of `team` on `piece`.
    pub fn get_rook_moves(&self, team: Team, piece: Position, move_buf: &mut Vec<GameMove>)
        requires
            self.board.wf(),
            self.board.holds(piece@, team, PieceKind::Rook),
        ensures
            final(move_buf)@ == old(move_buf)@ + self.piece_moves(team, PieceKind::Rook, piece@),
    {
        self.get_step_moves(team, PieceKind::Rook, piece, move_buf);
    }

    /// Appends the moves of the knight of `team` on `piece`.
    pub fn get_knight_moves(&self, team: Team, piece: Position, move_buf: &mut Vec<GameMove>)
        requires
            self.board.wf(),
            self.board.holds(piece@, team, PieceKind::Knight),
        ensures
            final(move_buf)@ == old(move_buf)@ + self.piece_moves(team, PieceKind::Knight, piece@),
    {
        self.get_step_moves(team, PieceKind::Knight, piece, move_buf);
    }

    /// Appends the moves of the bishop of `team` on `piece`.
    pub fn get_bishop_moves(&self, team: Team, piece: Position, move_buf: &mut Vec<GameMove>)
        requires
            self.board.wf(),
            self.board.holds(piece@, team, PieceKind::Bishop),
        ensures
            final(move_buf)@ == old(move_buf)@ + self.piece_moves(team, PieceKind::Bishop, piece@),
    {
        self.get_step_moves(team, PieceKind::Bishop, piece, move_buf);
    }

    /// Whether `team` may castle on the given side now.
    pub fn castle_allowed(&self, team: Team, kingside: bool) -> (r: bool)
        ensures
            r == self.can_castle(team, kingside),
    {
        let right = match team {
            Team::White => if kingside {
                self.castling.white_kingside()
            } else {
                self.castling.white_queenside()
            },
            Team::Black => if kingside {
                self.castling.black_kingside()
            } else {
                self.castling.black_queenside()
            },
        };
        let clears = Bitboard::from_bits(
            match team {
                Team::White => if kingside {
                    W_KINGSIDE_CLEARS
                } else {
                    W_QUEENSIDE_CLEARS
                },
                Team::Black => if kingside {
                    B_KINGSIDE_CLEARS
                } else {
                    B_QUEENSIDE_CLEARS
                },
            },
        );
        let safes = Bitboard::from_bits(
            match team {
                Team::White => if kingside {
                    W_KINGSIDE_SAFES
                } else {
                    W_QUEENSIDE_SAFES
                },
                Team::Black => if kingside {
                    B_KINGSIDE_SAFES
                } else {
                    B_QUEENSIDE_SAFES
                },
            },
        );
        assert(clears == castle_clears(team, kingside));
        assert(safes == castle_safes(team, kingside));
        let world = self.board.world();
        let blocked = world.where_also(clears);
        proof {
            blocked.lemma_empty();
            assert forall|sq: int| blocked.has(sq) == (self.board.occupied(sq) && clears.has(sq)) by {
                assert(blocked@.contains(sq) == blocked.has(sq));
                assert(world@.contains(sq) == world.has(sq));
                assert(clears@.contains(sq) == clears.has(sq));
            }
        }
        if right && blocked.empty() {
            !self.any_attacked(safes, team.enemy())
        } else {
            false
        }
    }

    /// Appends the moves of the king of `team` on `piece`: its captures and
    /// quiet moves, then castling on either side where that is allowed.
    pub fn get_king_moves(&self, team: Team, piece: Position, move_buf: &mut Vec<GameMove>)
        requires
            self.board.wf(),
            self.board.holds(piece@, team, PieceKind::King),
        ensures
            final(move_buf)@ == old(move_buf)@ + self.piece_moves(team, PieceKind::King, piece@),
    {
        let ghost start = move_buf@;
        self.get_step_moves(team, PieceKind::King, piece, move_buf);
        let ghost mid = move_buf@;
        if self.castle_allowed(team, true) {
            move_buf.push(GameMove::CastleKingside(team));
        }
        let ghost mid2 = move_buf@;
        if self.castle_allowed(team, false) {
            move_buf.push(GameMove::CastleQueenside(team));
        }
        proof {
            let steps = self.step_moves(team, PieceKind::King, piece@);
            let ks = if self.can_castle(team, true) {
                seq![GameMove::CastleKingside(team)]
            } else {
                Seq::empty()
            };
            let qs = if self.can_castle(team, false) {
                seq![GameMove::CastleQueenside(team)]
            } else {
                Seq::empty()
            };
            assert(mid2 =~= mid + ks);
            assert(move_buf@ =~= mid2 + qs);
            assert(move_buf@ =~= start + (steps + (ks + qs)));
        }
    }

    /// Appends the moves of the pawn of `team` on `piece`: en passant where
    /// it is possible, captures and quiet moves short of the last row, and
    /// four promotions for each move onto the last row.
    pub fn get_pawn_moves(&self, team: Team, piece: Position, move_buf: &mut Vec<GameMove>)
        requires
            self.board.wf(),
            self.board.holds(piece@, team, PieceKind::Pawn),
            self.ep_valid_for(team),
        ensures
            final(move_buf)@ == old(move_buf)@ + self.piece_moves(team, PieceKind::Pawn, piece@),
    {
        let info = PieceInfo { kind: PieceKind::Pawn, team };
        let ghost from = piece@;
        let ghost start = move_buf@;
        let legals = self.board.get_piece_legal_moves(team, PieceKind::Pawn, piece);
        let enemies = self.board.team_pieces(team.enemy());
        let promotion = promotion_row(team);
        let attacks = pawn_attack_mask(team, piece.integral() as usize);
        let hit = attacks.where_also(self.enpassant);
        proof {
            hit.lemma_empty();
            self.enpassant.lemma_empty();
            if self.enpassant.data != 0 {
                let e = choose|e: int| self.ep_at(team, e);
                self.lemma_ep_square(e);
                assert(hit.has(e) == (attacks.has(e) && self.enpassant.has(e))) by {
                    assert(hit@.contains(e) == hit.has(e));
                    assert(attacks@.contains(e) == attacks.has(e));
                    assert(self.enpassant@.contains(e) == self.enpassant.has(e));
                }
                assert forall|t: int| hit.has(t) implies t == e by {
                    assert(hit@.contains(t));
                    assert(self.enpassant@.contains(t));
                    assert(self.enpassant.has(t));
                }
                assert(attacks@.contains(e) == attacks.has(e));
            }
        }
        if !hit.empty() {
            proof {
                if self.enpassant.data == 0 {
                    assert forall|t: int| !hit.has(t) by {
                        assert(hit@.contains(t) == hit.has(t));
                        assert(self.enpassant@.contains(t) == self.enpassant.has(t));
                    }
                }
                let e = choose|e: int| self.ep_at(team, e);
                assert(self.enpassant.single(e));
            }
            let ep_idx = self.enpassant.piece_position();
            proof {
                self.lemma_ep_square(ep_idx@);
            }
            if self.ep_keeps_king_safe(team, piece, ep_idx) {
                proof {
                    piece.lemma_at_view();
                    ep_idx.lemma_at_view();
                }
                move_buf.push(GameMove::Enpassant(RawMove::new(piece, ep_idx, info)));
            }
        }
        let ghost ep = move_buf@;
        let plain = legals.where_not(promotion);
        self.push_steps(team, PieceKind::Pawn, piece, plain, move_buf);
        let last = legals.where_also(promotion);
        let cap_promotes = last.where_also(enemies);
        let reg_promotes = last.where_not(enemies);
        push_promotions(piece, info, cap_promotes, true, move_buf);
        push_promotions(piece, info, reg_promotes, false, move_buf);
        proof {
            cap_promotes.lemma_squares_listing(0);
            reg_promotes.lemma_squares_listing(0);
            let e = if self.can_take_ep(team, from) {
                seq![GameMove::Enpassant(RawMove::of(from, self.ep_square(), info))]
            } else {
                Seq::empty()
            };
            let a = self.step_moves(team, PieceKind::Pawn, from);
            let b = promotions_to(from, info, cap_promotes.squares(), true);
            let c = promotions_to(from, info, reg_promotes.squares(), false);
            assert(ep =~= start + e);
            assert(move_buf@ =~= start + (e + a + b + c));
        }
    }

    /// Whether the king of `team` is safe once its pawn on `piece` has
    /// captured en passant onto `ep`. The capture is tried on a copy of the
    /// board.
    pub fn ep_keeps_king_safe(&self, team: Team, piece: Position, ep: Position) -> (r: bool)
        requires
            self.board.wf(),
            self.board.holds(piece@, team, PieceKind::Pawn),
            self.ep_at(team, ep@),
        ensures
            r == self.board.ep_taken(team, piece@, ep@).king_safe(team),
    {
        let e: u8 = ep.integral();
        let cap: u8 = match team {
            Team::White => e - 8,
            Team::Black => e + 8,
        };
        let mut state = self.board;
        state.kill_piece(Bitboard::from_piece_index(cap));
        let ghost b1 = state;
        let to_mask = Bitboard::from_position(ep);
        state.kill_piece(to_mask);
        state.switch(team, PieceKind::Pawn, to_mask.combine_with(Bitboard::from_position(piece)));
        proof {
            assert(b1 == self.board.without(cap as int));
            assert(state == self.board.ep_taken(team, piece@, ep@));
            self.board.lemma_ep_taken(team, piece@, ep@);
        }
        state.is_valid_postmove(team)
    }

    /// Appends the moves of the piece of `team` and `kind` on `piece`, and
    /// hands back the buffer.
    pub fn get_piece_moves<'m>(
        &self,
        team: Team,
        kind: PieceKind,
        piece: Position,
        move_buf: &'m mut Vec<GameMove>,
    ) -> (r: &'m Vec<GameMove>)
        requires
            self.board.wf(),
            self.board.holds(piece@, team, kind),
            self.ep_valid_for(team),
        ensures
            final(move_buf)@ == old(move_buf)@ + self.piece_moves(team, kind, piece@),
            r@ == final(move_buf)@,
    {
        match kind {
            PieceKind::King => self.get_king_moves(team, piece, move_buf),
            PieceKind::Queen => self.get_queen_moves(team, piece, move_buf),
            PieceKind::Rook => self.get_rook_moves(team, piece, move_buf),
            PieceKind::Knight => self.get_knight_moves(team, piece, move_buf),
            PieceKind::Bishop => self.get_bishop_moves(team, piece, move_buf),
            PieceKind::Pawn => self.get_pawn_moves(team, piece, move_buf),
        }
        move_buf
    }

    /// Appends the moves of all pieces of `team` and `kind`.
    pub fn get_kind_moves(&self, team: Team, kind: PieceKind, move_buf: &mut Vec<GameMove>)
        requires
            self.board.wf(),
            self.ep_valid_for(team),
        ensures
            final(move_buf)@ == old(move_buf)@ + self.kind_moves(team, kind),
    {
        let pieces = self.board.pieces(team, kind);
        let mut it = pieces.positions();
        let ghost all = pieces.squares();
        let ghost start = move_buf@;
        let ghost mut done: int = 0;
        proof {
            pieces.lemma_squares_contents(0);
            assert(all.skip(0) =~= all);
        }
        loop
            invariant_except_break
                it@ == all.skip(done),
            invariant
                self.board.wf(),
                self.ep_valid_for(team),
                all == pieces.squares(),
                0 <= done <= all.len(),
                forall|i: int| 0 <= i < all.len() ==> pieces.has(#[trigger] all[i]),
                forall|sq: int| pieces.has(sq) == self.board.holds(sq, team, kind),
                move_buf@ + self.moves_over(team, kind, all.skip(done)) == start + self.moves_over(
                    team,
                    kind,
                    all,
                ),
            ensures
                move_buf@ == start + self.moves_over(team, kind, all),
            decreases all.len() - done,
        {
            let ghost before = move_buf@;
            match it.next() {
                None => {
                    proof {
                        assert(before + Seq::<GameMove>::empty() =~= before);
                    }
                    break ;
                },
                Some(pos) => {
                    proof {
                        assert(pieces.has(all[done]));
                    }
                    self.get_piece_moves(team, kind, pos, move_buf);
                    proof {
                        let rest = all.skip(done);
                        let these = self.piece_moves(team, kind, rest[0]);
                        let later = self.moves_over(team, kind, rest.skip(1));
                        assert(self.moves_over(team, kind, rest) == these + later);
                        assert((before + these) + later =~= before + (these + later));
                        assert(rest.skip(1) =~= all.skip(done + 1));
                        done = done + 1;
                    }
                },
            }
        }
    }

    /// Appends the moves of `team`.
    pub fn static_get_all_moves(&self, team: Team, move_buf: &mut Vec<GameMove>)
        requires
            self.board.wf(),
            self.ep_valid_for(team),
        ensures
            final(move_buf)@ == old(move_buf)@ + self.team_moves(team),
    {
        let ghost start = move_buf@;
        self.get_kind_moves(team, PieceKind::Pawn, move_buf);
        self.get_kind_moves(team, PieceKind::Rook, move_buf);
        self.get_kind_moves(team, PieceKind::Knight, move_buf);
        self.get_kind_moves(team, PieceKind::King, move_buf);
        self.get_kind_moves(team, PieceKind::Queen, move_buf);
        self.get_kind_moves(team, PieceKind::Bishop, move_buf);
        proof {
            assert(move_buf@ =~= start + self.team_moves(team));
        }
    }

    /// Appends the moves of the side to move and hands back the buffer's
    /// content. Once the game is over there are none, and the error says how
    /// it ended.
    pub fn get_all_moves<'m>(&self, move_buf: &'m mut Vec<GameMove>) -> (r: Result<
        &'m [GameMove],
        MoveGenerationError,
    >)
        requires
            self.board.wf(),
            self.active_team() matches Some(team) ==> self.ep_valid_for(team),
        ensures
            final(move_buf)@ == old(move_buf)@ + self.moves(),
            self.active_team().is_some() <==> r.is_ok(),
            r matches Ok(all) ==> all@ == final(move_buf)@,
            r matches Err(e) ==> e == MoveGenerationError::GameFinished(self.state),
    {
        match self.get_active_team() {
            Some(Team::White) => {
                self.static_get_all_moves(Team::White, move_buf);
                Ok(move_buf.as_slice())
            },
            Some(Team::Black) => {
                self.static_get_all_moves(Team::Black, move_buf);
                Ok(move_buf.as_slice())
            },
            None => {
                proof {
                    assert(move_buf@ + Seq::<GameMove>::empty() =~= move_buf@);
                }
                Err(MoveGenerationError::GameFinished(self.state))
            },
        }
    }
}

impl Game {
    /// Whether `gmove` is a legal move of the side to move: whether it is
    /// among the moves that the position lists.
    pub fn is_legal(&self, gmove: GameMove) -> (r: bool)
        requires
            self.wf(),
        ensures
            r == self.legal(gmove),
    {
        let mut listed: Vec<GameMove> = Vec::new();
        if self.get_all_moves(&mut listed).is_err() {
            return false;
        }
        proof {
            assert(listed@ =~= self.moves());
            lemma_moves_are_the_legal_moves(*self, gmove);
        }
        let mut i: usize = 0;
        while i < listed.len()
            invariant
                i <= listed.len(),
                listed@ == self.moves(),
                self.moves().contains(gmove) <==> self.legal(gmove),
                forall|j: int| 0 <= j < i ==> listed@[j] != gmove,
            decreases listed.len() - i,
        {
            if listed[i] == gmove {
                proof {
                    assert(self.moves()[i as int] == gmove);
                }
                return true;
            }
            i = i + 1;
        }
        proof {
            if self.moves().contains(gmove) {
                let j = choose|j: int| 0 <= j < self.moves().len() && self.moves()[j] == gmove;
                assert(listed@[j] != gmove);
            }
        }
        false
    }
}

} // verus!
