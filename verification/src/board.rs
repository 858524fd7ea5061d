//! The board: which piece stands on which square.

use vstd::prelude::*;
use crate::bitboard::{
    Bitboard, A1, A8, B1, B8, C1, C8, D1, D8, E1, E8, F1, F8, G1, G8, H1, H8, ROW_1, ROW_2, ROW_7,
    ROW_8,
};
use crate::bits::{group_bit_ops, lemma_lowest_bit};
use crate::geometry::{
    attack_set, col_of, distance, forward, is_direction, lemma_attack_symmetric, move_set,
    on_board, on_ray, row_of, step_sq, times,
};
use crate::movement::{
    bishop_moves, king_moves, knight_moves, pawn_attackers, pawn_moves, queen_moves, rook_moves,
};
use crate::piece::{PieceInfo, PieceKind, Team};
use crate::position::Position;
use crate::precalc::masks::{
    B_KS_KING_SWITCH, B_KS_ROOK_SWITCH, B_QS_KING_SWITCH, B_QS_ROOK_SWITCH, W_KS_KING_SWITCH,
    W_KS_ROOK_SWITCH, W_QS_KING_SWITCH, W_QS_ROOK_SWITCH,
};

verus! {

/// Eight sets of squares: one for each kind of piece and one for each team.
#[derive(Clone, Copy, Debug, PartialEq, Eq, Structural)]
pub struct ChessBoard {
    pub kings: Bitboard,
    pub queens: Bitboard,
    pub knights: Bitboard,
    pub rooks: Bitboard,
    pub bishops: Bitboard,
    pub pawns: Bitboard,
    pub blacks: Bitboard,
    pub whites: Bitboard,
}

/// Whether a square is in a set after a step from `from` to `to`, given
/// whether it was before: the set of the moving piece gains `to` and loses
/// `from`; every other set loses `to`.
pub open spec fn moved_bit(was: bool, t: int, from: int, to: int, mover: bool) -> bool {
    if mover {
        t == to || (t != from && was)
    } else {
        t != to && was
    }
}

/// Where the king of `team` starts.
pub open spec fn king_home(team: Team) -> int {
    match team {
        Team::White => 4,
        Team::Black => 60,
    }
}

/// Where the rook of `team` on the given side starts.
pub open spec fn rook_home(team: Team, kingside: bool) -> int {
    match team {
        Team::White => if kingside {
            7
        } else {
            0
        },
        Team::Black => if kingside {
            63
        } else {
            56
        },
    }
}

/// Where the king of `team` lands when it castles on the given side.
pub open spec fn castle_king_to(team: Team, kingside: bool) -> int {
    match team {
        Team::White => if kingside {
            6
        } else {
            2
        },
        Team::Black => if kingside {
            62
        } else {
            58
        },
    }
}

/// Where the rook of `team` lands when it castles on the given side.
pub open spec fn castle_rook_to(team: Team, kingside: bool) -> int {
    match team {
        Team::White => if kingside {
            5
        } else {
            3
        },
        Team::Black => if kingside {
            61
        } else {
            59
        },
    }
}

/// The two squares between which the king goes in castling.
pub open spec fn king_switch(team: Team, kingside: bool) -> Bitboard {
    Bitboard {
        data: match team {
            Team::White => if kingside {
                W_KS_KING_SWITCH
            } else {
                W_QS_KING_SWITCH
            },
            Team::Black => if kingside {
                B_KS_KING_SWITCH
            } else {
                B_QS_KING_SWITCH
            },
        },
    }
}

/// The two squares between which the rook goes in castling.
pub open spec fn rook_switch(team: Team, kingside: bool) -> Bitboard {
    Bitboard {
        data: match team {
            Team::White => if kingside {
                W_KS_ROOK_SWITCH
            } else {
                W_QS_ROOK_SWITCH
            },
            Team::Black => if kingside {
                B_KS_ROOK_SWITCH
            } else {
                B_QS_ROOK_SWITCH
            },
        },
    }
}

/// The castling masks hold the squares they are named after.
pub proof fn lemma_castle_masks(team: Team, kingside: bool)
    ensures
        forall|t: int|
            king_switch(team, kingside).has(t) == (t == king_home(team) || t == castle_king_to(
                team,
                kingside,
            )),
        forall|t: int|
            rook_switch(team, kingside).has(t) == (t == rook_home(team, kingside) || t
                == castle_rook_to(team, kingside)),
{
    broadcast use group_bit_ops;
}

/// The occupied squares after castling, given those before: the squares
/// where king and rook land are occupied, those they leave are empty, and
/// the rest is as it was.
pub open spec fn castled_occupancy(before: Set<int>, after: Set<int>, team: Team, kingside: bool) -> bool {
    forall|s: int| #[trigger]
        after.contains(s) == if s == castle_king_to(team, kingside) || s == castle_rook_to(
            team,
            kingside,
        ) {
            true
        } else if s == king_home(team) || s == rook_home(team, kingside) {
            false
        } else {
            before.contains(s)
        }
}

/// A square from which the king's landing square is seen along a ray after
/// castling saw it along that ray before: king and rook have left no gap
/// through which a new line to that square could open.
pub proof fn lemma_castle_ray(
    p: int,
    dr: int,
    dc: int,
    before: Set<int>,
    after: Set<int>,
    team: Team,
    kingside: bool,
)
    requires
        is_direction(dr, dc),
        castled_occupancy(before, after, team, kingside),
        on_ray(p, dr, dc, castle_king_to(team, kingside), after),
        p != castle_rook_to(team, kingside),
    ensures
        on_ray(p, dr, dc, castle_king_to(team, kingside), before),
{
    let kt = castle_king_to(team, kingside);
    let rt = castle_rook_to(team, kingside);
    let kf = king_home(team);
    let rf = rook_home(team, kingside);
    let k = distance(p, kt);
    assert forall|j: int| 1 <= j < k implies !before.contains(#[trigger] step_sq(p, dr, dc, j)) by {
        let s = step_sq(p, dr, dc, j);
        assert(!after.contains(s));
        assert(after.contains(s) == if s == kt || s == rt {
            true
        } else if s == kf || s == rf {
            false
        } else {
            before.contains(s)
        });
        if s == kf || s == rf {
            assert(row_of(p) + times(j, dr) == row_of(s));
            assert(col_of(p) + times(j, dc) == col_of(s));
            assert(row_of(p) + times(k, dr) == row_of(kt));
            assert(col_of(p) + times(k, dc) == col_of(kt));
            assert(dr == 0);
            if s == kf {
                assert(k == j + 2);
                let mid = step_sq(p, dr, dc, j + 1);
                assert(mid == rt);
                assert(after.contains(rt));
                assert(!after.contains(mid));
            }
        }
    }
}

/// One where `b` holds, zero where it does not.
pub open spec fn one_if(b: bool) -> int {
    if b {
        1
    } else {
        0
    }
}

impl ChessBoard {
    /// The squares of the pieces of `team`.
    pub open spec fn team_board(self, team: Team) -> Bitboard {
        match team {
            Team::White => self.whites,
            Team::Black => self.blacks,
        }
    }

    /// The squares of the pieces of `kind`, of either team.
    pub open spec fn kind_board(self, kind: PieceKind) -> Bitboard {
        match kind {
            PieceKind::King => self.kings,
            PieceKind::Queen => self.queens,
            PieceKind::Rook => self.rooks,
            PieceKind::Bishop => self.bishops,
            PieceKind::Knight => self.knights,
            PieceKind::Pawn => self.pawns,
        }
    }

    /// A piece of `team` and `kind` stands on `sq`.
    pub open spec fn holds(self, sq: int, team: Team, kind: PieceKind) -> bool {
        self.team_board(team).has(sq) && self.kind_board(kind).has(sq)
    }

    /// A piece of either team stands on `sq`.
    pub open spec fn occupied(self, sq: int) -> bool {
        self.whites.has(sq) || self.blacks.has(sq)
    }

    /// The occupied squares.
    pub open spec fn occupancy(self) -> Set<int> {
        Set::new(|sq: int| self.occupied(sq))
    }

    /// The kind of the piece on `sq`, if a kind is recorded there.
    pub open spec fn kind_at(self, sq: int) -> Option<PieceKind> {
        if self.bishops.has(sq) {
            Some(PieceKind::Bishop)
        } else if self.rooks.has(sq) {
            Some(PieceKind::Rook)
        } else if self.pawns.has(sq) {
            Some(PieceKind::Pawn)
        } else if self.kings.has(sq) {
            Some(PieceKind::King)
        } else if self.knights.has(sq) {
            Some(PieceKind::Knight)
        } else if self.queens.has(sq) {
            Some(PieceKind::Queen)
        } else {
            None
        }
    }

    /// What stands on `sq`.
    pub open spec fn piece_at(self, sq: int) -> Option<PieceInfo> {
        match self.kind_at(sq) {
            Some(kind) => Some(
                PieceInfo { kind, team: if self.whites.has(sq) {
                    Team::White
                } else {
                    Team::Black
                } },
            ),
            None => None,
        }
    }

    /// The board as a map from occupied squares to what stands on them.
    pub open spec fn view(self) -> Map<int, PieceInfo> {
        Map::new(|sq: int| self.piece_at(sq).is_some(), |sq: int| self.piece_at(sq).unwrap())
    }

    /// The number of kinds recorded for `sq`.
    pub open spec fn kinds_on(self, sq: int) -> int {
        one_if(self.kings.has(sq)) + one_if(self.queens.has(sq)) + one_if(self.rooks.has(sq))
            + one_if(self.bishops.has(sq)) + one_if(self.knights.has(sq)) + one_if(
            self.pawns.has(sq),
        )
    }

    /// On `sq` the eight sets agree: no two teams, no two kinds, and a team
    /// exactly where there is a kind.
    pub open spec fn square_wf(self, sq: int) -> bool {
        &&& !(self.whites.has(sq) && self.blacks.has(sq))
        &&& self.kinds_on(sq) <= 1
        &&& self.occupied(sq) <==> self.kinds_on(sq) == 1
    }

    /// The squares of the pieces of `team` and `kind`.
    pub open spec fn pieces_of(self, team: Team, kind: PieceKind) -> Bitboard {
        Bitboard { data: self.team_board(team).data & self.kind_board(kind).data }
    }

    /// `team` has exactly one king, and it stands on `sq`.
    pub open spec fn king_on(self, team: Team, sq: int) -> bool {
        on_board(sq) && forall|t: int| self.holds(t, team, PieceKind::King) <==> t == sq
    }

    /// The square of the king of `team`, where it has exactly one.
    pub open spec fn king_sq(self, team: Team) -> int {
        choose|sq: int| self.king_on(team, sq)
    }

    /// The two teams share no square, the six kinds share no square, the
    /// squares of the teams are those of the kinds, and each team has exactly
    /// one king.
    pub open spec fn wf(self) -> bool {
        &&& forall|sq: int| on_board(sq) ==> self.square_wf(sq)
        &&& exists|sq: int| self.king_on(Team::White, sq)
        &&& exists|sq: int| self.king_on(Team::Black, sq)
    }

    /// A piece of `team` and `kind` stands on `from` and attacks `sq`.
    pub open spec fn attacks_as(self, kind: PieceKind, from: int, sq: int, team: Team) -> bool {
        self.holds(from, team, kind) && attack_set(kind, team, from, self.occupancy()).contains(sq)
    }

    /// A piece of `team` stands on `from` and attacks `sq`.
    pub open spec fn attacks_from(self, from: int, sq: int, team: Team) -> bool {
        ||| self.attacks_as(PieceKind::King, from, sq, team)
        ||| self.attacks_as(PieceKind::Queen, from, sq, team)
        ||| self.attacks_as(PieceKind::Rook, from, sq, team)
        ||| self.attacks_as(PieceKind::Bishop, from, sq, team)
        ||| self.attacks_as(PieceKind::Knight, from, sq, team)
        ||| self.attacks_as(PieceKind::Pawn, from, sq, team)
    }

    /// The squares from which a piece of `team` attacks `sq`.
    pub open spec fn attackers(self, sq: int, team: Team) -> Set<int> {
        Set::new(|from: int| self.attacks_from(from, sq, team))
    }

    /// A piece of `team` attacks `sq`.
    pub open spec fn attacked_by(self, sq: int, team: Team) -> bool {
        exists|from: int| #[trigger] self.attacks_from(from, sq, team)
    }

    /// The squares the piece of `team` and `kind` on `from` may move to by
    /// the way it moves, without regard to the safety of its king: not onto a
    /// piece of its own team.
    pub open spec fn pseudo_targets(self, team: Team, kind: PieceKind, from: int) -> Set<int> {
        move_set(kind, team, from, self.occupancy()).difference(self.team_board(team)@)
    }

    /// The board after the piece of `team` and `kind` on `from` has gone to
    /// `to`, taking what stood there.
    pub open spec fn stepped(self, team: Team, kind: PieceKind, from: int, to: int) -> ChessBoard {
        self.without(to).switched(
            team,
            kind,
            Bitboard { data: (1u64 << (to as u64)) | (1u64 << (from as u64)) },
        )
    }

    /// The board with every set cut down to the squares of `keep`.
    pub open spec fn masked(self, keep: Bitboard) -> ChessBoard {
        ChessBoard {
            kings: Bitboard { data: self.kings.data & keep.data },
            queens: Bitboard { data: self.queens.data & keep.data },
            knights: Bitboard { data: self.knights.data & keep.data },
            rooks: Bitboard { data: self.rooks.data & keep.data },
            bishops: Bitboard { data: self.bishops.data & keep.data },
            pawns: Bitboard { data: self.pawns.data & keep.data },
            blacks: Bitboard { data: self.blacks.data & keep.data },
            whites: Bitboard { data: self.whites.data & keep.data },
        }
    }

    /// The board with square `sq` emptied.
    pub open spec fn without(self, sq: int) -> ChessBoard {
        self.masked(Bitboard { data: !(1u64 << (sq as u64)) })
    }

    /// The board with the squares of `sw` flipped in the sets of `team` and
    /// of `kind`: with `sw` a square that holds such a piece and an empty
    /// one, the piece goes from the one to the other.
    pub open spec fn switched(self, team: Team, kind: PieceKind, sw: Bitboard) -> ChessBoard {
        self.with_team(team, Bitboard { data: self.team_board(team).data ^ sw.data }).with_kind(
            kind,
            Bitboard { data: self.kind_board(kind).data ^ sw.data },
        )
    }

    /// The board with the set of `team` replaced.
    pub open spec fn with_team(self, team: Team, bb: Bitboard) -> ChessBoard {
        match team {
            Team::White => ChessBoard { whites: bb, ..self },
            Team::Black => ChessBoard { blacks: bb, ..self },
        }
    }

    /// The board with the set of `kind` replaced.
    pub open spec fn with_kind(self, kind: PieceKind, bb: Bitboard) -> ChessBoard {
        match kind {
            PieceKind::King => ChessBoard { kings: bb, ..self },
            PieceKind::Queen => ChessBoard { queens: bb, ..self },
            PieceKind::Rook => ChessBoard { rooks: bb, ..self },
            PieceKind::Bishop => ChessBoard { bishops: bb, ..self },
            PieceKind::Knight => ChessBoard { knights: bb, ..self },
            PieceKind::Pawn => ChessBoard { pawns: bb, ..self },
        }
    }

    /// The squares among the pseudo targets that leave the king of `team`
    /// unattacked once the piece has gone there.
    pub open spec fn legal_targets(self, team: Team, kind: PieceKind, from: int) -> Set<int> {
        Set::new(
            |to: int|
                self.pseudo_targets(team, kind, from).contains(to) && self.stepped(
                    team,
                    kind,
                    from,
                    to,
                ).king_safe(team),
        )
    }

    /// The king of `team` is not attacked.
    pub open spec fn king_safe(self, team: Team) -> bool {
        !self.attacked_by(self.king_sq(team), team.spec_enemy())
    }

    /// The squares of the pieces of `team` and `kind`.
    pub fn pieces(&self, team: Team, kind: PieceKind) -> (r: Bitboard)
        ensures
            r == self.pieces_of(team, kind),
            forall|sq: int| r.has(sq) == self.holds(sq, team, kind),
    {
        broadcast use group_bit_ops;
        let team_bb = match team {
            Team::White => self.whites,
            Team::Black => self.blacks,
        };
        let typ_bb = match kind {
            PieceKind::King => self.kings,
            PieceKind::Queen => self.queens,
            PieceKind::Rook => self.rooks,
            PieceKind::Pawn => self.pawns,
            PieceKind::Bishop => self.bishops,
            PieceKind::Knight => self.knights,
        };
        team_bb.where_also(typ_bb)
    }

    /// The squares of the pieces of `team`.
    pub fn team_pieces(&self, team: Team) -> (r: Bitboard)
        ensures
            r == self.team_board(team),
    {
        match team {
            Team::Black => self.blacks,
            Team::White => self.whites,
        }
    }

    /// The occupied squares.
    pub fn world(&self) -> (r: Bitboard)
        ensures
            r.data == self.whites.data | self.blacks.data,
            r@ == self.occupancy(),
            forall|sq: int| r.has(sq) == self.occupied(sq),
    {
        broadcast use group_bit_ops;
        let r = self.whites.combine_with(self.blacks);
        assert(r@ =~= self.occupancy());
        r
    }

    /// Whether the sets agree with each other on every square: the check of
    /// the first half of `wf`.
    pub fn verify(&self) -> (ok: bool)
        ensures
            ok == (forall|sq: int| on_board(sq) ==> self.square_wf(sq)),
    {
        let mut sq: u8 = 0;
        while sq < 64
            invariant
                sq <= 64,
                forall|t: int| 0 <= t < sq ==> self.square_wf(t),
            decreases 64 - sq,
        {
            let m: u64 = 1u64 << (sq as u64);
            let w = self.whites.data & m != 0;
            let b = self.blacks.data & m != 0;
            let mut n: u8 = 0;
            if self.kings.data & m != 0 {
                n = n + 1;
            }
            if self.queens.data & m != 0 {
                n = n + 1;
            }
            if self.rooks.data & m != 0 {
                n = n + 1;
            }
            if self.bishops.data & m != 0 {
                n = n + 1;
            }
            if self.knights.data & m != 0 {
                n = n + 1;
            }
            if self.pawns.data & m != 0 {
                n = n + 1;
            }
            proof {
                let i = sq as u64;
                crate::bits::lemma_bit_test(self.whites.data, i);
                crate::bits::lemma_bit_test(self.blacks.data, i);
                crate::bits::lemma_bit_test(self.kings.data, i);
                crate::bits::lemma_bit_test(self.queens.data, i);
                crate::bits::lemma_bit_test(self.rooks.data, i);
                crate::bits::lemma_bit_test(self.bishops.data, i);
                crate::bits::lemma_bit_test(self.knights.data, i);
                crate::bits::lemma_bit_test(self.pawns.data, i);
                assert(n == self.kinds_on(sq as int));
            }
            if (w && b) || n > 1 || ((w || b) != (n == 1)) {
                proof {
                    assert(on_board(sq as int) && !self.square_wf(sq as int));
                }
                return false;
            }
            sq = sq + 1;
        }
        true
    }

    /// What stands on `piece`, if anything.
    pub fn get_piece_info(&self, piece: Position) -> (r: Option<PieceInfo>)
        ensures
            r == self.piece_at(piece@),
    {
        let ghost sq = piece@;
        let b = Bitboard::from_position(piece);
        proof {
            broadcast use group_bit_ops;
            self.whites.where_also_single(b, sq);
            self.bishops.where_also_single(b, sq);
            self.rooks.where_also_single(b, sq);
            self.pawns.where_also_single(b, sq);
            self.kings.where_also_single(b, sq);
            self.knights.where_also_single(b, sq);
            self.queens.where_also_single(b, sq);
        }
        let team = if !b.where_also(self.whites).empty() {
            Team::White
        } else {
            Team::Black
        };
        let kind = if !b.where_also(self.bishops).empty() {
            PieceKind::Bishop
        } else if !b.where_also(self.rooks).empty() {
            PieceKind::Rook
        } else if !b.where_also(self.pawns).empty() {
            PieceKind::Pawn
        } else if !b.where_also(self.kings).empty() {
            PieceKind::King
        } else if !b.where_also(self.knights).empty() {
            PieceKind::Knight
        } else if !b.where_also(self.queens).empty() {
            PieceKind::Queen
        } else {
            return None;
        };
        Some(PieceInfo { team, kind })
    }

    /// The squares from which a piece of `by` attacks `pos`. Each kind of
    /// piece is projected from `pos` itself and met with the pieces of that
    /// kind: attacks go both ways.
    pub fn attackers_of(&self, by: Team, pos: Position) -> (r: Bitboard)
        ensures
            r@ == self.attackers(pos@, by),
            forall|from: int| r.has(from) == self.attacks_from(from, pos@, by),
    {
        let world = self.world();
        let enemies = self.team_pieces(by);
        let moves_as_rook = rook_moves(pos, world);
        let moves_as_bish = bishop_moves(pos, world);
        let moves_as_knight = knight_moves(pos);
        let moves_as_king = king_moves(pos);
        let moves_as_queen = queen_moves(pos, world);
        let moves_from_pawn = pawn_attackers(by.enemy(), pos);
        let knights = self.knights.where_also(enemies);
        let kings = self.kings.where_also(enemies);
        let pawns = self.pawns.where_also(enemies);
        let rooks = self.rooks.where_also(enemies);
        let bishops = self.bishops.where_also(enemies);
        let queens = self.queens.where_also(enemies);
        let killer_rooks = moves_as_rook.where_also(rooks);
        let killer_bishes = moves_as_bish.where_also(bishops);
        let killer_knights = moves_as_knight.where_also(knights);
        let killer_kings = moves_as_king.where_also(kings);
        let killer_pawns = moves_from_pawn.where_also(pawns);
        let killer_queens = moves_as_queen.where_also(queens);
        let r = killer_knights.combine_with(killer_bishes).combine_with(killer_rooks).combine_with(
            killer_kings,
        ).combine_with(killer_pawns).combine_with(killer_queens);
        proof {
            let sq = pos@;
            let occ = self.occupancy();
            assert forall|from: int| r.has(from) == self.attacks_from(from, sq, by) by {
                lemma_attack_symmetric(PieceKind::King, by, from, sq, occ);
                lemma_attack_symmetric(PieceKind::Queen, by, from, sq, occ);
                lemma_attack_symmetric(PieceKind::Rook, by, from, sq, occ);
                lemma_attack_symmetric(PieceKind::Bishop, by, from, sq, occ);
                lemma_attack_symmetric(PieceKind::Knight, by, from, sq, occ);
                lemma_attack_symmetric(PieceKind::Pawn, by, from, sq, occ);
                assert(r@.contains(from) == r.has(from));
                assert(killer_rooks@.contains(from) == (moves_as_rook@.contains(from)
                    && self.holds(from, by, PieceKind::Rook)));
                assert(killer_bishes@.contains(from) == (moves_as_bish@.contains(from)
                    && self.holds(from, by, PieceKind::Bishop)));
                assert(killer_knights@.contains(from) == (moves_as_knight@.contains(from)
                    && self.holds(from, by, PieceKind::Knight)));
                assert(killer_kings@.contains(from) == (moves_as_king@.contains(from)
                    && self.holds(from, by, PieceKind::King)));
                assert(killer_pawns@.contains(from) == (moves_from_pawn@.contains(from)
                    && self.holds(from, by, PieceKind::Pawn)));
                assert(killer_queens@.contains(from) == (moves_as_queen@.contains(from)
                    && self.holds(from, by, PieceKind::Queen)));
            }
            assert(r@ =~= self.attackers(sq, by));
        }
        r
    }

    /// The number of squares from which a piece of `by` attacks `pos`.
    pub fn pos_attacker_cnt(&self, by: Team, pos: Position) -> (n: u8)
        ensures
            n == self.attackers(pos@, by).len(),
    {
        self.attackers_of(by, pos).count()
    }

    /// Whether a piece of `by` attacks `pos`.
    pub fn is_pos_attacked(&self, by: Team, pos: Position) -> (r: bool)
        ensures
            r == self.attacked_by(pos@, by),
    {
        let killers = self.attackers_of(by, pos);
        proof {
            killers.lemma_empty();
            if killers.data != 0 {
                lemma_lowest_bit(killers.data);
                let from = killers.data.trailing_zeros() as int;
                assert(killers.has(from));
                assert(self.attacks_from(from, pos@, by));
            }
            if self.attacked_by(pos@, by) {
                let from = choose|from: int| #[trigger] self.attacks_from(from, pos@, by);
                assert(killers.has(from));
            }
        }
        !killers.empty()
    }

    /// The squares the piece of `team` and `kind` on `pos` may move to by the
    /// way it moves, without regard to the safety of its king. En passant is
    /// not among them.
    pub fn get_piece_pseudo_moves(&self, team: Team, kind: PieceKind, pos: Position) -> (r:
        Bitboard)
        ensures
            r@ == self.pseudo_targets(team, kind, pos@),
    {
        let friends = self.team_pieces(team);
        let world = self.world();
        let moves = match kind {
            PieceKind::Pawn => pawn_moves(team, pos, world),
            PieceKind::King => king_moves(pos),
            PieceKind::Rook => rook_moves(pos, world),
            PieceKind::Queen => queen_moves(pos, world),
            PieceKind::Bishop => bishop_moves(pos, world),
            PieceKind::Knight => knight_moves(pos),
        };
        moves.where_not(friends)
    }

    /// Takes whatever stands on the squares of `pos` off the board.
    pub fn kill_piece(&mut self, pos: Bitboard)
        ensures
            *final(self) == old(self).masked(Bitboard { data: !pos.data }),
    {
        let neg = pos.negative();
        self.kings = self.kings.where_also(neg);
        self.queens = self.queens.where_also(neg);
        self.rooks = self.rooks.where_also(neg);
        self.knights = self.knights.where_also(neg);
        self.bishops = self.bishops.where_also(neg);
        self.pawns = self.pawns.where_also(neg);
        self.whites = self.whites.where_also(neg);
        self.blacks = self.blacks.where_also(neg);
    }

    /// Flips the squares of `sw` in the sets of `team` and of `kind`.
    pub fn switch(&mut self, team: Team, kind: PieceKind, sw: Bitboard)
        ensures
            *final(self) == old(self).switched(team, kind, sw),
    {
        match team {
            Team::White => {
                self.whites = self.whites.combine_with_exclusively(sw);
            },
            Team::Black => {
                self.blacks = self.blacks.combine_with_exclusively(sw);
            },
        }
        match kind {
            PieceKind::King => {
                self.kings = self.kings.combine_with_exclusively(sw);
            },
            PieceKind::Queen => {
                self.queens = self.queens.combine_with_exclusively(sw);
            },
            PieceKind::Rook => {
                self.rooks = self.rooks.combine_with_exclusively(sw);
            },
            PieceKind::Bishop => {
                self.bishops = self.bishops.combine_with_exclusively(sw);
            },
            PieceKind::Knight => {
                self.knights = self.knights.combine_with_exclusively(sw);
            },
            PieceKind::Pawn => {
                self.pawns = self.pawns.combine_with_exclusively(sw);
            },
        }
    }

    /// Flips the squares of `sw` in the set of `kind`.
    pub fn flip_kind(&mut self, kind: PieceKind, sw: Bitboard)
        ensures
            *final(self) == old(self).with_kind(
                kind,
                Bitboard { data: old(self).kind_board(kind).data ^ sw.data },
            ),
    {
        match kind {
            PieceKind::King => {
                self.kings = self.kings.combine_with_exclusively(sw);
            },
            PieceKind::Queen => {
                self.queens = self.queens.combine_with_exclusively(sw);
            },
            PieceKind::Rook => {
                self.rooks = self.rooks.combine_with_exclusively(sw);
            },
            PieceKind::Bishop => {
                self.bishops = self.bishops.combine_with_exclusively(sw);
            },
            PieceKind::Knight => {
                self.knights = self.knights.combine_with_exclusively(sw);
            },
            PieceKind::Pawn => {
                self.pawns = self.pawns.combine_with_exclusively(sw);
            },
        }
    }

    /// Lets king and rook of `team` change squares as in castling on the
    /// given side, or change back.
    pub fn castle(&mut self, team: Team, kingside: bool)
        ensures
            *final(self) == old(self).castled(team, kingside),
    {
        let (ks, rs) = match team {
            Team::White => if kingside {
                (W_KS_KING_SWITCH, W_KS_ROOK_SWITCH)
            } else {
                (W_QS_KING_SWITCH, W_QS_ROOK_SWITCH)
            },
            Team::Black => if kingside {
                (B_KS_KING_SWITCH, B_KS_ROOK_SWITCH)
            } else {
                (B_QS_KING_SWITCH, B_QS_ROOK_SWITCH)
            },
        };
        self.switch(team, PieceKind::King, Bitboard::from_bits(ks));
        self.switch(team, PieceKind::Rook, Bitboard::from_bits(rs));
    }

    /// The set of `team`, to be changed in place.
    pub fn get_mut_team_bb_rt(&mut self, team: Team) -> (r: &mut Bitboard)
        ensures
            *r == old(self).team_board(team),
            *final(self) == old(self).with_team(team, *final(r)),
    {
        match team {
            Team::White => &mut self.whites,
            Team::Black => &mut self.blacks,
        }
    }

    /// The set of `kind`, to be changed in place.
    pub fn get_mut_piece_bb_rt(&mut self, kind: PieceKind) -> (r: &mut Bitboard)
        ensures
            *r == old(self).kind_board(kind),
            *final(self) == old(self).with_kind(kind, *final(r)),
    {
        match kind {
            PieceKind::King => &mut self.kings,
            PieceKind::Rook => &mut self.rooks,
            PieceKind::Pawn => &mut self.pawns,
            PieceKind::Queen => &mut self.queens,
            PieceKind::Bishop => &mut self.bishops,
            PieceKind::Knight => &mut self.knights,
        }
    }

    /// Square by square, what a step does to the sets.
    pub proof fn lemma_stepped(self, team: Team, kind: PieceKind, from: int, to: int)
        requires
            on_board(from),
            on_board(to),
            from != to,
            self.holds(from, team, kind),
            !self.team_board(team).has(to),
        ensures
            forall|t: int| #[trigger]
                self.stepped(team, kind, from, to).whites.has(t) == moved_bit(
                    self.whites.has(t),
                    t,
                    from,
                    to,
                    team == Team::White,
                ),
            forall|t: int| #[trigger]
                self.stepped(team, kind, from, to).blacks.has(t) == moved_bit(
                    self.blacks.has(t),
                    t,
                    from,
                    to,
                    team == Team::Black,
                ),
            forall|t: int| #[trigger]
                self.stepped(team, kind, from, to).kings.has(t) == moved_bit(
                    self.kings.has(t),
                    t,
                    from,
                    to,
                    kind == PieceKind::King,
                ),
            forall|t: int| #[trigger]
                self.stepped(team, kind, from, to).queens.has(t) == moved_bit(
                    self.queens.has(t),
                    t,
                    from,
                    to,
                    kind == PieceKind::Queen,
                ),
            forall|t: int| #[trigger]
                self.stepped(team, kind, from, to).rooks.has(t) == moved_bit(
                    self.rooks.has(t),
                    t,
                    from,
                    to,
                    kind == PieceKind::Rook,
                ),
            forall|t: int| #[trigger]
                self.stepped(team, kind, from, to).bishops.has(t) == moved_bit(
                    self.bishops.has(t),
                    t,
                    from,
                    to,
                    kind == PieceKind::Bishop,
                ),
            forall|t: int| #[trigger]
                self.stepped(team, kind, from, to).knights.has(t) == moved_bit(
                    self.knights.has(t),
                    t,
                    from,
                    to,
                    kind == PieceKind::Knight,
                ),
            forall|t: int| #[trigger]
                self.stepped(team, kind, from, to).pawns.has(t) == moved_bit(
                    self.pawns.has(t),
                    t,
                    from,
                    to,
                    kind == PieceKind::Pawn,
                ),
    {
        broadcast use group_bit_ops;
    }

    /// On square `t`, board `s` is what a step from `from` to `to` makes of
    /// this board.
    pub open spec fn stepped_square(
        self,
        s: ChessBoard,
        team: Team,
        kind: PieceKind,
        from: int,
        to: int,
        t: int,
    ) -> bool {
        &&& s.whites.has(t) == moved_bit(self.whites.has(t), t, from, to, team == Team::White)
        &&& s.blacks.has(t) == moved_bit(self.blacks.has(t), t, from, to, team == Team::Black)
        &&& s.kings.has(t) == moved_bit(self.kings.has(t), t, from, to, kind == PieceKind::King)
        &&& s.queens.has(t) == moved_bit(self.queens.has(t), t, from, to, kind == PieceKind::Queen)
        &&& s.rooks.has(t) == moved_bit(self.rooks.has(t), t, from, to, kind == PieceKind::Rook)
        &&& s.bishops.has(t) == moved_bit(
            self.bishops.has(t),
            t,
            from,
            to,
            kind == PieceKind::Bishop,
        )
        &&& s.knights.has(t) == moved_bit(
            self.knights.has(t),
            t,
            from,
            to,
            kind == PieceKind::Knight,
        )
        &&& s.pawns.has(t) == moved_bit(self.pawns.has(t), t, from, to, kind == PieceKind::Pawn)
    }

    /// A step onto a square that holds neither a piece of the same team nor
    /// a king leaves the board well formed: the piece stands on its target,
    /// its old square is empty, and nothing else has changed.
    pub proof fn lemma_stepped_wf(self, team: Team, kind: PieceKind, from: int, to: int)
        requires
            self.wf(),
            on_board(from),
            on_board(to),
            self.holds(from, team, kind),
            !self.team_board(team).has(to),
            !self.kings.has(to),
        ensures
            self.stepped(team, kind, from, to).wf(),
            forall|t: int, tm: Team, k: PieceKind| #[trigger]
                self.stepped(team, kind, from, to).holds(t, tm, k) == if t == to {
                    tm == team && k == kind
                } else if t == from {
                    false
                } else {
                    self.holds(t, tm, k)
                },
            forall|t: int| #[trigger]
                self.stepped(team, kind, from, to).occupied(t) == (t == to || (t != from
                    && self.occupied(t))),
            self.stepped(team, kind, from, to).king_sq(team) == if kind == PieceKind::King {
                to
            } else {
                self.king_sq(team)
            },
            self.stepped(team, kind, from, to).king_sq(team.spec_enemy()) == self.king_sq(
                team.spec_enemy(),
            ),
    {
        let s = self.stepped(team, kind, from, to);
        let enemy = team.spec_enemy();
        self.lemma_stepped(team, kind, from, to);
        assert(self.square_wf(from));
        assert(self.square_wf(to));
        assert forall|t: int| #[trigger] self.stepped_square(s, team, kind, from, to, t) by {}
        assert forall|t: int, tm: Team, k: PieceKind| #[trigger]
            s.holds(t, tm, k) == if t == to {
                tm == team && k == kind
            } else if t == from {
                false
            } else {
                self.holds(t, tm, k)
            } by {
            assert(self.stepped_square(s, team, kind, from, to, t));
            if on_board(t) {
                assert(self.square_wf(t));
            }
        }
        assert forall|t: int| #[trigger]
            s.occupied(t) == (t == to || (t != from && self.occupied(t))) by {
            assert(self.stepped_square(s, team, kind, from, to, t));
            if on_board(t) {
                assert(self.square_wf(t));
            }
        }
        assert forall|t: int| on_board(t) implies s.square_wf(t) by {
            assert(self.stepped_square(s, team, kind, from, to, t));
            assert(self.square_wf(t));
        }
        self.lemma_stepped_king(team, kind, from, to);
        s.lemma_king_sq(team, if kind == PieceKind::King {
            to
        } else {
            self.king_sq(team)
        });
        let ek = self.king_sq(enemy);
        assert(self.king_on(enemy, ek));
        assert(s.king_on(enemy, ek)) by {
            assert forall|t: int| s.holds(t, enemy, PieceKind::King) <==> t == ek by {
                assert(self.holds(t, enemy, PieceKind::King) <==> t == ek);
                assert(self.holds(ek, enemy, PieceKind::King));
            }
        }
        s.lemma_king_sq(enemy, ek);
    }

    /// After a step onto a square that its own team does not hold, a team
    /// still has exactly one king: where it was, or where it went.
    pub proof fn lemma_stepped_king(self, team: Team, kind: PieceKind, from: int, to: int)
        requires
            self.wf(),
            on_board(from),
            on_board(to),
            self.holds(from, team, kind),
            !self.team_board(team).has(to),
        ensures
            self.stepped(team, kind, from, to).king_on(
                team,
                if kind == PieceKind::King {
                    to
                } else {
                    self.king_sq(team)
                },
            ),
    {
        let s = self.stepped(team, kind, from, to);
        let ksq = self.king_sq(team);
        assert(self.king_on(team, ksq));
        self.lemma_stepped(team, kind, from, to);
        assert(self.square_wf(from));
        assert(self.holds(ksq, team, PieceKind::King));
        if kind == PieceKind::King {
            assert(from == ksq);
            assert forall|t: int| s.holds(t, team, PieceKind::King) <==> t == to by {
                assert(self.holds(t, team, PieceKind::King) <==> t == ksq);
            }
        } else {
            assert forall|t: int| s.holds(t, team, PieceKind::King) <==> t == ksq by {
                assert(self.holds(t, team, PieceKind::King) <==> t == ksq);
            }
        }
    }

    /// Where a team has exactly one king, `king_sq` is its square.
    pub proof fn lemma_king_sq(self, team: Team, sq: int)
        requires
            self.king_on(team, sq),
        ensures
            self.king_sq(team) == sq,
    {
        let k = self.king_sq(team);
        assert(self.king_on(team, k));
        assert(self.holds(sq, team, PieceKind::King));
    }

    /// Whether the king of `team` is unattacked.
    pub fn is_valid_postmove(&self, team: Team) -> (r: bool)
        requires
            exists|sq: int| self.king_on(team, sq),
        ensures
            r == self.king_safe(team),
    {
        let team_king = self.pieces(team, PieceKind::King);
        proof {
            let sq = choose|sq: int| self.king_on(team, sq);
            assert(team_king.single(sq)) by {
                assert forall|t: int| team_king.has(t) <==> t == sq by {
                    assert(self.holds(t, team, PieceKind::King) <==> t == sq);
                }
            }
            self.lemma_king_sq(team, sq);
        }
        let king_idx = team_king.piece_position();
        proof {
            assert(self.king_on(team, king_idx@)) by {
                assert forall|t: int| self.holds(t, team, PieceKind::King) <==> t == king_idx@ by {
                    assert(team_king.has(t) <==> t == king_idx@);
                }
                Position::lemma_valid_range(king_idx);
            }
            self.lemma_king_sq(team, king_idx@);
        }
        !self.is_pos_attacked(team.enemy(), king_idx)
    }

    /// The squares the piece of `team` and `kind` on `pos` may move to: its
    /// pseudo targets, less those that would leave its own king attacked.
    /// Each target is tried on a copy of the board.
    pub fn get_piece_legal_moves(&self, team: Team, kind: PieceKind, pos: Position) -> (r:
        Bitboard)
        requires
            self.wf(),
            self.holds(pos@, team, kind),
        ensures
            r@ == self.legal_targets(team, kind, pos@),
            r@.subset_of(self.pseudo_targets(team, kind, pos@)),
    {
        let pseudo_moves = self.get_piece_pseudo_moves(team, kind, pos);
        let pos_mask = Bitboard::from_position(pos);
        let mut ret = Bitboard::const_default();
        let mut it = pseudo_moves.bit_masks();
        let ghost all = pseudo_moves.squares();
        let ghost mut done: int = 0;
        let ghost from = pos@;
        let ghost legal = self.legal_targets(team, kind, from);
        proof {
            pseudo_moves.lemma_squares_contents(0);
            broadcast use group_bit_ops;
            use_type_invariant(pos);
            Position::lemma_valid_range(pos);
        }
        loop
            invariant_except_break
                it@ == all.skip(done),
            invariant
                self.wf(),
                self.holds(from, team, kind),
                on_board(from),
                from == pos@,
                pos_mask.data == 1u64 << (from as u64),
                legal == self.legal_targets(team, kind, from),
                pseudo_moves@ == self.pseudo_targets(team, kind, from),
                all == pseudo_moves.squares(),
                0 <= done <= all.len(),
                forall|i: int| 0 <= i < all.len() ==> pseudo_moves.has(#[trigger] all[i]),
                forall|t: int| ret.has(t) ==> legal.contains(t),
                forall|j: int| 0 <= j < done && legal.contains(all[j]) ==> ret.has(#[trigger] all[j]),
            ensures
                done == all.len(),
            decreases all.len() - done,
        {
            match it.next() {
                None => {
                    break ;
                },
                Some(m) => {
                    let ghost to = all[done];
                    proof {
                        assert(pseudo_moves.has(to));
                        assert(pseudo_moves@.contains(to));
                        assert(!self.team_board(team).has(to)) by {
                            assert(!self.team_board(team)@.contains(to));
                        }
                    }
                    let mut state = *self;
                    state.kill_piece(m);
                    let switch = m.combine_with(pos_mask);
                    state.switch(team, kind, switch);
                    proof {
                        assert(state == self.stepped(team, kind, from, to));
                        self.lemma_stepped_king(team, kind, from, to);
                    }
                    let ghost before = ret;
                    if state.is_valid_postmove(team) {
                        ret = ret.combine_with(m);
                    }
                    proof {
                        broadcast use group_bit_ops;
                        assert forall|t: int| ret.has(t) implies legal.contains(t) by {
                            if !before.has(t) {
                                assert(m.has(t));
                                assert(t == to);
                            }
                        }
                        assert forall|j: int| 0 <= j < done + 1 && legal.contains(
                            all[j],
                        ) implies ret.has(#[trigger] all[j]) by {
                            if j < done {
                                assert(before.has(all[j]));
                            } else {
                                assert(m.has(to));
                            }
                        }
                        assert(all.skip(done).skip(1) =~= all.skip(done + 1));
                        done = done + 1;
                    }
                },
            }
        }
        proof {
            assert forall|t: int| legal.contains(t) implies ret@.contains(t) by {
                assert(pseudo_moves@.contains(t));
                assert(pseudo_moves.has(t));
                assert(all.contains(t));
                let j = choose|j: int| 0 <= j < all.len() && all[j] == t;
                assert(ret.has(all[j]));
            }
            assert(ret@ =~= legal);
        }
        ret
    }

    /// Square by square, what cutting the sets down to `keep` leaves.
    pub proof fn lemma_masked(self, keep: Bitboard)
        ensures
            forall|t: int, team: Team, kind: PieceKind| #[trigger]
                self.masked(keep).holds(t, team, kind) == (keep.has(t) && self.holds(
                    t,
                    team,
                    kind,
                )),
            forall|t: int| #[trigger]
                self.masked(keep).occupied(t) == (keep.has(t) && self.occupied(t)),
            forall|t: int| #[trigger]
                self.masked(keep).kinds_on(t) == if keep.has(t) {
                    self.kinds_on(t)
                } else {
                    0
                },
            forall|t: int, team: Team| #[trigger]
                self.masked(keep).team_board(team).has(t) == (keep.has(t) && self.team_board(
                    team,
                ).has(t)),
            forall|t: int, kind: PieceKind| #[trigger]
                self.masked(keep).kind_board(kind).has(t) == (keep.has(t) && self.kind_board(
                    kind,
                ).has(t)),
    {
        broadcast use group_bit_ops;
    }

    /// Emptying a square that holds no king leaves a board as well formed as
    /// it was, with the kings where they were.
    pub proof fn lemma_without_wf(self, sq: int)
        requires
            self.wf(),
            on_board(sq),
            !self.kings.has(sq),
        ensures
            self.without(sq).wf(),
            self.without(sq).king_sq(Team::White) == self.king_sq(Team::White),
            self.without(sq).king_sq(Team::Black) == self.king_sq(Team::Black),
    {
        broadcast use group_bit_ops;
        let keep = Bitboard { data: !(1u64 << (sq as u64)) };
        let b = self.without(sq);
        self.lemma_masked(keep);
        assert forall|t: int| on_board(t) implies b.square_wf(t) by {
            assert(self.square_wf(t));
        }
        let wk = self.king_sq(Team::White);
        let bk = self.king_sq(Team::Black);
        assert(self.king_on(Team::White, wk));
        assert(self.king_on(Team::Black, bk));
        assert(self.holds(wk, Team::White, PieceKind::King));
        assert(self.holds(bk, Team::Black, PieceKind::King));
        assert(b.king_on(Team::White, wk)) by {
            assert forall|t: int| b.holds(t, Team::White, PieceKind::King) <==> t == wk by {
                assert(self.holds(t, Team::White, PieceKind::King) <==> t == wk);
            }
        }
        assert(b.king_on(Team::Black, bk)) by {
            assert forall|t: int| b.holds(t, Team::Black, PieceKind::King) <==> t == bk by {
                assert(self.holds(t, Team::Black, PieceKind::King) <==> t == bk);
            }
        }
        b.lemma_king_sq(Team::White, wk);
        b.lemma_king_sq(Team::Black, bk);
    }

    /// The board after the pawn of `team` on `from` has taken en passant onto
    /// square `e`: the pawn that stood one row behind that square is gone,
    /// and the taking pawn stands on it.
    pub open spec fn ep_taken(self, team: Team, from: int, e: int) -> ChessBoard {
        self.without(e - 8 * forward(team)).stepped(team, PieceKind::Pawn, from, e)
    }

    /// Square by square, what flipping the squares of `sw` does to the sets.
    pub proof fn lemma_switched(self, team: Team, kind: PieceKind, sw: Bitboard)
        ensures
            forall|t: int|
                on_board(t) ==> #[trigger] self.switched(team, kind, sw).team_board(team).has(t)
                    == (self.team_board(team).has(t) != sw.has(t)),
            forall|t: int| #[trigger]
                self.switched(team, kind, sw).team_board(team.spec_enemy()).has(t)
                    == self.team_board(team.spec_enemy()).has(t),
            forall|t: int|
                on_board(t) ==> #[trigger] self.switched(team, kind, sw).kind_board(kind).has(t)
                    == (self.kind_board(kind).has(t) != sw.has(t)),
            forall|t: int, k: PieceKind|
                k != kind ==> #[trigger] self.switched(team, kind, sw).kind_board(k).has(t)
                    == self.kind_board(k).has(t),
    {
        broadcast use group_bit_ops;
    }

    /// What an en passant capture does: the capturing pawn stands on the en
    /// passant square, its old square and the square of the captured pawn
    /// are empty, and nothing else has changed. The board stays well formed
    /// and the kings stay where they were.
    pub proof fn lemma_ep_taken(self, team: Team, from: int, e: int)
        requires
            self.wf(),
            self.holds(from, team, PieceKind::Pawn),
            on_board(e),
            !self.occupied(e),
            self.holds(e - 8 * forward(team), team.spec_enemy(), PieceKind::Pawn),
        ensures
            forall|t: int, tm: Team, k: PieceKind| #[trigger]
                self.ep_taken(team, from, e).holds(t, tm, k) == if t == e {
                    tm == team && k == PieceKind::Pawn
                } else if t == from || t == e - 8 * forward(team) {
                    false
                } else {
                    self.holds(t, tm, k)
                },
            forall|t: int| #[trigger]
                self.ep_taken(team, from, e).occupied(t) == if t == e {
                    true
                } else if t == from || t == e - 8 * forward(team) {
                    false
                } else {
                    self.occupied(t)
                },
            self.ep_taken(team, from, e).wf(),
            self.ep_taken(team, from, e).king_sq(Team::White) == self.king_sq(Team::White),
            self.ep_taken(team, from, e).king_sq(Team::Black) == self.king_sq(Team::Black),
            exists|sq: int| self.ep_taken(team, from, e).king_on(team, sq),
    {
        let cap = e - 8 * forward(team);
        let b1 = self.without(cap);
        assert(on_board(cap) && on_board(from));
        assert(self.square_wf(cap));
        assert(self.square_wf(from));
        assert(self.square_wf(e));
        self.lemma_without_wf(cap);
        self.lemma_masked(Bitboard { data: !(1u64 << (cap as u64)) });
        assert forall|t: int| on_board(t) implies (Bitboard { data: !(1u64 << (cap as u64)) }).has(
            t,
        ) == (t != cap) by {
            broadcast use group_bit_ops;
        }
        assert(b1.holds(from, team, PieceKind::Pawn));
        assert(!b1.team_board(team).has(e));
        assert(!b1.kings.has(e));
        b1.lemma_stepped_wf(team, PieceKind::Pawn, from, e);
        let b2 = b1.stepped(team, PieceKind::Pawn, from, e);
        let keep = Bitboard { data: !(1u64 << (cap as u64)) };
        assert forall|t: int, tm: Team, k: PieceKind| #[trigger]
            b2.holds(t, tm, k) == if t == e {
                tm == team && k == PieceKind::Pawn
            } else if t == from || t == cap {
                false
            } else {
                self.holds(t, tm, k)
            } by {
            assert(b1.holds(t, tm, k) == (keep.has(t) && self.holds(t, tm, k)));
            if on_board(t) {
                assert(keep.has(t) == (t != cap));
            }
        }
        assert forall|t: int| #[trigger]
            b2.occupied(t) == if t == e {
                true
            } else if t == from || t == cap {
                false
            } else {
                self.occupied(t)
            } by {
            assert(b1.occupied(t) == (keep.has(t) && self.occupied(t)));
            if on_board(t) {
                assert(keep.has(t) == (t != cap));
            }
        }
        assert(b2.king_on(team, b2.king_sq(team)));
    }

    /// A move onto an occupied square is an attack on it, so where the enemy
    /// king is not attacked no pseudo target holds a king.
    pub proof fn lemma_target_not_king(self, team: Team, kind: PieceKind, from: int, to: int)
        requires
            self.wf(),
            self.holds(from, team, kind),
            self.pseudo_targets(team, kind, from).contains(to),
            self.king_safe(team.spec_enemy()),
        ensures
            !self.kings.has(to),
            on_board(to),
            to != from,
            !self.team_board(team).has(to),
            self.occupied(to) ==> self.team_board(team.spec_enemy()).has(to),
    {
        let enemy = team.spec_enemy();
        let occ = self.occupancy();
        assert(!self.team_board(team)@.contains(to));
        assert(move_set(kind, team, from, occ).contains(to));
        assert(on_board(to));
        assert(self.square_wf(to));
        if self.kings.has(to) {
            assert(self.occupied(to));
            assert(occ.contains(to));
            assert(self.holds(to, enemy, PieceKind::King));
            let ek = self.king_sq(enemy);
            assert(self.king_on(enemy, ek));
            assert(to == ek);
            assert(attack_set(kind, team, from, occ).contains(to));
            assert(self.attacks_as(kind, from, to, team));
            assert(self.attacks_from(from, to, team));
        }
    }

    /// Whether a team attacks a square depends only on where its own pieces
    /// stand and on which squares are occupied.
    pub proof fn lemma_attacked_same(self, other: ChessBoard, sq: int, by: Team)
        requires
            forall|t: int, k: PieceKind| self.holds(t, by, k) == other.holds(t, by, k),
            self.occupancy() == other.occupancy(),
        ensures
            self.attacked_by(sq, by) == other.attacked_by(sq, by),
    {
        assert forall|from: int| self.attacks_from(from, sq, by) == other.attacks_from(
            from,
            sq,
            by,
        ) by {
            assert(self.holds(from, by, PieceKind::King) == other.holds(from, by, PieceKind::King));
            assert(self.holds(from, by, PieceKind::Queen) == other.holds(
                from,
                by,
                PieceKind::Queen,
            ));
            assert(self.holds(from, by, PieceKind::Rook) == other.holds(from, by, PieceKind::Rook));
            assert(self.holds(from, by, PieceKind::Bishop) == other.holds(
                from,
                by,
                PieceKind::Bishop,
            ));
            assert(self.holds(from, by, PieceKind::Knight) == other.holds(
                from,
                by,
                PieceKind::Knight,
            ));
            assert(self.holds(from, by, PieceKind::Pawn) == other.holds(from, by, PieceKind::Pawn));
        }
        if self.attacked_by(sq, by) {
            let from = choose|from: int| #[trigger] self.attacks_from(from, sq, by);
            assert(other.attacks_from(from, sq, by));
        }
        if other.attacked_by(sq, by) {
            let from = choose|from: int| #[trigger] other.attacks_from(from, sq, by);
            assert(self.attacks_from(from, sq, by));
        }
    }

    /// The board with the pawn on `sq` replaced by a piece of `kind`.
    pub open spec fn promoted(self, kind: PieceKind, sq: int) -> ChessBoard {
        self.kind_flipped(PieceKind::Pawn, sq).kind_flipped(kind, sq)
    }

    /// The board with square `sq` flipped in the set of `kind`.
    pub open spec fn kind_flipped(self, kind: PieceKind, sq: int) -> ChessBoard {
        self.with_kind(kind, Bitboard { data: self.kind_board(kind).data ^ (1u64 << (sq as u64)) })
    }

    /// Square by square, what flipping one square in the set of a kind does.
    pub proof fn lemma_kind_flipped(self, kind: PieceKind, sq: int)
        requires
            on_board(sq),
        ensures
            forall|t: int, k: PieceKind| #[trigger]
                self.kind_flipped(kind, sq).kind_board(k).has(t) == if k == kind && t == sq {
                    !self.kind_board(k).has(t)
                } else {
                    self.kind_board(k).has(t)
                },
            self.kind_flipped(kind, sq).whites == self.whites,
            self.kind_flipped(kind, sq).blacks == self.blacks,
    {
        broadcast use group_bit_ops;
    }

    /// A promotion changes the kind of the piece on its square and nothing
    /// else: the board stays well formed, the occupied squares and the kings
    /// stay as they were.
    pub proof fn lemma_promoted(self, team: Team, kind: PieceKind, sq: int)
        requires
            self.wf(),
            self.holds(sq, team, PieceKind::Pawn),
            kind != PieceKind::Pawn,
            kind != PieceKind::King,
        ensures
            self.promoted(kind, sq).wf(),
            forall|t: int, tm: Team, k: PieceKind| #[trigger]
                self.promoted(kind, sq).holds(t, tm, k) == if t == sq {
                    tm == team && k == kind
                } else {
                    self.holds(t, tm, k)
                },
            self.promoted(kind, sq).occupancy() == self.occupancy(),
            self.promoted(kind, sq).king_sq(Team::White) == self.king_sq(Team::White),
            self.promoted(kind, sq).king_sq(Team::Black) == self.king_sq(Team::Black),
    {
        let b1 = self.kind_flipped(PieceKind::Pawn, sq);
        let b2 = b1.kind_flipped(kind, sq);
        assert(on_board(sq));
        self.lemma_kind_flipped(PieceKind::Pawn, sq);
        b1.lemma_kind_flipped(kind, sq);
        assert(self.square_wf(sq));
        assert forall|t: int, k: PieceKind| #[trigger]
            b2.kind_board(k).has(t) == if t == sq {
                k == kind
            } else {
                self.kind_board(k).has(t)
            } by {
            assert(b1.kind_board(k).has(t) == if k == PieceKind::Pawn && t == sq {
                !self.kind_board(k).has(t)
            } else {
                self.kind_board(k).has(t)
            });
            assert(self.kind_board(PieceKind::King).has(sq) == self.kings.has(sq));
            assert(self.kind_board(PieceKind::Queen).has(sq) == self.queens.has(sq));
            assert(self.kind_board(PieceKind::Rook).has(sq) == self.rooks.has(sq));
            assert(self.kind_board(PieceKind::Bishop).has(sq) == self.bishops.has(sq));
            assert(self.kind_board(PieceKind::Knight).has(sq) == self.knights.has(sq));
            assert(self.kind_board(PieceKind::Pawn).has(sq) == self.pawns.has(sq));
        }
        assert forall|t: int, tm: Team, k: PieceKind| #[trigger]
            b2.holds(t, tm, k) == if t == sq {
                tm == team && k == kind
            } else {
                self.holds(t, tm, k)
            } by {
            assert(b2.kind_board(k).has(t) == if t == sq {
                k == kind
            } else {
                self.kind_board(k).has(t)
            });
        }
        assert forall|t: int| on_board(t) implies b2.square_wf(t) by {
            assert(self.square_wf(t));
            assert(b2.kind_board(PieceKind::King).has(t) == b2.kings.has(t));
            assert(b2.kind_board(PieceKind::Queen).has(t) == b2.queens.has(t));
            assert(b2.kind_board(PieceKind::Rook).has(t) == b2.rooks.has(t));
            assert(b2.kind_board(PieceKind::Bishop).has(t) == b2.bishops.has(t));
            assert(b2.kind_board(PieceKind::Knight).has(t) == b2.knights.has(t));
            assert(b2.kind_board(PieceKind::Pawn).has(t) == b2.pawns.has(t));
        }
        assert(b2.occupancy() =~= self.occupancy());
        self.lemma_kings_kept(b2);
    }

    /// Where another board holds kings on the same squares, it has the same
    /// kings.
    pub proof fn lemma_kings_kept(self, other: ChessBoard)
        requires
            self.wf(),
            forall|t: int, tm: Team|
                other.holds(t, tm, PieceKind::King) == self.holds(t, tm, PieceKind::King),
        ensures
            other.king_on(Team::White, self.king_sq(Team::White)),
            other.king_on(Team::Black, self.king_sq(Team::Black)),
            other.king_sq(Team::White) == self.king_sq(Team::White),
            other.king_sq(Team::Black) == self.king_sq(Team::Black),
    {
        let wk = self.king_sq(Team::White);
        let bk = self.king_sq(Team::Black);
        assert(self.king_on(Team::White, wk));
        assert(self.king_on(Team::Black, bk));
        assert forall|t: int| other.holds(t, Team::White, PieceKind::King) <==> t == wk by {
            assert(self.holds(t, Team::White, PieceKind::King) <==> t == wk);
        }
        assert forall|t: int| other.holds(t, Team::Black, PieceKind::King) <==> t == bk by {
            assert(self.holds(t, Team::Black, PieceKind::King) <==> t == bk);
        }
        other.lemma_king_sq(Team::White, wk);
        other.lemma_king_sq(Team::Black, bk);
    }

    /// The board after `team` has castled on the given side.
    pub open spec fn castled(self, team: Team, kingside: bool) -> ChessBoard {
        self.switched(team, PieceKind::King, king_switch(team, kingside)).switched(
            team,
            PieceKind::Rook,
            rook_switch(team, kingside),
        )
    }

    /// What castling does: king and rook stand on their new squares, their
    /// old squares are empty, and nothing else has changed. The board stays
    /// well formed.
    pub proof fn lemma_castled(self, team: Team, kingside: bool)
        requires
            self.wf(),
            self.holds(king_home(team), team, PieceKind::King),
            self.holds(rook_home(team, kingside), team, PieceKind::Rook),
            !self.occupied(castle_king_to(team, kingside)),
            !self.occupied(castle_rook_to(team, kingside)),
        ensures
            self.castled(team, kingside).wf(),
            forall|t: int, tm: Team, k: PieceKind| #[trigger]
                self.castled(team, kingside).holds(t, tm, k) == if t == castle_king_to(
                    team,
                    kingside,
                ) {
                    tm == team && k == PieceKind::King
                } else if t == castle_rook_to(team, kingside) {
                    tm == team && k == PieceKind::Rook
                } else if t == king_home(team) || t == rook_home(team, kingside) {
                    false
                } else {
                    self.holds(t, tm, k)
                },
            forall|t: int| #[trigger]
                self.castled(team, kingside).occupied(t) == if t == castle_king_to(team, kingside)
                    || t == castle_rook_to(team, kingside) {
                    true
                } else if t == king_home(team) || t == rook_home(team, kingside) {
                    false
                } else {
                    self.occupied(t)
                },
            self.castled(team, kingside).king_sq(team) == castle_king_to(team, kingside),
            self.castled(team, kingside).king_sq(team.spec_enemy()) == self.king_sq(
                team.spec_enemy(),
            ),
    {
        let ks = king_switch(team, kingside);
        let rs = rook_switch(team, kingside);
        let kf = king_home(team);
        let kt = castle_king_to(team, kingside);
        let rf = rook_home(team, kingside);
        let rt = castle_rook_to(team, kingside);
        let enemy = team.spec_enemy();
        let b1 = self.switched(team, PieceKind::King, ks);
        let b2 = b1.switched(team, PieceKind::Rook, rs);
        lemma_castle_masks(team, kingside);
        self.lemma_switched(team, PieceKind::King, ks);
        b1.lemma_switched(team, PieceKind::Rook, rs);
        assert(on_board(kf) && on_board(kt) && on_board(rf) && on_board(rt));
        assert(self.square_wf(kf));
        assert(self.square_wf(kt));
        assert(self.square_wf(rf));
        assert(self.square_wf(rt));
        assert forall|t: int, tm: Team| #[trigger]
            b2.team_board(tm).has(t) == if tm == team && (t == kt || t == rt) {
                true
            } else if tm == team && (t == kf || t == rf) {
                false
            } else {
                self.team_board(tm).has(t)
            } by {
            if on_board(t) {
                assert(b1.team_board(tm).has(t) == if tm == team {
                    self.team_board(tm).has(t) != ks.has(t)
                } else {
                    self.team_board(tm).has(t)
                });
            }
        }
        assert forall|t: int, k: PieceKind| #[trigger]
            b2.kind_board(k).has(t) == if k == PieceKind::King && t == kt {
                true
            } else if k == PieceKind::King && t == kf {
                false
            } else if k == PieceKind::Rook && t == rt {
                true
            } else if k == PieceKind::Rook && t == rf {
                false
            } else {
                self.kind_board(k).has(t)
            } by {
            if on_board(t) {
                assert(b1.kind_board(k).has(t) == if k == PieceKind::King {
                    self.kind_board(k).has(t) != ks.has(t)
                } else {
                    self.kind_board(k).has(t)
                });
                assert(self.kind_board(PieceKind::King).has(t) == self.kings.has(t));
                assert(self.kind_board(PieceKind::Rook).has(t) == self.rooks.has(t));
            }
        }
        assert forall|t: int, tm: Team, k: PieceKind| #[trigger]
            b2.holds(t, tm, k) == if t == kt {
                tm == team && k == PieceKind::King
            } else if t == rt {
                tm == team && k == PieceKind::Rook
            } else if t == kf || t == rf {
                false
            } else {
                self.holds(t, tm, k)
            } by {
            assert(b2.team_board(tm).has(t) == b2.team_board(tm).has(t));
            assert(b2.kind_board(k).has(t) == b2.kind_board(k).has(t));
            assert(self.kind_board(PieceKind::King).has(t) == self.kings.has(t));
            assert(self.kind_board(PieceKind::Queen).has(t) == self.queens.has(t));
            assert(self.kind_board(PieceKind::Rook).has(t) == self.rooks.has(t));
            assert(self.kind_board(PieceKind::Bishop).has(t) == self.bishops.has(t));
            assert(self.kind_board(PieceKind::Knight).has(t) == self.knights.has(t));
            assert(self.kind_board(PieceKind::Pawn).has(t) == self.pawns.has(t));
            assert(self.team_board(Team::White).has(t) == self.whites.has(t));
            assert(self.team_board(Team::Black).has(t) == self.blacks.has(t));
        }
        assert forall|t: int| #[trigger]
            b2.occupied(t) == if t == kt || t == rt {
                true
            } else if t == kf || t == rf {
                false
            } else {
                self.occupied(t)
            } by {
            assert(b2.team_board(Team::White).has(t) == b2.whites.has(t));
            assert(b2.team_board(Team::Black).has(t) == b2.blacks.has(t));
            assert(self.team_board(Team::White).has(t) == self.whites.has(t));
            assert(self.team_board(Team::Black).has(t) == self.blacks.has(t));
        }
        assert forall|t: int| on_board(t) implies b2.square_wf(t) by {
            assert(self.square_wf(t));
            assert(b2.team_board(Team::White).has(t) == b2.whites.has(t));
            assert(b2.team_board(Team::Black).has(t) == b2.blacks.has(t));
            assert(self.team_board(Team::White).has(t) == self.whites.has(t));
            assert(self.team_board(Team::Black).has(t) == self.blacks.has(t));
            assert(b2.kind_board(PieceKind::King).has(t) == b2.kings.has(t));
            assert(b2.kind_board(PieceKind::Queen).has(t) == b2.queens.has(t));
            assert(b2.kind_board(PieceKind::Rook).has(t) == b2.rooks.has(t));
            assert(b2.kind_board(PieceKind::Bishop).has(t) == b2.bishops.has(t));
            assert(b2.kind_board(PieceKind::Knight).has(t) == b2.knights.has(t));
            assert(b2.kind_board(PieceKind::Pawn).has(t) == b2.pawns.has(t));
            assert(self.kind_board(PieceKind::King).has(t) == self.kings.has(t));
            assert(self.kind_board(PieceKind::Queen).has(t) == self.queens.has(t));
            assert(self.kind_board(PieceKind::Rook).has(t) == self.rooks.has(t));
            assert(self.kind_board(PieceKind::Bishop).has(t) == self.bishops.has(t));
            assert(self.kind_board(PieceKind::Knight).has(t) == self.knights.has(t));
            assert(self.kind_board(PieceKind::Pawn).has(t) == self.pawns.has(t));
        }
        let own = self.king_sq(team);
        let ek = self.king_sq(enemy);
        assert(self.king_on(team, own));
        assert(self.king_on(enemy, ek));
        assert(own == kf);
        assert(self.holds(ek, enemy, PieceKind::King));
        assert(b2.king_on(team, kt)) by {
            assert forall|t: int| b2.holds(t, team, PieceKind::King) <==> t == kt by {
                assert(self.holds(t, team, PieceKind::King) <==> t == kf);
            }
        }
        assert(b2.king_on(enemy, ek)) by {
            assert forall|t: int| b2.holds(t, enemy, PieceKind::King) <==> t == ek by {
                assert(self.holds(t, enemy, PieceKind::King) <==> t == ek);
            }
        }
        b2.lemma_king_sq(team, kt);
        b2.lemma_king_sq(enemy, ek);
    }

    /// Castling leaves the king unattacked on the square where it lands,
    /// where that square was unattacked before.
    pub proof fn lemma_castled_king_safe(self, team: Team, kingside: bool)
        requires
            self.wf(),
            self.holds(king_home(team), team, PieceKind::King),
            self.holds(rook_home(team, kingside), team, PieceKind::Rook),
            !self.occupied(castle_king_to(team, kingside)),
            !self.occupied(castle_rook_to(team, kingside)),
            !self.attacked_by(castle_king_to(team, kingside), team.spec_enemy()),
        ensures
            self.castled(team, kingside).king_safe(team),
    {
        let b2 = self.castled(team, kingside);
        let enemy = team.spec_enemy();
        let kt = castle_king_to(team, kingside);
        let rt = castle_rook_to(team, kingside);
        let occ1 = self.occupancy();
        let occ2 = b2.occupancy();
        self.lemma_castled(team, kingside);
        assert(castled_occupancy(occ1, occ2, team, kingside)) by {
            assert forall|s: int| #[trigger]
                occ2.contains(s) == if s == kt || s == rt {
                    true
                } else if s == king_home(team) || s == rook_home(team, kingside) {
                    false
                } else {
                    occ1.contains(s)
                } by {
                assert(occ2.contains(s) == b2.occupied(s));
                assert(occ1.contains(s) == self.occupied(s));
            }
        }
        if b2.attacked_by(kt, enemy) {
            let p = choose|p: int| #[trigger] b2.attacks_from(p, kt, enemy);
            let kind = if b2.attacks_as(PieceKind::King, p, kt, enemy) {
                PieceKind::King
            } else if b2.attacks_as(PieceKind::Queen, p, kt, enemy) {
                PieceKind::Queen
            } else if b2.attacks_as(PieceKind::Rook, p, kt, enemy) {
                PieceKind::Rook
            } else if b2.attacks_as(PieceKind::Bishop, p, kt, enemy) {
                PieceKind::Bishop
            } else if b2.attacks_as(PieceKind::Knight, p, kt, enemy) {
                PieceKind::Knight
            } else {
                PieceKind::Pawn
            };
            assert(b2.attacks_as(kind, p, kt, enemy));
            assert(b2.holds(p, enemy, kind));
            assert(self.holds(p, enemy, kind));
            assert(p != rt);
            if on_ray(p, 1, 0, kt, occ2) {
                lemma_castle_ray(p, 1, 0, occ1, occ2, team, kingside);
            }
            if on_ray(p, -1, 0, kt, occ2) {
                lemma_castle_ray(p, -1, 0, occ1, occ2, team, kingside);
            }
            if on_ray(p, 0, 1, kt, occ2) {
                lemma_castle_ray(p, 0, 1, occ1, occ2, team, kingside);
            }
            if on_ray(p, 0, -1, kt, occ2) {
                lemma_castle_ray(p, 0, -1, occ1, occ2, team, kingside);
            }
            if on_ray(p, 1, 1, kt, occ2) {
                lemma_castle_ray(p, 1, 1, occ1, occ2, team, kingside);
            }
            if on_ray(p, 1, -1, kt, occ2) {
                lemma_castle_ray(p, 1, -1, occ1, occ2, team, kingside);
            }
            if on_ray(p, -1, 1, kt, occ2) {
                lemma_castle_ray(p, -1, 1, occ1, occ2, team, kingside);
            }
            if on_ray(p, -1, -1, kt, occ2) {
                lemma_castle_ray(p, -1, -1, occ1, occ2, team, kingside);
            }
            assert(attack_set(kind, enemy, p, occ1).contains(kt));
            assert(self.attacks_as(kind, p, kt, enemy));
            assert(self.attacks_from(p, kt, enemy));
        }
    }

    /// On a well-formed square, `piece_at` names the one team and kind that
    /// hold it.
    pub proof fn lemma_piece_at(self, sq: int)
        requires
            on_board(sq),
            self.square_wf(sq),
        ensures
            forall|tm: Team, k: PieceKind|
                self.holds(sq, tm, k) <==> self.piece_at(sq) == Some(PieceInfo { kind: k, team: tm }),
            self.occupied(sq) <==> self.piece_at(sq).is_some(),
    {
        assert forall|tm: Team, k: PieceKind|
            self.holds(sq, tm, k) <==> self.piece_at(sq) == Some(
                PieceInfo { kind: k, team: tm },
            ) by {
            assert(self.team_board(Team::White).has(sq) == self.whites.has(sq));
            assert(self.team_board(Team::Black).has(sq) == self.blacks.has(sq));
        }
    }
}

impl ChessBoard {
    /// The board at the start of a game.
    pub open spec fn standard() -> ChessBoard {
        ChessBoard {
            whites: Bitboard { data: ROW_1 | ROW_2 },
            blacks: Bitboard { data: ROW_7 | ROW_8 },
            pawns: Bitboard { data: ROW_2 | ROW_7 },
            knights: Bitboard { data: B1 | G1 | B8 | G8 },
            rooks: Bitboard { data: A1 | A8 | H1 | H8 },
            bishops: Bitboard { data: C1 | C8 | F1 | F8 },
            queens: Bitboard { data: D1 | D8 },
            kings: Bitboard { data: E1 | E8 },
        }
    }

    /// Square by square, what stands on the board at the start of a game.
    pub proof fn lemma_standard_squares()
        ensures
            forall|t: int| #[trigger]
                Self::standard().whites.has(t) == (0 <= t < 16),
            forall|t: int| #[trigger] Self::standard().blacks.has(t) == (48 <= t < 64),
            forall|t: int| #[trigger]
                Self::standard().pawns.has(t) == (8 <= t < 16 || 48 <= t < 56),
            forall|t: int| #[trigger]
                Self::standard().knights.has(t) == (t == 1 || t == 6 || t == 57 || t == 62),
            forall|t: int| #[trigger]
                Self::standard().rooks.has(t) == (t == 0 || t == 7 || t == 56 || t == 63),
            forall|t: int| #[trigger]
                Self::standard().bishops.has(t) == (t == 2 || t == 5 || t == 58 || t == 61),
            forall|t: int| #[trigger] Self::standard().queens.has(t) == (t == 3 || t == 59),
            forall|t: int| #[trigger] Self::standard().kings.has(t) == (t == 4 || t == 60),
    {
        broadcast use group_bit_ops;
    }

    /// The board at the start of a game is well formed, with the kings on
    /// their home squares.
    pub proof fn lemma_standard_wf()
        ensures
            Self::standard().wf(),
            Self::standard().king_sq(Team::White) == 4,
            Self::standard().king_sq(Team::Black) == 60,
    {
        let b = Self::standard();
        Self::lemma_standard_squares();
        assert forall|t: int| on_board(t) implies b.square_wf(t) by {
            assert(b.whites.has(t) == (0 <= t < 16));
            assert(b.blacks.has(t) == (48 <= t < 64));
            assert(b.pawns.has(t) == (8 <= t < 16 || 48 <= t < 56));
            assert(b.knights.has(t) == (t == 1 || t == 6 || t == 57 || t == 62));
            assert(b.rooks.has(t) == (t == 0 || t == 7 || t == 56 || t == 63));
            assert(b.bishops.has(t) == (t == 2 || t == 5 || t == 58 || t == 61));
            assert(b.queens.has(t) == (t == 3 || t == 59));
            assert(b.kings.has(t) == (t == 4 || t == 60));
        }
        assert(b.king_on(Team::White, 4)) by {
            assert forall|t: int| b.holds(t, Team::White, PieceKind::King) <==> t == 4 by {
                assert(b.whites.has(t) == (0 <= t < 16));
                assert(b.kings.has(t) == (t == 4 || t == 60));
            }
        }
        assert(b.king_on(Team::Black, 60)) by {
            assert forall|t: int| b.holds(t, Team::Black, PieceKind::King) <==> t == 60 by {
                assert(b.blacks.has(t) == (48 <= t < 64));
                assert(b.kings.has(t) == (t == 4 || t == 60));
            }
        }
        b.lemma_king_sq(Team::White, 4);
        b.lemma_king_sq(Team::Black, 60);
    }

    /// At the start of a game no white piece attacks the black king.
    pub proof fn lemma_standard_safe()
        ensures
            Self::standard().king_safe(Team::Black),
    {
        let b = Self::standard();
        let occ = b.occupancy();
        Self::lemma_standard_squares();
        Self::lemma_standard_wf();
        if b.attacked_by(60, Team::White) {
            let from = choose|from: int| #[trigger] b.attacks_from(from, 60, Team::White);
            assert(b.whites.has(from) == (0 <= from < 16));
            assert(b.pawns.has(from) == (8 <= from < 16 || 48 <= from < 56));
            assert(b.knights.has(from) == (from == 1 || from == 6 || from == 57 || from == 62));
            assert(b.rooks.has(from) == (from == 0 || from == 7 || from == 56 || from == 63));
            assert(b.bishops.has(from) == (from == 2 || from == 5 || from == 58 || from == 61));
            assert(b.queens.has(from) == (from == 3 || from == 59));
            assert(b.kings.has(from) == (from == 4 || from == 60));
            assert(0 <= from < 8) by {
                if 8 <= from < 16 {
                    assert(!b.attacks_as(PieceKind::Pawn, from, 60, Team::White));
                }
            }
            assert(distance(from, 60) == 7);
            assert forall|dr: int, dc: int| is_direction(dr, dc) implies !on_ray(
                from,
                dr,
                dc,
                60,
                occ,
            ) by {
                if on_ray(from, dr, dc, 60, occ) {
                    let s = step_sq(from, dr, dc, 1);
                    assert(dr == 1);
                    assert(8 <= s < 16);
                    assert(b.whites.has(s) == (0 <= s < 16));
                    assert(b.occupied(s));
                    assert(occ.contains(s));
                }
            }
            assert(!on_ray(from, 1, 0, 60, occ) && !on_ray(from, -1, 0, 60, occ) && !on_ray(
                from,
                0,
                1,
                60,
                occ,
            ) && !on_ray(from, 0, -1, 60, occ));
            assert(!on_ray(from, 1, 1, 60, occ) && !on_ray(from, 1, -1, 60, occ) && !on_ray(
                from,
                -1,
                1,
                60,
                occ,
            ) && !on_ray(from, -1, -1, 60, occ));
            assert(false);
        }
    }
}

impl Default for ChessBoard {
    /// The board at the start of a game.
    fn default() -> (b: ChessBoard)
        ensures
            b == ChessBoard::standard(),
            b.wf(),
    {
        proof {
            ChessBoard::lemma_standard_wf();
        }
        ChessBoard {
            whites: Bitboard::from_bits(ROW_1 | ROW_2),
            blacks: Bitboard::from_bits(ROW_7 | ROW_8),
            pawns: Bitboard::from_bits(ROW_2 | ROW_7),
            knights: Bitboard::from_bits(B1 | G1 | B8 | G8),
            rooks: Bitboard::from_bits(A1 | A8 | H1 | H8),
            bishops: Bitboard::from_bits(C1 | C8 | F1 | F8),
            queens: Bitboard::from_bits(D1 | D8),
            kings: Bitboard::from_bits(E1 | E8),
        }
    }
}

} // verus!
