//! The game: moves, castling rights, and the position itself, which is the
//! board with castling rights, en passant square, side to move and clocks;
//! and which positions play can reach.

use vstd::prelude::*;
use crate::bitboard::Bitboard;
use crate::board::{king_home, rook_home, ChessBoard};
use crate::geometry::{forward, row_of};
use crate::movegen::last_row;
use crate::piece::{PieceInfo, PieceKind, Team};
use crate::position::Position;

verus! {

/// What a pawn becomes on the last row.
#[derive(Debug, Clone, Copy, PartialEq, Eq, Structural)]
pub enum Promotion {
    Queen,
    Rook,
    Bishop,
    Knight,
}

impl Promotion {
    /// The kind of piece that the pawn becomes.
    pub open spec fn spec_kind(self) -> PieceKind {
        match self {
            Promotion::Knight => PieceKind::Knight,
            Promotion::Bishop => PieceKind::Bishop,
            Promotion::Queen => PieceKind::Queen,
            Promotion::Rook => PieceKind::Rook,
        }
    }

    /// The kind of piece that the pawn becomes.
    #[verifier::when_used_as_spec(spec_kind)]
    pub fn kind(self) -> (k: PieceKind)
        ensures
            k == self.spec_kind(),
    {
        match self {
            Promotion::Knight => PieceKind::Knight,
            Promotion::Bishop => PieceKind::Bishop,
            Promotion::Queen => PieceKind::Queen,
            Promotion::Rook => PieceKind::Rook,
        }
    }
}

/// A piece going from one square to another.
#[derive(Debug, Clone, Copy, PartialEq, Eq, Structural)]
pub struct RawMove {
    pub to: Position,
    pub from: Position,
    pub piece: PieceInfo,
}

impl RawMove {
    /// The move of `piece` from `from` to `to`.
    pub fn new(from: Position, to: Position, piece: PieceInfo) -> (m: RawMove)
        ensures
            m == (RawMove { from, to, piece }),
    {
        RawMove { from, to, piece }
    }

    /// The move of `piece` from square `from` to square `to`.
    pub open spec fn of(from: int, to: int, piece: PieceInfo) -> RawMove {
        RawMove { from: Position::at(from), to: Position::at(to), piece }
    }
}

#[derive(Debug, Clone, Copy, PartialEq, Eq, Structural)]
pub enum GameMove {
    Promote { promotion: Promotion, mov: RawMove },
    CapturePromote { promotion: Promotion, mov: RawMove },
    CastleKingside(Team),
    CastleQueenside(Team),
    Enpassant(RawMove),
    Regular(RawMove),
    Capture(RawMove),
}

#[derive(Debug, Clone, Copy, PartialEq, Eq, Structural)]
pub enum GameState {
    WhiteToMove,
    BlackToMove,
    WhiteVictory,
    BlackVictory,
    Stalemate,
}

impl Default for GameState {
    /// White is to move.
    fn default() -> (s: GameState)
        ensures
            s == GameState::WhiteToMove,
    {
        GameState::WhiteToMove
    }
}

/// Why no moves were generated.
#[derive(Debug, Clone, Copy, PartialEq, Eq, Structural)]
pub enum MoveGenerationError {
    /// The game is over; the state says how it ended.
    GameFinished(GameState),
}

/// The four castling rights as plain values.
pub struct CastleRights {
    pub white_kingside: bool,
    pub white_queenside: bool,
    pub black_kingside: bool,
    pub black_queenside: bool,
}

/// The four castling rights, packed into the low four bits of a byte: bit 3
/// white kingside, bit 2 white queenside, bit 1 black kingside, bit 0 black
/// queenside.
#[derive(Debug, Clone, Copy)]
pub struct CastleInfo(u8);

impl CastleInfo {
    /// Only the low four bits are used.
    #[verifier::type_invariant]
    pub closed spec fn canonical(self) -> bool {
        self.0 < 16
    }

    /// The packed form of the rights `r`.
    pub closed spec fn of(r: CastleRights) -> CastleInfo {
        CastleInfo(
            ((if r.white_kingside {
                8int
            } else {
                0int
            }) + (if r.white_queenside {
                4int
            } else {
                0int
            }) + (if r.black_kingside {
                2int
            } else {
                0int
            }) + (if r.black_queenside {
                1int
            } else {
                0int
            })) as u8,
        )
    }

    /// Packed rights are the packed form of what they say.
    pub proof fn lemma_canonical(self)
        requires
            self.canonical(),
        ensures
            self == CastleInfo::of(self@),
    {
        let x = self.0;
        assert(x < 16 ==> x == (if x & 0b1000 != 0 {
            8u8
        } else {
            0u8
        }) + (if x & 0b0100 != 0 {
            4u8
        } else {
            0u8
        }) + (if x & 0b0010 != 0 {
            2u8
        } else {
            0u8
        }) + (if x & 0b0001 != 0 {
            1u8
        } else {
            0u8
        })) by (bit_vector);
    }

    /// The four rights as plain values.
    pub closed spec fn view(self) -> CastleRights {
        CastleRights {
            white_kingside: self.0 & 0b1000 != 0,
            white_queenside: self.0 & 0b0100 != 0,
            black_kingside: self.0 & 0b0010 != 0,
            black_queenside: self.0 & 0b0001 != 0,
        }
    }

    /// Takes away white's right to castle kingside.
    pub fn unset_white_kingside(&mut self)
        ensures
            final(self)@ == (CastleRights { white_kingside: false, ..old(self)@ }),
    {
        let x: u8 = self.0;
        proof {
            use_type_invariant(&*self);
        }
        assert((x & 0b0111) & 0b1000 == 0 && (x & 0b0111) & 0b0100 == x & 0b0100 && (x & 0b0111)
            & 0b0010 == x & 0b0010 && (x & 0b0111) & 0b0001 == x & 0b0001 && (x < 16 ==> x & 0b0111 < 16)) by (bit_vector);
        self.0 = x & 0b0111;
    }

    /// Takes away white's right to castle queenside.
    pub fn unset_white_queenside(&mut self)
        ensures
            final(self)@ == (CastleRights { white_queenside: false, ..old(self)@ }),
    {
        let x: u8 = self.0;
        proof {
            use_type_invariant(&*self);
        }
        assert((x & 0b1011) & 0b1000 == x & 0b1000 && (x & 0b1011) & 0b0100 == 0 && (x & 0b1011)
            & 0b0010 == x & 0b0010 && (x & 0b1011) & 0b0001 == x & 0b0001 && (x < 16 ==> x & 0b1011 < 16)) by (bit_vector);
        self.0 = x & 0b1011;
    }

    /// Takes away black's right to castle kingside.
    pub fn unset_black_kingside(&mut self)
        ensures
            final(self)@ == (CastleRights { black_kingside: false, ..old(self)@ }),
    {
        let x: u8 = self.0;
        proof {
            use_type_invariant(&*self);
        }
        assert((x & 0b1101) & 0b1000 == x & 0b1000 && (x & 0b1101) & 0b0100 == x & 0b0100 && (x
            & 0b1101) & 0b0010 == 0 && (x & 0b1101) & 0b0001 == x & 0b0001 && (x < 16 ==> x & 0b1101 < 16)) by (bit_vector);
        self.0 = x & 0b1101;
    }

    /// Takes away black's right to castle queenside.
    pub fn unset_black_queenside(&mut self)
        ensures
            final(self)@ == (CastleRights { black_queenside: false, ..old(self)@ }),
    {
        let x: u8 = self.0;
        proof {
            use_type_invariant(&*self);
        }
        assert((x & 0b1110) & 0b1000 == x & 0b1000 && (x & 0b1110) & 0b0100 == x & 0b0100 && (x
            & 0b1110) & 0b0010 == x & 0b0010 && (x & 0b1110) & 0b0001 == 0 && (x < 16 ==> x & 0b1110 < 16)) by (bit_vector);
        self.0 = x & 0b1110;
    }

    /// Takes away both of white's rights.
    pub fn unset_white(&mut self)
        ensures
            final(self)@ == (CastleRights {
                white_kingside: false,
                white_queenside: false,
                ..old(self)@
            }),
    {
        let x: u8 = self.0;
        proof {
            use_type_invariant(&*self);
        }
        assert((x & 0b0011) & 0b1000 == 0 && (x & 0b0011) & 0b0100 == 0 && (x & 0b0011) & 0b0010
            == x & 0b0010 && (x & 0b0011) & 0b0001 == x & 0b0001 && (x < 16 ==> x & 0b0011 < 16)) by (bit_vector);
        self.0 = x & 0b0011;
    }

    /// Takes away both of black's rights.
    pub fn unset_black(&mut self)
        ensures
            final(self)@ == (CastleRights {
                black_kingside: false,
                black_queenside: false,
                ..old(self)@
            }),
    {
        let x: u8 = self.0;
        proof {
            use_type_invariant(&*self);
        }
        assert((x & 0b1100) & 0b1000 == x & 0b1000 && (x & 0b1100) & 0b0100 == x & 0b0100 && (x
            & 0b1100) & 0b0010 == 0 && (x & 0b1100) & 0b0001 == 0 && (x < 16 ==> x & 0b1100 < 16)) by (bit_vector);
        self.0 = x & 0b1100;
    }

    /// Whether white still has the right to castle kingside.
    pub fn white_kingside(&self) -> (r: bool)
        ensures
            r == self@.white_kingside,
    {
        self.0 & 0b1000 != 0
    }

    /// Whether white still has the right to castle queenside.
    pub fn white_queenside(&self) -> (r: bool)
        ensures
            r == self@.white_queenside,
    {
        self.0 & 0b0100 != 0
    }

    /// Whether black still has the right to castle kingside.
    pub fn black_kingside(&self) -> (r: bool)
        ensures
            r == self@.black_kingside,
    {
        self.0 & 0b0010 != 0
    }

    /// Whether black still has the right to castle queenside.
    pub fn black_queenside(&self) -> (r: bool)
        ensures
            r == self@.black_queenside,
    {
        self.0 & 0b0001 != 0
    }
}

impl Default for CastleInfo {
    /// All four rights.
    fn default() -> (c: CastleInfo)
        ensures
            c@ == (CastleRights {
                white_kingside: true,
                white_queenside: true,
                black_kingside: true,
                black_queenside: true,
            }),
    {
        assert(0b1111u8 & 0b1000 != 0 && 0b1111u8 & 0b0100 != 0 && 0b1111u8 & 0b0010 != 0
            && 0b1111u8 & 0b0001 != 0) by (bit_vector);
        CastleInfo(0b1111)
    }
}

/// A position of a game.
#[derive(Debug, Clone, Copy)]
pub struct Game {
    pub board: ChessBoard,
    /// Plies since the last pawn move or capture.
    pub halfmove_num: u64,
    pub fullmove_num: u64,
    /// The square a pawn may capture into en passant, or no square.
    pub enpassant: Bitboard,
    pub castling: CastleInfo,
    pub state: GameState,
}

impl Game {
    /// The team whose turn it is, while the game goes on.
    pub open spec fn active_team(self) -> Option<Team> {
        match self.state {
            GameState::WhiteToMove => Some(Team::White),
            GameState::BlackToMove => Some(Team::Black),
            _ => None,
        }
    }

    /// Whether `team` still has the right to castle on the given side.
    pub open spec fn right(self, team: Team, kingside: bool) -> bool {
        match team {
            Team::White => if kingside {
                self.castling@.white_kingside
            } else {
                self.castling@.white_queenside
            },
            Team::Black => if kingside {
                self.castling@.black_kingside
            } else {
                self.castling@.black_queenside
            },
        }
    }

    /// The en passant square is `e`, and `team` may capture into it: it is
    /// empty, and the enemy pawn that jumped over it stands one row behind.
    pub open spec fn ep_at(self, team: Team, e: int) -> bool {
        &&& self.enpassant.single(e)
        &&& row_of(e) == last_row(team) - 2 * forward(team)
        &&& !self.board.occupied(e)
        &&& self.board.holds(e - 8 * forward(team), team.spec_enemy(), PieceKind::Pawn)
    }

    /// There is no en passant square, or one that `team` may capture into.
    pub open spec fn ep_valid_for(self, team: Team) -> bool {
        self.enpassant.data == 0 || exists|e: int| self.ep_at(team, e)
    }

    /// The en passant square, where there is one.
    pub open spec fn ep_square(self) -> int {
        choose|e: int| self.enpassant.single(e)
    }

    /// The team whose turn it is, while the game goes on.
    pub fn get_active_team(&self) -> (r: Option<Team>)
        ensures
            r == self.active_team(),
    {
        match self.state {
            GameState::WhiteToMove => Some(Team::White),
            GameState::BlackToMove => Some(Team::Black),
            _ => None,
        }
    }

    /// Flips the squares of `sw` in all eight sets of the board.
    pub fn switch(&mut self, sw: Bitboard)
        ensures
            final(self).board.kings.data == old(self).board.kings.data ^ sw.data,
            final(self).board.queens.data == old(self).board.queens.data ^ sw.data,
            final(self).board.rooks.data == old(self).board.rooks.data ^ sw.data,
            final(self).board.bishops.data == old(self).board.bishops.data ^ sw.data,
            final(self).board.knights.data == old(self).board.knights.data ^ sw.data,
            final(self).board.pawns.data == old(self).board.pawns.data ^ sw.data,
            final(self).board.whites.data == old(self).board.whites.data ^ sw.data,
            final(self).board.blacks.data == old(self).board.blacks.data ^ sw.data,
            final(self).halfmove_num == old(self).halfmove_num,
            final(self).fullmove_num == old(self).fullmove_num,
            final(self).enpassant == old(self).enpassant,
            final(self).castling == old(self).castling,
            final(self).state == old(self).state,
    {
        self.board.kings = self.board.kings.combine_with_exclusively(sw);
        self.board.queens = self.board.queens.combine_with_exclusively(sw);
        self.board.rooks = self.board.rooks.combine_with_exclusively(sw);
        self.board.bishops = self.board.bishops.combine_with_exclusively(sw);
        self.board.knights = self.board.knights.combine_with_exclusively(sw);
        self.board.pawns = self.board.pawns.combine_with_exclusively(sw);
        self.board.whites = self.board.whites.combine_with_exclusively(sw);
        self.board.blacks = self.board.blacks.combine_with_exclusively(sw);
    }

    /// Cuts all eight sets of the board down to the squares of `mask`.
    pub fn mask(&mut self, mask: Bitboard)
        ensures
            final(self).board == old(self).board.masked(mask),
            final(self).halfmove_num == old(self).halfmove_num,
            final(self).fullmove_num == old(self).fullmove_num,
            final(self).enpassant == old(self).enpassant,
            final(self).castling == old(self).castling,
            final(self).state == old(self).state,
    {
        self.board.kings = self.board.kings.where_also(mask);
        self.board.queens = self.board.queens.where_also(mask);
        self.board.rooks = self.board.rooks.where_also(mask);
        self.board.bishops = self.board.bishops.where_also(mask);
        self.board.knights = self.board.knights.where_also(mask);
        self.board.pawns = self.board.pawns.where_also(mask);
        self.board.whites = self.board.whites.where_also(mask);
        self.board.blacks = self.board.blacks.where_also(mask);
    }

    /// Every castling right that is left belongs to a king and a rook that
    /// stand where they started.
    pub open spec fn castling_ok(self) -> bool {
        forall|team: Team, kingside: bool| #[trigger]
            self.right(team, kingside) ==> self.board.holds(
                king_home(team),
                team,
                PieceKind::King,
            ) && self.board.holds(rook_home(team, kingside), team, PieceKind::Rook)
    }

    /// The position is one that play can reach: the board is well formed,
    /// the castling rights fit the board, and while the game goes on the en
    /// passant square fits the side to move, the side that has just moved
    /// has not left its king attacked, and the halfmove clock is below 100.
    pub open spec fn wf(self) -> bool {
        &&& self.board.wf()
        &&& self.castling_ok()
        &&& match self.active_team() {
            Some(team) => self.ep_valid_for(team) && self.board.king_safe(team.spec_enemy())
                && self.halfmove_num < 100,
            None => true,
        }
    }

    /// Where the en passant set is the one square `e`, that is the en
    /// passant square.
    pub proof fn lemma_ep_square(self, e: int)
        requires
            self.enpassant.single(e),
        ensures
            self.ep_square() == e,
            self.enpassant.data != 0,
    {
        let c = self.ep_square();
        assert(self.enpassant.single(c));
        assert(self.enpassant.has(e));
        self.enpassant.lemma_empty();
    }
}

impl Game {
    /// Whether the castling rights that are left fit the board.
    pub fn castling_fits(&self) -> (ok: bool)
        ensures
            ok == self.castling_ok(),
    {
        let wk = self.board.pieces(Team::White, PieceKind::King).where_also(
            Bitboard::from_piece_index(4),
        ).empty();
        let bk = self.board.pieces(Team::Black, PieceKind::King).where_also(
            Bitboard::from_piece_index(60),
        ).empty();
        let wr = self.board.pieces(Team::White, PieceKind::Rook);
        let br = self.board.pieces(Team::Black, PieceKind::Rook);
        let wks = wr.where_also(Bitboard::from_piece_index(7)).empty();
        let wqs = wr.where_also(Bitboard::from_piece_index(0)).empty();
        let bks = br.where_also(Bitboard::from_piece_index(63)).empty();
        let bqs = br.where_also(Bitboard::from_piece_index(56)).empty();
        proof {
            self.board.pieces_of(Team::White, PieceKind::King).where_also_single(
                Bitboard { data: 1u64 << 4u64 },
                4,
            );
            self.board.pieces_of(Team::Black, PieceKind::King).where_also_single(
                Bitboard { data: 1u64 << 60u64 },
                60,
            );
            wr.where_also_single(Bitboard { data: 1u64 << 7u64 }, 7);
            wr.where_also_single(Bitboard { data: 1u64 << 0u64 }, 0);
            br.where_also_single(Bitboard { data: 1u64 << 63u64 }, 63);
            br.where_also_single(Bitboard { data: 1u64 << 56u64 }, 56);
        }
        let ok = (!self.castling.white_kingside() || (!wk && !wks)) && (
        !self.castling.white_queenside() || (!wk && !wqs)) && (!self.castling.black_kingside()
            || (!bk && !bks)) && (!self.castling.black_queenside() || (!bk && !bqs));
        proof {
            if ok {
                assert forall|team: Team, kingside: bool| #[trigger]
                    self.right(team, kingside) implies self.board.holds(
                    king_home(team),
                    team,
                    PieceKind::King,
                ) && self.board.holds(rook_home(team, kingside), team, PieceKind::Rook) by {}
            } else {
                assert(!(self.right(Team::White, true) ==> self.board.holds(
                    king_home(Team::White),
                    Team::White,
                    PieceKind::King,
                ) && self.board.holds(rook_home(Team::White, true), Team::White, PieceKind::Rook))
                    || !(self.right(Team::White, false) ==> self.board.holds(
                    king_home(Team::White),
                    Team::White,
                    PieceKind::King,
                ) && self.board.holds(rook_home(Team::White, false), Team::White, PieceKind::Rook))
                    || !(self.right(Team::Black, true) ==> self.board.holds(
                    king_home(Team::Black),
                    Team::Black,
                    PieceKind::King,
                ) && self.board.holds(rook_home(Team::Black, true), Team::Black, PieceKind::Rook))
                    || !(self.right(Team::Black, false) ==> self.board.holds(
                    king_home(Team::Black),
                    Team::Black,
                    PieceKind::King,
                ) && self.board.holds(
                    rook_home(Team::Black, false),
                    Team::Black,
                    PieceKind::Rook,
                )));
            }
        }
        ok
    }

    /// Whether there is no en passant square, or one that `team` may
    /// capture into.
    pub fn en_passant_fits(&self, team: Team) -> (ok: bool)
        ensures
            ok == self.ep_valid_for(team),
    {
        if self.enpassant.empty() {
            return true;
        }
        proof {
            self.enpassant.lemma_count_one();
        }
        if self.enpassant.count() != 1 {
            proof {
                if self.ep_valid_for(team) {
                    let e = choose|e: int| self.ep_at(team, e);
                    assert(self.enpassant.single(e));
                }
            }
            return false;
        }
        let pos = self.enpassant.piece_position();
        let e: u8 = pos.integral();
        let row: u8 = pos.row();
        let wanted: u8 = match team {
            Team::White => 5,
            Team::Black => 2,
        };
        proof {
            self.lemma_ep_square(pos@);
            if self.ep_valid_for(team) {
                let f = choose|f: int| self.ep_at(team, f);
                self.lemma_ep_square(f);
            }
        }
        if row != wanted {
            return false;
        }
        let behind: u8 = match team {
            Team::White => e - 8,
            Team::Black => e + 8,
        };
        let world = self.board.world();
        let taken = self.board.pieces(team.enemy(), PieceKind::Pawn);
        let free = world.where_also(self.enpassant).empty();
        let there = !taken.where_also(Bitboard::from_piece_index(behind)).empty();
        proof {
            world.where_also_single(self.enpassant, pos@);
            taken.where_also_single(Bitboard { data: 1u64 << (behind as u64) }, behind as int);
            assert(free == !self.board.occupied(pos@));
            assert(there == self.board.holds(
                pos@ - 8 * forward(team),
                team.spec_enemy(),
                PieceKind::Pawn,
            ));
            if free && there {
                assert(self.ep_at(team, pos@));
            }
            if self.ep_valid_for(team) {
                let f = choose|f: int| self.ep_at(team, f);
                assert(self.ep_at(team, f));
                assert(f == pos@);
            }
        }
        free && there
    }

    /// Whether the position is one that play can reach: whether `wf` holds.
    pub fn is_valid(&self) -> (ok: bool)
        ensures
            ok == self.wf(),
    {
        if !self.board.verify() {
            return false;
        }
        let white_king = self.board.pieces(Team::White, PieceKind::King);
        let black_king = self.board.pieces(Team::Black, PieceKind::King);
        proof {
            white_king.lemma_count_one();
            black_king.lemma_count_one();
            assert((exists|sq: int| white_king.single(sq)) <==> (exists|sq: int|
                self.board.king_on(Team::White, sq))) by {
                if exists|sq: int| white_king.single(sq) {
                    let sq = choose|sq: int| white_king.single(sq);
                    assert(self.board.king_on(Team::White, sq)) by {
                        assert forall|t: int|
                            self.board.holds(t, Team::White, PieceKind::King) <==> t == sq by {
                            assert(white_king.has(t) <==> t == sq);
                        }
                    }
                }
                if exists|sq: int| self.board.king_on(Team::White, sq) {
                    let sq = choose|sq: int| self.board.king_on(Team::White, sq);
                    assert(white_king.single(sq)) by {
                        assert forall|t: int| white_king.has(t) <==> t == sq by {
                            assert(self.board.holds(t, Team::White, PieceKind::King) <==> t == sq);
                        }
                    }
                }
            }
            assert((exists|sq: int| black_king.single(sq)) <==> (exists|sq: int|
                self.board.king_on(Team::Black, sq))) by {
                if exists|sq: int| black_king.single(sq) {
                    let sq = choose|sq: int| black_king.single(sq);
                    assert(self.board.king_on(Team::Black, sq)) by {
                        assert forall|t: int|
                            self.board.holds(t, Team::Black, PieceKind::King) <==> t == sq by {
                            assert(black_king.has(t) <==> t == sq);
                        }
                    }
                }
                if exists|sq: int| self.board.king_on(Team::Black, sq) {
                    let sq = choose|sq: int| self.board.king_on(Team::Black, sq);
                    assert(black_king.single(sq)) by {
                        assert forall|t: int| black_king.has(t) <==> t == sq by {
                            assert(self.board.holds(t, Team::Black, PieceKind::King) <==> t == sq);
                        }
                    }
                }
            }
        }
        if white_king.count() != 1 || black_king.count() != 1 {
            return false;
        }
        if !self.castling_fits() {
            return false;
        }
        match self.get_active_team() {
            Some(team) => self.en_passant_fits(team) && self.board.is_valid_postmove(team.enemy())
                && self.halfmove_num < 100,
            None => true,
        }
    }
}

impl Default for Game {
    /// The start of a game: the standard board, white to move, all castling
    /// rights, no en passant square, both clocks at 0.
    fn default() -> (g: Game)
        ensures
            g.wf(),
            g.board == ChessBoard::standard(),
            g.state == GameState::WhiteToMove,
            g.halfmove_num == 0,
            g.fullmove_num == 0,
            g.enpassant.data == 0,
            g.castling@ == (CastleRights {
                white_kingside: true,
                white_queenside: true,
                black_kingside: true,
                black_queenside: true,
            }),
    {
        let g = Game {
            board: ChessBoard::default(),
            halfmove_num: 0,
            fullmove_num: 0,
            enpassant: Bitboard::const_default(),
            castling: CastleInfo::default(),
            state: GameState::default(),
        };
        proof {
            ChessBoard::lemma_standard_squares();
            ChessBoard::lemma_standard_safe();
            assert(g.castling_ok()) by {
                assert forall|team: Team, kingside: bool| #[trigger]
                    g.right(team, kingside) implies g.board.holds(
                    king_home(team),
                    team,
                    PieceKind::King,
                ) && g.board.holds(rook_home(team, kingside), team, PieceKind::Rook) by {
                    let b = g.board;
                    assert(b.whites.has(4) && b.whites.has(0) && b.whites.has(7));
                    assert(b.blacks.has(60) && b.blacks.has(56) && b.blacks.has(63));
                    assert(b.kings.has(4) && b.kings.has(60));
                    assert(b.rooks.has(0) && b.rooks.has(7) && b.rooks.has(56) && b.rooks.has(63));
                }
            }
        }
        g
    }
}

} // verus!
