//! The hash of a position, computed from scratch and kept up to date across
//! a move.

use vstd::prelude::*;
use crate::board::{castle_king_to, castle_rook_to, king_home, rook_home, ChessBoard};
use crate::game::{Game, GameMove, GameState, RawMove};
use crate::geometry::{col_of, forward, on_board};
use crate::piece::{PieceInfo, PieceKind, Team};
use crate::position::Position;
use crate::laws::lemma_cells_after;
use crate::zobrist::{ZKey, ZobKeys, ZobristHash};

verus! {

/// Exclusive or may be regrouped and reordered; a word folded with itself
/// is 0, and folded with 0 is itself.
pub proof fn lemma_xor_assoc(a: u64, b: u64, c: u64)
    by (bit_vector)
    ensures
        (a ^ b) ^ c == a ^ (b ^ c),
        a ^ b == b ^ a,
        a ^ 0 == a,
        0 ^ a == a,
        a ^ a == 0,
{
}

/// Replacing key `k` by key `v` in a fold changes it by both.
pub proof fn lemma_xor_replace(x: u64, k: u64, v: u64)
    by (bit_vector)
    ensures
        (x ^ k) ^ (k ^ v) == x ^ v,
{
}

/// A change may be folded in before or after the next key.
pub proof fn lemma_xor_swap(x: u64, d: u64, k: u64)
    by (bit_vector)
    ensures
        (x ^ d) ^ k == (x ^ k) ^ d,
{
}

/// The key of what stands on a square; nothing for an empty square.
pub open spec fn cell_key(keys: ZobKeys, cell: Option<PieceInfo>, sq: int) -> u64 {
    match cell {
        Some(p) => keys.piece_key(p.kind, p.team, sq),
        None => 0,
    }
}

/// The keys of the first `n` of `cells`, folded together.
pub open spec fn fold_cells(keys: ZobKeys, cells: Seq<Option<PieceInfo>>, n: int) -> u64
    decreases n,
{
    if n <= 0 {
        0
    } else {
        fold_cells(keys, cells, n - 1) ^ cell_key(keys, cells[n - 1], n - 1)
    }
}

/// What stands on each of the 64 squares of `board`.
pub open spec fn cells_of(board: ChessBoard) -> Seq<Option<PieceInfo>> {
    Seq::new(64, |sq: int| board.piece_at(sq))
}

/// The keys of the pieces of `board`, folded together.
pub open spec fn board_hash(keys: ZobKeys, board: ChessBoard) -> u64 {
    fold_cells(keys, cells_of(board), 64)
}

/// The bits of `key` where `present` holds, nothing where it does not.
pub open spec fn key_if(present: bool, key: ZKey) -> u64 {
    if present {
        key@
    } else {
        0
    }
}

/// The keys of what a position holds beside the board, folded together: one
/// for each castling right, one for the column of the en passant square
/// where there is one, and one where black is to move.
pub open spec fn flags_hash(keys: ZobKeys, g: Game) -> u64 {
    key_if(g.castling@.white_kingside, keys.castle_white_ks) ^ key_if(
        g.castling@.white_queenside,
        keys.castle_white_qs,
    ) ^ key_if(g.castling@.black_kingside, keys.castle_black_ks) ^ key_if(
        g.castling@.black_queenside,
        keys.castle_black_qs,
    ) ^ (if g.enpassant.data != 0 {
        keys.ep_key(col_of(g.ep_square()))
    } else {
        0
    }) ^ key_if(g.state == GameState::BlackToMove, keys.black_to_move)
}

/// The hash of position `g` under `keys`: the exclusive or of the keys of
/// all that is present in it.
pub open spec fn hash_of(keys: ZobKeys, g: Game) -> u64 {
    flags_hash(keys, g) ^ board_hash(keys, g.board)
}

/// A change on one square changes the fold by the key that was there and
/// the key that is there now.
pub proof fn lemma_fold_update(
    keys: ZobKeys,
    cells: Seq<Option<PieceInfo>>,
    a: int,
    v: Option<PieceInfo>,
    n: int,
)
    requires
        0 <= a < cells.len(),
        0 <= n <= cells.len(),
    ensures
        fold_cells(keys, cells.update(a, v), n) == fold_cells(keys, cells, n) ^ (if a < n {
            cell_key(keys, cells[a], a) ^ cell_key(keys, v, a)
        } else {
            0
        }),
    decreases n,
{
    let after = cells.update(a, v);
    if n <= 0 {
        lemma_xor_assoc(0, 0, 0);
    } else {
        lemma_fold_update(keys, cells, a, v, n - 1);
        let x = fold_cells(keys, cells, n - 1);
        let k = cell_key(keys, cells[n - 1], n - 1);
        if a == n - 1 {
            lemma_xor_assoc(x, 0, 0);
            lemma_xor_replace(x, k, cell_key(keys, v, a));
        } else if a < n - 1 {
            let d = cell_key(keys, cells[a], a) ^ cell_key(keys, v, a);
            lemma_xor_swap(x, d, k);
        } else {
            lemma_xor_assoc(x, 0, 0);
            lemma_xor_assoc(x ^ k, 0, 0);
        }
    }
}

/// By how much move `m` of `team` changes the fold of the board's keys: the
/// keys of what stood on the squares that it touches, and the keys of what
/// stands on the squares where it puts a piece.
pub open spec fn board_delta(keys: ZobKeys, g: Game, team: Team, m: GameMove) -> u64 {
    let b = g.board;
    match m {
        GameMove::CastleKingside(_) => castle_delta(keys, team, true),
        GameMove::CastleQueenside(_) => castle_delta(keys, team, false),
        GameMove::Enpassant(mov) => {
            let cap = mov.to@ - 8 * forward(team);
            cell_key(keys, b.piece_at(mov.from@), mov.from@) ^ cell_key(keys, b.piece_at(cap), cap)
                ^ keys.piece_key(PieceKind::Pawn, team, mov.to@)
        },
        _ => {
            let from = m.from_sq(team);
            let to = m.to_sq(team);
            cell_key(keys, b.piece_at(from), from) ^ cell_key(keys, b.piece_at(to), to)
                ^ keys.piece_key(m.final_kind(), team, to)
        },
    }
}

/// By how much castling changes the fold of the board's keys.
pub open spec fn castle_delta(keys: ZobKeys, team: Team, kingside: bool) -> u64 {
    keys.piece_key(PieceKind::King, team, king_home(team)) ^ keys.piece_key(
        PieceKind::Rook,
        team,
        rook_home(team, kingside),
    ) ^ keys.piece_key(PieceKind::King, team, castle_king_to(team, kingside)) ^ keys.piece_key(
        PieceKind::Rook,
        team,
        castle_rook_to(team, kingside),
    )
}

/// A legal move changes the fold of the board's keys by `board_delta`.
pub proof fn lemma_board_hash_after(keys: ZobKeys, g: Game, team: Team, m: GameMove)
    requires
        g.wf(),
        g.active_team() == Some(team),
        g.legal_for(team, m),
    ensures
        board_hash(keys, g.board_after(team, m)) == board_hash(keys, g.board) ^ board_delta(
            keys,
            g,
            team,
            m,
        ),
{
    let old_cells = cells_of(g.board);
    let new_cells = cells_of(g.board_after(team, m));
    let x = board_hash(keys, g.board);
    lemma_cells_after(g, team, m);
    match m {
        GameMove::CastleKingside(_) => {
            lemma_castle_hash(keys, g, team, m, true);
        },
        GameMove::CastleQueenside(_) => {
            lemma_castle_hash(keys, g, team, m, false);
        },
        GameMove::Enpassant(mov) => {
            let from = mov.from@;
            let to = mov.to@;
            let cap = to - 8 * forward(team);
            let pawn = Some(PieceInfo { kind: PieceKind::Pawn, team });
            let e = choose|e: int| g.ep_at(team, e);
            assert(g.ep_at(team, e));
            g.lemma_ep_square(e);
            g.lemma_ep_square(to);
            assert(on_board(cap));
            assert(g.board.square_wf(to));
            g.board.lemma_piece_at(to);
            let c1 = old_cells.update(from, None);
            let c2 = c1.update(cap, None);
            let c3 = c2.update(to, pawn);
            assert(new_cells =~= c3) by {
                assert forall|t: int| 0 <= t < 64 implies new_cells[t] == c3[t] by {
                    if !m.touches(team, t) {
                        assert(g.board_after(team, m).piece_at(t) == g.board.piece_at(t));
                    } else if m.vacates(team, t) {
                        assert(g.board_after(team, m).piece_at(t).is_none());
                    }
                }
            }
            lemma_fold_update(keys, old_cells, from, None, 64);
            lemma_fold_update(keys, c1, cap, None, 64);
            lemma_fold_update(keys, c2, to, pawn, 64);
            let a = cell_key(keys, old_cells[from], from);
            let b = cell_key(keys, old_cells[cap], cap);
            let c = cell_key(keys, pawn, to);
            assert(((x ^ (a ^ 0)) ^ (b ^ 0)) ^ (0 ^ c) == x ^ ((a ^ b) ^ c)) by (bit_vector);
        },
        _ => {
            let from = m.from_sq(team);
            let to = m.to_sq(team);
            let piece = Some(PieceInfo { kind: m.final_kind(), team });
            assert(from != to) by {
                g.lemma_board_after(team, m);
            }
            let c1 = old_cells.update(from, None);
            let c2 = c1.update(to, piece);
            assert(new_cells =~= c2) by {
                assert forall|t: int| 0 <= t < 64 implies new_cells[t] == c2[t] by {
                    if !m.touches(team, t) {
                        assert(g.board_after(team, m).piece_at(t) == g.board.piece_at(t));
                    } else if m.vacates(team, t) {
                        assert(g.board_after(team, m).piece_at(t).is_none());
                    }
                }
            }
            lemma_fold_update(keys, old_cells, from, None, 64);
            lemma_fold_update(keys, c1, to, piece, 64);
            let a = cell_key(keys, old_cells[from], from);
            let b = cell_key(keys, old_cells[to], to);
            let c = cell_key(keys, piece, to);
            assert((x ^ (a ^ 0)) ^ (b ^ c) == x ^ ((a ^ b) ^ c)) by (bit_vector);
        },
    }
}

/// Castling changes the fold of the board's keys by `castle_delta`.
pub proof fn lemma_castle_hash(keys: ZobKeys, g: Game, team: Team, m: GameMove, kingside: bool)
    requires
        g.wf(),
        g.active_team() == Some(team),
        g.legal_for(team, m),
        m == if kingside {
            GameMove::CastleKingside(team)
        } else {
            GameMove::CastleQueenside(team)
        },
    ensures
        board_hash(keys, g.board_after(team, m)) == board_hash(keys, g.board) ^ castle_delta(
            keys,
            team,
            kingside,
        ),
{
    let old_cells = cells_of(g.board);
    let new_cells = cells_of(g.board_after(team, m));
    let x = board_hash(keys, g.board);
    let kf = king_home(team);
    let rf = rook_home(team, kingside);
    let kt = castle_king_to(team, kingside);
    let rt = castle_rook_to(team, kingside);
    let king = Some(PieceInfo { kind: PieceKind::King, team });
    let rook = Some(PieceInfo { kind: PieceKind::Rook, team });
    lemma_cells_after(g, team, m);
    assert(g.can_castle(team, kingside));
    assert(g.right(team, kingside));
    assert(on_board(rf) && on_board(kt) && on_board(rt) && on_board(kf));
    assert(g.board.square_wf(rf) && g.board.square_wf(kt) && g.board.square_wf(rt));
    g.board.lemma_piece_at(rf);
    g.board.lemma_piece_at(kt);
    g.board.lemma_piece_at(rt);
    assert(!g.board.occupied(kt) && !g.board.occupied(rt)) by {
        g.lemma_castle_after(team, kingside);
        assert(crate::movegen::castle_clears(team, kingside).has(kt) && crate::movegen::castle_clears(
            team,
            kingside,
        ).has(rt)) by {
            broadcast use crate::bits::group_bit_ops;
        }
    }
    let c1 = old_cells.update(kf, None);
    let c2 = c1.update(rf, None);
    let c3 = c2.update(kt, king);
    let c4 = c3.update(rt, rook);
    assert(new_cells =~= c4) by {
        assert forall|t: int| 0 <= t < 64 implies new_cells[t] == c4[t] by {
            if !m.touches(team, t) {
                assert(g.board_after(team, m).piece_at(t) == g.board.piece_at(t));
            } else if m.vacates(team, t) {
                assert(g.board_after(team, m).piece_at(t).is_none());
            }
        }
    }
    lemma_fold_update(keys, old_cells, kf, None, 64);
    lemma_fold_update(keys, c1, rf, None, 64);
    lemma_fold_update(keys, c2, kt, king, 64);
    lemma_fold_update(keys, c3, rt, rook, 64);
    let a = cell_key(keys, old_cells[kf], kf);
    let b = cell_key(keys, old_cells[rf], rf);
    let c = cell_key(keys, king, kt);
    let d = cell_key(keys, rook, rt);
    assert((((x ^ (a ^ 0)) ^ (b ^ 0)) ^ (0 ^ c)) ^ (0 ^ d) == x ^ (((a ^ b) ^ c) ^ d)) by (bit_vector);
}

impl Game {
    /// The keys of what the position holds beside the board, folded together.
    pub fn flags_key(&self, zkeys: &ZobKeys) -> (h: ZobristHash)
        requires
            self.enpassant.data == 0 || exists|e: int| self.enpassant.single(e),
        ensures
            h.0 == flags_hash(*zkeys, *self),
    {
        let mut hash = ZobristHash(0);
        proof {
            lemma_xor_assoc(0, 0, 0);
        }
        if self.castling.white_kingside() {
            hash.update(zkeys.castle_white_ks);
        }
        let ghost h1 = hash.0;
        if self.castling.white_queenside() {
            hash.update(zkeys.castle_white_qs);
        }
        let ghost h2 = hash.0;
        if self.castling.black_kingside() {
            hash.update(zkeys.castle_black_ks);
        }
        let ghost h3 = hash.0;
        if self.castling.black_queenside() {
            hash.update(zkeys.castle_black_qs);
        }
        let ghost h4 = hash.0;
        if !self.enpassant.empty() {
            let pos = self.enpassant.piece_position();
            proof {
                self.lemma_ep_square(pos@);
            }
            hash.update(zkeys.enpassant_keys_for(pos));
        }
        let ghost h5 = hash.0;
        match self.state {
            GameState::BlackToMove => {
                hash.update(zkeys.black_to_move);
            },
            _ => {},
        }
        proof {
            let a = key_if(self.castling@.white_kingside, zkeys.castle_white_ks);
            let b = key_if(self.castling@.white_queenside, zkeys.castle_white_qs);
            let c = key_if(self.castling@.black_kingside, zkeys.castle_black_ks);
            let d = key_if(self.castling@.black_queenside, zkeys.castle_black_qs);
            let e: u64 = if self.enpassant.data != 0 {
                zkeys.ep_key(col_of(self.ep_square()))
            } else {
                0
            };
            let f = key_if(self.state == GameState::BlackToMove, zkeys.black_to_move);
            lemma_xor_assoc(a, 0, 0);
            lemma_xor_assoc(h1, 0, 0);
            lemma_xor_assoc(h2, 0, 0);
            lemma_xor_assoc(h3, 0, 0);
            lemma_xor_assoc(h4, 0, 0);
            lemma_xor_assoc(h5, 0, 0);
            assert(h1 == a);
            assert(h2 == a ^ b);
            assert(h3 == a ^ b ^ c);
            assert(h4 == a ^ b ^ c ^ d);
            assert(h5 == a ^ b ^ c ^ d ^ e);
            assert(hash.0 == a ^ b ^ c ^ d ^ e ^ f);
        }
        hash
    }

    /// The hash of the position from scratch; none once the game is over.
    pub fn get_zobrist_hash(&self, zkeys: &ZobKeys) -> (r: Option<ZobristHash>)
        requires
            self.enpassant.data == 0 || exists|e: int| self.enpassant.single(e),
        ensures
            self.active_team().is_some() <==> r.is_some(),
            r matches Some(h) ==> h.0 == hash_of(*zkeys, *self),
    {
        match self.state {
            GameState::WhiteToMove => {},
            GameState::BlackToMove => {},
            _ => {
                return None;
            },
        }
        let mut hash = self.flags_key(zkeys);
        let ghost flags = hash.0;
        let ghost cells = cells_of(self.board);
        let mut i: u8 = 0;
        proof {
            lemma_xor_assoc(flags, 0, 0);
        }
        while i < 64
            invariant
                i <= 64,
                cells == cells_of(self.board),
                hash.0 == flags ^ fold_cells(*zkeys, cells, i as int),
            decreases 64 - i,
        {
            let pos = Position::from_integral(i);
            let ghost before = hash.0;
            if let Some(pi) = self.board.get_piece_info(pos) {
                let hashes = zkeys.piece_keys_for(pi.kind, pi.team);
                let h = hashes.at_pos(pos);
                hash.update(h);
            }
            proof {
                let k = cell_key(*zkeys, cells[i as int], i as int);
                lemma_xor_assoc(flags, fold_cells(*zkeys, cells, i as int), k);
                lemma_xor_assoc(before, 0, 0);
                assert(hash.0 == before ^ k);
            }
            i = i + 1;
        }
        Some(hash)
    }

    /// By how much move `gmove` of `team` changes the fold of the board's
    /// keys, read off the position before the move.
    pub fn board_delta_key(&self, team: Team, gmove: GameMove, zkeys: &ZobKeys) -> (d: ZobristHash)
        requires
            self.wf(),
            self.active_team() == Some(team),
            self.legal_for(team, gmove),
        ensures
            d.0 == board_delta(*zkeys, *self, team, gmove),
    {
        let mut d = ZobristHash(0);
        proof {
            lemma_cells_after(*self, team, gmove);
        }
        match gmove {
            GameMove::Regular(mov) => {
                self.fold_step(&mut d, team, mov, mov.piece.kind, zkeys);
            },
            GameMove::Capture(mov) => {
                self.fold_step(&mut d, team, mov, mov.piece.kind, zkeys);
            },
            GameMove::Promote { promotion, mov } => {
                self.fold_step(&mut d, team, mov, promotion.kind(), zkeys);
            },
            GameMove::CapturePromote { promotion, mov } => {
                self.fold_step(&mut d, team, mov, promotion.kind(), zkeys);
            },
            GameMove::Enpassant(mov) => {
                proof {
                    let e = choose|e: int| self.ep_at(team, e);
                    assert(self.ep_at(team, e));
                    self.lemma_ep_square(e);
                    self.lemma_ep_square(mov.to@);
                }
                let e: u8 = mov.to.integral();
                let cap: u8 = match team {
                    Team::White => e - 8,
                    Team::Black => e + 8,
                };
                let cap_pos = Position::from_integral(cap);
                self.fold_cell(&mut d, mov.from, zkeys);
                self.fold_cell(&mut d, cap_pos, zkeys);
                d.update(zkeys.piece_keys_for(PieceKind::Pawn, team).at_pos(mov.to));
                proof {
                    lemma_xor_assoc(cell_key(*zkeys, self.board.piece_at(mov.from@), mov.from@), 0, 0);
                }
            },
            GameMove::CastleKingside(_) => {
                fold_castle(&mut d, team, true, zkeys);
            },
            GameMove::CastleQueenside(_) => {
                fold_castle(&mut d, team, false, zkeys);
            },
        }
        d
    }

    /// Folds into `d` the key of what stands on `pos`.
    pub fn fold_cell(&self, d: &mut ZobristHash, pos: Position, zkeys: &ZobKeys)
        ensures
            final(d).0 == old(d).0 ^ cell_key(*zkeys, self.board.piece_at(pos@), pos@),
    {
        match self.board.get_piece_info(pos) {
            Some(pi) => {
                d.update(zkeys.piece_keys_for(pi.kind, pi.team).at_pos(pos));
            },
            None => {
                proof {
                    lemma_xor_assoc(d.0, 0, 0);
                }
            },
        }
    }

    /// Folds into `d`, which is empty, the keys that change when `mov` is
    /// made and the moving piece stands on its target as a `landed`.
    pub fn fold_step(
        &self,
        d: &mut ZobristHash,
        team: Team,
        mov: RawMove,
        landed: PieceKind,
        zkeys: &ZobKeys,
    )
        requires
            old(d).0 == 0,
        ensures
            final(d).0 == cell_key(*zkeys, self.board.piece_at(mov.from@), mov.from@) ^ cell_key(
                *zkeys,
                self.board.piece_at(mov.to@),
                mov.to@,
            ) ^ zkeys.piece_key(landed, team, mov.to@),
    {
        self.fold_cell(d, mov.from, zkeys);
        self.fold_cell(d, mov.to, zkeys);
        d.update(zkeys.piece_keys_for(landed, team).at_pos(mov.to));
        proof {
            lemma_xor_assoc(cell_key(*zkeys, self.board.piece_at(mov.from@), mov.from@), 0, 0);
        }
    }

    /// Makes a legal move of the side to move and brings the position's hash
    /// up to date.
    ///
    /// Where `hash` was the hash of the position before the move, it is the
    /// hash of the position after it, as long as the game goes on. The keys
    /// of what the move changes are folded in; nothing is computed anew from
    /// the board.
    pub fn make_move_hashed(&mut self, gmove: GameMove, hash: &mut ZobristHash, zkeys: &ZobKeys)
        requires
            old(self).wf(),
            old(self).legal(gmove),
            old(hash).0 == hash_of(*zkeys, *old(self)),
        ensures
            *final(self) == old(self).after(gmove),
            final(self).wf(),
            final(self).active_team().is_some() ==> final(hash).0 == hash_of(
                *zkeys,
                *final(self),
            ),
    {
        let ghost pre = *self;
        let team = match self.state {
            GameState::WhiteToMove => Team::White,
            _ => Team::Black,
        };
        proof {
            let e = choose|e: int| pre.ep_at(team, e);
            if pre.enpassant.data != 0 {
                assert(pre.ep_at(team, e));
            }
        }
        let before = self.flags_key(zkeys);
        let delta = self.board_delta_key(team, gmove, zkeys);
        self.make_move(gmove);
        proof {
            pre.lemma_ep_fits(pre.after_moving(team, gmove), team, gmove);
            let g = pre.after_moving(team, gmove);
            let e = choose|e: int| g.ep_at(team.spec_enemy(), e);
            if g.enpassant.data != 0 {
                assert(g.ep_at(team.spec_enemy(), e));
            }
            lemma_board_hash_after(*zkeys, pre, team, gmove);
        }
        let after = self.flags_key(zkeys);
        hash.0 = hash.0 ^ before.0 ^ after.0 ^ delta.0;
        proof {
            let fb = before.0;
            let fa = after.0;
            let x = board_hash(*zkeys, pre.board);
            let dd = delta.0;
            assert((((fb ^ x) ^ fb) ^ fa) ^ dd == fa ^ (x ^ dd)) by (bit_vector);
        }
    }
}

/// Folds into `d`, which is empty, the keys that change when `team` castles
/// on the given side.
pub fn fold_castle(d: &mut ZobristHash, team: Team, kingside: bool, zkeys: &ZobKeys)
    requires
        old(d).0 == 0,
    ensures
        final(d).0 == castle_delta(*zkeys, team, kingside),
{
    let row: u8 = match team {
        Team::White => 0,
        Team::Black => 7,
    };
    let k_zk = zkeys.piece_keys_for(PieceKind::King, team);
    let r_zk = zkeys.piece_keys_for(PieceKind::Rook, team);
    let (rook_from, king_to, rook_to): (u8, u8, u8) = if kingside {
        (7, 6, 5)
    } else {
        (0, 2, 3)
    };
    d.update(k_zk.at_pos(Position::new(row, 4)));
    d.update(r_zk.at_pos(Position::new(row, rook_from)));
    d.update(k_zk.at_pos(Position::new(row, king_to)));
    d.update(r_zk.at_pos(Position::new(row, rook_to)));
    proof {
        lemma_xor_assoc(zkeys.piece_key(PieceKind::King, team, king_home(team)), 0, 0);
    }
}

} // verus!
