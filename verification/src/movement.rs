//! Where each kind of piece may go from a square.

use vstd::prelude::*;
use crate::bitboard::Bitboard;
use crate::bits::group_bit_ops;
use crate::geometry::{
    bishop_attacks, king_attacks, knight_attacks, pawn_attacks, pawn_targets, queen_attacks,
    rook_attacks,
};
use crate::magic_bitboard::{bishop_attack_bb, rook_attack_bb};
use crate::piece::Team;
use crate::position::Position;
use crate::precalc::masks::{king_attack_mask, knight_attack_mask, pawn_attack_mask};

verus! {

/// The squares a knight on `pos` attacks.
pub fn knight_moves(pos: Position) -> (r: Bitboard)
    ensures
        r@ == knight_attacks(pos@),
{
    knight_attack_mask(pos.integral() as usize)
}

/// The squares a king on `pos` attacks.
pub fn king_moves(pos: Position) -> (r: Bitboard)
    ensures
        r@ == king_attacks(pos@),
{
    king_attack_mask(pos.integral() as usize)
}

/// The squares a bishop on `pos` attacks: along the diagonals up to and
/// including the first occupied square of `world`, whatever stands there.
pub fn bishop_moves(pos: Position, world: Bitboard) -> (r: Bitboard)
    ensures
        r@ == bishop_attacks(pos@, world@),
{
    bishop_attack_bb(pos.integral(), world)
}

/// The squares a rook on `pos` attacks: along the row and the column up to
/// and including the first occupied square of `world`, whatever stands there.
pub fn rook_moves(pos: Position, world: Bitboard) -> (r: Bitboard)
    ensures
        r@ == rook_attacks(pos@, world@),
{
    rook_attack_bb(pos.integral(), world)
}

/// The squares a queen on `pos` attacks: those of a rook and those of a
/// bishop on the same square.
pub fn queen_moves(pos: Position, world: Bitboard) -> (r: Bitboard)
    ensures
        r@ == queen_attacks(pos@, world@),
{
    let rook_aspect = rook_moves(pos, world);
    let bishop_aspect = bishop_moves(pos, world);
    rook_aspect.combine_with(bishop_aspect)
}

/// The squares a pawn of `team` on `pos` may move to, en passant aside.
pub fn pawn_moves(team: Team, pos: Position, world: Bitboard) -> (r: Bitboard)
    ensures
        r@ == pawn_targets(team, pos@, world@),
{
    broadcast use group_bit_ops;
    let free_spots = world.negative();
    let piece = Bitboard::from_position(pos);
    let attacks = pawn_attack_mask(team, pos.integral() as usize).where_also(world);
    let moves = match team {
        Team::White => {
            let mut moves = piece.shift_up().where_also(free_spots);
            if pos.row() == 1 {
                moves = moves.combine_with(moves.shift_up().where_also(free_spots));
            }
            moves.combine_with(attacks)
        },
        Team::Black => {
            let mut moves = piece.shift_down().where_also(free_spots);
            if pos.row() == 6 {
                moves = moves.combine_with(moves.shift_down().where_also(free_spots));
            }
            moves.combine_with(attacks)
        },
    };
    proof {
        let sq = pos@;
        assert forall|t: int| moves@.contains(t) == pawn_targets(team, sq, world@).contains(t) by {
            assert(moves@.contains(t) == moves.has(t));
            assert(world@.contains(t) == world.has(t));
            assert(world@.contains(sq + 8) == world.has(sq + 8));
            assert(world@.contains(sq - 8) == world.has(sq - 8));
            assert(world@.contains(sq + 16) == world.has(sq + 16));
            assert(world@.contains(sq - 16) == world.has(sq - 16));
            assert(attacks@.contains(t) == attacks.has(t));
        }
        assert(moves@ =~= pawn_targets(team, sq, world@));
    }
    moves
}

/// The squares from which a pawn can attack a piece of `team` on `pos`: the
/// squares that a pawn of `team` on `pos` would itself attack.
pub fn pawn_attackers(team: Team, pos: Position) -> (r: Bitboard)
    ensures
        r@ == pawn_attacks(team, pos@),
{
    pawn_attack_mask(team, pos.integral() as usize)
}

} // verus!
