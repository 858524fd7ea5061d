//! Attack sets of the pieces that do not slide, and the blocker masks of
//! those that do.

use vstd::prelude::*;
use crate::bitboard::{Bitboard, A1, A8, C1, C8, D1, D8, E1, E8, F1, F8, G1, G8, H1, H8};
use crate::bits::group_bit_ops;
use crate::geometry::{
    bishop_mask, distance, is_direction, is_offset, king_attacks, king_step, knight_attacks,
    knight_step, on_inner_ray, pawn_attack_step, pawn_attacks, queen_mask, rook_mask, step_sq,
    times,
};
use crate::piece::Team;

verus! {

// The squares that change hands in castling: where the king leaves and
// lands, and where the rook leaves and lands.
pub const W_KS_KING_SWITCH: u64 = G1 | E1;

pub const W_KS_ROOK_SWITCH: u64 = H1 | F1;

pub const W_QS_KING_SWITCH: u64 = C1 | E1;

pub const W_QS_ROOK_SWITCH: u64 = A1 | D1;

pub const B_KS_KING_SWITCH: u64 = G8 | E8;

pub const B_KS_ROOK_SWITCH: u64 = H8 | F8;

pub const B_QS_KING_SWITCH: u64 = C8 | E8;

pub const B_QS_ROOK_SWITCH: u64 = A8 | D8;

/// The one square `cols` columns right of and `rows` rows above square
/// `index`, or no square where that leaves the board.
pub fn offset(index: usize, cols: isize, rows: isize) -> (r: Bitboard)
    requires
        index < 64,
        -8 <= cols <= 8,
        -8 <= rows <= 8,
    ensures
        forall|t: int| r.has(t) == is_offset(index as int, t, cols as int, rows as int),
{
    broadcast use group_bit_ops;
    let col: isize = (index as isize) % 8;
    let row: isize = (index as isize) / 8;
    let new_col: isize = col + cols;
    let new_row: isize = row + rows;
    if new_col < 0 || new_col > 7 || new_row < 0 || new_row > 7 {
        Bitboard { data: 0 }
    } else {
        let target: u64 = (new_row * 8 + new_col) as u64;
        Bitboard { data: 1u64 << target }
    }
}

/// The squares a knight on square `i` attacks.
pub fn knight_attack_mask(i: usize) -> (r: Bitboard)
    requires
        i < 64,
    ensures
        r@ == knight_attacks(i as int),
{
    let mut board = Bitboard::const_default();
    board = board.combine_with(offset(i, -2, 1));
    board = board.combine_with(offset(i, -2, -1));
    board = board.combine_with(offset(i, 2, 1));
    board = board.combine_with(offset(i, 2, -1));
    board = board.combine_with(offset(i, 1, -2));
    board = board.combine_with(offset(i, -1, -2));
    board = board.combine_with(offset(i, 1, 2));
    board = board.combine_with(offset(i, -1, 2));
    proof {
        assert forall|t: int| board@.contains(t) == knight_step(i as int, t) by {
            assert(board@.contains(t) == (is_offset(i as int, t, -2, 1) || is_offset(
                i as int,
                t,
                -2,
                -1,
            ) || is_offset(i as int, t, 2, 1) || is_offset(i as int, t, 2, -1) || is_offset(
                i as int,
                t,
                1,
                -2,
            ) || is_offset(i as int, t, -1, -2) || is_offset(i as int, t, 1, 2) || is_offset(
                i as int,
                t,
                -1,
                2,
            )));
        }
        assert(board@ =~= knight_attacks(i as int));
    }
    board
}

/// The squares a king on square `i` attacks.
pub fn king_attack_mask(i: usize) -> (r: Bitboard)
    requires
        i < 64,
    ensures
        r@ == king_attacks(i as int),
{
    let mut board = Bitboard::const_default();
    board = board.combine_with(offset(i, -1, 1));
    board = board.combine_with(offset(i, -1, -1));
    board = board.combine_with(offset(i, 1, 1));
    board = board.combine_with(offset(i, 1, -1));
    board = board.combine_with(offset(i, 1, 0));
    board = board.combine_with(offset(i, -1, 0));
    board = board.combine_with(offset(i, 0, 1));
    board = board.combine_with(offset(i, 0, -1));
    proof {
        assert forall|t: int| board@.contains(t) == king_step(i as int, t) by {
            assert(board@.contains(t) == (is_offset(i as int, t, -1, 1) || is_offset(
                i as int,
                t,
                -1,
                -1,
            ) || is_offset(i as int, t, 1, 1) || is_offset(i as int, t, 1, -1) || is_offset(
                i as int,
                t,
                1,
                0,
            ) || is_offset(i as int, t, -1, 0) || is_offset(i as int, t, 0, 1) || is_offset(
                i as int,
                t,
                0,
                -1,
            )));
        }
        assert(board@ =~= king_attacks(i as int));
    }
    board
}

/// The squares a pawn of `team` on square `i` attacks.
pub fn pawn_attack_mask(team: Team, i: usize) -> (r: Bitboard)
    requires
        i < 64,
    ensures
        r@ == pawn_attacks(team, i as int),
{
    let mut board = Bitboard::const_default();
    match team {
        Team::White => {
            board = board.combine_with(offset(i, 1, 1));
            board = board.combine_with(offset(i, -1, 1));
        },
        Team::Black => {
            board = board.combine_with(offset(i, 1, -1));
            board = board.combine_with(offset(i, -1, -1));
        },
    }
    proof {
        assert forall|t: int| board@.contains(t) == pawn_attack_step(team, i as int, t) by {
            match team {
                Team::White => {
                    assert(board@.contains(t) == (is_offset(i as int, t, 1, 1) || is_offset(
                        i as int,
                        t,
                        -1,
                        1,
                    )));
                },
                Team::Black => {
                    assert(board@.contains(t) == (is_offset(i as int, t, 1, -1) || is_offset(
                        i as int,
                        t,
                        -1,
                        -1,
                    )));
                },
            }
        }
        assert(board@ =~= pawn_attacks(team, i as int));
    }
    board
}

/// The squares that lie from square `idx` in direction `(dr, dc)`, without
/// the last square of the board that way.
pub fn ray_mask(idx: u8, dr: i8, dc: i8) -> (r: Bitboard)
    requires
        idx < 64,
        is_direction(dr as int, dc as int),
    ensures
        forall|t: int| r.has(t) == on_inner_ray(idx as int, dr as int, dc as int, t),
{
    broadcast use group_bit_ops;
    let ghost sq = idx as int;
    let mut acc: u64 = 0;
    let mut row: i8 = (idx / 8) as i8;
    let mut col: i8 = (idx % 8) as i8;
    let mut k: u8 = 0;
    loop
        invariant
            sq == idx,
            idx < 64,
            is_direction(dr as int, dc as int),
            0 <= k <= 7,
            row == sq / 8 + times(k as int, dr as int),
            col == sq % 8 + times(k as int, dc as int),
            0 <= row < 8,
            0 <= col < 8,
            forall|t: int|
                #[trigger] (Bitboard { data: acc }).has(t) == (on_inner_ray(
                    sq,
                    dr as int,
                    dc as int,
                    t,
                ) && distance(sq, t) <= k),
        ensures
            forall|t: int|
                #[trigger] (Bitboard { data: acc }).has(t) == on_inner_ray(
                    sq,
                    dr as int,
                    dc as int,
                    t,
                ),
        decreases 8 - k,
    {
        broadcast use group_bit_ops;
        let nr: i8 = row + dr;
        let nc: i8 = col + dc;
        if nr < 0 || nr > 7 || nc < 0 || nc > 7 {
            break ;
        }
        let nnr: i8 = nr + dr;
        let nnc: i8 = nc + dc;
        if nnr < 0 || nnr > 7 || nnc < 0 || nnc > 7 {
            break ;
        }
        let ghost before = Bitboard { data: acc };
        let s: u64 = (nr * 8 + nc) as u64;
        acc = acc | (1u64 << s);
        k = k + 1;
        row = nr;
        col = nc;
        proof {
            let after = Bitboard { data: acc };
            assert(s == step_sq(sq, dr as int, dc as int, k as int));
            assert(distance(sq, s as int) == k);
            assert forall|t: int| #[trigger] after.has(t) == (on_inner_ray(
                sq,
                dr as int,
                dc as int,
                t,
            ) && distance(sq, t) <= k) by {
                assert(before.has(t) == (on_inner_ray(sq, dr as int, dc as int, t) && distance(
                    sq,
                    t,
                ) <= k - 1));
            }
        }
    }
    Bitboard { data: acc }
}

/// The squares whose occupancy matters to a rook on square `idx`.
pub fn precalc_rook_mask(idx: u8) -> (r: Bitboard)
    requires
        idx < 64,
    ensures
        r@ == rook_mask(idx as int),
{
    let up = ray_mask(idx, 1, 0);
    let down = ray_mask(idx, -1, 0);
    let left = ray_mask(idx, 0, -1);
    let right = ray_mask(idx, 0, 1);
    let r = Bitboard::const_default().combine_with(up).combine_with(down).combine_with(
        left,
    ).combine_with(right);
    proof {
        reveal(rook_mask);
        assert(r@ =~= rook_mask(idx as int));
    }
    r
}

/// The squares whose occupancy matters to a bishop on square `idx`.
pub fn precalc_bishop_mask(idx: u8) -> (r: Bitboard)
    requires
        idx < 64,
    ensures
        r@ == bishop_mask(idx as int),
{
    let upleft = ray_mask(idx, 1, -1);
    let upright = ray_mask(idx, 1, 1);
    let downleft = ray_mask(idx, -1, -1);
    let downright = ray_mask(idx, -1, 1);
    let r = Bitboard::const_default().combine_with(upleft).combine_with(upright).combine_with(
        downleft,
    ).combine_with(downright);
    proof {
        reveal(bishop_mask);
        assert(r@ =~= bishop_mask(idx as int));
    }
    r
}

/// The knight's attacks from each square.
pub fn precalc_knight_moves() -> (moves: [Bitboard; 64])
    ensures
        forall|i: int| 0 <= i < 64 ==> (#[trigger] moves[i])@ == knight_attacks(i),
{
    let mut moves = [Bitboard::const_default();64];
    let mut i: usize = 0;
    while i < 64
        invariant
            i <= 64,
            forall|j: int| 0 <= j < i ==> (#[trigger] moves[j])@ == knight_attacks(j),
        decreases 64 - i,
    {
        moves[i] = knight_attack_mask(i);
        i = i + 1;
    }
    moves
}

/// The king's attacks from each square.
pub fn precalc_king_moves() -> (moves: [Bitboard; 64])
    ensures
        forall|i: int| 0 <= i < 64 ==> (#[trigger] moves[i])@ == king_attacks(i),
{
    let mut moves = [Bitboard::const_default();64];
    let mut i: usize = 0;
    while i < 64
        invariant
            i <= 64,
            forall|j: int| 0 <= j < i ==> (#[trigger] moves[j])@ == king_attacks(j),
        decreases 64 - i,
    {
        moves[i] = king_attack_mask(i);
        i = i + 1;
    }
    moves
}

/// The attacks of a pawn of `team` from each square.
pub fn precalc_pawn_attack_mask(team: Team) -> (moves: [Bitboard; 64])
    ensures
        forall|i: int| 0 <= i < 64 ==> (#[trigger] moves[i])@ == pawn_attacks(team, i),
{
    let mut moves = [Bitboard::const_default();64];
    let mut i: usize = 0;
    while i < 64
        invariant
            i <= 64,
            forall|j: int| 0 <= j < i ==> (#[trigger] moves[j])@ == pawn_attacks(team, j),
        decreases 64 - i,
    {
        moves[i] = pawn_attack_mask(team, i);
        i = i + 1;
    }
    moves
}

/// The rook's mask for each square.
pub fn precalc_rook_masks() -> (boards: [Bitboard; 64])
    ensures
        forall|i: int| 0 <= i < 64 ==> (#[trigger] boards[i])@ == rook_mask(i),
{
    let mut boards = [Bitboard::const_default();64];
    let mut i: u8 = 0;
    while i < 64
        invariant
            i <= 64,
            forall|j: int| 0 <= j < i ==> (#[trigger] boards[j])@ == rook_mask(j),
        decreases 64 - i,
    {
        boards[i as usize] = precalc_rook_mask(i);
        i = i + 1;
    }
    boards
}

/// The bishop's mask for each square.
pub fn precalc_bishop_masks() -> (boards: [Bitboard; 64])
    ensures
        forall|i: int| 0 <= i < 64 ==> (#[trigger] boards[i])@ == bishop_mask(i),
{
    let mut boards = [Bitboard::const_default();64];
    let mut i: u8 = 0;
    while i < 64
        invariant
            i <= 64,
            forall|j: int| 0 <= j < i ==> (#[trigger] boards[j])@ == bishop_mask(j),
        decreases 64 - i,
    {
        boards[i as usize] = precalc_bishop_mask(i);
        i = i + 1;
    }
    boards
}

/// The squares whose occupancy matters to a queen on square `idx`: those
/// of the rook's mask and those of the bishop's.
pub fn precalc_queen_mask(idx: u8) -> (r: Bitboard)
    requires
        idx < 64,
    ensures
        r@ == queen_mask(idx as int),
{
    precalc_rook_mask(idx).combine_with(precalc_bishop_mask(idx))
}

/// The queen's mask for each square.
pub fn precalc_queen_masks() -> (ret: [Bitboard; 64])
    ensures
        forall|i: int| 0 <= i < 64 ==> (#[trigger] ret[i])@ == queen_mask(i),
{
    let mut ret = [Bitboard::const_default();64];
    let mut i: u8 = 0;
    while i < 64
        invariant
            i <= 64,
            forall|j: int| 0 <= j < i ==> (#[trigger] ret[j])@ == queen_mask(j),
        decreases 64 - i,
    {
        ret[i as usize] = precalc_queen_mask(i);
        i = i + 1;
    }
    ret
}

} // verus!
