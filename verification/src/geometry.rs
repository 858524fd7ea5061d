//! The geometry of the board: rows, columns, steps and rays, and from them
//! the squares that each kind of piece attacks.

use vstd::prelude::*;
use crate::piece::{PieceKind, Team};

verus! {

/// The row of square `sq`, 0 for the first row.
pub open spec fn row_of(sq: int) -> int {
    sq / 8
}

/// The column of square `sq`, 0 for column A.
pub open spec fn col_of(sq: int) -> int {
    sq % 8
}

/// `sq` is the number of a square.
pub open spec fn on_board(sq: int) -> bool {
    0 <= sq < 64
}

/// How far `a` and `b` are apart.
pub open spec fn abs_diff(a: int, b: int) -> int {
    if a >= b {
        a - b
    } else {
        b - a
    }
}

/// The number of king steps between two squares.
pub open spec fn distance(a: int, b: int) -> int {
    let dr = abs_diff(row_of(a), row_of(b));
    let dc = abs_diff(col_of(a), col_of(b));
    if dr >= dc {
        dr
    } else {
        dc
    }
}

/// Square `to` lies `rows` rows above and `cols` columns right of `from`.
pub open spec fn is_offset(from: int, to: int, cols: int, rows: int) -> bool {
    on_board(from) && on_board(to) && row_of(to) == row_of(from) + rows && col_of(to) == col_of(
        from,
    ) + cols
}

/// A knight on `from` attacks `to`.
pub open spec fn knight_step(from: int, to: int) -> bool {
    let dr = abs_diff(row_of(from), row_of(to));
    let dc = abs_diff(col_of(from), col_of(to));
    on_board(from) && on_board(to) && ((dr == 1 && dc == 2) || (dr == 2 && dc == 1))
}

/// A king on `from` attacks `to`.
pub open spec fn king_step(from: int, to: int) -> bool {
    on_board(from) && on_board(to) && distance(from, to) == 1
}

/// The row direction in which a team's pawns advance.
pub open spec fn forward(team: Team) -> int {
    match team {
        Team::White => 1,
        Team::Black => -1,
    }
}

/// A pawn of `team` on `from` attacks `to`: one row forward, one column aside.
pub open spec fn pawn_attack_step(team: Team, from: int, to: int) -> bool {
    on_board(from) && on_board(to) && row_of(to) == row_of(from) + forward(team) && abs_diff(
        col_of(from),
        col_of(to),
    ) == 1
}

/// The squares a knight on `sq` attacks.
pub open spec fn knight_attacks(sq: int) -> Set<int> {
    Set::new(|t: int| knight_step(sq, t))
}

/// The squares a king on `sq` attacks.
pub open spec fn king_attacks(sq: int) -> Set<int> {
    Set::new(|t: int| king_step(sq, t))
}

/// The squares a pawn of `team` on `sq` attacks.
pub open spec fn pawn_attacks(team: Team, sq: int) -> Set<int> {
    Set::new(|t: int| pawn_attack_step(team, sq, t))
}

/// One of the eight directions, as a row step and a column step.
pub open spec fn is_direction(dr: int, dc: int) -> bool {
    -1 <= dr <= 1 && -1 <= dc <= 1 && !(dr == 0 && dc == 0)
}

/// `k` steps of size `d`, for a step of -1, 0 or 1.
pub open spec fn times(k: int, d: int) -> int {
    if d == 0 {
        0
    } else if d == 1 {
        k
    } else {
        -k
    }
}

/// The number of the square `k` steps from `sq` in direction `(dr, dc)`,
/// where that square is on the board.
pub open spec fn step_sq(sq: int, dr: int, dc: int, k: int) -> int {
    (row_of(sq) + times(k, dr)) * 8 + col_of(sq) + times(k, dc)
}

/// The first `k - 1` squares from `sq` in direction `(dr, dc)` are empty.
pub open spec fn ray_free(sq: int, dr: int, dc: int, k: int, occ: Set<int>) -> bool {
    forall|j: int| 1 <= j < k ==> !occ.contains(#[trigger] step_sq(sq, dr, dc, j))
}

/// Square `t` is seen from `sq` in direction `(dr, dc)`: it lies that way on
/// the board, and every square on the way to it is empty. The first occupied
/// square is seen; what lies behind it is not.
pub open spec fn on_ray(sq: int, dr: int, dc: int, t: int, occ: Set<int>) -> bool {
    let k = distance(sq, t);
    on_board(sq) && on_board(t) && k >= 1 && row_of(t) == row_of(sq) + times(k, dr) && col_of(t)
        == col_of(sq) + times(k, dc) && ray_free(sq, dr, dc, k, occ)
}

/// The squares a rook on `sq` attacks when the squares of `occ` are occupied:
/// along the row and the column up to and including the first occupied square.
pub open spec fn rook_attacks(sq: int, occ: Set<int>) -> Set<int> {
    Set::new(
        |t: int|
            on_ray(sq, 1, 0, t, occ) || on_ray(sq, -1, 0, t, occ) || on_ray(sq, 0, 1, t, occ)
                || on_ray(sq, 0, -1, t, occ),
    )
}

/// The squares a bishop on `sq` attacks when the squares of `occ` are
/// occupied: along the diagonals up to and including the first occupied square.
pub open spec fn bishop_attacks(sq: int, occ: Set<int>) -> Set<int> {
    Set::new(
        |t: int|
            on_ray(sq, 1, 1, t, occ) || on_ray(sq, 1, -1, t, occ) || on_ray(sq, -1, 1, t, occ)
                || on_ray(sq, -1, -1, t, occ),
    )
}

/// The squares a queen on `sq` attacks when the squares of `occ` are
/// occupied: those of a rook and those of a bishop on `sq`.
pub open spec fn queen_attacks(sq: int, occ: Set<int>) -> Set<int> {
    rook_attacks(sq, occ).union(bishop_attacks(sq, occ))
}

/// The squares a pawn of `team` on `sq` may move to, leaving aside whether its
/// own king is then safe and leaving aside en passant: one row forward onto an
/// empty square, two rows forward from its home row over two empty squares,
/// and the squares it attacks that are occupied.
pub open spec fn pawn_targets(team: Team, sq: int, occ: Set<int>) -> Set<int> {
    let one = sq + 8 * forward(team);
    let two = sq + 16 * forward(team);
    let home: int = match team {
        Team::White => 1,
        Team::Black => 6,
    };
    Set::new(
        |t: int|
            on_board(sq) && on_board(t) && ((t == one && !occ.contains(one)) || (t == two
                && row_of(sq) == home && !occ.contains(one) && !occ.contains(two)) || (
            pawn_attack_step(team, sq, t) && occ.contains(t))),
    )
}

/// The squares a piece of the given kind and team on `from` attacks when the
/// squares of `occ` are occupied.
pub open spec fn attack_set(kind: PieceKind, team: Team, from: int, occ: Set<int>) -> Set<int> {
    match kind {
        PieceKind::King => king_attacks(from),
        PieceKind::Queen => queen_attacks(from, occ),
        PieceKind::Rook => rook_attacks(from, occ),
        PieceKind::Bishop => bishop_attacks(from, occ),
        PieceKind::Knight => knight_attacks(from),
        PieceKind::Pawn => pawn_attacks(team, from),
    }
}

/// The squares a piece of the given kind and team on `from` may move to by
/// the way it moves alone: what it attacks, and for a pawn its pushes and the
/// occupied squares it attacks.
pub open spec fn move_set(kind: PieceKind, team: Team, from: int, occ: Set<int>) -> Set<int> {
    match kind {
        PieceKind::Pawn => pawn_targets(team, from, occ),
        _ => attack_set(kind, team, from, occ),
    }
}

/// Seeing along a ray goes both ways: `b` is seen from `a` in one direction
/// exactly when `a` is seen from `b` in the opposite one.
pub proof fn lemma_ray_symmetric(a: int, b: int, dr: int, dc: int, occ: Set<int>)
    requires
        is_direction(dr, dc),
    ensures
        on_ray(a, dr, dc, b, occ) == on_ray(b, -dr, -dc, a, occ),
{
    let k = distance(a, b);
    if on_ray(a, dr, dc, b, occ) {
        assert forall|j: int| 1 <= j < k implies !occ.contains(
            #[trigger] step_sq(b, -dr, -dc, j),
        ) by {
            assert(step_sq(b, -dr, -dc, j) == step_sq(a, dr, dc, k - j));
        }
    }
    if on_ray(b, -dr, -dc, a, occ) {
        assert forall|j: int| 1 <= j < k implies !occ.contains(#[trigger] step_sq(a, dr, dc, j)) by {
            assert(step_sq(a, dr, dc, j) == step_sq(b, -dr, -dc, k - j));
        }
    }
}

/// A piece that is not a pawn attacks a square exactly when a piece of its
/// kind on that square would attack it; a pawn attacks a square exactly when
/// a pawn of the other team on that square would attack it.
pub proof fn lemma_attack_symmetric(kind: PieceKind, team: Team, a: int, b: int, occ: Set<int>)
    ensures
        attack_set(kind, team, a, occ).contains(b) == attack_set(
            kind,
            team.spec_enemy(),
            b,
            occ,
        ).contains(a),
{
    lemma_ray_symmetric(a, b, 1, 0, occ);
    lemma_ray_symmetric(a, b, -1, 0, occ);
    lemma_ray_symmetric(a, b, 0, 1, occ);
    lemma_ray_symmetric(a, b, 0, -1, occ);
    lemma_ray_symmetric(a, b, 1, 1, occ);
    lemma_ray_symmetric(a, b, 1, -1, occ);
    lemma_ray_symmetric(a, b, -1, 1, occ);
    lemma_ray_symmetric(a, b, -1, -1, occ);
}

/// Row `r` and column `c` name a square of the board.
pub open spec fn rc_on_board(r: int, c: int) -> bool {
    0 <= r < 8 && 0 <= c < 8
}

/// Square `t` lies from `sq` in direction `(dr, dc)`, and it is not the last
/// square of the board in that direction.
pub open spec fn on_inner_ray(sq: int, dr: int, dc: int, t: int) -> bool {
    on_ray(sq, dr, dc, t, Set::empty()) && rc_on_board(row_of(t) + dr, col_of(t) + dc)
}

/// The squares whose occupancy matters to a rook on `sq`: those along its
/// row and column, without `sq` and without the last square each way. What
/// stands on the last square of a ray hides nothing.
#[verifier::opaque]
pub open spec fn rook_mask(sq: int) -> Set<int> {
    Set::new(
        |t: int|
            on_inner_ray(sq, 1, 0, t) || on_inner_ray(sq, -1, 0, t) || on_inner_ray(sq, 0, 1, t)
                || on_inner_ray(sq, 0, -1, t),
    )
}

/// The squares whose occupancy matters to a bishop on `sq`: those along its
/// diagonals, without `sq` and without the last square each way.
#[verifier::opaque]
pub open spec fn bishop_mask(sq: int) -> Set<int> {
    Set::new(
        |t: int|
            on_inner_ray(sq, 1, 1, t) || on_inner_ray(sq, 1, -1, t) || on_inner_ray(sq, -1, 1, t)
                || on_inner_ray(sq, -1, -1, t),
    )
}

/// The squares whose occupancy matters to a queen on `sq`.
pub open spec fn queen_mask(sq: int) -> Set<int> {
    rook_mask(sq).union(bishop_mask(sq))
}

/// The rook's mask, square by square: the other squares of its row that lie
/// in columns B to G, and the other squares of its column that lie in rows
/// 2 to 7.
pub proof fn lemma_rook_mask_squares(sq: int, t: int)
    requires
        on_board(sq),
    ensures
        rook_mask(sq).contains(t) == (on_board(t) && t != sq && ((row_of(t) == row_of(sq) && 1
            <= col_of(t) <= 6) || (col_of(t) == col_of(sq) && 1 <= row_of(t) <= 6))),
{
    reveal(rook_mask);
}

/// The bishop's mask, square by square: the other squares of its diagonals
/// that do not lie on the rim of the board.
pub proof fn lemma_bishop_mask_squares(sq: int, t: int)
    requires
        on_board(sq),
    ensures
        bishop_mask(sq).contains(t) == (on_board(t) && t != sq && abs_diff(row_of(t), row_of(sq))
            == abs_diff(col_of(t), col_of(sq)) && 1 <= col_of(t) <= 6 && 1 <= row_of(t) <= 6),
{
    reveal(bishop_mask);
}

/// What is seen along a ray depends only on the occupancy of the squares of
/// `mask`, where `mask` holds every square of the ray but the last.
pub proof fn lemma_ray_relevance(sq: int, dr: int, dc: int, t: int, occ: Set<int>, mask: Set<int>)
    requires
        is_direction(dr, dc),
        forall|s: int| on_inner_ray(sq, dr, dc, s) ==> mask.contains(s),
    ensures
        on_ray(sq, dr, dc, t, occ) == on_ray(sq, dr, dc, t, occ.intersect(mask)),
{
    let k = distance(sq, t);
    let inner = occ.intersect(mask);
    let r = row_of(sq);
    let c = col_of(sq);
    if on_board(sq) && on_board(t) && k >= 1 && row_of(t) == r + times(k, dr) && col_of(t) == c
        + times(k, dc) {
        assert forall|j: int| 1 <= j < k implies occ.contains(#[trigger] step_sq(sq, dr, dc, j))
            == inner.contains(step_sq(sq, dr, dc, j)) by {
            let s = step_sq(sq, dr, dc, j);
            let sr = r + times(j, dr);
            let sc = c + times(j, dc);
            assert(0 <= sr < 8 && 0 <= sc < 8);
            assert(s == sr * 8 + sc);
            assert(row_of(s) == sr && col_of(s) == sc);
            assert(distance(sq, s) == j);
            assert(ray_free(sq, dr, dc, j, Set::empty()));
            assert(on_ray(sq, dr, dc, s, Set::empty()));
            assert(rc_on_board(sr + dr, sc + dc));
            assert(on_inner_ray(sq, dr, dc, s));
        }
    }
}

/// A rook's attacks depend only on the occupancy of the squares of its mask.
pub proof fn lemma_rook_relevance(sq: int, occ: Set<int>)
    ensures
        rook_attacks(sq, occ) == rook_attacks(sq, occ.intersect(rook_mask(sq))),
{
    reveal(rook_mask);
    let m = rook_mask(sq);
    assert forall|t: int|
        rook_attacks(sq, occ).contains(t) == rook_attacks(sq, occ.intersect(m)).contains(t) by {
        lemma_ray_relevance(sq, 1, 0, t, occ, m);
        lemma_ray_relevance(sq, -1, 0, t, occ, m);
        lemma_ray_relevance(sq, 0, 1, t, occ, m);
        lemma_ray_relevance(sq, 0, -1, t, occ, m);
    }
    assert(rook_attacks(sq, occ) =~= rook_attacks(sq, occ.intersect(m)));
}

/// A bishop's attacks depend only on the occupancy of the squares of its
/// mask.
pub proof fn lemma_bishop_relevance(sq: int, occ: Set<int>)
    ensures
        bishop_attacks(sq, occ) == bishop_attacks(sq, occ.intersect(bishop_mask(sq))),
{
    reveal(bishop_mask);
    let m = bishop_mask(sq);
    assert forall|t: int|
        bishop_attacks(sq, occ).contains(t) == bishop_attacks(sq, occ.intersect(m)).contains(
            t,
        ) by {
        lemma_ray_relevance(sq, 1, 1, t, occ, m);
        lemma_ray_relevance(sq, 1, -1, t, occ, m);
        lemma_ray_relevance(sq, -1, 1, t, occ, m);
        lemma_ray_relevance(sq, -1, -1, t, occ, m);
    }
    assert(bishop_attacks(sq, occ) =~= bishop_attacks(sq, occ.intersect(m)));
}

/// A queen's attacks depend only on the occupancy of the squares of her
/// mask.
pub proof fn lemma_queen_relevance(sq: int, occ: Set<int>)
    ensures
        queen_attacks(sq, occ) == queen_attacks(sq, occ.intersect(queen_mask(sq))),
{
    reveal(rook_mask);
    reveal(bishop_mask);
    let m = queen_mask(sq);
    assert forall|t: int|
        queen_attacks(sq, occ).contains(t) == queen_attacks(sq, occ.intersect(m)).contains(t) by {
        lemma_ray_relevance(sq, 1, 0, t, occ, m);
        lemma_ray_relevance(sq, -1, 0, t, occ, m);
        lemma_ray_relevance(sq, 0, 1, t, occ, m);
        lemma_ray_relevance(sq, 0, -1, t, occ, m);
        lemma_ray_relevance(sq, 1, 1, t, occ, m);
        lemma_ray_relevance(sq, 1, -1, t, occ, m);
        lemma_ray_relevance(sq, -1, 1, t, occ, m);
        lemma_ray_relevance(sq, -1, -1, t, occ, m);
    }
    assert(queen_attacks(sq, occ) =~= queen_attacks(sq, occ.intersect(m)));
}

} // verus!
