//! What holds of the moves that a position lists, and of the board before
//! and after a move.

use vstd::prelude::*;
use crate::bitboard::{lemma_listing_contents, listing};
use crate::game::{Game, GameMove, Promotion, RawMove};
use crate::movegen::{plain_to, promo_row, promotions_at, promotions_to};
use crate::bits::lemma_bit_and;
use crate::board::{castle_king_to, castle_rook_to, king_home, rook_home, ChessBoard};
use crate::geometry::{forward, on_board};
use crate::piece::{PieceInfo, PieceKind, Team};
use crate::position::Position;

verus! {

/// Every move of `s` is a legal move of `team` in position `g`.
pub open spec fn all_legal(g: Game, team: Team, s: Seq<GameMove>) -> bool {
    forall|i: int| 0 <= i < s.len() ==> g.legal_for(team, #[trigger] s[i])
}

/// Two lists of legal moves make a list of legal moves.
pub proof fn lemma_all_legal_concat(g: Game, team: Team, a: Seq<GameMove>, b: Seq<GameMove>)
    requires
        all_legal(g, team, a),
        all_legal(g, team, b),
    ensures
        all_legal(g, team, a + b),
{
    assert forall|i: int| 0 <= i < (a + b).len() implies g.legal_for(team, #[trigger] (a + b)[i]) by {
        if i < a.len() {
            assert((a + b)[i] == a[i]);
        } else {
            assert((a + b)[i] == b[i - a.len()]);
        }
    }
}

/// The captures and quiet moves listed for a piece are legal.
pub proof fn lemma_step_moves_legal(g: Game, team: Team, kind: PieceKind, from: int)
    requires
        g.board.wf(),
        g.board.holds(from, team, kind),
    ensures
        all_legal(g, team, g.step_moves(team, kind, from)),
{
    let legals = g.board.legal_targets(team, kind, from);
    let plain = if kind == PieceKind::Pawn {
        legals.difference(promo_row(team))
    } else {
        legals
    };
    let enemies = g.board.team_board(team.spec_enemy())@;
    let piece = PieceInfo { kind, team };
    let caps = listing(plain.intersect(enemies));
    let quiets = listing(plain.difference(enemies));
    let a = plain_to(from, piece, caps, true);
    let b = plain_to(from, piece, quiets, false);
    lemma_listing_contents(plain.intersect(enemies), 0);
    lemma_listing_contents(plain.difference(enemies), 0);
    Position::lemma_at(from);
    assert(all_legal(g, team, a)) by {
        assert forall|i: int| 0 <= i < a.len() implies g.legal_for(team, #[trigger] a[i]) by {
            let to = caps[i];
            assert(plain.intersect(enemies).contains(to));
            Position::lemma_at(to);
            assert(g.board.team_board(team.spec_enemy()).has(to));
            assert(a[i] == GameMove::Capture(RawMove::of(from, to, piece)));
        }
    }
    assert(all_legal(g, team, b)) by {
        assert forall|i: int| 0 <= i < b.len() implies g.legal_for(team, #[trigger] b[i]) by {
            let to = quiets[i];
            assert(plain.difference(enemies).contains(to));
            Position::lemma_at(to);
            assert(!g.board.team_board(team.spec_enemy()).has(to)) by {
                assert(!enemies.contains(to));
            }
            assert(!g.board.team_board(team).has(to)) by {
                assert(g.board.pseudo_targets(team, kind, from).contains(to));
                assert(!g.board.team_board(team)@.contains(to));
            }
            assert(b[i] == GameMove::Regular(RawMove::of(from, to, piece)));
        }
    }
    lemma_all_legal_concat(g, team, a, b);
}

/// The promotions listed for a pawn are legal.
pub proof fn lemma_promotions_legal(
    g: Game,
    team: Team,
    from: int,
    targets: Seq<int>,
    capture: bool,
)
    requires
        g.board.wf(),
        g.board.holds(from, team, PieceKind::Pawn),
        forall|i: int|
            0 <= i < targets.len() ==> g.board.legal_targets(team, PieceKind::Pawn, from).contains(
                #[trigger] targets[i],
            ) && promo_row(team).contains(targets[i]) && g.board.occupied(targets[i]) == capture,
    ensures
        all_legal(
            g,
            team,
            promotions_to(from, PieceInfo { kind: PieceKind::Pawn, team }, targets, capture),
        ),
    decreases targets.len(),
{
    let piece = PieceInfo { kind: PieceKind::Pawn, team };
    if targets.len() > 0 {
        let to = targets[0];
        let four = promotions_at(from, piece, to, capture);
        let rest = targets.skip(1);
        assert forall|i: int| 0 <= i < rest.len() implies g.board.legal_targets(
            team,
            PieceKind::Pawn,
            from,
        ).contains(#[trigger] rest[i]) && promo_row(team).contains(rest[i]) && g.board.occupied(
            rest[i],
        ) == capture by {
            assert(rest[i] == targets[i + 1]);
        }
        lemma_promotions_legal(g, team, from, rest, capture);
        Position::lemma_at(from);
        Position::lemma_at(to);
        assert(all_legal(g, team, four)) by {
            assert forall|i: int| 0 <= i < four.len() implies g.legal_for(team, #[trigger] four[i]) by {
                assert(g.legal_step(team, RawMove::of(from, to, piece)));
            }
        }
        lemma_all_legal_concat(g, team, four, promotions_to(from, piece, rest, capture));
    }
}

/// The moves listed for a pawn are legal.
pub proof fn lemma_pawn_moves_legal(g: Game, team: Team, from: int)
    requires
        g.board.wf(),
        g.board.holds(from, team, PieceKind::Pawn),
        g.ep_valid_for(team),
    ensures
        all_legal(g, team, g.pawn_moves(team, from)),
{
    let piece = PieceInfo { kind: PieceKind::Pawn, team };
    let legals = g.board.legal_targets(team, PieceKind::Pawn, from);
    let last = legals.intersect(promo_row(team));
    let enemies = g.board.team_board(team.spec_enemy())@;
    let ep = if g.can_take_ep(team, from) {
        seq![GameMove::Enpassant(RawMove::of(from, g.ep_square(), piece))]
    } else {
        Seq::empty()
    };
    let steps = g.step_moves(team, PieceKind::Pawn, from);
    let caps = listing(last.intersect(enemies));
    let quiets = listing(last.difference(enemies));
    let a = promotions_to(from, piece, caps, true);
    let b = promotions_to(from, piece, quiets, false);
    Position::lemma_at(from);
    assert(all_legal(g, team, ep)) by {
        if g.can_take_ep(team, from) {
            let e = choose|e: int| g.ep_at(team, e);
            assert(g.ep_at(team, e));
            g.lemma_ep_square(e);
            Position::lemma_at(e);
            assert(g.legal_for(team, ep[0]));
        }
    }
    lemma_step_moves_legal(g, team, PieceKind::Pawn, from);
    lemma_listing_contents(last.intersect(enemies), 0);
    lemma_listing_contents(last.difference(enemies), 0);
    assert forall|i: int| 0 <= i < caps.len() implies legals.contains(#[trigger] caps[i])
        && promo_row(team).contains(caps[i]) && g.board.occupied(caps[i]) == true by {
        assert(last.intersect(enemies).contains(caps[i]));
        assert(g.board.team_board(team.spec_enemy()).has(caps[i]));
    }
    assert forall|i: int| 0 <= i < quiets.len() implies legals.contains(#[trigger] quiets[i])
        && promo_row(team).contains(quiets[i]) && g.board.occupied(quiets[i]) == false by {
        let to = quiets[i];
        assert(last.difference(enemies).contains(to));
        assert(!g.board.team_board(team.spec_enemy()).has(to)) by {
            assert(!enemies.contains(to));
        }
        assert(!g.board.team_board(team).has(to)) by {
            assert(g.board.pseudo_targets(team, PieceKind::Pawn, from).contains(to));
            assert(!g.board.team_board(team)@.contains(to));
        }
    }
    lemma_promotions_legal(g, team, from, caps, true);
    lemma_promotions_legal(g, team, from, quiets, false);
    lemma_all_legal_concat(g, team, ep, steps);
    lemma_all_legal_concat(g, team, ep + steps, a);
    lemma_all_legal_concat(g, team, ep + steps + a, b);
}

/// The moves listed for a piece are legal.
pub proof fn lemma_piece_moves_legal(g: Game, team: Team, kind: PieceKind, from: int)
    requires
        g.board.wf(),
        g.board.holds(from, team, kind),
        g.ep_valid_for(team),
    ensures
        all_legal(g, team, g.piece_moves(team, kind, from)),
{
    match kind {
        PieceKind::Pawn => {
            lemma_pawn_moves_legal(g, team, from);
        },
        PieceKind::King => {
            lemma_step_moves_legal(g, team, kind, from);
            let castles = g.castle_moves(team);
            assert(all_legal(g, team, castles)) by {
                assert forall|i: int| 0 <= i < castles.len() implies g.legal_for(
                    team,
                    #[trigger] castles[i],
                ) by {
                    let ks = if g.can_castle(team, true) {
                        seq![GameMove::CastleKingside(team)]
                    } else {
                        Seq::empty()
                    };
                    let qs = if g.can_castle(team, false) {
                        seq![GameMove::CastleQueenside(team)]
                    } else {
                        Seq::empty()
                    };
                    assert(castles == ks + qs);
                    if i < ks.len() {
                        assert(castles[i] == ks[i]);
                    } else {
                        assert(castles[i] == qs[i - ks.len()]);
                    }
                }
            }
            lemma_all_legal_concat(g, team, g.step_moves(team, kind, from), castles);
        },
        _ => {
            lemma_step_moves_legal(g, team, kind, from);
        },
    }
}

/// The moves listed for the pieces of a team and kind on the given squares
/// are legal.
pub proof fn lemma_moves_over_legal(g: Game, team: Team, kind: PieceKind, squares: Seq<int>)
    requires
        g.board.wf(),
        g.ep_valid_for(team),
        forall|i: int| 0 <= i < squares.len() ==> g.board.holds(#[trigger] squares[i], team, kind),
    ensures
        all_legal(g, team, g.moves_over(team, kind, squares)),
    decreases squares.len(),
{
    if squares.len() > 0 {
        let rest = squares.skip(1);
        assert forall|i: int| 0 <= i < rest.len() implies g.board.holds(
            #[trigger] rest[i],
            team,
            kind,
        ) by {
            assert(rest[i] == squares[i + 1]);
        }
        lemma_moves_over_legal(g, team, kind, rest);
        lemma_piece_moves_legal(g, team, kind, squares[0]);
        lemma_all_legal_concat(
            g,
            team,
            g.piece_moves(team, kind, squares[0]),
            g.moves_over(team, kind, rest),
        );
    }
}

/// The moves listed for the pieces of a team and kind are legal.
pub proof fn lemma_kind_moves_legal(g: Game, team: Team, kind: PieceKind)
    requires
        g.board.wf(),
        g.ep_valid_for(team),
    ensures
        all_legal(g, team, g.kind_moves(team, kind)),
{
    let pieces = g.board.pieces_of(team, kind);
    let squares = pieces.squares();
    pieces.lemma_squares_contents(0);
    assert forall|i: int| 0 <= i < squares.len() implies g.board.holds(
        #[trigger] squares[i],
        team,
        kind,
    ) by {
        assert(pieces.has(squares[i]));
        broadcast use crate::bits::lemma_bit_and;
    }
    lemma_moves_over_legal(g, team, kind, squares);
}

/// Every move that a position lists for a team is a legal move of that team.
pub proof fn lemma_team_moves_legal(g: Game, team: Team)
    requires
        g.board.wf(),
        g.ep_valid_for(team),
    ensures
        all_legal(g, team, g.team_moves(team)),
{
    lemma_kind_moves_legal(g, team, PieceKind::Pawn);
    lemma_kind_moves_legal(g, team, PieceKind::Rook);
    lemma_kind_moves_legal(g, team, PieceKind::Knight);
    lemma_kind_moves_legal(g, team, PieceKind::King);
    lemma_kind_moves_legal(g, team, PieceKind::Queen);
    lemma_kind_moves_legal(g, team, PieceKind::Bishop);
    let p = g.kind_moves(team, PieceKind::Pawn);
    let r = g.kind_moves(team, PieceKind::Rook);
    let n = g.kind_moves(team, PieceKind::Knight);
    let k = g.kind_moves(team, PieceKind::King);
    let q = g.kind_moves(team, PieceKind::Queen);
    let b = g.kind_moves(team, PieceKind::Bishop);
    lemma_all_legal_concat(g, team, p, r);
    lemma_all_legal_concat(g, team, p + r, n);
    lemma_all_legal_concat(g, team, p + r + n, k);
    lemma_all_legal_concat(g, team, p + r + n + k, q);
    lemma_all_legal_concat(g, team, p + r + n + k + q, b);
}

/// Every move that a position lists is a legal move of the side to move.
pub proof fn lemma_moves_legal(g: Game)
    requires
        g.wf(),
    ensures
        forall|i: int| 0 <= i < g.moves().len() ==> g.legal(#[trigger] g.moves()[i]),
{
    match g.active_team() {
        Some(team) => {
            lemma_team_moves_legal(g, team);
        },
        None => {},
    }
}

/// What stands where after move `m` of `team`, as a map from occupied
/// squares: the moving piece stands on its target, as what it is promoted
/// to where it is; the square it left is empty; a piece captured on the
/// target is gone with its square taken; a pawn captured en passant is gone
/// from the square behind the target; in castling the rook has crossed the
/// king. Nothing else has changed.
pub open spec fn view_after(g: Game, team: Team, m: GameMove) -> Map<int, PieceInfo> {
    let before = g.board@;
    match m {
        GameMove::CastleKingside(_) => before.remove(king_home(team)).remove(
            rook_home(team, true),
        ).insert(castle_king_to(team, true), PieceInfo { kind: PieceKind::King, team }).insert(
            castle_rook_to(team, true),
            PieceInfo { kind: PieceKind::Rook, team },
        ),
        GameMove::CastleQueenside(_) => before.remove(king_home(team)).remove(
            rook_home(team, false),
        ).insert(castle_king_to(team, false), PieceInfo { kind: PieceKind::King, team }).insert(
            castle_rook_to(team, false),
            PieceInfo { kind: PieceKind::Rook, team },
        ),
        GameMove::Enpassant(mov) => before.remove(mov.from@).remove(
            mov.to@ - 8 * forward(team),
        ).insert(mov.to@, PieceInfo { kind: PieceKind::Pawn, team }),
        _ => before.remove(m.from_sq(team)).insert(
            m.to_sq(team),
            PieceInfo { kind: m.final_kind(), team },
        ),
    }
}

/// On a well-formed board, what stands on a square is what holds it.
pub proof fn lemma_cells_agree(a: ChessBoard, b: ChessBoard, t: int)
    requires
        a.wf(),
        b.wf(),
        forall|tm: Team, k: PieceKind| a.holds(t, tm, k) == b.holds(t, tm, k),
        a.occupied(t) == b.occupied(t),
    ensures
        a.piece_at(t) == b.piece_at(t),
{
    if on_board(t) {
        assert(a.square_wf(t));
        assert(b.square_wf(t));
        a.lemma_piece_at(t);
        b.lemma_piece_at(t);
        match a.piece_at(t) {
            Some(p) => {
                assert(a.holds(t, p.team, p.kind));
                assert(b.holds(t, p.team, p.kind));
            },
            None => {},
        }
    }
}

/// Square by square, what stands on the board after a legal move: the
/// squares that the move does not touch hold what they held, the squares
/// that it vacates are empty, and the moving piece stands on its target.
pub proof fn lemma_cells_after(g: Game, team: Team, m: GameMove)
    requires
        g.wf(),
        g.active_team() == Some(team),
        g.legal_for(team, m),
    ensures
        forall|t: int|
            !m.touches(team, t) ==> #[trigger] g.board_after(team, m).piece_at(t)
                == g.board.piece_at(t),
        forall|t: int| m.vacates(team, t) ==> #[trigger] g.board_after(team, m).piece_at(t).is_none(),
        g.board_after(team, m).piece_at(m.to_sq(team)) == Some(
            PieceInfo { kind: m.final_kind(), team },
        ),
        m is CastleKingside ==> g.board_after(team, m).piece_at(castle_rook_to(team, true))
            == Some(PieceInfo { kind: PieceKind::Rook, team }),
        m is CastleQueenside ==> g.board_after(team, m).piece_at(castle_rook_to(team, false))
            == Some(PieceInfo { kind: PieceKind::Rook, team }),
        on_board(m.from_sq(team)),
        on_board(m.to_sq(team)),
        g.board.piece_at(m.from_sq(team)) == Some(PieceInfo { kind: m.kind(), team }),
{
    let before = g.board;
    let after = g.board_after(team, m);
    let to = m.to_sq(team);
    let from = m.from_sq(team);
    g.lemma_board_after(team, m);
    assert forall|t: int| !m.touches(team, t) implies #[trigger] after.piece_at(t)
        == before.piece_at(t) by {
        lemma_cells_agree(before, after, t);
    }
    assert forall|t: int| m.vacates(team, t) implies #[trigger] after.piece_at(t).is_none() by {
        if on_board(t) {
            assert(after.square_wf(t));
            after.lemma_piece_at(t);
        }
    }
    assert(after.square_wf(to));
    after.lemma_piece_at(to);
    if m is CastleKingside {
        let rt = castle_rook_to(team, true);
        assert(on_board(rt));
        assert(after.square_wf(rt));
        after.lemma_piece_at(rt);
    }
    if m is CastleQueenside {
        let rt = castle_rook_to(team, false);
        assert(on_board(rt));
        assert(after.square_wf(rt));
        after.lemma_piece_at(rt);
    }
    assert(before.square_wf(from));
    before.lemma_piece_at(from);
    assert(before.holds(from, team, m.kind())) by {
        if m is CastleKingside || m is CastleQueenside {
            assert(g.right(team, m is CastleKingside));
        }
    }
}

/// After a legal move the board is the board before it with the changes
/// that the move says, and with no other.
pub proof fn lemma_view_after(g: Game, team: Team, m: GameMove)
    requires
        g.wf(),
        g.active_team() == Some(team),
        g.legal_for(team, m),
    ensures
        g.board_after(team, m)@ == view_after(g, team, m),
{
    let before = g.board;
    let after = g.board_after(team, m);
    lemma_cells_after(g, team, m);
    let expected = view_after(g, team, m);
    assert forall|t: int| #[trigger] after@.dom().contains(t) == expected.dom().contains(t) by {
        if m.touches(team, t) {
            if m.vacates(team, t) {
                assert(after.piece_at(t).is_none());
            }
        } else {
            assert(after.piece_at(t) == before.piece_at(t));
            assert(before@.dom().contains(t) == before.piece_at(t).is_some());
        }
    }
    assert forall|t: int| #[trigger] after@.dom().contains(t) implies after@[t] == expected[t] by {
        if m.touches(team, t) {
            if m.vacates(team, t) {
                assert(after.piece_at(t).is_none());
            }
        } else {
            assert(after.piece_at(t) == before.piece_at(t));
            assert(before@.dom().contains(t) == before.piece_at(t).is_some());
        }
    }
    assert(after@ =~= view_after(g, team, m));
}

/// What is in one of two lists is in both put together.
pub proof fn lemma_contains_concat(a: Seq<GameMove>, b: Seq<GameMove>, m: GameMove)
    requires
        a.contains(m) || b.contains(m),
    ensures
        (a + b).contains(m),
{
    if a.contains(m) {
        let i = choose|i: int| 0 <= i < a.len() && a[i] == m;
        assert((a + b)[i] == m);
    } else {
        let i = choose|i: int| 0 <= i < b.len() && b[i] == m;
        assert((a + b)[a.len() + i] == m);
    }
}

/// The promotions to a square of `targets` are among the promotions listed
/// for them.
pub proof fn lemma_promotions_contain(
    from: int,
    piece: PieceInfo,
    targets: Seq<int>,
    capture: bool,
    to: int,
    promotion: Promotion,
)
    requires
        targets.contains(to),
    ensures
        promotions_to(from, piece, targets, capture).contains(
            if capture {
                GameMove::CapturePromote { promotion, mov: RawMove::of(from, to, piece) }
            } else {
                GameMove::Promote { promotion, mov: RawMove::of(from, to, piece) }
            },
        ),
    decreases targets.len(),
{
    let m = if capture {
        GameMove::CapturePromote { promotion, mov: RawMove::of(from, to, piece) }
    } else {
        GameMove::Promote { promotion, mov: RawMove::of(from, to, piece) }
    };
    let four = promotions_at(from, piece, targets[0], capture);
    let rest = promotions_to(from, piece, targets.skip(1), capture);
    if targets[0] == to {
        let i: int = match promotion {
            Promotion::Rook => 0,
            Promotion::Bishop => 1,
            Promotion::Queen => 2,
            Promotion::Knight => 3,
        };
        assert(four[i] == m);
        assert(four.contains(m));
    } else {
        let k = choose|k: int| 0 <= k < targets.len() && targets[k] == to;
        assert(targets.skip(1)[k - 1] == to);
        lemma_promotions_contain(from, piece, targets.skip(1), capture, to, promotion);
    }
    lemma_contains_concat(four, rest, m);
}

/// A legal capture or quiet move that is no promotion is among the moves
/// listed for its piece.
pub proof fn lemma_step_listed(g: Game, team: Team, mov: RawMove, capture: bool)
    requires
        g.board.wf(),
        g.legal_step(team, mov),
        g.board.occupied(mov.to@) == capture,
        !Game::promotes(team, mov),
    ensures
        g.step_moves(team, mov.piece.kind, mov.from@).contains(
            if capture {
                GameMove::Capture(mov)
            } else {
                GameMove::Regular(mov)
            },
        ),
{
    let kind = mov.piece.kind;
    let from = mov.from@;
    let to = mov.to@;
    let legals = g.board.legal_targets(team, kind, from);
    let plain = if kind == PieceKind::Pawn {
        legals.difference(promo_row(team))
    } else {
        legals
    };
    let enemies = g.board.team_board(team.spec_enemy())@;
    let piece = PieceInfo { kind, team };
    let caps = listing(plain.intersect(enemies));
    let quiets = listing(plain.difference(enemies));
    let a = plain_to(from, piece, caps, true);
    let b = plain_to(from, piece, quiets, false);
    mov.from.lemma_at_view();
    mov.to.lemma_at_view();
    assert(mov == RawMove::of(from, to, piece));
    assert(g.board.pseudo_targets(team, kind, from).contains(to));
    assert(!g.board.team_board(team)@.contains(to));
    assert(on_board(to));
    assert(enemies.contains(to) == g.board.team_board(team.spec_enemy()).has(to));
    assert(g.board.team_board(team)@.contains(to) == g.board.team_board(team).has(to));
    assert(enemies.contains(to) == capture);
    assert(legals.contains(to));
    assert(kind == PieceKind::Pawn ==> !promo_row(team).contains(to));
    assert(plain.contains(to));
    if capture {
        lemma_listing_contents(plain.intersect(enemies), 0);
        assert(plain.intersect(enemies).contains(to));
        assert(caps.contains(to));
        let i = choose|i: int| 0 <= i < caps.len() && caps[i] == to;
        assert(a[i] == GameMove::Capture(mov));
    } else {
        lemma_listing_contents(plain.difference(enemies), 0);
        assert(plain.difference(enemies).contains(to));
        assert(quiets.contains(to));
        let i = choose|i: int| 0 <= i < quiets.len() && quiets[i] == to;
        assert(b[i] == GameMove::Regular(mov));
    }
    lemma_contains_concat(
        a,
        b,
        if capture {
            GameMove::Capture(mov)
        } else {
            GameMove::Regular(mov)
        },
    );
}

/// A legal move is among the moves listed for the piece that makes it.
pub proof fn lemma_piece_move_listed(g: Game, team: Team, m: GameMove)
    requires
        g.board.wf(),
        g.legal_for(team, m),
    ensures
        g.piece_moves(team, m.kind(), m.from_sq(team)).contains(m),
        g.board.holds(m.from_sq(team), team, m.kind()) || m is CastleKingside
            || m is CastleQueenside,
{
    let kind = m.kind();
    let from = m.from_sq(team);
    let piece = PieceInfo { kind, team };
    match m {
        GameMove::Regular(mov) => {
            lemma_step_listed(g, team, mov, false);
            if kind == PieceKind::Pawn {
                lemma_in_pawn_moves(g, team, from, m, 1);
            } else if kind == PieceKind::King {
                lemma_contains_concat(g.step_moves(team, kind, from), g.castle_moves(team), m);
            }
        },
        GameMove::Capture(mov) => {
            lemma_step_listed(g, team, mov, true);
            if kind == PieceKind::Pawn {
                lemma_in_pawn_moves(g, team, from, m, 1);
            } else if kind == PieceKind::King {
                lemma_contains_concat(g.step_moves(team, kind, from), g.castle_moves(team), m);
            }
        },
        GameMove::Promote { promotion, mov } => {
            lemma_promotion_listed(g, team, mov, promotion, false);
            lemma_in_pawn_moves(g, team, from, m, 3);
        },
        GameMove::CapturePromote { promotion, mov } => {
            lemma_promotion_listed(g, team, mov, promotion, true);
            lemma_in_pawn_moves(g, team, from, m, 2);
        },
        GameMove::Enpassant(mov) => {
            g.lemma_ep_square(mov.to@);
            mov.from.lemma_at_view();
            mov.to.lemma_at_view();
            let ep = seq![GameMove::Enpassant(RawMove::of(from, g.ep_square(), piece))];
            assert(ep[0] == m);
            lemma_in_pawn_moves(g, team, from, m, 0);
        },
        GameMove::CastleKingside(_) => {
            let ks = seq![GameMove::CastleKingside(team)];
            assert(ks[0] == m);
            let qs = if g.can_castle(team, false) {
                seq![GameMove::CastleQueenside(team)]
            } else {
                Seq::empty()
            };
            lemma_contains_concat(ks, qs, m);
            lemma_contains_concat(g.step_moves(team, kind, from), g.castle_moves(team), m);
        },
        GameMove::CastleQueenside(_) => {
            let qs = seq![GameMove::CastleQueenside(team)];
            assert(qs[0] == m);
            let ks = if g.can_castle(team, true) {
                seq![GameMove::CastleKingside(team)]
            } else {
                Seq::empty()
            };
            lemma_contains_concat(ks, qs, m);
            lemma_contains_concat(g.step_moves(team, kind, from), g.castle_moves(team), m);
        },
    }
}

/// A legal promotion is among the promotions listed for its pawn.
pub proof fn lemma_promotion_listed(
    g: Game,
    team: Team,
    mov: RawMove,
    promotion: Promotion,
    capture: bool,
)
    requires
        g.board.wf(),
        g.legal_step(team, mov),
        g.board.occupied(mov.to@) == capture,
        Game::promotes(team, mov),
    ensures
        promotions_to(
            mov.from@,
            PieceInfo { kind: PieceKind::Pawn, team },
            listing(
                if capture {
                    g.board.legal_targets(team, PieceKind::Pawn, mov.from@).intersect(
                        promo_row(team),
                    ).intersect(g.board.team_board(team.spec_enemy())@)
                } else {
                    g.board.legal_targets(team, PieceKind::Pawn, mov.from@).intersect(
                        promo_row(team),
                    ).difference(g.board.team_board(team.spec_enemy())@)
                },
            ),
            capture,
        ).contains(
            if capture {
                GameMove::CapturePromote { promotion, mov }
            } else {
                GameMove::Promote { promotion, mov }
            },
        ),
{
    let from = mov.from@;
    let to = mov.to@;
    let piece = PieceInfo { kind: PieceKind::Pawn, team };
    let legals = g.board.legal_targets(team, PieceKind::Pawn, from);
    let last = legals.intersect(promo_row(team));
    let enemies = g.board.team_board(team.spec_enemy())@;
    let set = if capture {
        last.intersect(enemies)
    } else {
        last.difference(enemies)
    };
    mov.from.lemma_at_view();
    mov.to.lemma_at_view();
    assert(mov == RawMove::of(from, to, piece));
    assert(g.board.pseudo_targets(team, PieceKind::Pawn, from).contains(to));
    assert(!g.board.team_board(team)@.contains(to));
    assert(on_board(to));
    assert(enemies.contains(to) == g.board.team_board(team.spec_enemy()).has(to));
    assert(g.board.team_board(team)@.contains(to) == g.board.team_board(team).has(to));
    assert(set.contains(to));
    lemma_listing_contents(set, 0);
    lemma_promotions_contain(from, piece, listing(set), capture, to, promotion);
}

/// What is in part `part` of the moves of a pawn is among its moves: part 0
/// is en passant, part 1 the captures and quiet moves, part 2 the capturing
/// promotions and part 3 the quiet promotions.
pub proof fn lemma_in_pawn_moves(g: Game, team: Team, from: int, m: GameMove, part: int)
    requires
        0 <= part <= 3,
        part == 0 ==> g.can_take_ep(team, from) && m == GameMove::Enpassant(
            RawMove::of(from, g.ep_square(), PieceInfo { kind: PieceKind::Pawn, team }),
        ),
        part == 1 ==> g.step_moves(team, PieceKind::Pawn, from).contains(m),
        part == 2 ==> promotions_to(
            from,
            PieceInfo { kind: PieceKind::Pawn, team },
            listing(
                g.board.legal_targets(team, PieceKind::Pawn, from).intersect(
                    promo_row(team),
                ).intersect(g.board.team_board(team.spec_enemy())@),
            ),
            true,
        ).contains(m),
        part == 3 ==> promotions_to(
            from,
            PieceInfo { kind: PieceKind::Pawn, team },
            listing(
                g.board.legal_targets(team, PieceKind::Pawn, from).intersect(
                    promo_row(team),
                ).difference(g.board.team_board(team.spec_enemy())@),
            ),
            false,
        ).contains(m),
    ensures
        g.pawn_moves(team, from).contains(m),
{
    let piece = PieceInfo { kind: PieceKind::Pawn, team };
    let legals = g.board.legal_targets(team, PieceKind::Pawn, from);
    let last = legals.intersect(promo_row(team));
    let enemies = g.board.team_board(team.spec_enemy())@;
    let ep = if g.can_take_ep(team, from) {
        seq![GameMove::Enpassant(RawMove::of(from, g.ep_square(), piece))]
    } else {
        Seq::empty()
    };
    let steps = g.step_moves(team, PieceKind::Pawn, from);
    let a = promotions_to(from, piece, listing(last.intersect(enemies)), true);
    let b = promotions_to(from, piece, listing(last.difference(enemies)), false);
    if part == 0 {
        assert(ep[0] == m);
    }
    if part <= 1 {
        lemma_contains_concat(ep, steps, m);
    }
    if part <= 2 {
        lemma_contains_concat(ep + steps, a, m);
    }
    lemma_contains_concat(ep + steps + a, b, m);
}

/// The moves of a piece on one of `squares` are among the moves listed for
/// the pieces on `squares`.
pub proof fn lemma_moves_over_contain(
    g: Game,
    team: Team,
    kind: PieceKind,
    squares: Seq<int>,
    from: int,
    m: GameMove,
)
    requires
        squares.contains(from),
        g.piece_moves(team, kind, from).contains(m),
    ensures
        g.moves_over(team, kind, squares).contains(m),
    decreases squares.len(),
{
    let first = g.piece_moves(team, kind, squares[0]);
    let rest = g.moves_over(team, kind, squares.skip(1));
    if squares[0] != from {
        let k = choose|k: int| 0 <= k < squares.len() && squares[k] == from;
        assert(squares.skip(1)[k - 1] == from);
        lemma_moves_over_contain(g, team, kind, squares.skip(1), from, m);
    }
    lemma_contains_concat(first, rest, m);
}

/// Every legal move of a team is among the moves that the position lists
/// for it.
pub proof fn lemma_team_moves_complete(g: Game, team: Team, m: GameMove)
    requires
        g.board.wf(),
        g.legal_for(team, m),
        m is CastleKingside || m is CastleQueenside ==> g.board.holds(
            king_home(team),
            team,
            PieceKind::King,
        ),
    ensures
        g.team_moves(team).contains(m),
{
    let kind = m.kind();
    let from = m.from_sq(team);
    lemma_piece_move_listed(g, team, m);
    let pieces = g.board.pieces_of(team, kind);
    assert(pieces.has(from)) by {
        broadcast use crate::bits::lemma_bit_and;
    }
    pieces.lemma_squares_contents(0);
    lemma_moves_over_contain(g, team, kind, pieces.squares(), from, m);
    let p = g.kind_moves(team, PieceKind::Pawn);
    let r = g.kind_moves(team, PieceKind::Rook);
    let n = g.kind_moves(team, PieceKind::Knight);
    let k = g.kind_moves(team, PieceKind::King);
    let q = g.kind_moves(team, PieceKind::Queen);
    let b = g.kind_moves(team, PieceKind::Bishop);
    match kind {
        PieceKind::Pawn => {
            lemma_contains_concat(p, r, m);
            lemma_contains_concat(p + r, n, m);
            lemma_contains_concat(p + r + n, k, m);
            lemma_contains_concat(p + r + n + k, q, m);
        },
        PieceKind::Rook => {
            lemma_contains_concat(p, r, m);
            lemma_contains_concat(p + r, n, m);
            lemma_contains_concat(p + r + n, k, m);
            lemma_contains_concat(p + r + n + k, q, m);
        },
        PieceKind::Knight => {
            lemma_contains_concat(p + r, n, m);
            lemma_contains_concat(p + r + n, k, m);
            lemma_contains_concat(p + r + n + k, q, m);
        },
        PieceKind::King => {
            lemma_contains_concat(p + r + n, k, m);
            lemma_contains_concat(p + r + n + k, q, m);
        },
        PieceKind::Queen => {
            lemma_contains_concat(p + r + n + k, q, m);
        },
        PieceKind::Bishop => {},
    }
    lemma_contains_concat(p + r + n + k + q, b, m);
}

/// The moves that a position lists are exactly the legal moves of the side
/// to move.
pub proof fn lemma_moves_are_the_legal_moves(g: Game, m: GameMove)
    requires
        g.wf(),
    ensures
        g.moves().contains(m) <==> g.legal(m),
{
    lemma_moves_legal(g);
    match g.active_team() {
        Some(team) => {
            if g.legal(m) {
                if m is CastleKingside || m is CastleQueenside {
                    assert(g.right(team, m is CastleKingside));
                }
                lemma_team_moves_complete(g, team, m);
            }
            if g.moves().contains(m) {
                let i = choose|i: int| 0 <= i < g.moves().len() && g.moves()[i] == m;
                assert(g.legal(g.moves()[i]));
            }
        },
        None => {},
    }
}

/// A pseudo target that is no legal target is one that leaves the king of
/// the moving team attacked.
pub proof fn lemma_excluded_leaves_check(
    board: ChessBoard,
    team: Team,
    kind: PieceKind,
    from: int,
    to: int,
)
    requires
        board.pseudo_targets(team, kind, from).contains(to),
    ensures
        board.legal_targets(team, kind, from).subset_of(board.pseudo_targets(team, kind, from)),
        !board.legal_targets(team, kind, from).contains(to) <==> board.stepped(
            team,
            kind,
            from,
            to,
        ).attacked_by(board.stepped(team, kind, from, to).king_sq(team), team.spec_enemy()),
{
}

/// A team attacks a square that holds a piece of the other team exactly
/// when one of its pieces has that square among its pseudo targets: it may
/// capture there.
pub proof fn lemma_attack_is_capture(board: ChessBoard, sq: int, team: Team)
    requires
        board.team_board(team.spec_enemy()).has(sq),
        !board.team_board(team).has(sq),
    ensures
        board.attacked_by(sq, team) <==> exists|from: int, kind: PieceKind|
            board.holds(from, team, kind) && #[trigger] board.pseudo_targets(
                team,
                kind,
                from,
            ).contains(sq),
{
    let occ = board.occupancy();
    assert(occ.contains(sq));
    assert(!board.team_board(team)@.contains(sq));
    if board.attacked_by(sq, team) {
        let from = choose|from: int| #[trigger] board.attacks_from(from, sq, team);
        let kind = if board.attacks_as(PieceKind::King, from, sq, team) {
            PieceKind::King
        } else if board.attacks_as(PieceKind::Queen, from, sq, team) {
            PieceKind::Queen
        } else if board.attacks_as(PieceKind::Rook, from, sq, team) {
            PieceKind::Rook
        } else if board.attacks_as(PieceKind::Bishop, from, sq, team) {
            PieceKind::Bishop
        } else if board.attacks_as(PieceKind::Knight, from, sq, team) {
            PieceKind::Knight
        } else {
            PieceKind::Pawn
        };
        assert(board.attacks_as(kind, from, sq, team));
        assert(board.pseudo_targets(team, kind, from).contains(sq));
    }
    if exists|from: int, kind: PieceKind|
        board.holds(from, team, kind) && #[trigger] board.pseudo_targets(team, kind, from).contains(
            sq,
        ) {
        let (from, kind) = choose|from: int, kind: PieceKind|
            board.holds(from, team, kind) && #[trigger] board.pseudo_targets(
                team,
                kind,
                from,
            ).contains(sq);
        assert(board.attacks_as(kind, from, sq, team));
        assert(board.attacks_from(from, sq, team));
    }
}

/// On a well-formed board no square belongs to both teams, the squares of
/// the teams are the squares of the six kinds, no square belongs to two
/// kinds, and each team has its one king.
pub proof fn lemma_wf_as_sets(b: ChessBoard)
    requires
        b.wf(),
    ensures
        b.whites@.disjoint(b.blacks@),
        b.whites@.union(b.blacks@) == b.kings@.union(b.queens@).union(b.rooks@).union(
            b.bishops@,
        ).union(b.knights@).union(b.pawns@),
        forall|j: PieceKind, k: PieceKind|
            j != k ==> #[trigger] b.kind_board(j)@.disjoint(#[trigger] b.kind_board(k)@),
        b.pieces_of(Team::White, PieceKind::King)@ == set![b.king_sq(Team::White)],
        b.pieces_of(Team::Black, PieceKind::King)@ == set![b.king_sq(Team::Black)],
{
    let kinds = b.kings@.union(b.queens@).union(b.rooks@).union(b.bishops@).union(
        b.knights@,
    ).union(b.pawns@);
    assert forall|sq: int| !(b.whites@.contains(sq) && b.blacks@.contains(sq)) by {
        if on_board(sq) {
            assert(b.square_wf(sq));
        }
    }
    assert forall|sq: int| b.whites@.union(b.blacks@).contains(sq) == kinds.contains(sq) by {
        if on_board(sq) {
            assert(b.square_wf(sq));
        }
    }
    assert(b.whites@.union(b.blacks@) =~= kinds);
    assert forall|j: PieceKind, k: PieceKind| j != k implies #[trigger] b.kind_board(
        j,
    )@.disjoint(#[trigger] b.kind_board(k)@) by {
        assert forall|sq: int|
            !(b.kind_board(j)@.contains(sq) && b.kind_board(k)@.contains(sq)) by {
            if on_board(sq) {
                assert(b.square_wf(sq));
            }
        }
    }
    let wk = b.king_sq(Team::White);
    let bk = b.king_sq(Team::Black);
    assert(b.king_on(Team::White, wk));
    assert(b.king_on(Team::Black, bk));
    assert forall|sq: int|
        b.pieces_of(Team::White, PieceKind::King)@.contains(sq) == (sq == wk) by {
        assert(b.holds(sq, Team::White, PieceKind::King) <==> sq == wk);
        if on_board(sq) {
            lemma_bit_and(b.whites.data, b.kings.data, sq as u64);
        }
    }
    assert forall|sq: int|
        b.pieces_of(Team::Black, PieceKind::King)@.contains(sq) == (sq == bk) by {
        assert(b.holds(sq, Team::Black, PieceKind::King) <==> sq == bk);
        if on_board(sq) {
            lemma_bit_and(b.blacks.data, b.kings.data, sq as u64);
        }
    }
    assert(b.pieces_of(Team::White, PieceKind::King)@ =~= set![wk]);
    assert(b.pieces_of(Team::Black, PieceKind::King)@ =~= set![bk]);
}

} // verus!
