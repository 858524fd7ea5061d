use libchess::bitboard::{Bitboard, D4, E1, E4, ROW_2};
use libchess::board::ChessBoard;
use libchess::magic_bitboard::{
    bishop_attack_bb, calc_magic_for_mask, calculate_attacks, calculate_bishop_attacks,
    calculate_queen_attacks, calculate_rook_attacks, entry_for, fill_table, index_for,
    magic_from_draws, mask_for, queen_lookup, ray_attack_bb, rook_attack_bb, test_magic, Magic, MagicResult, TableKind,
};
use libchess::movement::{
    bishop_moves, king_moves, knight_moves, pawn_attackers, pawn_moves, queen_moves, rook_moves,
};
use libchess::piece::{PieceKind, Team};
use libchess::position::Position;
use libchess::precalc::masks::{
    king_attack_mask, knight_attack_mask, offset, pawn_attack_mask, precalc_bishop_mask,
    precalc_bishop_masks, precalc_king_moves, precalc_knight_moves, precalc_pawn_attack_mask,
    precalc_queen_mask, precalc_queen_masks, precalc_rook_mask, precalc_rook_masks, ray_mask,
};
use rand::SeedableRng;

fn squares(names: &[&str]) -> u64 {
    let mut bits = 0u64;
    for name in names {
        let b = name.as_bytes();
        bits |= 1u64 << ((b[1] - b'1') * 8 + (b[0] - b'a'));
    }
    bits
}

#[test]
fn offsets_stay_on_the_board() {
    assert_eq!(offset(27, 1, 2).data, 1 << 44);
    assert_eq!(offset(27, -3, -3).data, 1);
    assert_eq!(offset(0, -1, 0).data, 0);
    assert_eq!(offset(7, 1, 0).data, 0);
    assert_eq!(offset(63, 0, 1).data, 0);
    assert_eq!(offset(63, 0, 0).data, 1 << 63);
}

#[test]
fn knight_king_and_pawn_attacks() {
    let d4 = Position::new(3, 3);
    assert_eq!(
        knight_moves(d4).data,
        squares(&["b3", "b5", "c2", "c6", "e2", "e6", "f3", "f5"])
    );
    assert_eq!(knight_moves(Position::new(0, 0)).data, squares(&["b3", "c2"]));
    assert_eq!(
        king_moves(d4).data,
        squares(&["c3", "c4", "c5", "d3", "d5", "e3", "e4", "e5"])
    );
    assert_eq!(king_moves(Position::new(7, 7)).data, squares(&["g7", "g8", "h7"]));
    assert_eq!(pawn_attackers(Team::White, d4).data, squares(&["c5", "e5"]));
    assert_eq!(pawn_attackers(Team::Black, d4).data, squares(&["c3", "e3"]));
    assert_eq!(pawn_attackers(Team::White, Position::new(3, 0)).data, squares(&["b5"]));
    assert_eq!(pawn_attackers(Team::White, Position::new(7, 3)).data, 0);
}

#[test]
fn tables_hold_the_attacks_of_each_square() {
    let knights = precalc_knight_moves();
    let kings = precalc_king_moves();
    let white = precalc_pawn_attack_mask(Team::White);
    let black = precalc_pawn_attack_mask(Team::Black);
    for i in 0..64u8 {
        let pos = Position::from_integral(i);
        assert_eq!(knights[i as usize], knight_moves(pos));
        assert_eq!(kings[i as usize], king_moves(pos));
        assert_eq!(white[i as usize], pawn_attackers(Team::White, pos));
        assert_eq!(black[i as usize], pawn_attackers(Team::Black, pos));
    }
}

#[test]
fn sliding_attacks_stop_at_the_first_blocker() {
    let d4 = Position::new(3, 3);
    let empty = Bitboard::from_bits(0);
    assert_eq!(
        rook_moves(d4, empty).data,
        squares(&[
            "d1", "d2", "d3", "d5", "d6", "d7", "d8", "a4", "b4", "c4", "e4", "f4", "g4", "h4"
        ])
    );
    let world = Bitboard::from_bits(squares(&["d6", "b4", "f4", "g4", "d4"]));
    assert_eq!(
        rook_moves(d4, world).data,
        squares(&["d1", "d2", "d3", "d5", "d6", "b4", "c4", "e4", "f4"])
    );
    assert_eq!(
        bishop_moves(d4, empty).data,
        squares(&[
            "a1", "b2", "c3", "e5", "f6", "g7", "h8", "a7", "b6", "c5", "e3", "f2", "g1"
        ])
    );
    let world = Bitboard::from_bits(squares(&["b2", "e5", "c5"]));
    assert_eq!(
        bishop_moves(d4, world).data,
        squares(&["b2", "c3", "e5", "c5", "e3", "f2", "g1"])
    );
    assert_eq!(
        queen_moves(d4, world).data,
        rook_moves(d4, world).data | bishop_moves(d4, world).data
    );
    assert_eq!(rook_attack_bb(27, world), rook_moves(d4, world));
    assert_eq!(bishop_attack_bb(27, world), bishop_moves(d4, world));
    assert_eq!(ray_attack_bb(27, 1, 0, empty).data, squares(&["d5", "d6", "d7", "d8"]));
    assert_eq!(ray_attack_bb(27, 0, -1, world).data, squares(&["c4", "b4", "a4"]));
    assert_eq!(ray_attack_bb(0, -1, -1, empty).data, 0);
}

#[test]
fn pawn_pushes_and_captures() {
    let e2 = Position::new(1, 4);
    let empty_ahead = Bitboard::from_bits(ROW_2);
    assert_eq!(pawn_moves(Team::White, e2, empty_ahead).data, squares(&["e3", "e4"]));
    let blocked_far = Bitboard::from_bits(ROW_2 | E4);
    assert_eq!(pawn_moves(Team::White, e2, blocked_far).data, squares(&["e3"]));
    let blocked_near = Bitboard::from_bits(ROW_2 | squares(&["e3"]));
    assert_eq!(pawn_moves(Team::White, e2, blocked_near).data, 0);
    let targets = Bitboard::from_bits(ROW_2 | squares(&["d3", "f3"]));
    assert_eq!(
        pawn_moves(Team::White, e2, targets).data,
        squares(&["d3", "e3", "f3", "e4"])
    );
    let e3 = Position::new(2, 4);
    assert_eq!(pawn_moves(Team::White, e3, Bitboard::from_bits(0)).data, squares(&["e4"]));
    let d7 = Position::new(6, 3);
    assert_eq!(pawn_moves(Team::Black, d7, Bitboard::from_bits(0)).data, squares(&["d6", "d5"]));
    let world = Bitboard::from_bits(squares(&["c6", "d5"]));
    assert_eq!(pawn_moves(Team::Black, d7, world).data, squares(&["d6", "c6"]));
}

#[test]
fn blocker_masks_leave_out_the_rim() {
    assert_eq!(
        precalc_rook_mask(27).data,
        squares(&["d2", "d3", "d5", "d6", "d7", "b4", "c4", "e4", "f4", "g4"])
    );
    assert_eq!(precalc_rook_mask(27).data, 0x8080876080800);
    assert_eq!(precalc_rook_mask(0).data, 0x101010101017e);
    assert_eq!(precalc_bishop_mask(27).data, 0x40221400142200);
    assert_eq!(precalc_bishop_mask(0).data, 0x40201008040200);
    assert_eq!(precalc_rook_mask(0).count(), 12);
    assert_eq!(precalc_bishop_mask(0).count(), 6);
    let rooks = precalc_rook_masks();
    let bishops = precalc_bishop_masks();
    let queens = precalc_queen_masks();
    for i in 0..64u8 {
        assert_eq!(rooks[i as usize], precalc_rook_mask(i));
        assert_eq!(bishops[i as usize], precalc_bishop_mask(i));
        assert_eq!(queens[i as usize], rooks[i as usize].combine_with(bishops[i as usize]));
        assert_eq!(queens[i as usize], precalc_queen_mask(i));
        assert_eq!(mask_for(TableKind::Queen, i), queens[i as usize]);
    }
    assert_eq!(mask_for(TableKind::Rook, 27), precalc_rook_mask(27));
    assert_eq!(mask_for(TableKind::Bishop, 27), precalc_bishop_mask(27));
    assert_eq!(mask_for(TableKind::Subsets, 27).data, u64::MAX);
    assert_eq!(ray_mask(27, 1, 0).data, squares(&["d5", "d6", "d7"]));
    assert_eq!(ray_mask(27, -1, -1).data, squares(&["c3", "b2"]));
    assert_eq!(ray_mask(0, 0, -1).data, 0);
    assert_eq!(ray_mask(6, 0, 1).data, 0);
    assert_eq!(knight_attack_mask(0).data, squares(&["b3", "c2"]));
    assert_eq!(king_attack_mask(0).data, squares(&["a2", "b1", "b2"]));
    assert_eq!(pawn_attack_mask(Team::Black, 9).data, squares(&["a1", "c1"]));
}

#[test]
fn table_entries_and_indexes() {
    let rook = MagicResult { magic: 0x22842020008a050, shift: 54, mask: 0x8080876080800 };
    let world = Bitboard::from_bits(squares(&["d6", "b4", "h1"]));
    let i = index_for(world.data, rook.mask, rook.magic, rook.shift);
    assert_eq!(
        i as u64,
        ((world.data & rook.mask).wrapping_mul(rook.magic)) >> 54
    );
    assert!(i < 1024);
    assert_eq!(entry_for(TableKind::Rook, 27, world), rook_attack_bb(27, world));
    assert_eq!(entry_for(TableKind::Bishop, 27, world), bishop_attack_bb(27, world));
    assert_eq!(
        entry_for(TableKind::Queen, 27, world),
        queen_moves(Position::from_integral(27), world)
    );
    assert_eq!(entry_for(TableKind::Subsets, 27, world), world);
    let table = fill_table(TableKind::Rook, 27, rook).unwrap();
    assert_eq!(table[i], rook_attack_bb(27, world));
    assert_eq!(calculate_attacks(TableKind::Rook, 27, rook).unwrap(), table);
    assert!(calculate_attacks(TableKind::Bishop, 27, rook).is_none());
    assert!(calculate_queen_attacks(27, rook).is_none());
    let by_kind = Magic::new(TableKind::Rook, 27, rook).unwrap();
    assert_eq!(by_kind.lookup(world), rook_attack_bb(27, world));
    assert_eq!(by_kind.multiplier, rook.magic);
    assert_eq!(by_kind.shift, 54);
    assert_eq!(by_kind.mask.data, rook.mask);
    assert!(Magic::new(TableKind::Queen, 27, rook).is_none());
}

#[test]
fn magic_tables_agree_with_walking_the_rays() {
    let rook = MagicResult { magic: 0x22842020008a050, shift: 54, mask: 0x8080876080800 };
    let bishop = MagicResult { magic: 0xc18080004202020, shift: 55, mask: 0x40221400142200 };
    let rook_table = Magic::rook(27, rook).unwrap();
    let bishop_table = Magic::bishop(27, bishop).unwrap();
    assert_eq!(rook_table.moves.len(), 1024);
    assert_eq!(bishop_table.moves.len(), 512);
    let mut world = 0x9E37_79B9_7F4A_7C15u64;
    for _ in 0..2000 {
        world ^= world << 13;
        world ^= world >> 7;
        world ^= world << 17;
        let w = Bitboard::from_bits(world & (world >> 1));
        assert_eq!(rook_table.lookup(w), rook_attack_bb(27, w));
        assert_eq!(bishop_table.lookup(w), bishop_attack_bb(27, w));
        assert_eq!(
            queen_lookup(&rook_table, &bishop_table, w),
            queen_moves(Position::from_integral(27), w)
        );
    }
    let corner = MagicResult { magic: 0x4080004002201882, shift: 52, mask: 0x101010101017e };
    let table = calculate_rook_attacks(0, corner).unwrap();
    assert_eq!(table.len(), 4096);
    let corner = MagicResult { magic: 0x2902020404041140, shift: 58, mask: 0x40201008040200 };
    assert_eq!(calculate_bishop_attacks(0, corner).unwrap().len(), 64);
}

#[test]
fn bad_magics_are_refused() {
    let mask = precalc_rook_mask(27);
    assert!(test_magic(0x22842020008a050, mask));
    assert!(!test_magic(0, mask));
    assert!(!test_magic(1, mask));
    assert!(!test_magic(0x22842020008a050, Bitboard::from_bits(0)));
    assert!(!test_magic(1, Bitboard::from_bits(u64::MAX)));
    let colliding = MagicResult { magic: 0, shift: 54, mask: mask.data };
    assert!(calculate_rook_attacks(27, colliding).is_none());
    let wrong_mask = MagicResult { magic: 0x22842020008a050, shift: 54, mask: mask.data | 1 };
    assert!(calculate_rook_attacks(27, wrong_mask).is_none());
    let wrong_square = MagicResult { magic: 0x22842020008a050, shift: 54, mask: mask.data };
    assert!(calculate_rook_attacks(28, wrong_square).is_none());
    let wide = MagicResult { magic: 0x22842020008a050, shift: 20, mask: mask.data };
    assert!(calculate_rook_attacks(27, wide).is_none());
    assert!(Magic::bishop(27, wrong_square).is_none());
}

#[test]
fn a_magic_is_found_for_a_small_mask() {
    let mut rng = rand::rngs::StdRng::seed_from_u64(11);
    let mask = precalc_bishop_mask(0);
    let found = calc_magic_for_mask(mask, &mut rng, 2_000_000).unwrap();
    assert_eq!(found.mask, mask.data);
    assert_eq!(found.shift, 58);
    assert!(test_magic(found.magic, mask));
    let table = Magic::bishop(0, found).unwrap();
    let world = Bitboard::from_bits(squares(&["c3", "h1"]));
    assert_eq!(table.lookup(world).data, squares(&["b2", "c3"]));
    assert!(calc_magic_for_mask(mask, &mut rng, 0).is_none());
    assert!(calc_magic_for_mask(Bitboard::from_bits(0), &mut rng, 10).is_none());
}

#[test]
fn attacks_on_squares_of_the_board() {
    let board = ChessBoard::default();
    let e3 = Position::new(2, 4);
    assert!(board.is_pos_attacked(Team::White, e3));
    assert!(!board.is_pos_attacked(Team::Black, e3));
    assert_eq!(board.pos_attacker_cnt(Team::White, e3), 2);
    let f3 = Position::new(2, 5);
    assert_eq!(board.pos_attacker_cnt(Team::White, f3), 3);
    assert_eq!(board.attackers_of(Team::White, f3).data, squares(&["e2", "g2", "g1"]));
    let e5 = Position::new(4, 4);
    assert!(!board.is_pos_attacked(Team::White, e5));
    assert!(!board.is_pos_attacked(Team::Black, e5));
    assert!(board.is_pos_attacked(Team::White, Position::from_integral(3)));
    assert_eq!(board.pieces(Team::White, PieceKind::King).data, E1);
    assert_eq!(board.team_pieces(Team::Black).data, 0xFFFF_0000_0000_0000);
    assert_eq!(board.world().data, 0xFFFF_0000_0000_FFFF);
    assert!(board.is_valid_postmove(Team::White));
    let _ = D4;
}

#[test]
fn what_four_draws_give_for_a_mask() {
    let mask = precalc_rook_mask(27);
    let magic = 0x22842020008a050u64;
    let found = MagicResult { magic, shift: 54, mask: mask.data };
    assert_eq!(magic_from_draws(mask, magic, magic, magic, magic), Some(found));
    assert_eq!(magic_from_draws(mask, u64::MAX, magic, u64::MAX, u64::MAX), Some(found));
    assert_eq!(
        magic_from_draws(mask, magic | 0xF000, magic | 0x0F00, magic | 0x00F0, magic),
        Some(found)
    );
    assert_eq!(magic_from_draws(mask, magic, magic, magic, 0), None);
    assert_eq!(magic_from_draws(mask, 1, 1, 1, 1), None);
    assert_eq!(magic_from_draws(Bitboard::from_bits(0), magic, magic, magic, magic), None);
    assert_eq!(magic_from_draws(Bitboard::from_bits(u64::MAX), magic, magic, magic, magic), None);
    let corner = precalc_bishop_mask(0);
    let corner_magic = 0x2902020404041140u64;
    assert_eq!(
        magic_from_draws(corner, corner_magic, u64::MAX, u64::MAX, corner_magic),
        Some(MagicResult { magic: corner_magic, shift: 58, mask: corner.data })
    );
    let mut rng = rand::rngs::StdRng::seed_from_u64(3);
    assert_eq!(calc_magic_for_mask(mask, &mut rng, 0), None);
    assert_eq!(calc_magic_for_mask(Bitboard::from_bits(u64::MAX), &mut rng, 50), None);
    assert_eq!(calc_magic_for_mask(Bitboard::from_bits(0), &mut rng, 50), None);
}
