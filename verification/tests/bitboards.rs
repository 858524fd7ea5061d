use libchess::bitboard::{
    Bitboard, Bitmasks, MaskPermutations, Positions, A1, B_KINGSIDE_CLEARS, COL_A, COL_H, D4, E1,
    F1, G1, H8, ROW_1, ROW_2, ROW_8, W_KINGSIDE_SAFES, W_QUEENSIDE_CLEARS, W_QUEENSIDE_SAFES,
};
use libchess::position::Position;

#[test]
fn square_row_and_column_constants() {
    assert_eq!(A1, 1);
    assert_eq!(H8, 1 << 63);
    assert_eq!(D4, 1 << 27);
    assert_eq!(ROW_1, 0xFF);
    assert_eq!(ROW_8, 0xFF00_0000_0000_0000);
    assert_eq!(COL_A, 0x0101_0101_0101_0101);
    assert_eq!(COL_H, 0x8080_8080_8080_8080);
    assert_eq!(W_KINGSIDE_SAFES, E1 | F1 | G1);
    assert_eq!(W_QUEENSIDE_CLEARS, 0b0000_1110);
    assert_eq!(W_QUEENSIDE_SAFES, 0b0001_1100);
    assert_eq!(B_KINGSIDE_CLEARS, 0b0110_0000 << 56);
}

#[test]
fn set_algebra() {
    let a = Bitboard::from_bits(0b1100);
    let b = Bitboard::from_bits(0b1010);
    assert_eq!(a.where_also(b).data, 0b1000);
    assert_eq!(a.where_not(b).data, 0b0100);
    assert_eq!(a.combine_with(b).data, 0b1110);
    assert_eq!(a.combine_with_exclusively(b).data, 0b0110);
    assert_eq!(a.negative().data, !0b1100u64);
    assert!(Bitboard::const_default().empty());
    assert!(!a.empty());
    assert_eq!(a.combine_with(b), b.combine_with(a));
    assert_eq!(a.where_also(b), b.where_also(a));
}

#[test]
fn rows_and_columns_from_bytes() {
    assert_eq!(Bitboard::with_rows(0xFF, 0, 0, 0, 0, 0, 0, 0).data, ROW_1);
    assert_eq!(Bitboard::with_rows(0, 0xFF, 0, 0, 0, 0, 0, 0).data, ROW_2);
    assert_eq!(Bitboard::with_rows(1, 2, 4, 8, 16, 32, 64, 128).data, 0x8040_2010_0804_0201);
    assert_eq!(Bitboard::with_cols(0xFF, 0, 0, 0, 0, 0, 0, 0).data, COL_A);
    assert_eq!(Bitboard::with_cols(0, 0, 0, 0, 0, 0, 0, 0xFF).data, COL_H);
    assert_eq!(Bitboard::with_cols(1, 2, 4, 8, 16, 32, 64, 128).data, 0x8040_2010_0804_0201);
    assert_eq!(Bitboard::with_cols(0x0F, 0, 0, 0, 0, 0, 0, 0).data, 0x0000_0000_0101_0101);
}

#[test]
fn shifts_and_rays() {
    let d4 = Bitboard::from_bits(D4);
    assert_eq!(d4.shift_up().data, 1 << 35);
    assert_eq!(d4.shift_down().data, 1 << 19);
    assert_eq!(Bitboard::from_bits(ROW_8).shift_up().data, 0);
    assert_eq!(Bitboard::from_bits(ROW_1).shift_down().data, 0);
    assert_eq!(d4.ray_up(0).data, 0);
    assert_eq!(d4.ray_up(2).data, (1 << 35) | (1 << 43));
    assert_eq!(d4.ray_up(4).data, (1 << 35) | (1 << 43) | (1 << 51) | (1 << 59));
    assert_eq!(d4.ray_down(3).data, (1 << 19) | (1 << 11) | (1 << 3));
    assert_eq!(d4.ray_right(4).data, 0b1111_0000 << 24);
    assert_eq!(d4.ray_left(3).data, 0b0000_0111 << 24);
}

#[test]
fn count_and_single_square() {
    assert_eq!(Bitboard::from_bits(0).count(), 0);
    assert_eq!(Bitboard::from_bits(u64::MAX).count(), 64);
    assert_eq!(Bitboard::from_bits(ROW_2 | A1).count(), 9);
    assert_eq!(Bitboard::from_piece_index(27).data, D4);
    assert_eq!(Bitboard::from_bits(D4).piece_position(), Position::new(3, 3));
    assert_eq!(Bitboard::from_position(Position::from_integral(63)).data, H8);
    assert_eq!(Bitboard::from(Position::new(0, 0)).data, A1);
}

#[test]
fn squares_come_in_ascending_order() {
    let set = Bitboard::from_bits(H8 | A1 | D4);
    assert_eq!(set.bit_indexes(), vec![0, 27, 63]);
    let mut positions = set.positions();
    assert_eq!(positions.next(), Some(Position::from_integral(0)));
    assert_eq!(positions.next(), Some(Position::from_integral(27)));
    assert_eq!(positions.next(), Some(Position::from_integral(63)));
    assert_eq!(positions.next(), None);
    assert_eq!(positions.next(), None);
    let mut masks = Bitmasks::new(set);
    assert_eq!(masks.next(), Some(Bitboard::from_bits(A1)));
    assert_eq!(masks.next(), Some(Bitboard::from_bits(D4)));
    assert_eq!(masks.next(), Some(Bitboard::from_bits(H8)));
    assert_eq!(masks.next(), None);
    assert_eq!(Positions::new(Bitboard::from_bits(0)).next(), None);
    assert_eq!(set.bit_masks().next(), Some(Bitboard::from_bits(A1)));
}

#[test]
fn subsets_come_in_ascending_order_each_once() {
    let mask = Bitboard::from_bits(0b1010_0100);
    let mut it = mask.mask_permutations();
    let mut seen = Vec::new();
    while let Some(s) = it.next() {
        seen.push(s.data);
    }
    assert_eq!(
        seen,
        vec![0, 0b100, 0b10_0000, 0b10_0100, 0b1000_0000, 0b1000_0100, 0b1010_0000, 0b1010_0100]
    );
    assert_eq!(it.next(), None);
    let mut empty = MaskPermutations::new(Bitboard::from_bits(0));
    assert_eq!(empty.next(), Some(Bitboard::from_bits(0)));
    assert_eq!(empty.next(), None);
    let mut all = Bitboard::from_bits(0xFFF).mask_permutations();
    let mut n = 0u64;
    while let Some(s) = all.next() {
        assert_eq!(s.data, n);
        n += 1;
    }
    assert_eq!(n, 4096);
}

#[test]
fn positions_rows_columns_and_names() {
    let e4 = Position::new(3, 4);
    assert_eq!(e4.integral(), 28);
    assert_eq!(e4.row(), 3);
    assert_eq!(e4.col(), 4);
    assert_eq!(Position::from_integral(28), e4);
    assert_eq!(e4.as_alphanum(), "E4");
    assert_eq!(Position::from_integral(0).as_alphanum(), "A1");
    assert_eq!(Position::from_integral(63).as_alphanum(), "H8");
    for i in 0..64u8 {
        let p = Position::from_integral(i);
        assert_eq!(Position::new(p.row(), p.col()), p);
    }
}
