//! Sets of squares held in one 64-bit word.

use vstd::prelude::*;
use crate::bits::{
    bit, group_bit_ops, lemma_bit_row_byte, lemma_bits_equal, lemma_lowest_bit, lemma_next_subset,
};
use crate::position::Position;

verus! {

// The eight rows, the eight columns and the sixty-four squares as raw masks.
pub const ROW_1: u64 = 0xFF << 0;
pub const ROW_2: u64 = 0xFF << 8;
pub const ROW_3: u64 = 0xFF << 16;
pub const ROW_4: u64 = 0xFF << 24;
pub const ROW_5: u64 = 0xFF << 32;
pub const ROW_6: u64 = 0xFF << 40;
pub const ROW_7: u64 = 0xFF << 48;
pub const ROW_8: u64 = 0xFF << 56;

pub const COL_A: u64 = 0x0101_0101_0101_0101 << 0;
pub const COL_B: u64 = 0x0101_0101_0101_0101 << 1;
pub const COL_C: u64 = 0x0101_0101_0101_0101 << 2;
pub const COL_D: u64 = 0x0101_0101_0101_0101 << 3;
pub const COL_E: u64 = 0x0101_0101_0101_0101 << 4;
pub const COL_F: u64 = 0x0101_0101_0101_0101 << 5;
pub const COL_G: u64 = 0x0101_0101_0101_0101 << 6;
pub const COL_H: u64 = 0x0101_0101_0101_0101 << 7;

pub const A1: u64 = 1 << 0;
pub const A2: u64 = 1 << 8;
pub const A3: u64 = 1 << 16;
pub const A4: u64 = 1 << 24;
pub const A5: u64 = 1 << 32;
pub const A6: u64 = 1 << 40;
pub const A7: u64 = 1 << 48;
pub const A8: u64 = 1 << 56;
pub const B1: u64 = 1 << 1;
pub const B2: u64 = 1 << 9;
pub const B3: u64 = 1 << 17;
pub const B4: u64 = 1 << 25;
pub const B5: u64 = 1 << 33;
pub const B6: u64 = 1 << 41;
pub const B7: u64 = 1 << 49;
pub const B8: u64 = 1 << 57;
pub const C1: u64 = 1 << 2;
pub const C2: u64 = 1 << 10;
pub const C3: u64 = 1 << 18;
pub const C4: u64 = 1 << 26;
pub const C5: u64 = 1 << 34;
pub const C6: u64 = 1 << 42;
pub const C7: u64 = 1 << 50;
pub const C8: u64 = 1 << 58;
pub const D1: u64 = 1 << 3;
pub const D2: u64 = 1 << 11;
pub const D3: u64 = 1 << 19;
pub const D4: u64 = 1 << 27;
pub const D5: u64 = 1 << 35;
pub const D6: u64 = 1 << 43;
pub const D7: u64 = 1 << 51;
pub const D8: u64 = 1 << 59;
pub const E1: u64 = 1 << 4;
pub const E2: u64 = 1 << 12;
pub const E3: u64 = 1 << 20;
pub const E4: u64 = 1 << 28;
pub const E5: u64 = 1 << 36;
pub const E6: u64 = 1 << 44;
pub const E7: u64 = 1 << 52;
pub const E8: u64 = 1 << 60;
pub const F1: u64 = 1 << 5;
pub const F2: u64 = 1 << 13;
pub const F3: u64 = 1 << 21;
pub const F4: u64 = 1 << 29;
pub const F5: u64 = 1 << 37;
pub const F6: u64 = 1 << 45;
pub const F7: u64 = 1 << 53;
pub const F8: u64 = 1 << 61;
pub const G1: u64 = 1 << 6;
pub const G2: u64 = 1 << 14;
pub const G3: u64 = 1 << 22;
pub const G4: u64 = 1 << 30;
pub const G5: u64 = 1 << 38;
pub const G6: u64 = 1 << 46;
pub const G7: u64 = 1 << 54;
pub const G8: u64 = 1 << 62;
pub const H1: u64 = 1 << 7;
pub const H2: u64 = 1 << 15;
pub const H3: u64 = 1 << 23;
pub const H4: u64 = 1 << 31;
pub const H5: u64 = 1 << 39;
pub const H6: u64 = 1 << 47;
pub const H7: u64 = 1 << 55;
pub const H8: u64 = 1 << 63;

pub const WHITE_PAWNS_HOME: u64 = ROW_2;

pub const BLACK_PAWNS_HOME: u64 = ROW_7;

/// Squares that must be empty for each castling move.
pub const W_KINGSIDE_CLEARS: u64 = F1 | G1;

pub const W_QUEENSIDE_CLEARS: u64 = B1 | C1 | D1;

pub const B_KINGSIDE_CLEARS: u64 = F8 | G8;

pub const B_QUEENSIDE_CLEARS: u64 = B8 | C8 | D8;

/// Squares that must not be attacked for each castling move: where the king
/// starts, what it passes over, and where it lands.
pub const W_KINGSIDE_SAFES: u64 = E1 | F1 | G1;

pub const W_QUEENSIDE_SAFES: u64 = C1 | D1 | E1;

pub const B_KINGSIDE_SAFES: u64 = E8 | F8 | G8;

pub const B_QUEENSIDE_SAFES: u64 = C8 | D8 | E8;

/// A set of squares. Bit `k` of `data` stands for the square in row `k / 8`
/// and column `k % 8`; row 0 is white's back rank and column 0 is file A.
#[derive(Debug, Clone, Copy, PartialEq, Eq, Structural)]
pub struct Bitboard {
    pub data: u64,
}

impl Bitboard {
    /// Whether square `sq` belongs to the set.
    pub open spec fn has(self, sq: int) -> bool {
        0 <= sq < 64 && bit(self.data, sq as u64)
    }

    /// The set of square numbers.
    pub open spec fn view(self) -> Set<int> {
        Set::new(|sq: int| self.has(sq))
    }

    /// The squares of the set from `lo` upwards, in ascending order.
    pub open spec fn squares_from(self, lo: int) -> Seq<int>
        decreases 64 - lo,
    {
        if lo >= 64 {
            Seq::empty()
        } else if self.has(lo) {
            seq![lo] + self.squares_from(lo + 1)
        } else {
            self.squares_from(lo + 1)
        }
    }

    /// All squares of the set in ascending order.
    pub open spec fn squares(self) -> Seq<int> {
        self.squares_from(0)
    }

    /// Two sets with the same squares are the same word.
    pub proof fn lemma_ext(self, other: Bitboard)
        requires
            forall|sq: int| 0 <= sq < 64 ==> self.has(sq) == other.has(sq),
        ensures
            self == other,
    {
        assert forall|i: u64| i < 64 implies bit(self.data, i) == bit(other.data, i) by {
            assert(self.has(i as int) == other.has(i as int));
        }
        lemma_bits_equal(self.data, other.data);
    }

    /// Sets with the same view are the same word.
    pub proof fn lemma_view_ext(self, other: Bitboard)
        requires
            self@ == other@,
        ensures
            self == other,
    {
        assert forall|sq: int| 0 <= sq < 64 implies self.has(sq) == other.has(sq) by {
            assert(self@.contains(sq) == self.has(sq));
            assert(other@.contains(sq) == other.has(sq));
        }
        self.lemma_ext(other);
    }

    /// A set is the empty word exactly when it has no square.
    pub proof fn lemma_empty(self)
        ensures
            self.data == 0 <==> (forall|sq: int| !self.has(sq)),
            self.data == 0 <==> self@ == Set::<int>::empty(),
    {
        broadcast use group_bit_ops;
        if self.data != 0 {
            lemma_lowest_bit(self.data);
            let tz = self.data.trailing_zeros() as int;
            assert(self.has(tz));
            assert(self@.contains(tz));
        }
        if forall|sq: int| !self.has(sq) {
            let zero = Bitboard { data: 0 };
            self.lemma_ext(zero);
        }
        if self@ == Set::<int>::empty() {
            assert forall|sq: int| !self.has(sq) by {
                assert(!self@.contains(sq));
            }
        }
        if self.data == 0 {
            assert(self@ =~= Set::<int>::empty());
        }
    }

    /// The empty set.
    pub fn const_default() -> (r: Bitboard)
        ensures
            r.data == 0,
            r@ == Set::<int>::empty(),
    {
        broadcast use group_bit_ops;
        let r = Bitboard { data: 0 };
        assert(r@ =~= Set::<int>::empty());
        r
    }

    /// The set whose word is `bits`.
    pub fn from_bits(bits: u64) -> (r: Bitboard)
        ensures
            r.data == bits,
    {
        Bitboard { data: bits }
    }

    /// The set holding the one square `idx`.
    pub fn from_piece_index(idx: u8) -> (r: Bitboard)
        requires
            idx < 64,
        ensures
            r.data == 1u64 << (idx as u64),
            r.single(idx as int),
            r@ == set![idx as int],
    {
        broadcast use group_bit_ops;
        let r = Bitboard { data: 1u64 << (idx as u64) };
        assert(r@ =~= set![idx as int]);
        r
    }

    /// The squares that belong to both sets.
    pub fn where_also(self, other: Bitboard) -> (r: Bitboard)
        ensures
            r.data == self.data & other.data,
            r@ == self@.intersect(other@),
    {
        broadcast use group_bit_ops;
        let r = Bitboard { data: self.data & other.data };
        assert(r@ =~= self@.intersect(other@));
        r
    }

    /// The squares of this set that are not in the other.
    pub fn where_not(self, other: Bitboard) -> (r: Bitboard)
        ensures
            r.data == self.data & !other.data,
            r@ == self@.difference(other@),
    {
        broadcast use group_bit_ops;
        let r = Bitboard { data: self.data & !other.data };
        assert(r@ =~= self@.difference(other@));
        r
    }

    /// The squares that belong to either set.
    pub fn combine_with(self, other: Bitboard) -> (r: Bitboard)
        ensures
            r.data == self.data | other.data,
            r@ == self@.union(other@),
    {
        broadcast use group_bit_ops;
        let r = Bitboard { data: self.data | other.data };
        assert(r@ =~= self@.union(other@));
        r
    }

    /// The squares that belong to exactly one of the two sets.
    pub fn combine_with_exclusively(self, other: Bitboard) -> (r: Bitboard)
        ensures
            r.data == self.data ^ other.data,
            r@ == self@.difference(other@).union(other@.difference(self@)),
    {
        broadcast use group_bit_ops;
        let r = Bitboard { data: self.data ^ other.data };
        assert(r@ =~= self@.difference(other@).union(other@.difference(self@)));
        r
    }

    /// The squares of the board that are not in the set.
    pub fn negative(self) -> (r: Bitboard)
        ensures
            r.data == !self.data,
            forall|sq: int| 0 <= sq < 64 ==> r.has(sq) == !self.has(sq),
            r@ == Set::new(|sq: int| 0 <= sq < 64).difference(self@),
    {
        broadcast use group_bit_ops;
        let r = Bitboard { data: !self.data };
        assert(r@ =~= Set::new(|sq: int| 0 <= sq < 64).difference(self@));
        r
    }

    /// Whether the set has no square.
    pub fn empty(self) -> (r: bool)
        ensures
            r == (self.data == 0),
            r == (self@ == Set::<int>::empty()),
    {
        proof {
            self.lemma_empty();
        }
        self.data == 0
    }

    /// Every square moved one row up; the top row falls off.
    pub fn shift_up(self) -> (r: Bitboard)
        ensures
            r.data == self.data << 8,
            forall|sq: int| r.has(sq) == (8 <= sq < 64 && self.has(sq - 8)),
    {
        broadcast use group_bit_ops;
        Bitboard { data: self.data << 8 }
    }

    /// Every square moved one row down; the bottom row falls off.
    pub fn shift_down(self) -> (r: Bitboard)
        ensures
            r.data == self.data >> 8,
            forall|sq: int| r.has(sq) == (0 <= sq < 56 && self.has(sq + 8)),
    {
        broadcast use group_bit_ops;
        Bitboard { data: self.data >> 8 }
    }

    /// A one-square set meets another set exactly when that set has the square.
    pub proof fn where_also_single(self, one: Bitboard, sq: int)
        requires
            one.single(sq),
        ensures
            (one.data & self.data != 0) == self.has(sq),
            (self.data & one.data != 0) == self.has(sq),
    {
        broadcast use group_bit_ops;
        let m = Bitboard { data: one.data & self.data };
        let n = Bitboard { data: self.data & one.data };
        m.lemma_empty();
        n.lemma_empty();
        assert(one.has(sq));
        if self.has(sq) {
            assert(m.has(sq));
            assert(n.has(sq));
        } else {
            assert forall|t: int| !m.has(t) && !n.has(t) by {
                assert(one.has(t) <==> t == sq);
            }
        }
    }

    /// The set is the one square `sq`.
    pub open spec fn single(self, sq: int) -> bool {
        0 <= sq < 64 && forall|t: int| self.has(t) <==> t == sq
    }

    /// Squares that are absent below `hi` do not change the listing.
    pub proof fn lemma_squares_skip(self, lo: int, hi: int)
        requires
            lo <= hi,
            forall|j: int| lo <= j < hi ==> !self.has(j),
        ensures
            self.squares_from(lo) == self.squares_from(hi),
        decreases hi - lo,
    {
        if lo < hi {
            self.lemma_squares_skip(lo + 1, hi);
        }
    }

    /// Two sets that agree from `lo` upwards list the same squares from there.
    pub proof fn lemma_squares_agree(self, other: Bitboard, lo: int)
        requires
            forall|j: int| lo <= j ==> self.has(j) == other.has(j),
        ensures
            self.squares_from(lo) == other.squares_from(lo),
        decreases 64 - lo,
    {
        if lo < 64 {
            self.lemma_squares_agree(other, lo + 1);
        }
    }

    /// The listing from `lo` holds exactly the squares of the set from `lo`
    /// upwards, each once, in ascending order.
    pub proof fn lemma_squares_contents(self, lo: int)
        requires
            0 <= lo,
        ensures
            forall|i: int|
                0 <= i < self.squares_from(lo).len() ==> lo <= #[trigger] self.squares_from(lo)[i]
                    && self.has(self.squares_from(lo)[i]),
            forall|i: int, j: int|
                0 <= i < j < self.squares_from(lo).len() ==> self.squares_from(lo)[i]
                    < self.squares_from(lo)[j],
            forall|sq: int| lo <= sq && self.has(sq) ==> self.squares_from(lo).contains(sq),
            self.squares_from(lo).len() <= if lo <= 64 { 64 - lo } else { 0 },
        decreases 64 - lo,
    {
        if lo < 64 {
            self.lemma_squares_contents(lo + 1);
            let rest = self.squares_from(lo + 1);
            let all = self.squares_from(lo);
            if self.has(lo) {
                assert(all == seq![lo] + rest);
                assert(all[0] == lo);
                assert forall|i: int| 0 < i < all.len() implies all[i] == rest[i - 1] by {}
                assert forall|sq: int| lo <= sq && self.has(sq) implies all.contains(sq) by {
                    if sq == lo {
                        assert(all[0] == sq);
                    } else {
                        assert(rest.contains(sq));
                        let k = choose|k: int| 0 <= k < rest.len() && rest[k] == sq;
                        assert(all[k + 1] == sq);
                    }
                }
            } else {
                assert(all == rest);
            }
        }
    }

    /// The listing holds every square of the set once, so its length is the
    /// size of the set.
    pub proof fn lemma_squares_len(self)
        ensures
            self@.finite(),
            self@.len() == self.squares().len(),
            self.squares().no_duplicates(),
            self.squares().to_set() == self@,
    {
        let s = self.squares();
        self.lemma_squares_contents(0);
        assert(s.no_duplicates()) by {
            assert forall|i: int, j: int| 0 <= i < s.len() && 0 <= j < s.len() && i != j implies s[i]
                != s[j] by {
                if i < j {
                    assert(s[i] < s[j]);
                } else {
                    assert(s[j] < s[i]);
                }
            }
        }
        assert(s.to_set() =~= self@) by {
            assert forall|sq: int| s.to_set().contains(sq) == self@.contains(sq) by {
                if s.contains(sq) {
                    let k = choose|k: int| 0 <= k < s.len() && s[k] == sq;
                    assert(self.has(s[k]));
                }
                if self.has(sq) {
                    assert(s.contains(sq));
                }
            }
        }
        s.unique_seq_to_set();
        vstd::seq_lib::seq_to_set_is_finite(s);
    }

    /// Taking the lowest square out of a set that is not empty leaves the rest
    /// of its listing.
    pub proof fn lemma_squares_lowest(self, rest: Bitboard)
        requires
            self.data != 0,
            forall|t: int| rest.has(t) <==> self.has(t) && t != self.data.trailing_zeros(),
        ensures
            self.squares() == seq![self.data.trailing_zeros() as int] + rest.squares(),
            self.has(self.data.trailing_zeros() as int),
            rest.squares() == self.squares().skip(1),
            self.squares().len() > 0,
            self.squares()[0] == self.data.trailing_zeros(),
    {
        lemma_lowest_bit(self.data);
        let tz = self.data.trailing_zeros() as int;
        assert forall|j: int| 0 <= j < tz implies !self.has(j) by {
            assert(!bit(self.data, j as u64));
        }
        self.lemma_squares_skip(0, tz);
        assert(self.squares_from(tz) == seq![tz] + self.squares_from(tz + 1));
        self.lemma_squares_agree(rest, tz + 1);
        rest.lemma_squares_skip(0, tz + 1);
        assert(rest.squares() =~= self.squares().skip(1));
    }

    /// The empty set lists no square.
    pub proof fn lemma_squares_empty(self)
        requires
            self.data == 0,
        ensures
            self.squares() == Seq::<int>::empty(),
    {
        broadcast use group_bit_ops;
        self.lemma_squares_skip(0, 64);
    }

    /// The number of squares in the set.
    pub fn count(self) -> (r: u8)
        ensures
            r == self.squares().len(),
            r == self@.len(),
            r <= 64,
    {
        let mut rest: u64 = self.data;
        let mut n: u8 = 0;
        proof {
            self.lemma_squares_len();
            self.lemma_squares_contents(0);
        }
        while rest != 0
            invariant
                n + (Bitboard { data: rest }).squares().len() == self.squares().len(),
                self.squares().len() <= 64,
            decreases (Bitboard { data: rest }).squares().len(),
        {
            let tz: u32 = rest.trailing_zeros();
            proof {
                broadcast use group_bit_ops;
                lemma_lowest_bit(rest);
                (Bitboard { data: rest }).lemma_squares_lowest(
                    Bitboard { data: rest ^ (1u64 << (tz as u64)) },
                );
            }
            rest = rest ^ (1u64 << tz);
            n = n + 1;
        }
        proof {
            (Bitboard { data: rest }).lemma_squares_empty();
        }
        n
    }

    /// A set of one square in the listing is that one square.
    pub proof fn lemma_count_one(self)
        ensures
            self.squares().len() == 1 <==> exists|sq: int| self.single(sq),
    {
        let s = self.squares();
        self.lemma_squares_contents(0);
        if s.len() == 1 {
            let sq = s[0];
            assert forall|t: int| self.has(t) <==> t == sq by {
                if self.has(t) {
                    assert(s.contains(t));
                    let i = choose|i: int| 0 <= i < s.len() && s[i] == t;
                    assert(i == 0);
                }
            }
            assert(self.single(sq));
        }
        if exists|sq: int| self.single(sq) {
            let sq = choose|sq: int| self.single(sq);
            assert(self.has(sq));
            assert(s.contains(sq));
            if s.len() >= 2 {
                assert(self.has(s[0]) && self.has(s[1]) && s[0] < s[1]);
            }
        }
    }

    /// The one square of a set that holds exactly one.
    pub fn piece_position(self) -> (p: Position)
        requires
            exists|sq: int| self.single(sq),
        ensures
            self.single(p@),
            p.valid(),
    {
        let ghost sq = choose|sq: int| self.single(sq);
        proof {
            self.lemma_empty();
            assert(self.has(sq));
            lemma_lowest_bit(self.data);
            assert(self.has(self.data.trailing_zeros() as int));
        }
        let tz: u32 = self.data.trailing_zeros();
        Position::from_integral(tz as u8)
    }

    /// The squares of the set in ascending order.
    pub fn bit_indexes(self) -> (idxes: Vec<u8>)
        ensures
            idxes@.len() == self.squares().len(),
            forall|i: int| 0 <= i < idxes@.len() ==> idxes@[i] as int == self.squares()[i],
    {
        let mut dat: u64 = self.data;
        let mut idxes: Vec<u8> = Vec::new();
        while dat != 0
            invariant
                idxes@.map_values(|x: u8| x as int) + (Bitboard { data: dat }).squares()
                    == self.squares(),
            decreases (Bitboard { data: dat }).squares().len(),
        {
            let count: u32 = dat.trailing_zeros();
            proof {
                broadcast use group_bit_ops;
                lemma_lowest_bit(dat);
                (Bitboard { data: dat }).lemma_squares_lowest(
                    Bitboard { data: dat ^ (1u64 << (count as u64)) },
                );
            }
            let mask: u64 = 1u64 << count;
            let ghost before = idxes@.map_values(|x: u8| x as int);
            dat = dat ^ mask;
            idxes.push(count as u8);
            proof {
                let after = idxes@.map_values(|x: u8| x as int);
                assert(after =~= before.push(count as int));
                assert(before.push(count as int) + (Bitboard { data: dat }).squares() =~= before
                    + (seq![count as int] + (Bitboard { data: dat }).squares()));
            }
        }
        proof {
            let mapped = idxes@.map_values(|x: u8| x as int);
            (Bitboard { data: dat }).lemma_squares_empty();
            assert(mapped =~= self.squares());
            assert forall|i: int| 0 <= i < idxes@.len() implies idxes@[i] as int
                == self.squares()[i] by {
                assert(mapped[i] == idxes@[i] as int);
            }
        }
        idxes
    }

    /// The set whose rows, from row 1 up to row 8, are the given bytes: bit
    /// `c` of a byte is column `c` of its row.
    pub fn with_rows(r1: u8, r2: u8, r3: u8, r4: u8, r5: u8, r6: u8, r7: u8, r8: u8) -> (r:
        Bitboard)
        ensures
            forall|sq: int|
                0 <= sq < 64 ==> r.has(sq) == bit(
                    pick8(sq / 8, r1, r2, r3, r4, r5, r6, r7, r8) as u64,
                    (sq % 8) as u64,
                ),
    {
        let data: u64 = (r1 as u64) << 0 | (r2 as u64) << 8 | (r3 as u64) << 16 | (r4 as u64) << 24
            | (r5 as u64) << 32 | (r6 as u64) << 40 | (r7 as u64) << 48 | (r8 as u64) << 56;
        let r = Bitboard { data };
        proof {
            broadcast use group_bit_ops;
            assert forall|sq: int| 0 <= sq < 64 implies r.has(sq) == bit(
                pick8(sq / 8, r1, r2, r3, r4, r5, r6, r7, r8) as u64,
                (sq % 8) as u64,
            ) by {
                let i = sq as u64;
                lemma_bit_row_byte(r1, 0, i);
                lemma_bit_row_byte(r2, 1, i);
                lemma_bit_row_byte(r3, 2, i);
                lemma_bit_row_byte(r4, 3, i);
                lemma_bit_row_byte(r5, 4, i);
                lemma_bit_row_byte(r6, 5, i);
                lemma_bit_row_byte(r7, 6, i);
                lemma_bit_row_byte(r8, 7, i);
            }
        }
        r
    }

    /// The set whose columns, from column A to column H, are the given bytes:
    /// bit `r` of a byte is row `r` of its column.
    pub fn with_cols(c1: u8, c2: u8, c3: u8, c4: u8, c5: u8, c6: u8, c7: u8, c8: u8) -> (r:
        Bitboard)
        ensures
            forall|sq: int|
                0 <= sq < 64 ==> r.has(sq) == bit(
                    pick8(sq % 8, c1, c2, c3, c4, c5, c6, c7, c8) as u64,
                    (sq / 8) as u64,
                ),
    {
        broadcast use group_bit_ops;
        let mut data: u64 = 0;
        let mut sq: u8 = 0;
        while sq < 64
            invariant
                sq <= 64,
                forall|t: int|
                    0 <= t < 64 ==> #[trigger] (Bitboard { data }).has(t) == (t < sq && bit(
                        pick8(t % 8, c1, c2, c3, c4, c5, c6, c7, c8) as u64,
                        (t / 8) as u64,
                    )),
            decreases 64 - sq,
        {
            broadcast use group_bit_ops;
            let col: u8 = sq % 8;
            let row: u8 = sq / 8;
            let byte: u8 = if col == 0 {
                c1
            } else if col == 1 {
                c2
            } else if col == 2 {
                c3
            } else if col == 3 {
                c4
            } else if col == 4 {
                c5
            } else if col == 5 {
                c6
            } else if col == 6 {
                c7
            } else {
                c8
            };
            let ghost before = Bitboard { data };
            if ((byte as u64) >> (row as u64)) & 1 == 1 {
                data = data | (1u64 << (sq as u64));
            }
            sq = sq + 1;
            proof {
                let after = Bitboard { data };
                assert forall|t: int| 0 <= t < 64 implies #[trigger] after.has(t) == (t < sq && bit(
                    pick8(t % 8, c1, c2, c3, c4, c5, c6, c7, c8) as u64,
                    (t / 8) as u64,
                )) by {
                    assert(before.has(t) == (t < sq - 1 && bit(
                        pick8(t % 8, c1, c2, c3, c4, c5, c6, c7, c8) as u64,
                        (t / 8) as u64,
                    )));
                }
            }
        }
        Bitboard { data }
    }

    /// Whether one of the `n` squares `t - step`, `t - 2 * step`, ... belongs
    /// to the set: `t` lies within `n` steps of a square of the set.
    pub open spec fn has_within(self, t: int, step: int, n: int) -> bool
        decreases n,
    {
        n >= 1 && (self.has(t - step * n) || self.has_within(t, step, n - 1))
    }

    /// The squares up to `n` rows above a square of the set. No square of the
    /// set may be closer than `n` rows to the top.
    pub fn ray_up(self, n: u8) -> (r: Bitboard)
        requires
            n <= 7,
            forall|sq: int| self.has(sq) ==> sq / 8 + n <= 7,
        ensures
            forall|t: int| r.has(t) == self.has_within(t, 8, n as int),
    {
        broadcast use group_bit_ops;
        let mut d: u64 = 0;
        let mut i: u8 = 0;
        while i < n
            invariant
                i <= n <= 7,
                forall|sq: int| self.has(sq) ==> sq / 8 + n <= 7,
                forall|t: int|
                    #[trigger] (Bitboard { data: d }).has(t) == self.has_within(t, 8, i as int),
            decreases n - i,
        {
            broadcast use group_bit_ops;
            let ghost before = Bitboard { data: d };
            let amount: u64 = (i as u64 + 1) * 8;
            d = d | (self.data << amount);
            i = i + 1;
            proof {
                let after = Bitboard { data: d };
                assert forall|t: int| #[trigger] after.has(t) == self.has_within(t, 8, i as int) by {
                    assert(before.has(t) == self.has_within(t, 8, i - 1));
                    if self.has(t - (8) * i) {
                        assert(0 <= t < 64);
                    }
                }
            }
        }
        Bitboard { data: d }
    }

    /// The squares up to `n` rows below a square of the set. No square of the
    /// set may be closer than `n` rows to the bottom.
    pub fn ray_down(self, n: u8) -> (r: Bitboard)
        requires
            n <= 7,
            forall|sq: int| self.has(sq) ==> sq / 8 >= n,
        ensures
            forall|t: int| r.has(t) == self.has_within(t, -8, n as int),
    {
        broadcast use group_bit_ops;
        let mut d: u64 = 0;
        let mut i: u8 = 0;
        while i < n
            invariant
                i <= n <= 7,
                forall|sq: int| self.has(sq) ==> sq / 8 >= n,
                forall|t: int|
                    #[trigger] (Bitboard { data: d }).has(t) == self.has_within(t, -8, i as int),
            decreases n - i,
        {
            broadcast use group_bit_ops;
            let ghost before = Bitboard { data: d };
            let amount: u64 = (i as u64 + 1) * 8;
            d = d | (self.data >> amount);
            i = i + 1;
            proof {
                let after = Bitboard { data: d };
                assert forall|t: int| #[trigger] after.has(t) == self.has_within(t, -8, i as int) by {
                    assert(before.has(t) == self.has_within(t, -8, i - 1));
                    if self.has(t - (-8) * i) {
                        assert(0 <= t < 64);
                    }
                }
            }
        }
        Bitboard { data: d }
    }

    /// The squares up to `n` columns to the right of a square of the set. No
    /// square of the set may be closer than `n` columns to column H.
    pub fn ray_right(self, n: u8) -> (r: Bitboard)
        requires
            n <= 7,
            forall|sq: int| self.has(sq) ==> sq % 8 + n <= 7,
        ensures
            forall|t: int| r.has(t) == self.has_within(t, 1, n as int),
    {
        broadcast use group_bit_ops;
        let mut d: u64 = 0;
        let mut i: u8 = 0;
        while i < n
            invariant
                i <= n <= 7,
                forall|sq: int| self.has(sq) ==> sq % 8 + n <= 7,
                forall|t: int|
                    #[trigger] (Bitboard { data: d }).has(t) == self.has_within(t, 1, i as int),
            decreases n - i,
        {
            broadcast use group_bit_ops;
            let ghost before = Bitboard { data: d };
            let amount: u64 = i as u64 + 1;
            d = d | (self.data << amount);
            i = i + 1;
            proof {
                let after = Bitboard { data: d };
                assert forall|t: int| #[trigger] after.has(t) == self.has_within(t, 1, i as int) by {
                    assert(before.has(t) == self.has_within(t, 1, i - 1));
                    if self.has(t - (1) * i) {
                        assert(0 <= t < 64);
                    }
                }
            }
        }
        Bitboard { data: d }
    }

    /// The squares up to `n` columns to the left of a square of the set. No
    /// square of the set may be closer than `n` columns to column A.
    pub fn ray_left(self, n: u8) -> (r: Bitboard)
        requires
            n <= 7,
            forall|sq: int| self.has(sq) ==> sq % 8 >= n,
        ensures
            forall|t: int| r.has(t) == self.has_within(t, -1, n as int),
    {
        broadcast use group_bit_ops;
        let mut d: u64 = 0;
        let mut i: u8 = 0;
        while i < n
            invariant
                i <= n <= 7,
                forall|sq: int| self.has(sq) ==> sq % 8 >= n,
                forall|t: int|
                    #[trigger] (Bitboard { data: d }).has(t) == self.has_within(t, -1, i as int),
            decreases n - i,
        {
            broadcast use group_bit_ops;
            let ghost before = Bitboard { data: d };
            let amount: u64 = i as u64 + 1;
            d = d | (self.data >> amount);
            i = i + 1;
            proof {
                let after = Bitboard { data: d };
                assert forall|t: int| #[trigger] after.has(t) == self.has_within(t, -1, i as int) by {
                    assert(before.has(t) == self.has_within(t, -1, i - 1));
                    if self.has(t - (-1) * i) {
                        assert(0 <= t < 64);
                    }
                }
            }
        }
        Bitboard { data: d }
    }
}

/// The squares of a set from `lo` upwards, in ascending order.
pub open spec fn listing_from(s: Set<int>, lo: int) -> Seq<int>
    decreases 64 - lo,
{
    if lo >= 64 {
        Seq::empty()
    } else if s.contains(lo) {
        seq![lo] + listing_from(s, lo + 1)
    } else {
        listing_from(s, lo + 1)
    }
}

/// The squares of a set of squares in ascending order.
pub open spec fn listing(s: Set<int>) -> Seq<int> {
    listing_from(s, 0)
}

/// The listing from `lo` holds exactly the squares of the set from `lo`
/// up to 63, each once, in ascending order.
pub proof fn lemma_listing_contents(s: Set<int>, lo: int)
    requires
        0 <= lo,
    ensures
        forall|i: int|
            0 <= i < listing_from(s, lo).len() ==> lo <= #[trigger] listing_from(s, lo)[i] < 64
                && s.contains(listing_from(s, lo)[i]),
        forall|i: int, j: int|
            0 <= i < j < listing_from(s, lo).len() ==> listing_from(s, lo)[i] < listing_from(
                s,
                lo,
            )[j],
        forall|sq: int| lo <= sq < 64 && s.contains(sq) ==> listing_from(s, lo).contains(sq),
    decreases 64 - lo,
{
    if lo < 64 {
        lemma_listing_contents(s, lo + 1);
        let rest = listing_from(s, lo + 1);
        let all = listing_from(s, lo);
        if s.contains(lo) {
            assert(all == seq![lo] + rest);
            assert(all[0] == lo);
            assert forall|i: int| 0 < i < all.len() implies all[i] == rest[i - 1] by {}
            assert forall|sq: int| lo <= sq < 64 && s.contains(sq) implies all.contains(sq) by {
                if sq == lo {
                    assert(all[0] == sq);
                } else {
                    assert(rest.contains(sq));
                    let k = choose|k: int| 0 <= k < rest.len() && rest[k] == sq;
                    assert(all[k + 1] == sq);
                }
            }
        } else {
            assert(all == rest);
        }
    }
}

impl Bitboard {
    /// The squares of a word are the listing of its set.
    pub proof fn lemma_squares_listing(self, lo: int)
        ensures
            self.squares_from(lo) == listing_from(self@, lo),
        decreases 64 - lo,
    {
        if lo < 64 {
            self.lemma_squares_listing(lo + 1);
            assert(self@.contains(lo) == self.has(lo));
        }
    }
}

/// The `k`-th of eight bytes, counted from 0.
pub open spec fn pick8(k: int, b0: u8, b1: u8, b2: u8, b3: u8, b4: u8, b5: u8, b6: u8, b7: u8) -> u8 {
    if k == 0 {
        b0
    } else if k == 1 {
        b1
    } else if k == 2 {
        b2
    } else if k == 3 {
        b3
    } else if k == 4 {
        b4
    } else if k == 5 {
        b5
    } else if k == 6 {
        b6
    } else {
        b7
    }
}

impl Bitboard {
    /// The set holding the one square `pos`.
    pub fn from_position(pos: Position) -> (r: Bitboard)
        ensures
            r.data == 1u64 << (pos@ as u64),
            r.single(pos@),
            r@ == set![pos@],
    {
        broadcast use group_bit_ops;
        let r = Bitboard { data: 1u64 << (pos.integral() as u64) };
        assert(r@ =~= set![pos@]);
        r
    }

    /// The squares of the set, to be taken one by one in ascending order.
    pub fn positions(self) -> (it: Positions)
        ensures
            it@ == self.squares(),
    {
        Positions::new(self)
    }

    /// The squares of the set as one-square sets, to be taken one by one in
    /// ascending order.
    pub fn bit_masks(self) -> (it: Bitmasks)
        ensures
            it@ == self.squares(),
    {
        Bitmasks::new(self)
    }
}

impl From<Position> for Bitboard {
    /// The set holding the one square `pos`.
    fn from(pos: Position) -> (r: Bitboard) {
        Bitboard::from_position(pos)
    }
}

impl vstd::std_specs::convert::FromSpecImpl<Position> for Bitboard {
    open spec fn obeys_from_spec() -> bool {
        true
    }

    open spec fn from_spec(pos: Position) -> Bitboard {
        Bitboard { data: 1u64 << (pos@ as u64) }
    }
}

/// Walks over the squares of a set from the lowest to the highest.
pub struct Positions {
    mask: Bitboard,
}

impl Positions {
    /// The squares still to come, in the order in which they come.
    pub closed spec fn view(self) -> Seq<int> {
        self.mask.squares()
    }

    /// A walk over the squares of `mask`.
    pub fn new(mask: Bitboard) -> (it: Positions)
        ensures
            it@ == mask.squares(),
    {
        Positions { mask }
    }

    /// The next square, if one is left.
    pub fn next(&mut self) -> (r: Option<Position>)
        ensures
            old(self)@.len() == 0 ==> r.is_none() && final(self)@ == old(self)@,
            old(self)@.len() > 0 ==> r.is_some() && r.unwrap()@ == old(self)@[0]
                && r.unwrap().valid() && final(self)@ == old(self)@.skip(1),
    {
        if self.mask.data == 0 {
            proof {
                self.mask.lemma_squares_empty();
            }
            return None;
        }
        let raw: u64 = self.mask.data;
        let count: u8 = raw.trailing_zeros() as u8;
        proof {
            lemma_lowest_bit(raw);
        }
        let pos_mask: u64 = 1u64 << (count as u64);
        let ghost before = self.mask;
        self.mask = self.mask.where_not(Bitboard::from_bits(pos_mask));
        proof {
            broadcast use group_bit_ops;
            before.lemma_squares_lowest(self.mask);
        }
        Some(Position::from_integral(count))
    }
}

/// Walks over the squares of a set from the lowest to the highest, handing
/// each out as a set of its own.
pub struct Bitmasks {
    mask: Bitboard,
}

impl Bitmasks {
    /// The squares still to come, in the order in which they come.
    pub closed spec fn view(self) -> Seq<int> {
        self.mask.squares()
    }

    /// A walk over the squares of `mask`.
    pub fn new(mask: Bitboard) -> (it: Bitmasks)
        ensures
            it@ == mask.squares(),
    {
        Bitmasks { mask }
    }

    /// The next square as a one-square set, if one is left.
    pub fn next(&mut self) -> (r: Option<Bitboard>)
        ensures
            old(self)@.len() == 0 ==> r.is_none() && final(self)@ == old(self)@,
            old(self)@.len() > 0 ==> r.is_some() && r.unwrap().single(old(self)@[0]) && 0
                <= old(self)@[0] < 64 && r.unwrap().data == 1u64 << (old(self)@[0] as u64)
                && final(self)@ == old(self)@.skip(1),
    {
        if self.mask.data == 0 {
            proof {
                self.mask.lemma_squares_empty();
            }
            return None;
        }
        let raw: u64 = self.mask.data;
        let count: u32 = raw.trailing_zeros();
        proof {
            lemma_lowest_bit(raw);
        }
        let ghost before = self.mask;
        self.mask = Bitboard::from_bits(raw & !(1u64 << (count as u64)));
        proof {
            broadcast use group_bit_ops;
            before.lemma_squares_lowest(self.mask);
        }
        let r = Bitboard::from_piece_index(count as u8);
        proof {
            broadcast use group_bit_ops;
        }
        Some(r)
    }
}

/// Every bit of `s` is a bit of `m`.
pub open spec fn is_subset(s: u64, m: u64) -> bool {
    s & !m == 0
}

/// Walks over all subsets of a set of squares, in ascending order of their
/// words: for a set of k squares, 2^k subsets from the empty set to the set
/// itself.
pub struct MaskPermutations {
    mask: Bitboard,
    cur: u64,
    done: bool,
}

impl MaskPermutations {
    /// What is handed out is a subset of the mask.
    #[verifier::type_invariant]
    pub closed spec fn within(self) -> bool {
        is_subset(self.cur, self.mask.data)
    }

    /// The set whose subsets are walked over.
    pub closed spec fn mask(self) -> Bitboard {
        self.mask
    }

    /// The subset that comes next, while one is left.
    pub closed spec fn current(self) -> u64 {
        self.cur
    }

    /// No subset is left.
    pub closed spec fn finished(self) -> bool {
        self.done
    }

    /// A walk over the subsets of `mask`, beginning with the empty set.
    pub fn new(mask: Bitboard) -> (it: MaskPermutations)
        ensures
            it.mask() == mask,
            it.current() == 0,
            !it.finished(),
    {
        assert(0u64 & !mask.data == 0) by (bit_vector);
        MaskPermutations { mask, cur: 0, done: false }
    }

    /// The next subset, if one is left: the least subset above the one
    /// handed out before.
    pub fn next(&mut self) -> (r: Option<Bitboard>)
        ensures
            final(self).mask() == old(self).mask(),
            old(self).finished() ==> r.is_none() && final(self).finished(),
            !old(self).finished() ==> r == Some(Bitboard { data: old(self).current() })
                && is_subset(old(self).current(), old(self).mask().data),
            !old(self).finished() && old(self).current() == old(self).mask().data
                ==> final(self).finished(),
            !old(self).finished() && old(self).current() != old(self).mask().data
                ==> !final(self).finished() && final(self).current() > old(self).current()
                && is_subset(final(self).current(), old(self).mask().data),
            forall|t: u64|
                !old(self).finished() && is_subset(t, old(self).mask().data) && t > old(
                    self,
                ).current() ==> !final(self).finished() && final(self).current() <= t,
    {
        proof {
            use_type_invariant(&*self);
        }
        if self.done {
            return None;
        }
        let s: u64 = self.cur;
        let m: u64 = self.mask.data;
        let filled: u64 = s | !m;
        proof {
            lemma_next_subset(s, m, 0);
            assert forall|t: u64| is_subset(t, m) && t > s implies s != m && (((s | !m) + 1) as u64)
                & m <= t by {
                lemma_next_subset(s, m, t);
            }
        }
        if filled == 0xffff_ffff_ffff_ffffu64 {
            self.done = true;
        } else {
            self.cur = (filled + 1) & m;
        }
        Some(Bitboard { data: s })
    }
}

impl Bitboard {
    /// All subsets of the set, to be taken one by one in ascending order of
    /// their words.
    pub fn mask_permutations(self) -> (it: MaskPermutations)
        ensures
            it.mask() == self,
            it.current() == 0,
            !it.finished(),
    {
        MaskPermutations::new(self)
    }
}

impl Default for Bitboard {
    /// The empty set.
    fn default() -> (r: Bitboard)
        ensures
            r.data == 0,
    {
        Bitboard { data: 0 }
    }
}

impl core::ops::BitOr for Bitboard {
    type Output = Bitboard;

    /// The squares that belong to either set.
    fn bitor(self, rhs: Bitboard) -> (r: Bitboard) {
        Bitboard { data: self.data | rhs.data }
    }
}

impl vstd::std_specs::ops::BitOrSpecImpl for Bitboard {
    open spec fn obeys_bitor_spec() -> bool {
        true
    }

    open spec fn bitor_req(self, rhs: Bitboard) -> bool {
        true
    }

    open spec fn bitor_spec(self, rhs: Bitboard) -> Bitboard {
        Bitboard { data: self.data | rhs.data }
    }
}

impl core::ops::BitAnd for Bitboard {
    type Output = Bitboard;

    /// The squares that belong to both sets.
    fn bitand(self, rhs: Bitboard) -> (r: Bitboard) {
        Bitboard { data: self.data & rhs.data }
    }
}

impl vstd::std_specs::ops::BitAndSpecImpl for Bitboard {
    open spec fn obeys_bitand_spec() -> bool {
        true
    }

    open spec fn bitand_req(self, rhs: Bitboard) -> bool {
        true
    }

    open spec fn bitand_spec(self, rhs: Bitboard) -> Bitboard {
        Bitboard { data: self.data & rhs.data }
    }
}

impl core::ops::BitXor for Bitboard {
    type Output = Bitboard;

    /// The squares that belong to exactly one of the two sets.
    fn bitxor(self, rhs: Bitboard) -> (r: Bitboard) {
        Bitboard { data: self.data ^ rhs.data }
    }
}

impl vstd::std_specs::ops::BitXorSpecImpl for Bitboard {
    open spec fn obeys_bitxor_spec() -> bool {
        true
    }

    open spec fn bitxor_req(self, rhs: Bitboard) -> bool {
        true
    }

    open spec fn bitxor_spec(self, rhs: Bitboard) -> Bitboard {
        Bitboard { data: self.data ^ rhs.data }
    }
}

impl core::ops::Shl<u8> for Bitboard {
    type Output = Bitboard;

    /// Every square moved up by `rhs` places in the numbering of squares;
    /// what passes the last square falls off.
    fn shl(self, rhs: u8) -> (r: Bitboard) {
        Bitboard { data: self.data << (rhs as u64) }
    }
}

impl vstd::std_specs::ops::ShlSpecImpl<u8> for Bitboard {
    open spec fn obeys_shl_spec() -> bool {
        true
    }

    open spec fn shl_req(self, rhs: u8) -> bool {
        rhs < 64
    }

    open spec fn shl_spec(self, rhs: u8) -> Bitboard {
        Bitboard { data: self.data << (rhs as u64) }
    }
}

impl core::ops::Shr<u8> for Bitboard {
    type Output = Bitboard;

    /// Every square moved down by `rhs` places in the numbering of squares;
    /// what passes the first square falls off.
    fn shr(self, rhs: u8) -> (r: Bitboard) {
        Bitboard { data: self.data >> (rhs as u64) }
    }
}

impl vstd::std_specs::ops::ShrSpecImpl<u8> for Bitboard {
    open spec fn obeys_shr_spec() -> bool {
        true
    }

    open spec fn shr_req(self, rhs: u8) -> bool {
        rhs < 64
    }

    open spec fn shr_spec(self, rhs: u8) -> Bitboard {
        Bitboard { data: self.data >> (rhs as u64) }
    }
}

impl core::ops::BitOrAssign for Bitboard {
    /// Adds the squares of `rhs`.
    fn bitor_assign(&mut self, rhs: Bitboard)
        ensures
            final(self).data == old(self).data | rhs.data,
    {
        self.data = self.data | rhs.data;
    }
}

impl core::ops::BitAndAssign for Bitboard {
    /// Keeps only the squares that are also in `rhs`.
    fn bitand_assign(&mut self, rhs: Bitboard)
        ensures
            final(self).data == old(self).data & rhs.data,
    {
        self.data = self.data & rhs.data;
    }
}

impl core::ops::BitXorAssign for Bitboard {
    /// Flips the squares of `rhs`.
    fn bitxor_assign(&mut self, rhs: Bitboard)
        ensures
            final(self).data == old(self).data ^ rhs.data,
    {
        self.data = self.data ^ rhs.data;
    }
}

impl Bitboard {
    /// The number of the one square of a set that holds exactly one.
    pub fn piece_index(self) -> (i: u8)
        requires
            exists|sq: int| self.single(sq),
        ensures
            self.single(i as int),
    {
        self.piece_position().integral()
    }
}

} // verus!
