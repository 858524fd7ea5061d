//! Attacks of the sliding pieces: computed by walking the rays, and looked
//! up in per-square tables indexed by a multiply-and-shift hash of the
//! blockers.

use vstd::prelude::*;
use crate::bitboard::{is_subset, Bitboard};
use crate::bits::{group_bit_ops, lemma_next_subset, lemma_shifted_bound};
use crate::geometry::{
    bishop_attacks, bishop_mask, distance, is_direction, lemma_bishop_relevance,
    lemma_queen_relevance, lemma_rook_relevance, on_board, on_ray, queen_attacks, queen_mask,
    ray_free, rook_attacks, rook_mask, step_sq, times,
};
use crate::precalc::masks::{precalc_bishop_mask, precalc_queen_mask, precalc_rook_mask};
use crate::zobrist::next_random;

verus! {

/// The squares seen from square `idx` in direction `(dr, dc)` when the
/// squares of `world` are occupied.
pub fn ray_attack_bb(idx: u8, dr: i8, dc: i8, world: Bitboard) -> (r: Bitboard)
    requires
        idx < 64,
        is_direction(dr as int, dc as int),
    ensures
        forall|t: int| r.has(t) == on_ray(idx as int, dr as int, dc as int, t, world@),
{
    broadcast use group_bit_ops;
    let ghost sq = idx as int;
    let mut acc: u64 = 0;
    let mut row: i8 = (idx / 8) as i8;
    let mut col: i8 = (idx % 8) as i8;
    let mut k: u8 = 0;
    loop
        invariant_except_break
            forall|t: int|
                #[trigger] (Bitboard { data: acc }).has(t) == (on_ray(
                    sq,
                    dr as int,
                    dc as int,
                    t,
                    world@,
                ) && distance(sq, t) <= k),
            ray_free(sq, dr as int, dc as int, k + 1, world@),
        invariant
            sq == idx,
            idx < 64,
            is_direction(dr as int, dc as int),
            0 <= k <= 7,
            row == sq / 8 + times(k as int, dr as int),
            col == sq % 8 + times(k as int, dc as int),
            0 <= row < 8,
            0 <= col < 8,
        ensures
            forall|t: int|
                #[trigger] (Bitboard { data: acc }).has(t) == on_ray(
                    sq,
                    dr as int,
                    dc as int,
                    t,
                    world@,
                ),
        decreases 8 - k,
    {
        broadcast use group_bit_ops;
        let nr: i8 = row + dr;
        let nc: i8 = col + dc;
        if nr < 0 || nr > 7 || nc < 0 || nc > 7 {
            break ;
        }
        let ghost before = Bitboard { data: acc };
        let s: u64 = (nr * 8 + nc) as u64;
        acc = acc | (1u64 << s);
        k = k + 1;
        row = nr;
        col = nc;
        proof {
            let after = Bitboard { data: acc };
            assert(s == step_sq(sq, dr as int, dc as int, k as int));
            assert(distance(sq, s as int) == k);
            assert forall|t: int| #[trigger] after.has(t) == (on_ray(
                sq,
                dr as int,
                dc as int,
                t,
                world@,
            ) && distance(sq, t) <= k) by {
                assert(before.has(t) == (on_ray(sq, dr as int, dc as int, t, world@) && distance(
                    sq,
                    t,
                ) <= k - 1));
            }
        }
        if (world.data >> s) & 1 == 1 {
            proof {
                assert(world.has(s as int));
                assert(world@.contains(step_sq(sq, dr as int, dc as int, k as int)));
            }
            break ;
        }
        proof {
            assert(!world.has(s as int));
            assert(!world@.contains(s as int));
        }
    }
    Bitboard { data: acc }
}

/// The squares a rook on square `idx` attacks when the squares of `world`
/// are occupied.
pub fn rook_attack_bb(idx: u8, world: Bitboard) -> (r: Bitboard)
    requires
        idx < 64,
    ensures
        r@ == rook_attacks(idx as int, world@),
{
    let up = ray_attack_bb(idx, 1, 0, world);
    let down = ray_attack_bb(idx, -1, 0, world);
    let right = ray_attack_bb(idx, 0, 1, world);
    let left = ray_attack_bb(idx, 0, -1, world);
    let r = up.combine_with(down).combine_with(right).combine_with(left);
    proof {
        assert(r@ =~= rook_attacks(idx as int, world@));
    }
    r
}

/// The squares a bishop on square `idx` attacks when the squares of `world`
/// are occupied.
pub fn bishop_attack_bb(idx: u8, world: Bitboard) -> (r: Bitboard)
    requires
        idx < 64,
    ensures
        r@ == bishop_attacks(idx as int, world@),
{
    let upleft = ray_attack_bb(idx, 1, -1, world);
    let upright = ray_attack_bb(idx, 1, 1, world);
    let downleft = ray_attack_bb(idx, -1, -1, world);
    let downright = ray_attack_bb(idx, -1, 1, world);
    let r = upleft.combine_with(upright).combine_with(downleft).combine_with(downright);
    proof {
        assert(r@ =~= bishop_attacks(idx as int, world@));
    }
    r
}

/// What a table holds for each subset of its mask.
#[derive(Clone, Copy, Debug, PartialEq, Eq, Structural)]
pub enum TableKind {
    /// The rook's attacks among the blockers of the subset.
    Rook,
    /// The bishop's attacks among the blockers of the subset.
    Bishop,
    /// The queen's attacks among the blockers of the subset.
    Queen,
    /// The subset itself.
    Subsets,
}

/// A multiplier found for a mask, with the shift that goes with it.
#[derive(Clone, Copy, Debug, PartialEq, Eq, Structural)]
pub struct MagicResult {
    pub magic: u64,
    pub shift: u8,
    pub mask: u64,
}

/// Where the blockers `blockers` are looked up: their part within `mask`,
/// times `multiplier`, shifted right by `shift`.
pub open spec fn magic_index(blockers: u64, mask: u64, multiplier: u64, shift: u64) -> u64 {
    vstd::wrapping::u64_specs::wrapping_mul(blockers & mask, multiplier) >> shift
}

/// What a table of the given kind for square `sq` answers where the squares
/// of `occ` are occupied: the attacks of its piece from `sq`, each ray up to
/// and including the first occupied square.
pub open spec fn answer_of(kind: TableKind, sq: int, occ: Set<int>) -> Set<int> {
    match kind {
        TableKind::Rook => rook_attacks(sq, occ),
        TableKind::Bishop => bishop_attacks(sq, occ),
        TableKind::Queen => queen_attacks(sq, occ),
        TableKind::Subsets => occ,
    }
}

/// The squares whose occupancy matters to a table of the given kind for
/// square `sq`: the mask of its piece.
pub open spec fn mask_of(kind: TableKind, sq: int) -> Set<int> {
    match kind {
        TableKind::Rook => rook_mask(sq),
        TableKind::Bishop => bishop_mask(sq),
        TableKind::Queen => queen_mask(sq),
        TableKind::Subsets => Set::new(|t: int| on_board(t)),
    }
}

/// What a table of the given kind for square `sq` holds for the subset `s`.
pub open spec fn entry_of(kind: TableKind, sq: int, s: u64) -> Set<int> {
    answer_of(kind, sq, (Bitboard { data: s })@)
}

/// What a table answers depends only on the occupancy of the squares of its
/// mask.
pub proof fn lemma_relevance(kind: TableKind, sq: int, occ: Set<int>)
    requires
        forall|t: int| occ.contains(t) ==> on_board(t),
    ensures
        answer_of(kind, sq, occ) == answer_of(kind, sq, occ.intersect(mask_of(kind, sq))),
{
    match kind {
        TableKind::Rook => {
            lemma_rook_relevance(sq, occ);
        },
        TableKind::Bishop => {
            lemma_bishop_relevance(sq, occ);
        },
        TableKind::Queen => {
            lemma_queen_relevance(sq, occ);
        },
        TableKind::Subsets => {
            assert(occ =~= occ.intersect(mask_of(kind, sq)));
        },
    }
}

/// No two subsets of the mask that the table must tell apart are looked up
/// in the same place.
pub open spec fn collision_free(kind: TableKind, sq: int, magic: MagicResult) -> bool {
    forall|a: u64, b: u64|
        is_subset(a, magic.mask) && is_subset(b, magic.mask) && #[trigger] magic_index(
            a,
            magic.mask,
            magic.magic,
            magic.shift as u64,
        ) == #[trigger] magic_index(b, magic.mask, magic.magic, magic.shift as u64) ==> entry_of(
            kind,
            sq,
            a,
        ) == entry_of(kind, sq, b)
}

/// What the table holds in place `i`; nothing where it has no such place.
pub open spec fn held_at(table: Seq<Bitboard>, i: u64) -> Set<int> {
    if i < table.len() {
        table[i as int]@
    } else {
        Set::empty()
    }
}

/// The table has a place for every index, and holds for every subset of the
/// mask, in the place where that subset is looked up, what belongs to it.
pub open spec fn table_fits(table: Seq<Bitboard>, kind: TableKind, sq: int, magic: MagicResult) -> bool {
    &&& 1 <= magic.shift < 64
    &&& table.len() == (1u64 << ((64 - magic.shift) as u64))
    &&& forall|s: u64|
        is_subset(s, magic.mask) ==> held_at(
            table,
            #[trigger] magic_index(s, magic.mask, magic.magic, magic.shift as u64),
        ) == entry_of(kind, sq, s)
}

/// Place `i` of the table is filled.
pub open spec fn marked(filled: Seq<bool>, i: u64) -> bool {
    i < filled.len() && filled[i as int]
}

/// Where `blockers` are looked up.
pub fn index_for(blockers: u64, mask: u64, multiplier: u64, shift: u8) -> (i: usize)
    requires
        44 <= shift < 64,
    ensures
        i == magic_index(blockers, mask, multiplier, shift as u64),
        i < (1u64 << ((64 - shift) as u64)),
{
    let raw: u64 = (blockers & mask).wrapping_mul(multiplier) >> (shift as u64);
    proof {
        lemma_shifted_bound((blockers & mask).wrapping_mul(multiplier), shift as u64);
    }
    raw as usize
}

/// What a table of the given kind for square `idx` holds for `subset`.
pub fn entry_for(kind: TableKind, idx: u8, subset: Bitboard) -> (r: Bitboard)
    requires
        idx < 64,
    ensures
        r@ == entry_of(kind, idx as int, subset.data),
{
    match kind {
        TableKind::Rook => rook_attack_bb(idx, subset),
        TableKind::Bishop => bishop_attack_bb(idx, subset),
        TableKind::Queen => rook_attack_bb(idx, subset).combine_with(
            bishop_attack_bb(idx, subset),
        ),
        TableKind::Subsets => subset,
    }
}

/// Fills a table of the given kind for square `idx` under the multiplier
/// and shift of `magic`, one subset of the mask after the other. There is
/// no table where the shift leaves more than 20 or fewer than 1 bits of
/// index, or where two subsets that the table must tell apart are looked up
/// in the same place.
pub fn fill_table(kind: TableKind, idx: u8, magic: MagicResult) -> (r: Option<Vec<Bitboard>>)
    requires
        idx < 64,
    ensures
        r.is_some() <==> 44 <= magic.shift < 64 && collision_free(kind, idx as int, magic),
        r matches Some(table) ==> table_fits(table@, kind, idx as int, magic),
{
    if magic.shift < 44 || magic.shift >= 64 {
        return None;
    }
    proof {
        lemma_shifted_bound(0, magic.shift as u64);
    }
    let size: usize = (1u64 << ((64 - magic.shift) as u64)) as usize;
    let mut table: Vec<Bitboard> = Vec::new();
    let mut filled: Vec<bool> = Vec::new();
    let mut n: usize = 0;
    while n < size
        invariant
            n <= size,
            table@.len() == n,
            filled@.len() == n,
            forall|i: int| 0 <= i < n ==> !#[trigger] filled@[i],
        decreases size - n,
    {
        table.push(Bitboard::const_default());
        filled.push(false);
        n = n + 1;
    }
    let ghost sq = idx as int;
    let ghost mut owner: Seq<u64> = Seq::new(size as nat, |i: int| 0u64);
    let mut it = Bitboard::from_bits(magic.mask).mask_permutations();
    loop
        invariant
            idx < 64,
            sq == idx,
            44 <= magic.shift < 64,
            size == (1u64 << ((64 - magic.shift) as u64)),
            table@.len() == size,
            filled@.len() == size,
            owner.len() == size,
            it.mask().data == magic.mask,
            forall|t: u64|
                is_subset(t, magic.mask) && (it.finished() || t < it.current()) ==> marked(
                    filled@,
                    #[trigger] magic_index(t, magic.mask, magic.magic, magic.shift as u64),
                ) && held_at(
                    table@,
                    magic_index(t, magic.mask, magic.magic, magic.shift as u64),
                ) == entry_of(kind, sq, t),
            forall|i: int|
                0 <= i < size && #[trigger] filled@[i] ==> is_subset(owner[i], magic.mask)
                    && magic_index(owner[i], magic.mask, magic.magic, magic.shift as u64) == i
                    && table@[i]@ == entry_of(kind, sq, owner[i]),
        ensures
            it.finished(),
        decreases
                if it.finished() {
                    0int
                } else {
                    0x1_0000_0000_0000_0000int - it.current()
                },
    {
        let ghost before = it;
        match it.next() {
            None => {
                break ;
            },
            Some(subset) => {
                let s: u64 = subset.data;
                let i = index_for(s, magic.mask, magic.magic, magic.shift);
                let entry = entry_for(kind, idx, subset);
                if filled[i] && table[i].data != entry.data {
                    proof {
                        let a = owner[i as int];
                        if table@[i as int]@ == entry@ {
                            table@[i as int].lemma_view_ext(entry);
                        }
                        assert(entry_of(kind, sq, a) != entry_of(kind, sq, s));
                        assert(magic_index(a, magic.mask, magic.magic, magic.shift as u64)
                            == magic_index(s, magic.mask, magic.magic, magic.shift as u64));
                    }
                    return None;
                }
                let ghost old_table = table@;
                let ghost old_filled = filled@;
                proof {
                    if filled@[i as int] {
                        assert(table@[i as int] == entry);
                    } else {
                        owner = owner.update(i as int, s);
                    }
                }
                table.set(i, entry);
                filled.set(i, true);
                proof {
                    assert forall|t: u64|
                        is_subset(t, magic.mask) && (it.finished() || t < it.current()) implies marked(
                        filled@,
                        #[trigger] magic_index(t, magic.mask, magic.magic, magic.shift as u64),
                    ) && held_at(
                        table@,
                        magic_index(t, magic.mask, magic.magic, magic.shift as u64),
                    ) == entry_of(kind, sq, t) by {
                        let j = magic_index(t, magic.mask, magic.magic, magic.shift as u64) as int;
                        lemma_shifted_bound(
                            vstd::wrapping::u64_specs::wrapping_mul(t & magic.mask, magic.magic),
                            magic.shift as u64,
                        );
                        if t < s {
                            assert(is_subset(t, magic.mask) && t < before.current());
                            assert(marked(old_filled, j as u64) && held_at(old_table, j as u64)
                                == entry_of(kind, sq, t));
                            if j == i {
                                assert(old_table[j] == entry);
                            }
                        } else if t > s {
                            lemma_next_subset(s, magic.mask, t);
                            if !it.finished() {
                                assert(it.current() <= t);
                            }
                            assert(false);
                        }
                    }
                }
            },
        }
    }
    proof {
        assert forall|a: u64, b: u64|
            is_subset(a, magic.mask) && is_subset(b, magic.mask) && #[trigger] magic_index(
                a,
                magic.mask,
                magic.magic,
                magic.shift as u64,
            ) == #[trigger] magic_index(b, magic.mask, magic.magic, magic.shift as u64) implies entry_of(
            kind,
            sq,
            a,
        ) == entry_of(kind, sq, b) by {
            let i = magic_index(a, magic.mask, magic.magic, magic.shift as u64);
            assert(held_at(table@, i) == entry_of(kind, sq, a));
            assert(held_at(table@, i) == entry_of(kind, sq, b));
        }
    }
    Some(table)
}

/// The mask of the piece of a table of the given kind on square `idx`; for
/// a table of subsets, the whole board.
pub fn mask_for(kind: TableKind, idx: u8) -> (r: Bitboard)
    requires
        idx < 64,
    ensures
        r@ == mask_of(kind, idx as int),
{
    match kind {
        TableKind::Rook => precalc_rook_mask(idx),
        TableKind::Bishop => precalc_bishop_mask(idx),
        TableKind::Queen => precalc_queen_mask(idx),
        TableKind::Subsets => {
            let all = Bitboard::const_default().negative();
            assert(all@ =~= Set::new(|t: int| on_board(t)));
            all
        },
    }
}

/// The table of the given kind for square `idx` under the multiplier and
/// shift of `magic`, where there is one: the mask of `magic` must be the
/// mask of the table's piece on that square, and the table must be one that
/// `fill_table` can fill.
pub fn calculate_attacks(kind: TableKind, idx: u8, magic: MagicResult) -> (r: Option<
    Vec<Bitboard>,
>)
    requires
        idx < 64,
    ensures
        r.is_some() <==> (Bitboard { data: magic.mask })@ == mask_of(kind, idx as int) && 44
            <= magic.shift < 64 && collision_free(kind, idx as int, magic),
        r matches Some(table) ==> table_fits(table@, kind, idx as int, magic),
{
    let mask = mask_for(kind, idx);
    if mask.data != magic.mask {
        proof {
            if (Bitboard { data: magic.mask })@ == mask_of(kind, idx as int) {
                mask.lemma_view_ext(Bitboard { data: magic.mask });
            }
        }
        return None;
    }
    fill_table(kind, idx, magic)
}

/// The rook's table for square `idx` under `magic`, where there is one.
pub fn calculate_rook_attacks(idx: u8, magic: MagicResult) -> (r: Option<Vec<Bitboard>>)
    requires
        idx < 64,
    ensures
        r.is_some() <==> (Bitboard { data: magic.mask })@ == rook_mask(idx as int) && 44
            <= magic.shift < 64 && collision_free(TableKind::Rook, idx as int, magic),
        r matches Some(table) ==> table_fits(table@, TableKind::Rook, idx as int, magic),
{
    calculate_attacks(TableKind::Rook, idx, magic)
}

/// The bishop's table for square `idx` under `magic`, where there is one.
pub fn calculate_bishop_attacks(idx: u8, magic: MagicResult) -> (r: Option<Vec<Bitboard>>)
    requires
        idx < 64,
    ensures
        r.is_some() <==> (Bitboard { data: magic.mask })@ == bishop_mask(idx as int) && 44
            <= magic.shift < 64 && collision_free(TableKind::Bishop, idx as int, magic),
        r matches Some(table) ==> table_fits(table@, TableKind::Bishop, idx as int, magic),
{
    calculate_attacks(TableKind::Bishop, idx, magic)
}

/// The queen's table for square `idx` under `magic`, where there is one.
pub fn calculate_queen_attacks(idx: u8, magic: MagicResult) -> (r: Option<Vec<Bitboard>>)
    requires
        idx < 64,
    ensures
        r.is_some() <==> (Bitboard { data: magic.mask })@ == queen_mask(idx as int) && 44
            <= magic.shift < 64 && collision_free(TableKind::Queen, idx as int, magic),
        r matches Some(table) ==> table_fits(table@, TableKind::Queen, idx as int, magic),
{
    calculate_attacks(TableKind::Queen, idx, magic)
}

/// No two subsets of `mask` are looked up in the same place under
/// `multiplier`, with as many bits of index as the mask has squares.
pub open spec fn is_magic(multiplier: u64, mask: Bitboard) -> bool {
    forall|a: u64, b: u64|
        is_subset(a, mask.data) && is_subset(b, mask.data) && #[trigger] magic_index(
            a,
            mask.data,
            multiplier,
            (64 - mask@.len()) as u64,
        ) == #[trigger] magic_index(b, mask.data, multiplier, (64 - mask@.len()) as u64) ==> a
            == b
}

/// Whether `magic` is a multiplier for `mask`: one under which no two
/// subsets of the mask are looked up in the same place. A mask of no square
/// or of more than 20 squares has none.
pub fn test_magic(magic: u64, mask: Bitboard) -> (r: bool)
    ensures
        r == (1 <= mask@.len() <= 20 && is_magic(magic, mask)),
{
    let count: u8 = mask.count();
    if count < 1 || count > 20 {
        return false;
    }
    let candidate = MagicResult { magic, shift: 64 - count, mask: mask.data };
    let table = fill_table(TableKind::Subsets, 0, candidate);
    proof {
        if collision_free(TableKind::Subsets, 0, candidate) {
            assert forall|a: u64, b: u64|
                is_subset(a, mask.data) && is_subset(b, mask.data) && #[trigger] magic_index(
                    a,
                    mask.data,
                    magic,
                    (64 - mask@.len()) as u64,
                ) == #[trigger] magic_index(
                    b,
                    mask.data,
                    magic,
                    (64 - mask@.len()) as u64,
                ) implies a == b by {
                let sh = candidate.shift as u64;
                assert(sh == (64 - mask@.len()) as u64);
                assert(magic_index(a, candidate.mask, candidate.magic, sh) == magic_index(
                    b,
                    candidate.mask,
                    candidate.magic,
                    sh,
                ));
                assert(entry_of(TableKind::Subsets, 0, a) == entry_of(TableKind::Subsets, 0, b));
                (Bitboard { data: a }).lemma_view_ext(Bitboard { data: b });
            }
        }
        if is_magic(magic, mask) {
            assert(collision_free(TableKind::Subsets, 0, candidate));
        }
    }
    table.is_some()
}

/// Looks for a multiplier for `mask` among up to `attempts` sparse words
/// drawn from `rng`, each the intersection of four draws. What is found is
/// a multiplier for the mask, with the shift that leaves as many bits of
/// index as the mask has squares.
pub fn calc_magic_for_mask(mask: Bitboard, rng: &mut rand::rngs::StdRng, attempts: u32) -> (r:
    Option<MagicResult>)
    ensures
        r matches Some(found) ==> found.mask == mask.data && found.shift == 64 - mask@.len()
            && 1 <= mask@.len() <= 20 && is_magic(found.magic, mask),
        attempts == 0 ==> r.is_none(),
        !(1 <= mask@.len() <= 20) ==> r.is_none(),
{
    let mut left: u32 = attempts;
    while left > 0
        invariant
            left <= attempts,
        decreases left,
    {
        let a: u64 = next_random(rng);
        let b: u64 = next_random(rng);
        let c: u64 = next_random(rng);
        let d: u64 = next_random(rng);
        let found = magic_from_draws(mask, a, b, c, d);
        if found.is_some() {
            return found;
        }
        left = left - 1;
    }
    None
}

/// What four draws give for `mask`: their intersection as a multiplier,
/// with the shift that leaves as many bits of index as the mask has
/// squares, where that word is a multiplier for the mask; nothing where it
/// is none.
pub fn magic_from_draws(mask: Bitboard, a: u64, b: u64, c: u64, d: u64) -> (r: Option<
    MagicResult,
>)
    ensures
        r.is_some() <==> 1 <= mask@.len() <= 20 && is_magic(a & b & c & d, mask),
        r matches Some(found) ==> found == (MagicResult {
            magic: a & b & c & d,
            shift: (64 - mask@.len()) as u8,
            mask: mask.data,
        }),
{
    let word: u64 = a & b & c & d;
    if test_magic(word, mask) {
        Some(MagicResult { magic: word, shift: 64 - mask.count(), mask: mask.data })
    } else {
        None
    }
}

/// A table of sliding attacks for one square: the multiplier and the shift
/// by which blockers are looked up, the mask of the blockers that matter,
/// and the attacks for each place.
pub struct Magic {
    pub multiplier: u64,
    pub shift: u64,
    pub mask: Bitboard,
    pub moves: Vec<Bitboard>,
}

impl Magic {
    /// The table has a place for every index.
    pub open spec fn sized(self) -> bool {
        44 <= self.shift < 64 && self.moves@.len() == (1u64 << ((64 - self.shift) as u64))
    }

    /// The multiplier, shift and mask of the table.
    pub open spec fn result(self) -> MagicResult {
        MagicResult { magic: self.multiplier, shift: self.shift as u8, mask: self.mask.data }
    }

    /// The table is the table of the given kind for square `sq`.
    pub open spec fn serves(self, kind: TableKind, sq: int) -> bool {
        &&& self.sized()
        &&& self.mask@ == mask_of(kind, sq)
        &&& table_fits(self.moves@, kind, sq, self.result())
    }

    /// The table of the given kind for square `idx` under `magic`, where
    /// `calculate_attacks` has one.
    pub fn new(kind: TableKind, idx: u8, magic: MagicResult) -> (r: Option<Magic>)
        requires
            idx < 64,
        ensures
            r.is_some() <==> (Bitboard { data: magic.mask })@ == mask_of(kind, idx as int) && 44
                <= magic.shift < 64 && collision_free(kind, idx as int, magic),
            r matches Some(m) ==> m.serves(kind, idx as int) && m.result() == magic,
    {
        match calculate_attacks(kind, idx, magic) {
            Some(moves) => Some(
                Magic {
                    multiplier: magic.magic,
                    shift: magic.shift as u64,
                    mask: Bitboard::from_bits(magic.mask),
                    moves,
                },
            ),
            None => None,
        }
    }

    /// The rook's table for square `idx` under `magic`, where there is one.
    pub fn rook(idx: u8, magic: MagicResult) -> (r: Option<Magic>)
        requires
            idx < 64,
        ensures
            r.is_some() <==> (Bitboard { data: magic.mask })@ == rook_mask(idx as int) && 44
                <= magic.shift < 64 && collision_free(TableKind::Rook, idx as int, magic),
            r matches Some(m) ==> m.serves(TableKind::Rook, idx as int) && m.result() == magic,
    {
        Magic::new(TableKind::Rook, idx, magic)
    }

    /// The bishop's table for square `idx` under `magic`, where there is
    /// one.
    pub fn bishop(idx: u8, magic: MagicResult) -> (r: Option<Magic>)
        requires
            idx < 64,
        ensures
            r.is_some() <==> (Bitboard { data: magic.mask })@ == bishop_mask(idx as int) && 44
                <= magic.shift < 64 && collision_free(TableKind::Bishop, idx as int, magic),
            r matches Some(m) ==> m.serves(TableKind::Bishop, idx as int) && m.result() == magic,
    {
        Magic::new(TableKind::Bishop, idx, magic)
    }

    /// What the table answers for the blockers of `world`, looked up in one
    /// step. The rook's table for a square answers with the rook's attacks
    /// from that square, the bishop's with the bishop's, the queen's with
    /// the queen's: along each ray up to and including the first occupied
    /// square, whatever stands there.
    pub fn lookup(&self, world: Bitboard) -> (r: Bitboard)
        requires
            self.sized(),
        ensures
            r == self.moves@[magic_index(
                world.data,
                self.mask.data,
                self.multiplier,
                self.shift,
            ) as int],
            forall|kind: TableKind, sq: int|
                self.serves(kind, sq) ==> r@ == answer_of(kind, sq, world@),
    {
        let i = index_for(world.data, self.mask.data, self.multiplier, self.shift as u8);
        let r = self.moves[i];
        proof {
            let s = world.data & self.mask.data;
            let part = Bitboard { data: s };
            assert(is_subset(s, self.mask.data) && s & self.mask.data == s) by {
                let w = world.data;
                let m = self.mask.data;
                assert((w & m) & !m == 0 && (w & m) & m == w & m) by (bit_vector);
            }
            assert(part@ =~= world@.intersect(self.mask@)) by {
                broadcast use group_bit_ops;
            }
            let mine = self.result();
            assert(mine.shift as u64 == self.shift);
            assert(magic_index(s, mine.mask, mine.magic, mine.shift as u64) == i);
            assert forall|kind: TableKind, sq: int| self.serves(kind, sq) implies r@ == answer_of(
                kind,
                sq,
                world@,
            ) by {
                lemma_relevance(kind, sq, world@);
                assert(table_fits(self.moves@, kind, sq, mine));
                assert(held_at(self.moves@, i as u64) == entry_of(kind, sq, s));
            }
        }
        r
    }
}

/// The queen's attacks among the blockers of `world`: what the rook's table
/// and the bishop's table of her square answer, together.
pub fn queen_lookup(rook: &Magic, bishop: &Magic, world: Bitboard) -> (r: Bitboard)
    requires
        rook.sized(),
        bishop.sized(),
    ensures
        forall|sq: int|
            rook.serves(TableKind::Rook, sq) && bishop.serves(TableKind::Bishop, sq) ==> r@
                == queen_attacks(sq, world@),
{
    let atkb = bishop.lookup(world);
    let atkr = rook.lookup(world);
    atkb.combine_with(atkr)
}

} // verus!
