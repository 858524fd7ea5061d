//! A keyed hash of positions that can be kept up to date move by move.

use vstd::prelude::*;
use crate::piece::{PieceKind, Team};
use crate::position::Position;

verus! {

/// The generator `rand::rngs::StdRng`, of which nothing is seen: it is
/// only handed on to `next_random`.
#[verifier::external_type_specification]
#[verifier::external_body]
pub struct ExStdRng(rand::rngs::StdRng);

/// Draws the next 64 bits from `rng` by `rand::Rng::gen`. Nothing is claimed
/// of the bits drawn.
#[verifier::external_body]
pub(crate) fn next_random(rng: &mut rand::rngs::StdRng) -> (bits: u64) {
    rand::Rng::gen::<u64>(rng)
}

/// One key of the hash.
#[derive(Clone, Copy, Debug, Default)]
pub struct ZKey(u64);

impl ZKey {
    /// The key's bits.
    pub closed spec fn view(self) -> u64 {
        self.0
    }

    /// A key drawn from `rng`.
    pub fn generate(rng: &mut rand::rngs::StdRng) -> (k: ZKey) {
        ZKey::from_bits(next_random(rng))
    }
}

/// One key for each square.
pub struct ZKeySet([ZKey; 64]);

impl ZKeySet {
    /// The bits of the key of square `sq`.
    pub closed spec fn key(self, sq: int) -> u64 {
        self.0[sq]@
    }

    /// Keys drawn from `rng`, one for each square from A1 to H8.
    pub fn generate(rng: &mut rand::rngs::StdRng) -> (s: ZKeySet) {
        let words = draw_words(rng, 64);
        ZKeySet::from_words(&words, 0)
    }

    /// The key of square `pos`.
    pub fn at_pos(&self, pos: Position) -> (k: ZKey)
        ensures
            k@ == self.key(pos@),
    {
        self.0[pos.integral() as usize]
    }
}

/// The hash of a position: the keys of all that is present in it, folded
/// together with exclusive or.
#[derive(Clone, Copy, Debug, PartialEq, Eq, PartialOrd, Ord, Hash, Default)]
pub struct ZobristHash(pub u64);

impl ZobristHash {
    /// Folds `key` into the hash: in if it was out, out if it was in.
    pub fn update(&mut self, key: ZKey)
        ensures
            final(self).0 == old(self).0 ^ key@,
    {
        self.0 = self.0 ^ key.0;
    }
}

/// The number of keys: twelve sets of 64 for the pieces, one for black to
/// move, eight for the columns of the en passant square and four for the
/// castling rights.
pub const KEY_WORDS: usize = 781;

/// All keys of the hash: one for each kind of piece of each team on each
/// square, one for black to move, one for each castling right, and one for
/// each column of the en passant square.
pub struct ZobKeys {
    pub white_pawn: ZKeySet,
    pub black_pawn: ZKeySet,
    pub white_bishop: ZKeySet,
    pub black_bishop: ZKeySet,
    pub white_rook: ZKeySet,
    pub black_rook: ZKeySet,
    pub white_knight: ZKeySet,
    pub black_knight: ZKeySet,
    pub white_king: ZKeySet,
    pub black_king: ZKeySet,
    pub white_queen: ZKeySet,
    pub black_queen: ZKeySet,
    pub black_to_move: ZKey,
    pub castle_white_ks: ZKey,
    pub castle_white_qs: ZKey,
    pub castle_black_ks: ZKey,
    pub castle_black_qs: ZKey,
    pub enpassant_a: ZKey,
    pub enpassant_b: ZKey,
    pub enpassant_c: ZKey,
    pub enpassant_d: ZKey,
    pub enpassant_e: ZKey,
    pub enpassant_f: ZKey,
    pub enpassant_g: ZKey,
    pub enpassant_h: ZKey,
}

impl ZobKeys {
    /// The keys of the pieces of `team` and `piece`.
    pub open spec fn set_of(self, piece: PieceKind, team: Team) -> ZKeySet {
        match (team, piece) {
            (Team::White, PieceKind::Pawn) => self.white_pawn,
            (Team::White, PieceKind::King) => self.white_king,
            (Team::White, PieceKind::Knight) => self.white_knight,
            (Team::White, PieceKind::Rook) => self.white_rook,
            (Team::White, PieceKind::Bishop) => self.white_bishop,
            (Team::White, PieceKind::Queen) => self.white_queen,
            (Team::Black, PieceKind::Pawn) => self.black_pawn,
            (Team::Black, PieceKind::King) => self.black_king,
            (Team::Black, PieceKind::Knight) => self.black_knight,
            (Team::Black, PieceKind::Rook) => self.black_rook,
            (Team::Black, PieceKind::Bishop) => self.black_bishop,
            (Team::Black, PieceKind::Queen) => self.black_queen,
        }
    }

    /// The bits of the key of a piece of `team` and `piece` on square `sq`.
    pub open spec fn piece_key(self, piece: PieceKind, team: Team, sq: int) -> u64 {
        self.set_of(piece, team).key(sq)
    }

    /// The bits of the key of an en passant square in column `col`, counted
    /// from 0 for column A; nothing for a number that is no column.
    pub open spec fn ep_key(self, col: int) -> u64 {
        if col == 0 {
            self.enpassant_a@
        } else if col == 1 {
            self.enpassant_b@
        } else if col == 2 {
            self.enpassant_c@
        } else if col == 3 {
            self.enpassant_d@
        } else if col == 4 {
            self.enpassant_e@
        } else if col == 5 {
            self.enpassant_f@
        } else if col == 6 {
            self.enpassant_g@
        } else if col == 7 {
            self.enpassant_h@
        } else {
            0
        }
    }

    /// Keys drawn from `rng`: as many draws as there are keys, one after the
    /// other, and each draw the bits of the key that `from_words` makes of
    /// the word in its place. Nothing is said of the bits themselves, which
    /// are whatever the generator gives.
    pub fn generate(rng: &mut rand::rngs::StdRng) -> (keys: ZobKeys) {
        let words = draw_words(rng, KEY_WORDS);
        ZobKeys::from_words(&words)
    }

    /// The place of the keys of `team` and `piece` among the twelve sets of
    /// keys, in the order in which they are made.
    pub open spec fn set_index(piece: PieceKind, team: Team) -> int {
        match (team, piece) {
            (Team::Black, PieceKind::Knight) => 0,
            (Team::Black, PieceKind::Rook) => 1,
            (Team::Black, PieceKind::Queen) => 2,
            (Team::Black, PieceKind::King) => 3,
            (Team::Black, PieceKind::Bishop) => 4,
            (Team::Black, PieceKind::Pawn) => 5,
            (Team::White, PieceKind::Knight) => 6,
            (Team::White, PieceKind::Rook) => 7,
            (Team::White, PieceKind::Queen) => 8,
            (Team::White, PieceKind::King) => 9,
            (Team::White, PieceKind::Bishop) => 10,
            (Team::White, PieceKind::Pawn) => 11,
        }
    }

    /// The keys whose bits are the words of `words`: first the twelve sets
    /// of 64 keys for the pieces, each set in the order of the squares; then
    /// the key for black to move, the eight keys for the columns of the en
    /// passant square from A to H, and the keys for the castling rights of
    /// black kingside, black queenside, white kingside and white queenside.
    pub fn from_words(words: &Vec<u64>) -> (keys: ZobKeys)
        requires
            words.len() == KEY_WORDS,
        ensures
            forall|piece: PieceKind, team: Team, sq: int|
                0 <= sq < 64 ==> #[trigger] keys.piece_key(piece, team, sq) == words@[64
                    * Self::set_index(piece, team) + sq],
            keys.black_to_move@ == words@[768],
            forall|col: int| 0 <= col < 8 ==> #[trigger] keys.ep_key(col) == words@[769 + col],
            keys.castle_black_ks@ == words@[777],
            keys.castle_black_qs@ == words@[778],
            keys.castle_white_ks@ == words@[779],
            keys.castle_white_qs@ == words@[780],
    {
        ZobKeys {
            black_knight: ZKeySet::from_words(words, 0),
            black_rook: ZKeySet::from_words(words, 64),
            black_queen: ZKeySet::from_words(words, 128),
            black_king: ZKeySet::from_words(words, 192),
            black_bishop: ZKeySet::from_words(words, 256),
            black_pawn: ZKeySet::from_words(words, 320),
            white_knight: ZKeySet::from_words(words, 384),
            white_rook: ZKeySet::from_words(words, 448),
            white_queen: ZKeySet::from_words(words, 512),
            white_king: ZKeySet::from_words(words, 576),
            white_bishop: ZKeySet::from_words(words, 640),
            white_pawn: ZKeySet::from_words(words, 704),
            black_to_move: ZKey::from_bits(words[768]),
            enpassant_a: ZKey::from_bits(words[769]),
            enpassant_b: ZKey::from_bits(words[770]),
            enpassant_c: ZKey::from_bits(words[771]),
            enpassant_d: ZKey::from_bits(words[772]),
            enpassant_e: ZKey::from_bits(words[773]),
            enpassant_f: ZKey::from_bits(words[774]),
            enpassant_g: ZKey::from_bits(words[775]),
            enpassant_h: ZKey::from_bits(words[776]),
            castle_black_ks: ZKey::from_bits(words[777]),
            castle_black_qs: ZKey::from_bits(words[778]),
            castle_white_ks: ZKey::from_bits(words[779]),
            castle_white_qs: ZKey::from_bits(words[780]),
        }
    }

    /// The keys of the pieces of `team` and `piece`.
    pub fn piece_keys_for(&self, piece: PieceKind, team: Team) -> (set: &ZKeySet)
        ensures
            *set == self.set_of(piece, team),
    {
        match (team, piece) {
            (Team::White, PieceKind::Pawn) => &self.white_pawn,
            (Team::White, PieceKind::King) => &self.white_king,
            (Team::White, PieceKind::Knight) => &self.white_knight,
            (Team::White, PieceKind::Rook) => &self.white_rook,
            (Team::White, PieceKind::Bishop) => &self.white_bishop,
            (Team::White, PieceKind::Queen) => &self.white_queen,
            (Team::Black, PieceKind::Pawn) => &self.black_pawn,
            (Team::Black, PieceKind::King) => &self.black_king,
            (Team::Black, PieceKind::Knight) => &self.black_knight,
            (Team::Black, PieceKind::Rook) => &self.black_rook,
            (Team::Black, PieceKind::Bishop) => &self.black_bishop,
            (Team::Black, PieceKind::Queen) => &self.black_queen,
        }
    }

    /// The key of an en passant square `pos`: that of its column.
    pub fn enpassant_keys_for(&self, pos: Position) -> (k: ZKey)
        ensures
            k@ == self.ep_key(pos@ % 8),
    {
        let col: u8 = pos.col();
        if col == 0 {
            self.enpassant_a
        } else if col == 1 {
            self.enpassant_b
        } else if col == 2 {
            self.enpassant_c
        } else if col == 3 {
            self.enpassant_d
        } else if col == 4 {
            self.enpassant_e
        } else if col == 5 {
            self.enpassant_f
        } else if col == 6 {
            self.enpassant_g
        } else {
            self.enpassant_h
        }
    }
}

impl ZKey {
    /// The key with the bits `bits`.
    pub fn from_bits(bits: u64) -> (k: ZKey)
        ensures
            k@ == bits,
    {
        ZKey(bits)
    }
}

/// Draws `n` words from `rng`, one after the other.
fn draw_words(rng: &mut rand::rngs::StdRng, n: usize) -> (words: Vec<u64>)
    ensures
        words.len() == n,
{
    let mut words: Vec<u64> = Vec::new();
    let mut i: usize = 0;
    while i < n
        invariant
            i <= n,
            words.len() == i,
        decreases n - i,
    {
        words.push(next_random(rng));
        i = i + 1;
    }
    words
}

impl ZKeySet {
    /// The keys whose bits are the 64 words of `words` from place `start`
    /// on, one for each square in the order of their numbers.
    pub fn from_words(words: &Vec<u64>, start: usize) -> (s: ZKeySet)
        requires
            start + 64 <= words.len(),
        ensures
            forall|sq: int| 0 <= sq < 64 ==> #[trigger] s.key(sq) == words@[start + sq],
    {
        let mut keys: [ZKey; 64] = [ZKey(0); 64];
        let mut i: usize = 0;
        while i < 64
            invariant
                i <= 64,
                start + 64 <= words.len(),
                forall|j: int| 0 <= j < i ==> (#[trigger] keys[j])@ == words@[start + j],
            decreases 64 - i,
        {
            keys[i] = ZKey::from_bits(words[start + i]);
            i = i + 1;
        }
        ZKeySet(keys)
    }
}

} // verus!
