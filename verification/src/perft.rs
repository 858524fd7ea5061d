//! Counting the tree of moves below a position.

use vstd::prelude::*;
use crate::game::{Game, GameMove, GameState, MoveGenerationError};
use crate::hashing::hash_of;
use crate::laws::lemma_moves_legal;
use crate::zobrist::{ZobKeys, ZobristHash};

verus! {

/// What a cache of counts is keyed by: a position's hash and the depth that
/// was counted below it.
#[derive(Debug, Clone, Copy, PartialEq, Eq, PartialOrd, Ord, Hash)]
pub struct PerftKey {
    pub depth: u32,
    pub hash: ZobristHash,
}

/// What is counted at the leaves of the tree. Each count wraps around at
/// 2^64.
#[derive(Clone, Copy, Debug, PartialEq, Eq, Structural)]
pub struct PerftResults {
    pub nodes: u64,
    pub captures: u64,
    pub enpassant: u64,
    pub castles: u64,
    pub kingside_castles: u64,
    pub queenside_castles: u64,
    pub promotions: u64,
    pub regulars: u64,
    pub checkmates: u64,
    pub stalemates: u64,
}

/// The sum of `a` and `b`, wrapped around at 2^64.
pub open spec fn wrapping_sum(a: u64, b: u64) -> u64 {
    vstd::wrapping::u64_specs::wrapping_add(a, b)
}

impl PerftResults {
    /// All counts at 0.
    pub open spec fn zero() -> PerftResults {
        PerftResults {
            nodes: 0,
            captures: 0,
            enpassant: 0,
            castles: 0,
            kingside_castles: 0,
            queenside_castles: 0,
            promotions: 0,
            regulars: 0,
            checkmates: 0,
            stalemates: 0,
        }
    }

    /// The counts added one by one.
    pub open spec fn plus(self, rhs: PerftResults) -> PerftResults {
        PerftResults {
            nodes: wrapping_sum(self.nodes, rhs.nodes),
            captures: wrapping_sum(self.captures, rhs.captures),
            enpassant: wrapping_sum(self.enpassant, rhs.enpassant),
            castles: wrapping_sum(self.castles, rhs.castles),
            kingside_castles: wrapping_sum(self.kingside_castles, rhs.kingside_castles),
            queenside_castles: wrapping_sum(self.queenside_castles, rhs.queenside_castles),
            promotions: wrapping_sum(self.promotions, rhs.promotions),
            regulars: wrapping_sum(self.regulars, rhs.regulars),
            checkmates: wrapping_sum(self.checkmates, rhs.checkmates),
            stalemates: wrapping_sum(self.stalemates, rhs.stalemates),
        }
    }

    /// The sum of the first `n` of `items`.
    pub open spec fn sum_of(items: Seq<PerftResults>) -> PerftResults
        decreases items.len(),
    {
        if items.len() == 0 {
            PerftResults::zero()
        } else {
            PerftResults::sum_of(items.drop_last()).plus(items.last())
        }
    }

    /// The counts added one by one.
    pub fn add(self, rhs: PerftResults) -> (r: PerftResults)
        ensures
            r == self.plus(rhs),
    {
        PerftResults {
            captures: self.captures.wrapping_add(rhs.captures),
            castles: self.castles.wrapping_add(rhs.castles),
            nodes: self.nodes.wrapping_add(rhs.nodes),
            enpassant: self.enpassant.wrapping_add(rhs.enpassant),
            promotions: self.promotions.wrapping_add(rhs.promotions),
            kingside_castles: self.kingside_castles.wrapping_add(rhs.kingside_castles),
            queenside_castles: self.queenside_castles.wrapping_add(rhs.queenside_castles),
            regulars: self.regulars.wrapping_add(rhs.regulars),
            checkmates: self.checkmates.wrapping_add(rhs.checkmates),
            stalemates: self.stalemates.wrapping_add(rhs.stalemates),
        }
    }

    /// The sum of `items`; all counts at 0 where there are none.
    pub fn sum(items: &Vec<PerftResults>) -> (r: PerftResults)
        ensures
            r == PerftResults::sum_of(items@),
    {
        let mut total = PerftResults::default();
        let mut i: usize = 0;
        proof {
            assert(items@.take(0) =~= Seq::<PerftResults>::empty());
        }
        while i < items.len()
            invariant
                i <= items.len(),
                total == PerftResults::sum_of(items@.take(i as int)),
            decreases items.len() - i,
        {
            proof {
                assert(items@.take(i + 1).drop_last() =~= items@.take(i as int));
            }
            total = total.add(items[i]);
            i = i + 1;
        }
        proof {
            assert(items@.take(i as int) =~= items@);
        }
        total
    }
}

impl Default for PerftResults {
    /// All counts at 0.
    fn default() -> (r: PerftResults)
        ensures
            r == PerftResults::zero(),
    {
        PerftResults {
            nodes: 0,
            captures: 0,
            enpassant: 0,
            castles: 0,
            kingside_castles: 0,
            queenside_castles: 0,
            promotions: 0,
            regulars: 0,
            checkmates: 0,
            stalemates: 0,
        }
    }
}

/// What one move counts for at a leaf: one node, and one in each category
/// that it belongs to. En passant is a capture; castling on either side is
/// a castle; a capturing promotion is both a capture and a promotion.
pub open spec fn leaf_of(m: GameMove) -> PerftResults {
    let z = PerftResults::zero();
    match m {
        GameMove::Capture(_) => PerftResults { nodes: 1, captures: 1, ..z },
        GameMove::CastleKingside(_) => PerftResults {
            nodes: 1,
            castles: 1,
            kingside_castles: 1,
            ..z
        },
        GameMove::CastleQueenside(_) => PerftResults {
            nodes: 1,
            castles: 1,
            queenside_castles: 1,
            ..z
        },
        GameMove::Enpassant(_) => PerftResults { nodes: 1, captures: 1, enpassant: 1, ..z },
        GameMove::CapturePromote { .. } => PerftResults {
            nodes: 1,
            captures: 1,
            promotions: 1,
            ..z
        },
        GameMove::Promote { .. } => PerftResults { nodes: 1, promotions: 1, ..z },
        GameMove::Regular(_) => PerftResults { nodes: 1, regulars: 1, ..z },
    }
}

/// What the moves of `moves` count for as leaves.
pub open spec fn leaves_of(moves: Seq<GameMove>) -> PerftResults
    decreases moves.len(),
{
    if moves.len() == 0 {
        PerftResults::zero()
    } else {
        leaves_of(moves.drop_last()).plus(leaf_of(moves.last()))
    }
}

/// What a position in which the game is over counts for: one node, and a
/// stalemate or a checkmate.
pub open spec fn finished(state: GameState) -> PerftResults {
    if state == GameState::Stalemate {
        PerftResults { nodes: 1, stalemates: 1, ..PerftResults::zero() }
    } else {
        PerftResults { nodes: 1, checkmates: 1, ..PerftResults::zero() }
    }
}

/// The counts of the tree of depth `depth` below position `g`.
///
/// Depth 0 counts nothing. A position in which the game is over counts as
/// one node of its kind. A position without moves counts as a stalemate and
/// no node. At depth 1 each move counts as a leaf of its category. Deeper,
/// the counts are the sum over the moves of the counts one level less deep
/// below the position that the move leads to.
pub open spec fn perft_spec(g: Game, depth: nat) -> PerftResults
    decreases depth, 0nat,
{
    if depth == 0 {
        PerftResults::zero()
    } else if g.active_team().is_none() {
        finished(g.state)
    } else if g.moves().len() == 0 {
        PerftResults { stalemates: 1, ..PerftResults::zero() }
    } else if depth == 1 {
        leaves_of(g.moves())
    } else {
        perft_over(g, g.moves(), (depth - 1) as nat)
    }
}

/// The sum over `moves` of the counts of depth `depth` below the positions
/// that they lead to from `g`.
pub open spec fn perft_over(g: Game, moves: Seq<GameMove>, depth: nat) -> PerftResults
    decreases depth, moves.len() + 1,
{
    if moves.len() == 0 {
        PerftResults::zero()
    } else {
        perft_over(g, moves.drop_last(), depth).plus(perft_spec(g.after(moves.last()), depth))
    }
}

/// What `moves` count for as leaves.
pub fn count_leaves(moves: &Vec<GameMove>) -> (r: PerftResults)
    ensures
        r == leaves_of(moves@),
{
    let mut total = PerftResults::default();
    let mut i: usize = 0;
    proof {
        assert(moves@.take(0) =~= Seq::<GameMove>::empty());
    }
    while i < moves.len()
        invariant
            i <= moves.len(),
            total == leaves_of(moves@.take(i as int)),
        decreases moves.len() - i,
    {
        proof {
            assert(moves@.take(i + 1).drop_last() =~= moves@.take(i as int));
        }
        let mut leaf = PerftResults::default();
        leaf.nodes = 1;
        match moves[i] {
            GameMove::Capture(_) => {
                leaf.captures = 1;
            },
            GameMove::CastleKingside(_) => {
                leaf.castles = 1;
                leaf.kingside_castles = 1;
            },
            GameMove::CastleQueenside(_) => {
                leaf.castles = 1;
                leaf.queenside_castles = 1;
            },
            GameMove::Enpassant(_) => {
                leaf.captures = 1;
                leaf.enpassant = 1;
            },
            GameMove::CapturePromote { .. } => {
                leaf.captures = 1;
                leaf.promotions = 1;
            },
            GameMove::Promote { .. } => {
                leaf.promotions = 1;
            },
            GameMove::Regular(_) => {
                leaf.regulars = 1;
            },
        }
        total = total.add(leaf);
        i = i + 1;
    }
    proof {
        assert(moves@.take(i as int) =~= moves@);
    }
    total
}

/// The counts of the tree of depth `depth` below `game`.
pub fn _perft(game: &Game, depth: u32) -> (r: PerftResults)
    requires
        game.wf(),
    ensures
        r == perft_spec(*game, depth as nat),
    decreases depth,
{
    if depth == 0 {
        return PerftResults::default();
    }
    let mut mb: Vec<GameMove> = Vec::new();
    match game.get_all_moves(&mut mb) {
        Ok(_) => {
            proof {
                assert(mb@ =~= game.moves());
            }
            if mb.len() == 0 {
                let mut r = PerftResults::default();
                r.stalemates = 1;
                return r;
            }
            if depth == 1 {
                return count_leaves(&mb);
            }
            let mut total = PerftResults::default();
            let mut i: usize = 0;
            proof {
                lemma_moves_legal(*game);
                assert(mb@.take(0) =~= Seq::<GameMove>::empty());
            }
            while i < mb.len()
                invariant
                    game.wf(),
                    depth > 1,
                    i <= mb.len(),
                    mb@ == game.moves(),
                    forall|j: int| 0 <= j < mb@.len() ==> game.legal(#[trigger] mb@[j]),
                    total == perft_over(*game, mb@.take(i as int), (depth - 1) as nat),
                decreases mb.len() - i,
            {
                proof {
                    assert(mb@.take(i + 1).drop_last() =~= mb@.take(i as int));
                    assert(game.legal(mb@[i as int]));
                }
                let mut cl = *game;
                cl.make_move(mb[i]);
                let v = _perft(&cl, depth - 1);
                total = total.add(v);
                i = i + 1;
            }
            proof {
                assert(mb@.take(i as int) =~= mb@);
            }
            total
        },
        Err(e) => {
            let mut r = PerftResults::default();
            r.nodes = 1;
            match e {
                MoveGenerationError::GameFinished(GameState::Stalemate) => {
                    r.stalemates = 1;
                },
                MoveGenerationError::GameFinished(_) => {
                    r.checkmates = 1;
                },
            }
            r
        },
    }
}

/// The counts of the tree of depth `limit` below `game`.
pub fn perft(game: Game, limit: u32) -> (r: PerftResults)
    requires
        game.wf(),
    ensures
        r == perft_spec(game, limit as nat),
{
    _perft(&game, limit)
}

/// The map `dashmap::DashMap`, of which nothing is seen but through the
/// functions below.
#[verifier::external_type_specification]
#[verifier::external_body]
#[verifier::reject_recursive_types(K)]
#[verifier::reject_recursive_types(V)]
#[verifier::reject_recursive_types(S)]
pub struct ExDashMap<K, V, S>(dashmap::DashMap<K, V, S>);

/// A depth and a hash.
pub type DepthHash = (u32, u64);

/// What a map from depth and hash to counts holds.
pub uninterp spec fn cache_entries(map: dashmap::DashMap<DepthHash, PerftResults>) -> Map<
    DepthHash,
    PerftResults,
>;

/// An empty map, made by `DashMap::new`.
#[verifier::external_body]
fn map_new() -> (made: dashmap::DashMap<DepthHash, PerftResults>)
    ensures
        cache_entries(made).dom() == Set::<DepthHash>::empty(),
{
    dashmap::DashMap::new()
}

/// What the map holds under a key, read by `DashMap::get`: the value that
/// was last inserted under it, or nothing. The map is held exclusively, so
/// that no one else writes to it meanwhile, and it is left as it was.
#[verifier::external_body]
fn map_get(map: &mut dashmap::DashMap<DepthHash, PerftResults>, depth: u32, hash: u64) -> (r:
    Option<PerftResults>)
    ensures
        cache_entries(*final(map)) == cache_entries(*old(map)),
        r == if cache_entries(*old(map)).contains_key((depth, hash)) {
            Some(cache_entries(*old(map))[(depth, hash)])
        } else {
            None
        },
{
    match map.get(&(depth, hash)) {
        Some(found) => Some(*found),
        None => None,
    }
}

/// Puts a value under a key by `DashMap::insert`, in place of what was
/// there; the other entries stay.
#[verifier::external_body]
fn map_insert(
    map: &mut dashmap::DashMap<DepthHash, PerftResults>,
    depth: u32,
    hash: u64,
    value: PerftResults,
)
    ensures
        cache_entries(*final(map)) == cache_entries(*old(map)).insert((depth, hash), value),
{
    map.insert((depth, hash), value);
}

/// Counts that have been made, kept under the hash of the position and the
/// depth of the count.
pub struct PerftCache {
    map: dashmap::DashMap<DepthHash, PerftResults>,
}

impl PerftCache {
    /// What the cache holds.
    pub closed spec fn view(self) -> Map<DepthHash, PerftResults> {
        cache_entries(self.map)
    }

    /// An empty cache.
    pub fn new() -> (cache: PerftCache)
        ensures
            cache@ == Map::<DepthHash, PerftResults>::empty(),
    {
        PerftCache { map: map_new() }
    }

    /// The counts kept under `key`, if there are any.
    pub fn get(&mut self, key: PerftKey) -> (r: Option<PerftResults>)
        ensures
            final(self)@ == old(self)@,
            r == if old(self)@.contains_key((key.depth, key.hash.0)) {
                Some(old(self)@[(key.depth, key.hash.0)])
            } else {
                None
            },
    {
        map_get(&mut self.map, key.depth, key.hash.0)
    }

    /// Keeps `value` under `key`.
    pub fn insert(&mut self, key: PerftKey, value: PerftResults)
        ensures
            final(self)@ == old(self)@.insert((key.depth, key.hash.0), value),
    {
        map_insert(&mut self.map, key.depth, key.hash.0, value);
    }
}

/// The count of depth `depth` below `g` cannot run into the end of the
/// halfmove clock, which the hash does not hold.
pub open spec fn cacheable(g: Game, depth: u32) -> bool {
    g.wf() && g.active_team().is_some() && g.halfmove_num + depth < 100
}

/// Every count in the cache is the count below every position that has its
/// hash.
pub open spec fn cache_sound(entries: Map<DepthHash, PerftResults>, keys: ZobKeys) -> bool {
    forall|d: u32, g: Game|
        cacheable(g, d) && #[trigger] entries.contains_key((d, hash_of(keys, g))) ==> entries[(
            d,
            hash_of(keys, g),
        )] == perft_spec(g, d as nat)
}

/// Positions that the hash under `keys` does not tell apart have the same
/// counts.
pub open spec fn hash_faithful(keys: ZobKeys) -> bool {
    forall|a: Game, b: Game, d: u32|
        cacheable(a, d) && cacheable(b, d) && hash_of(keys, a) == hash_of(keys, b)
            ==> #[trigger] perft_spec(a, d as nat) == #[trigger] perft_spec(b, d as nat)
}

/// The counts of the tree of depth `depth` below `game`, with the counts
/// below each position kept in `cache` and taken from it where they are
/// there. `hash` is the hash of `game`.
///
/// A hash may stand for more than one position. Where the hash under
/// `zkeys` tells apart all positions whose counts differ, and the cache
/// holds only true counts, the result is the true count and the cache
/// still holds only true counts.
pub fn perft_cached(
    game: &Game,
    depth: u32,
    hash: ZobristHash,
    zkeys: &ZobKeys,
    cache: &mut PerftCache,
) -> (r: PerftResults)
    requires
        game.wf(),
        game.active_team().is_some() ==> hash.0 == hash_of(*zkeys, *game),
    ensures
        hash_faithful(*zkeys) && cache_sound(old(cache)@, *zkeys) ==> r == perft_spec(
            *game,
            depth as nat,
        ) && cache_sound(final(cache)@, *zkeys),
    decreases depth,
{
    let ghost trusted = hash_faithful(*zkeys) && cache_sound(old(cache)@, *zkeys);
    if depth <= 1 || game.get_active_team().is_none() || game.halfmove_num + (depth as u64)
        >= 100 {
        return _perft(game, depth);
    }
    let key = PerftKey { depth, hash };
    match cache.get(key) {
        Some(found) => {
            return found;
        },
        None => {},
    }
    let mut mb: Vec<GameMove> = Vec::new();
    let listed = game.get_all_moves(&mut mb).is_ok();
    proof {
        assert(mb@ =~= game.moves());
    }
    if mb.len() == 0 {
        return _perft(game, depth);
    }
    let mut total = PerftResults::default();
    let mut i: usize = 0;
    proof {
        lemma_moves_legal(*game);
        assert(mb@.take(0) =~= Seq::<GameMove>::empty());
    }
    while i < mb.len()
        invariant
            game.wf(),
            game.active_team().is_some(),
            hash.0 == hash_of(*zkeys, *game),
            depth > 1,
            i <= mb.len(),
            mb@ == game.moves(),
            forall|j: int| 0 <= j < mb@.len() ==> game.legal(#[trigger] mb@[j]),
            trusted ==> hash_faithful(*zkeys) && cache_sound(cache@, *zkeys) && total
                == perft_over(*game, mb@.take(i as int), (depth - 1) as nat),
        decreases mb.len() - i,
    {
        proof {
            assert(mb@.take(i + 1).drop_last() =~= mb@.take(i as int));
            assert(game.legal(mb@[i as int]));
        }
        let mut cl = *game;
        let mut child_hash = hash;
        cl.make_move_hashed(mb[i], &mut child_hash, zkeys);
        let v = perft_cached(&cl, depth - 1, child_hash, zkeys, cache);
        total = total.add(v);
        i = i + 1;
    }
    proof {
        assert(mb@.take(i as int) =~= mb@);
    }
    let ghost before = cache@;
    cache.insert(key, total);
    proof {
        if trusted {
            assert(total == perft_spec(*game, depth as nat));
            assert(cacheable(*game, depth));
            assert forall|d: u32, g: Game|
                cacheable(g, d) && #[trigger] cache@.contains_key(
                    (d, hash_of(*zkeys, g)),
                ) implies cache@[(d, hash_of(*zkeys, g))] == perft_spec(g, d as nat) by {
                if d == depth && hash_of(*zkeys, g) == hash.0 {
                    assert(perft_spec(g, d as nat) == perft_spec(*game, d as nat));
                } else {
                    assert(before.contains_key((d, hash_of(*zkeys, g))));
                }
            }
        }
    }
    total
}

} // verus!
