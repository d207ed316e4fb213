use vstd::prelude::*;

use crate::board::moves::{lemma_made_can_unmake, lemma_single_king_kept, lemma_single_king_of_board, lemma_unmake_undoes_make, move_fits};
use crate::board::piece::Piece;
use crate::board::Board;
use crate::generation::mov::Move;
use crate::generation::listing::moves_listed;
use crate::generation::new_gen::{generated_ok, NewMoveGenerator};
use crate::bits::popcount;
use crate::hashtable::perft::{PerftEntry, PerftStatsEntry};
use crate::hashtable::{lookup, stored, HashTable};
use crate::board::zobrist::ZobristHash;

verus! {

/// Counts gathered by a statistics perft: leaf nodes, and among the moves leading to them the
/// captures, en passant captures, castles and promotions.
#[derive(Debug, Default, Clone, Copy, PartialEq, Eq, Structural)]
pub struct PerftStats {
    pub nodes: u64,
    pub captures: u64,
    pub en_passants: u64,
    pub castles: u64,
    pub promotions: u64,
}

impl PerftStats {
    /// All counts at zero.
    pub fn zero() -> (r: Self)
        ensures
            r == (PerftStats { nodes: 0, captures: 0, en_passants: 0, castles: 0, promotions: 0 }),
    {
        PerftStats { nodes: 0, captures: 0, en_passants: 0, castles: 0, promotions: 0 }
    }

    /// Adds `other`'s counts to these, each wrapping at the top of its range.
    pub fn add_assign(&mut self, other: Self)
        ensures
            final(self).nodes == old(self).nodes.wrapping_add(other.nodes),
            final(self).captures == old(self).captures.wrapping_add(other.captures),
            final(self).en_passants == old(self).en_passants.wrapping_add(other.en_passants),
            final(self).castles == old(self).castles.wrapping_add(other.castles),
            final(self).promotions == old(self).promotions.wrapping_add(other.promotions),
    {
        self.nodes = self.nodes.wrapping_add(other.nodes);
        self.captures = self.captures.wrapping_add(other.captures);
        self.en_passants = self.en_passants.wrapping_add(other.en_passants);
        self.castles = self.castles.wrapping_add(other.castles);
        self.promotions = self.promotions.wrapping_add(other.promotions);
    }
}

/// How many of the moves `ms` satisfy `f`.
pub open spec fn count_moves(ms: Seq<Move>, f: spec_fn(Move) -> bool) -> nat
    decreases ms.len(),
{
    if ms.len() == 0 {
        0
    } else {
        count_moves(ms.drop_last(), f) + if f(ms.last()) {
            1nat
        } else {
            0nat
        }
    }
}

/// No more moves satisfy `f` than there are moves.
proof fn lemma_count_bound(ms: Seq<Move>, f: spec_fn(Move) -> bool)
    ensures
        count_moves(ms, f) <= ms.len(),
    decreases ms.len(),
{
    if ms.len() > 0 {
        lemma_count_bound(ms.drop_last(), f);
    }
}

/// The statistics of one ply over the moves `ms`: one node per move, the captures, and the
/// castles, the en passant captures and the promotions (a castling counted only as such, an en
/// passant capture never as a promotion).
pub open spec fn ply_stats(ms: Seq<Move>, s: PerftStats) -> bool {
    &&& s.nodes == ms.len()
    &&& s.captures == count_moves(ms, |m: Move| m.spec_is_capture())
    &&& s.castles == count_moves(ms, |m: Move| m.spec_is_castling())
    &&& s.en_passants == count_moves(ms, |m: Move| !m.spec_is_castling() && m.spec_is_en_passant())
    &&& s.promotions == count_moves(ms, |m: Move| !m.spec_is_castling() && !m.spec_is_en_passant() && m.spec_is_promotion())
}

/// Moves that satisfy `f` and `g` agree on `ms` are counted alike.
proof fn lemma_count_same(ms: Seq<Move>, f: spec_fn(Move) -> bool, g: spec_fn(Move) -> bool)
    requires
        forall|k: int| 0 <= k < ms.len() ==> f(#[trigger] ms[k]) == g(ms[k]),
    ensures
        count_moves(ms, f) == count_moves(ms, g),
    decreases ms.len(),
{
    if ms.len() > 0 {
        assert(f(ms[ms.len() - 1]) == g(ms[ms.len() - 1]));
        lemma_count_same(ms.drop_last(), f, g);
    }
}

/// The moves of `ms` that satisfy `f` are those that also satisfy `g` and those that do not.
proof fn lemma_count_split(ms: Seq<Move>, f: spec_fn(Move) -> bool, g: spec_fn(Move) -> bool)
    ensures
        count_moves(ms, f) == count_moves(ms, |m: Move| f(m) && g(m)) + count_moves(ms, |m: Move| f(m) && !g(m)),
    decreases ms.len(),
{
    if ms.len() > 0 {
        lemma_count_split(ms.drop_last(), f, g);
    }
}

/// Law: the promotions of one ply over moves `ms` the generator may hand out for `board` are
/// all the moves that promote, those that capture as well as those that do not.
pub proof fn lemma_ply_promotions(board: Board, ms: Seq<Move>, s: PerftStats)
    requires
        forall|k: int| 0 <= k < ms.len() ==> generated_ok(board, #[trigger] ms[k]),
        ply_stats(ms, s),
    ensures
        s.promotions == count_moves(ms, |m: Move| m.spec_is_promotion()),
        s.promotions == count_moves(ms, |m: Move| m.spec_is_promotion() && m.spec_is_capture()) + count_moves(
            ms,
            |m: Move| m.spec_is_promotion() && !m.spec_is_capture(),
        ),
{
    let f = |m: Move| !m.spec_is_castling() && !m.spec_is_en_passant() && m.spec_is_promotion();
    let p = |m: Move| m.spec_is_promotion();
    let c = |m: Move| m.spec_is_capture();
    assert forall|k: int| 0 <= k < ms.len() implies f(#[trigger] ms[k]) == p(ms[k]) by {
        assert(generated_ok(board, ms[k]));
    }
    lemma_count_same(ms, f, p);
    lemma_count_split(ms, p, c);
    assert(count_moves(ms, |m: Move| p(m) && c(m)) == count_moves(ms, |m: Move| m.spec_is_promotion() && m.spec_is_capture())) by {
        lemma_count_same(ms, |m: Move| p(m) && c(m), |m: Move| m.spec_is_promotion() && m.spec_is_capture());
    }
    assert(count_moves(ms, |m: Move| p(m) && !c(m)) == count_moves(ms, |m: Move| m.spec_is_promotion() && !m.spec_is_capture())) by {
        lemma_count_same(ms, |m: Move| p(m) && !c(m), |m: Move| m.spec_is_promotion() && !m.spec_is_capture());
    }
}

/// Law: over moves `ms` the generator may hand out for `board`, one ply counts a node for each
/// move, every en passant capture among the captures and among the en passant captures, and
/// every castling among the castles; no move is both a castling and a capture.
pub proof fn lemma_ply_counts(board: Board, ms: Seq<Move>, s: PerftStats)
    requires
        forall|k: int| 0 <= k < ms.len() ==> generated_ok(board, #[trigger] ms[k]),
        ply_stats(ms, s),
    ensures
        s.nodes == ms.len(),
        s.en_passants == count_moves(ms, |m: Move| m.spec_is_en_passant()),
        s.castles == count_moves(ms, |m: Move| m.spec_is_castling()),
        s.captures == count_moves(ms, |m: Move| m.spec_is_capture() && !m.spec_is_en_passant()) + s.en_passants,
        s.captures + s.castles <= s.nodes,
{
    let ep = |m: Move| m.spec_is_en_passant();
    let cap = |m: Move| m.spec_is_capture();
    let cas = |m: Move| m.spec_is_castling();
    assert forall|k: int| 0 <= k < ms.len() implies (|m: Move| !m.spec_is_castling() && m.spec_is_en_passant())(
        #[trigger] ms[k],
    ) == ep(ms[k]) by {
        assert(generated_ok(board, ms[k]));
    }
    lemma_count_same(ms, |m: Move| !m.spec_is_castling() && m.spec_is_en_passant(), ep);
    lemma_count_split(ms, cap, ep);
    assert(count_moves(ms, |m: Move| cap(m) && ep(m)) == count_moves(ms, ep)) by {
        lemma_count_same(ms, |m: Move| cap(m) && ep(m), ep);
    }
    assert(count_moves(ms, |m: Move| cap(m) && !ep(m)) == count_moves(ms, |m: Move| m.spec_is_capture() && !m.spec_is_en_passant())) by {
        lemma_count_same(ms, |m: Move| cap(m) && !ep(m), |m: Move| m.spec_is_capture() && !m.spec_is_en_passant());
    }
    let either = |m: Move| m.spec_is_capture() || m.spec_is_castling();
    lemma_count_split(ms, either, cap);
    assert forall|k: int| 0 <= k < ms.len() implies (|m: Move| either(m) && cap(m))(#[trigger] ms[k]) == cap(ms[k])
        && (|m: Move| either(m) && !cap(m))(ms[k]) == cas(ms[k]) by {
        assert(generated_ok(board, ms[k]));
    }
    lemma_count_same(ms, |m: Move| either(m) && cap(m), cap);
    lemma_count_same(ms, |m: Move| either(m) && !cap(m), cas);
    lemma_count_bound(ms, either);
}

/// The depth a perft may run to from `board`: the hasher has a key for it and the move
/// counters have room for that many more moves.
pub open spec fn perft_room(board: Board, depth: u8) -> bool {
    &&& depth < 32
    &&& board.gamestate.halfmoves + depth <= 65535
    &&& board.gamestate.fullmoves + depth <= 65535
}

/// `ms` is a list of moves the generator may give for `board`: each move may be handed out,
/// every move the rules allow is there, and none comes twice.
pub open spec fn listing(board: Board, ms: Seq<Move>) -> bool {
    &&& moves_listed(board, ms)
    &&& ms.no_duplicates()
    &&& forall|k: int| 0 <= k < ms.len() ==> generated_ok(board, #[trigger] ms[k])
}

/// The sum of `counts`, wrapping at the top of the range.
pub open spec fn sum_counts(counts: Seq<u64>) -> u64
    decreases counts.len(),
{
    if counts.len() == 0 {
        0
    } else {
        sum_counts(counts.drop_last()).wrapping_add(counts.last())
    }
}

/// `n` is the number of leaf nodes `depth` plies below `board`: one at depth zero; none when
/// the side to move has no king or several; at depth one the number of moves the generator
/// lists; deeper, the sum over the listed moves `ms` of the counts `counts` below the positions
/// `kids` the moves lead to.
pub open spec fn perft_count(board: Board, depth: nat, n: u64) -> bool
    decreases depth,
{
    if depth == 0 {
        n == 1
    } else if popcount(board.piece_board(board.gamestate.active, Piece::King).0) != 1 {
        n == 0
    } else if depth == 1 {
        exists|ms: Seq<Move>| #[trigger] listing(board, ms) && n == ms.len()
    } else {
        exists|ms: Seq<Move>, counts: Seq<u64>, kids: Seq<Board>|
            #![trigger listing(board, ms), sum_counts(counts), kids.len()]
            {
                &&& listing(board, ms)
                &&& counts.len() == ms.len()
                &&& kids.len() == ms.len()
                &&& n == sum_counts(counts)
                &&& forall|k: int|
                    #![trigger kids[k]]
                    0 <= k < ms.len() ==> kids[k].made_from(board, ms[k]) && perft_count(
                        kids[k],
                        (depth - 1) as nat,
                        counts[k],
                    )
            }
    }
}

/// The field-wise sum of `parts`, each count wrapping at the top of its range.
pub open spec fn sum_stats(parts: Seq<PerftStats>) -> PerftStats
    decreases parts.len(),
{
    if parts.len() == 0 {
        PerftStats { nodes: 0, captures: 0, en_passants: 0, castles: 0, promotions: 0 }
    } else {
        let a = sum_stats(parts.drop_last());
        let b = parts.last();
        PerftStats {
            nodes: a.nodes.wrapping_add(b.nodes),
            captures: a.captures.wrapping_add(b.captures),
            en_passants: a.en_passants.wrapping_add(b.en_passants),
            castles: a.castles.wrapping_add(b.castles),
            promotions: a.promotions.wrapping_add(b.promotions),
        }
    }
}

/// `r` holds the statistics `depth` plies below `board`: one node at depth zero; nothing when
/// the side to move has no king or several; at depth one the statistics of the moves the
/// generator lists; deeper, the sum over the listed moves `ms` of the statistics `parts` below
/// the positions `kids` the moves lead to.
pub open spec fn perft_stats_are(board: Board, depth: nat, r: PerftStats) -> bool
    decreases depth,
{
    if depth == 0 {
        r == (PerftStats { nodes: 1, captures: 0, en_passants: 0, castles: 0, promotions: 0 })
    } else if popcount(board.piece_board(board.gamestate.active, Piece::King).0) != 1 {
        r == (PerftStats { nodes: 0, captures: 0, en_passants: 0, castles: 0, promotions: 0 })
    } else if depth == 1 {
        exists|ms: Seq<Move>| #[trigger] listing(board, ms) && ply_stats(ms, r)
    } else {
        exists|ms: Seq<Move>, parts: Seq<PerftStats>, kids: Seq<Board>|
            #![trigger listing(board, ms), sum_stats(parts), kids.len()]
            {
                &&& listing(board, ms)
                &&& parts.len() == ms.len()
                &&& kids.len() == ms.len()
                &&& r == sum_stats(parts)
                &&& forall|k: int|
                    #![trigger kids[k]]
                    0 <= k < ms.len() ==> kids[k].made_from(board, ms[k]) && perft_stats_are(
                        kids[k],
                        (depth - 1) as nat,
                        parts[k],
                    )
            }
    }
}

/// The key under which a count for `board` at `depth` is kept: the position's hash with the
/// depth's key folded in.
pub open spec fn perft_key(board: Board, depth: nat) -> ZobristHash {
    ZobristHash(board.gamestate.hash.0 ^ board.hasher.depth@[depth as int].0)
}

/// Counting with the cache: from the slots `entries` of a table of `size` slots, the count `n`
/// of leaf nodes `depth` plies below `board` comes out and the slots become `out`. At depth
/// zero, or with no king or several for the side to move, the count is one or none and the
/// slots stay. An entry kept under the position's key gives its count. Otherwise the count is
/// made as without the cache, the moves `ms` below depth one counted in their order, each from
/// the slots the one before left (`caches`), and the count is then stored.
pub open spec fn perft_cached(
    entries: Seq<Option<PerftEntry>>,
    size: usize,
    board: Board,
    depth: nat,
    n: u64,
    out: Seq<Option<PerftEntry>>,
) -> bool
    decreases depth,
{
    let key = perft_key(board, depth);
    if depth == 0 {
        n == 1 && out == entries
    } else if popcount(board.piece_board(board.gamestate.active, Piece::King).0) != 1 {
        n == 0 && out == entries
    } else if lookup(entries, size, key) is Some {
        n == lookup(entries, size, key)->Some_0.nodes && out == entries
    } else if depth == 1 {
        exists|ms: Seq<Move>|
            #[trigger] listing(board, ms) && n == ms.len() && out == stored(
                entries,
                size,
                PerftEntry { key, depth: depth as u8, nodes: n },
            )
    } else {
        exists|ms: Seq<Move>, counts: Seq<u64>, kids: Seq<Board>, caches: Seq<Seq<Option<PerftEntry>>>|
            #![trigger listing(board, ms), sum_counts(counts), kids.len(), caches.len()]
            {
                &&& listing(board, ms)
                &&& counts.len() == ms.len()
                &&& kids.len() == ms.len()
                &&& caches.len() == ms.len() + 1
                &&& caches[0] == entries
                &&& n == sum_counts(counts)
                &&& forall|k: int|
                    #![trigger kids[k]]
                    0 <= k < ms.len() ==> kids[k].made_from(board, ms[k]) && perft_cached(
                        caches[k],
                        size,
                        kids[k],
                        (depth - 1) as nat,
                        counts[k],
                        caches[k + 1],
                    )
                &&& out == stored(caches[ms.len() as int], size, PerftEntry { key, depth: depth as u8, nodes: n })
            }
    }
}

/// The statistics perft with the cache, as `perft_cached` is for counts: from the slots
/// `entries`, the statistics `r` of `board` at `depth` come out and the slots become `out`.
pub open spec fn stats_cached(
    entries: Seq<Option<PerftStatsEntry>>,
    size: usize,
    board: Board,
    depth: nat,
    r: PerftStats,
    out: Seq<Option<PerftStatsEntry>>,
) -> bool
    decreases depth,
{
    let key = perft_key(board, depth);
    if depth == 0 {
        r == (PerftStats { nodes: 1, captures: 0, en_passants: 0, castles: 0, promotions: 0 }) && out == entries
    } else if popcount(board.piece_board(board.gamestate.active, Piece::King).0) != 1 {
        r == (PerftStats { nodes: 0, captures: 0, en_passants: 0, castles: 0, promotions: 0 }) && out == entries
    } else if lookup(entries, size, key) is Some {
        r == lookup(entries, size, key)->Some_0.stats && out == entries
    } else if depth == 1 {
        exists|ms: Seq<Move>|
            #[trigger] listing(board, ms) && ply_stats(ms, r) && out == stored(
                entries,
                size,
                PerftStatsEntry { key, depth: depth as u8, stats: r },
            )
    } else {
        exists|ms: Seq<Move>, parts: Seq<PerftStats>, kids: Seq<Board>, caches: Seq<Seq<Option<PerftStatsEntry>>>|
            #![trigger listing(board, ms), sum_stats(parts), kids.len(), caches.len()]
            {
                &&& listing(board, ms)
                &&& parts.len() == ms.len()
                &&& kids.len() == ms.len()
                &&& caches.len() == ms.len() + 1
                &&& caches[0] == entries
                &&& r == sum_stats(parts)
                &&& forall|k: int|
                    #![trigger kids[k]]
                    0 <= k < ms.len() ==> kids[k].made_from(board, ms[k]) && stats_cached(
                        caches[k],
                        size,
                        kids[k],
                        (depth - 1) as nat,
                        parts[k],
                        caches[k + 1],
                    )
                &&& out == stored(caches[ms.len() as int], size, PerftStatsEntry { key, depth: depth as u8, stats: r })
            }
    }
}

/// Makes `mov`, one of the moves generated for `board`, calls `count` on the result and takes
/// the move back; the board ends as it was.
proof fn lemma_make_fits(board: Board, mov: Move)
    requires
        board.can_generate(),
        move_fits(board.pieces@, mov, board.gamestate.active),
        mov.spec_is_promotion() ==> mov.spec_piece() == Piece::Pawn && mov.spec_promoted() != Piece::King,
        mov.spec_piece() != Piece::Pawn ==> board.gamestate.halfmoves < 65535,
        board.gamestate.active == crate::board::color::Color::Black ==> board.gamestate.fullmoves < 65535,
    ensures
        board.can_make(mov),
{
    lemma_single_king_of_board(board, board.gamestate.active);
    lemma_single_king_kept(board.pieces@, mov, board.gamestate.active);
}

/// The number of leaf nodes `depth` moves below `board`, counted move by move with the
/// generator (with `HASHED`, counts found in `cache` are used and new ones are stored). A
/// position whose side to move has no king or several kings counts no node. The board ends as
/// it was.
pub fn perft_normal<const HASHED: bool>(board: &mut Board, cache: &mut HashTable<PerftEntry>, depth: u8) -> (r: u64)
    requires
        old(board).consistent(),
        old(cache).wf(),
        perft_room(*old(board), depth),
    ensures
        final(board).same_position(*old(board)),
        final(cache).wf(),
        final(cache).size == old(cache).size,
        depth == 0 ==> r == 1,
        depth >= 1 && popcount(old(board).piece_board(old(board).gamestate.active, Piece::King).0) != 1 ==> r == 0,
        !HASHED && depth == 1 && popcount(old(board).piece_board(old(board).gamestate.active, Piece::King).0) == 1
            ==> exists|ms: Seq<Move>|
            r == ms.len() && moves_listed(*old(board), ms) && forall|k: int| 0 <= k < ms.len() ==> generated_ok(
                *old(board),
                #[trigger] ms[k],
            ),
        !HASHED ==> perft_count(*old(board), depth as nat, r),
        HASHED ==> perft_cached(old(cache).entries@, old(cache).size, *old(board), depth as nat, r, final(cache).entries@),
    decreases depth,
{
    if depth == 0 {
        return 1;
    }

    if board.get_piece_count(board.gamestate.active, Piece::King) != 1 {
        return 0;
    }

    let hash = board.hash() ^ board.hasher().depth_hash(depth);
    if HASHED {
        if let Some(hashed) = cache.probe(hash) {
            return hashed.nodes();
        }
    }

    let mut move_generator = NewMoveGenerator::new(board);
    if depth == 1 {
        let moves = move_generator.len() as u64;
        if HASHED {
            let entry = PerftEntry::new(hash, depth, moves);
            proof {
                assert(entry == PerftEntry { key: perft_key(*board, depth as nat), depth, nodes: moves });
            }
            cache.store(entry);
        }
        proof {
            assert(moves == move_generator.moves@.len());
            assert(listing(*board, move_generator.moves@));
        }
        return moves;
    }

    let ghost b0 = *board;
    let ghost ms = move_generator.moves@;
    let ghost mut counts: Seq<u64> = Seq::empty();
    let ghost mut kids: Seq<Board> = Seq::empty();
    let ghost mut caches: Seq<Seq<Option<PerftEntry>>> = seq![cache.entries@];
    proof {
        assert(HASHED ==> lookup(old(cache).entries@, old(cache).size, perft_key(b0, depth as nat)) is None);
    }
    let mut nodes: u64 = 0;
    loop
        invariant
            board.same_position(b0),
            b0.can_generate(),
            perft_room(b0, depth),
            depth >= 2,
            cache.wf(),
            cache.size == old(cache).size,
            move_generator.valid_for(b0),
            b0.same_position(*old(board)),
            b0 == *old(board),
            move_generator.moves@ == ms,
            listing(b0, ms),
            counts.len() == move_generator.index,
            nodes == sum_counts(counts),
            !HASHED ==> kids.len() == counts.len() && forall|k: int| #![trigger kids[k]] 0 <= k < counts.len() ==> kids[k].made_from(b0, ms[k])
                && perft_count(kids[k], (depth - 1) as nat, counts[k]),
            HASHED ==> kids.len() == counts.len() && caches.len() == counts.len() + 1 && caches[0] == old(cache).entries@
                && cache.entries@ == caches.last() && forall|k: int| #![trigger kids[k]] 0 <= k < counts.len() ==> kids[k].made_from(b0, ms[k])
                && perft_cached(caches[k], cache.size, kids[k], (depth - 1) as nat, counts[k], caches[k + 1]),
            HASHED ==> lookup(old(cache).entries@, old(cache).size, perft_key(b0, depth as nat)) is None,
        ensures
            counts.len() == ms.len(),
            nodes == sum_counts(counts),
            !HASHED ==> kids.len() == counts.len() && forall|k: int| #![trigger kids[k]] 0 <= k < counts.len() ==> kids[k].made_from(b0, ms[k])
                && perft_count(kids[k], (depth - 1) as nat, counts[k]),
            HASHED ==> kids.len() == counts.len() && caches.len() == counts.len() + 1 && caches[0] == old(cache).entries@
                && cache.entries@ == caches.last() && forall|k: int| #![trigger kids[k]] 0 <= k < counts.len() ==> kids[k].made_from(b0, ms[k])
                && perft_cached(caches[k], cache.size, kids[k], (depth - 1) as nat, counts[k], caches[k + 1]),
            HASHED ==> lookup(old(cache).entries@, old(cache).size, perft_key(b0, depth as nat)) is None,
            cache.wf(),
            cache.size == old(cache).size,
            board.same_position(b0),
        decreases move_generator.size - move_generator.index,
    {
        let ghost idx = move_generator.index as int;
        let next = move_generator.next();
        let mov = match next {
            Some(mov) => mov,
            None => break,
        };
        let ghost before = *board;
        proof {
            assert(generated_ok(b0, mov));
            lemma_make_fits(before, mov);
        }

        board.make(&mov);
        let ghost made = *board;

        let ghost cache_before = cache.entries@;
        let next_nodes = perft_normal::<HASHED>(board, cache, depth - 1);
        let ghost old_counts = counts;
        let ghost old_kids = kids;
        let ghost old_caches = caches;
        nodes = nodes.wrapping_add(next_nodes);
        proof {
            counts = counts.push(next_nodes);
            assert(counts.drop_last() =~= old_counts);
            assert(mov == ms[idx]);
            assert(made.made_from(b0, mov));
            kids = kids.push(made);
            caches = caches.push(cache.entries@);
            if !HASHED {
                assert forall|k: int| #![trigger kids[k]] 0 <= k < counts.len() implies kids[k].made_from(b0, ms[k])
                    && perft_count(kids[k], (depth - 1) as nat, counts[k]) by {
                    if k < idx {
                        assert(counts[k] == old_counts[k]);
                    }
                }
            } else {
                assert forall|k: int| #![trigger kids[k]] 0 <= k < counts.len() implies kids[k].made_from(b0, ms[k])
                    && perft_cached(caches[k], cache.size, kids[k], (depth - 1) as nat, counts[k], caches[k + 1]) by {
                    if k < idx {
                        assert(counts[k] == old_counts[k]);
                        assert(kids[k] == old_kids[k]);
                        assert(caches[k] == old_caches[k]);
                        assert(caches[k + 1] == old_caches[k + 1]);
                    } else {
                        assert(caches[k] == cache_before);
                    }
                }
            }
        }

        proof {
            assert(board.made_from(before, mov));
            lemma_made_can_unmake(before, *board, mov);
        }
        let ghost returned = *board;
        board.unmake(&mov);
        proof {
            lemma_unmake_undoes_make(before, returned, *board, mov);
        }
    }

    if HASHED {
        let entry = PerftEntry::new(hash, depth, nodes);
        proof {
            assert(entry == PerftEntry { key: perft_key(b0, depth as nat), depth, nodes });
        }
        cache.store(entry);
    }
    proof {
        if HASHED {
            assert(listing(b0, ms) && counts.len() == ms.len() && kids.len() == ms.len() && caches.len() == ms.len() + 1
                && nodes == sum_counts(counts));
            assert(caches[ms.len() as int] == caches.last());
        }
        if !HASHED {
            assert(listing(b0, ms) && counts.len() == ms.len() && kids.len() == ms.len() && nodes == sum_counts(counts));
        }
    }

    nodes
}

/// Counts, over the moves `depth` plies below `board`, the leaf nodes and the captures, en
/// passant captures, castles and promotions of the last move (with `HASHED`, statistics found
/// in `cache` are used and new ones are stored). A position whose side to move has no king or
/// several kings counts nothing. The board ends as it was.
pub fn perft_stats<const HASHED: bool>(board: &mut Board, cache: &mut HashTable<PerftStatsEntry>, depth: u8) -> (r: PerftStats)
    requires
        old(board).consistent(),
        old(cache).wf(),
        perft_room(*old(board), depth),
    ensures
        final(board).same_position(*old(board)),
        final(cache).wf(),
        final(cache).size == old(cache).size,
        depth == 0 ==> r == (PerftStats { nodes: 1, captures: 0, en_passants: 0, castles: 0, promotions: 0 }),
        depth >= 1 && popcount(old(board).piece_board(old(board).gamestate.active, Piece::King).0) != 1 ==> r == (
        PerftStats { nodes: 0, captures: 0, en_passants: 0, castles: 0, promotions: 0 }),
        !HASHED && depth == 1 && popcount(old(board).piece_board(old(board).gamestate.active, Piece::King).0) == 1
            ==> exists|ms: Seq<Move>|
            ply_stats(ms, r) && moves_listed(*old(board), ms) && forall|k: int| 0 <= k < ms.len() ==> generated_ok(
                *old(board),
                #[trigger] ms[k],
            ),
        !HASHED ==> perft_stats_are(*old(board), depth as nat, r),
        HASHED ==> stats_cached(old(cache).entries@, old(cache).size, *old(board), depth as nat, r, final(cache).entries@),
    decreases depth,
{
    if depth == 0 {
        let mut stats = PerftStats::zero();
        stats.nodes = 1;
        return stats;
    }

    if board.get_piece_count(board.gamestate.active, Piece::King) != 1 {
        return PerftStats::zero();
    }

    let hash = board.hash() ^ board.hasher().depth_hash(depth);
    if HASHED {
        if let Some(hashed) = cache.probe(hash) {
            return *hashed.stats();
        }
    }

    let mut move_generator = NewMoveGenerator::new(board);

    let mut stats = PerftStats::zero();
    if depth == 1 {
        let moves = move_generator.len() as u64;
        stats.nodes = moves;
        let ghost ms = move_generator.moves@;

        loop
            invariant
                move_generator.size == move_generator.moves@.len(),
                move_generator.index <= move_generator.size,
                move_generator.moves@ == ms,
                moves == ms.len(),
                stats.nodes == moves,
                move_generator.valid_for(*board),
                ({
                    let done = ms.take(move_generator.index as int);
                    &&& stats.captures == count_moves(done, |m: Move| m.spec_is_capture())
                    &&& stats.castles == count_moves(done, |m: Move| m.spec_is_castling())
                    &&& stats.en_passants == count_moves(done, |m: Move| !m.spec_is_castling() && m.spec_is_en_passant())
                    &&& stats.promotions == count_moves(
                        done,
                        |m: Move| !m.spec_is_castling() && !m.spec_is_en_passant() && m.spec_is_promotion(),
                    )
                }),
            ensures
                ply_stats(ms, stats),
            decreases move_generator.size - move_generator.index,
        {
            let ghost idx = move_generator.index as int;
            let next = move_generator.next();
            let mov = match next {
                Some(mov) => mov,
                None => {
                    proof {
                        assert(ms.take(idx) =~= ms);
                    }
                    break;
                },
            };
            proof {
                let done = ms.take(idx);
                let done2 = ms.take(idx + 1);
                assert(done2.drop_last() =~= done);
                assert(done2.last() == mov);
                assert(generated_ok(*board, mov));
                crate::generation::mov::lemma_masks(mov.0);
                lemma_count_bound(done, |m: Move| m.spec_is_capture());
                lemma_count_bound(done, |m: Move| m.spec_is_castling());
                lemma_count_bound(done, |m: Move| !m.spec_is_castling() && m.spec_is_en_passant());
                lemma_count_bound(done, |m: Move| !m.spec_is_castling() && !m.spec_is_en_passant() && m.spec_is_promotion());
            }
            if mov.is_castling() {
                stats.castles = stats.castles.wrapping_add(1);
            } else if mov.is_en_passant() {
                stats.en_passants = stats.en_passants.wrapping_add(1);
            } else if mov.is_promotion() {
                stats.promotions = stats.promotions.wrapping_add(1);
            }

            if mov.is_capture() {
                stats.captures = stats.captures.wrapping_add(1);
            }
        }

        if HASHED {
            let entry = PerftStatsEntry::new(hash, depth, stats);
            proof {
                assert(entry == PerftStatsEntry { key: perft_key(*board, depth as nat), depth, stats });
            }
            cache.store(entry);
        }
        proof {
            assert(listing(*board, ms));
        }

        return stats;
    }

    let ghost b0 = *board;
    let ghost ms = move_generator.moves@;
    let ghost mut parts: Seq<PerftStats> = Seq::empty();
    let ghost mut kids: Seq<Board> = Seq::empty();
    let ghost mut caches: Seq<Seq<Option<PerftStatsEntry>>> = seq![cache.entries@];
    proof {
        assert(HASHED ==> lookup(old(cache).entries@, old(cache).size, perft_key(b0, depth as nat)) is None);
    }
    loop
        invariant
            board.same_position(b0),
            b0.can_generate(),
            perft_room(b0, depth),
            depth >= 2,
            cache.wf(),
            cache.size == old(cache).size,
            move_generator.valid_for(b0),
            b0.same_position(*old(board)),
            b0 == *old(board),
            move_generator.moves@ == ms,
            listing(b0, ms),
            parts.len() == move_generator.index,
            stats == sum_stats(parts),
            !HASHED ==> kids.len() == parts.len() && forall|k: int| #![trigger kids[k]] 0 <= k < parts.len() ==> kids[k].made_from(b0, ms[k])
                && perft_stats_are(kids[k], (depth - 1) as nat, parts[k]),
            HASHED ==> kids.len() == parts.len() && caches.len() == parts.len() + 1 && caches[0] == old(cache).entries@
                && cache.entries@ == caches.last() && forall|k: int| #![trigger kids[k]] 0 <= k < parts.len() ==> kids[k].made_from(b0, ms[k])
                && stats_cached(caches[k], cache.size, kids[k], (depth - 1) as nat, parts[k], caches[k + 1]),
            HASHED ==> lookup(old(cache).entries@, old(cache).size, perft_key(b0, depth as nat)) is None,
        ensures
            board.same_position(b0),
            cache.wf(),
            cache.size == old(cache).size,
            b0 == *old(board),
            listing(b0, ms),
            parts.len() == ms.len(),
            stats == sum_stats(parts),
            !HASHED ==> kids.len() == parts.len() && forall|k: int| #![trigger kids[k]] 0 <= k < parts.len() ==> kids[k].made_from(b0, ms[k])
                && perft_stats_are(kids[k], (depth - 1) as nat, parts[k]),
            HASHED ==> kids.len() == parts.len() && caches.len() == parts.len() + 1 && caches[0] == old(cache).entries@
                && cache.entries@ == caches.last() && forall|k: int| #![trigger kids[k]] 0 <= k < parts.len() ==> kids[k].made_from(b0, ms[k])
                && stats_cached(caches[k], cache.size, kids[k], (depth - 1) as nat, parts[k], caches[k + 1]),
            HASHED ==> lookup(old(cache).entries@, old(cache).size, perft_key(b0, depth as nat)) is None,
        decreases move_generator.size - move_generator.index,
    {
        let ghost idx = move_generator.index as int;
        let next = move_generator.next();
        let mov = match next {
            Some(mov) => mov,
            None => break,
        };
        let ghost before = *board;
        proof {
            assert(generated_ok(b0, mov));
            lemma_make_fits(before, mov);
        }

        board.make(&mov);
        let ghost made = *board;

        let ghost cache_before = cache.entries@;
        let next_stats = perft_stats::<HASHED>(board, cache, depth - 1);
        let ghost old_parts = parts;
        let ghost old_kids = kids;
        let ghost old_caches = caches;
        stats.add_assign(next_stats);
        proof {
            parts = parts.push(next_stats);
            assert(parts.drop_last() =~= old_parts);
            assert(mov == ms[idx]);
            assert(made.made_from(b0, mov));
            kids = kids.push(made);
            caches = caches.push(cache.entries@);
            if !HASHED {
                assert forall|k: int| #![trigger kids[k]] 0 <= k < parts.len() implies kids[k].made_from(b0, ms[k])
                    && perft_stats_are(kids[k], (depth - 1) as nat, parts[k]) by {
                    if k < idx {
                        assert(parts[k] == old_parts[k]);
                    }
                }
            } else {
                assert forall|k: int| #![trigger kids[k]] 0 <= k < parts.len() implies kids[k].made_from(b0, ms[k])
                    && stats_cached(caches[k], cache.size, kids[k], (depth - 1) as nat, parts[k], caches[k + 1]) by {
                    if k < idx {
                        assert(parts[k] == old_parts[k]);
                        assert(kids[k] == old_kids[k]);
                        assert(caches[k] == old_caches[k]);
                        assert(caches[k + 1] == old_caches[k + 1]);
                    } else {
                        assert(caches[k] == cache_before);
                    }
                }
            }
        }

        proof {
            assert(board.made_from(before, mov));
            lemma_made_can_unmake(before, *board, mov);
        }
        let ghost returned = *board;
        board.unmake(&mov);
        proof {
            lemma_unmake_undoes_make(before, returned, *board, mov);
        }
    }

    if HASHED {
        let entry = PerftStatsEntry::new(hash, depth, stats);
        proof {
            assert(entry == PerftStatsEntry { key: perft_key(b0, depth as nat), depth, stats });
        }
        cache.store(entry);
    }
    proof {
        if HASHED {
            assert(listing(b0, ms) && parts.len() == ms.len() && kids.len() == ms.len() && caches.len() == ms.len() + 1
                && stats == sum_stats(parts));
            assert(caches[ms.len() as int] == caches.last());
        }
        if !HASHED {
            assert(listing(b0, ms) && parts.len() == ms.len() && kids.len() == ms.len() && stats == sum_stats(parts));
        }
    }

    stats
}

/// For each move of the side to move, the move and the number of leaf nodes `depth - 1`
/// plies below it, in the generator's order, and the total of these numbers. The board ends
/// as it was.
pub fn divide<const HASHED: bool>(board: &mut Board, cache: &mut HashTable<PerftEntry>, depth: u8) -> (r: (
    Vec<(Move, u64)>,
    u64,
))
    requires
        old(board).can_generate(),
        old(cache).wf(),
        perft_room(*old(board), depth),
        depth >= 1,
    ensures
        final(board).same_position(*old(board)),
        final(cache).wf(),
        forall|k: int| 0 <= k < r.0.len() ==> generated_ok(*old(board), #[trigger] r.0@[k].0),
        r.1 == sum_wrapping(r.0@),
        moves_listed(*old(board), r.0@.map_values(|x: (Move, u64)| x.0)),
        depth == 1 ==> forall|k: int| 0 <= k < r.0.len() ==> #[trigger] r.0@[k].1 == 1,
        listing(*old(board), r.0@.map_values(|x: (Move, u64)| x.0)),
        !HASHED ==> exists|kids: Seq<Board>|
            #![trigger kids.len()]
            kids.len() == r.0.len() && forall|k: int|
                #![trigger kids[k]]
                0 <= k < r.0.len() ==> kids[k].made_from(*old(board), r.0@[k].0) && perft_count(
                    kids[k],
                    (depth - 1) as nat,
                    r.0@[k].1,
                ),
        final(cache).size == old(cache).size,
        HASHED ==> exists|kids: Seq<Board>, caches: Seq<Seq<Option<PerftEntry>>>|
            #![trigger kids.len(), caches.len()]
            kids.len() == r.0.len() && caches.len() == r.0.len() + 1 && caches[0] == old(cache).entries@ && caches[r.0.len() as int]
                == final(cache).entries@ && forall|k: int|
                #![trigger kids[k]]
                0 <= k < r.0.len() ==> kids[k].made_from(*old(board), r.0@[k].0) && perft_cached(
                    caches[k],
                    old(cache).size,
                    kids[k],
                    (depth - 1) as nat,
                    r.0@[k].1,
                    caches[k + 1],
                ),
{
    let mut move_generator = NewMoveGenerator::new(board);
    let ghost ms = move_generator.moves@;

    let ghost b0 = *board;
    let ghost mut kids: Seq<Board> = Seq::empty();
    let ghost mut caches: Seq<Seq<Option<PerftEntry>>> = seq![cache.entries@];
    let mut counts: Vec<(Move, u64)> = Vec::new();
    let mut total_nodes: u64 = 0;
    loop
        invariant
            board.same_position(b0),
            b0.can_generate(),
            perft_room(b0, depth),
            depth >= 1,
            cache.wf(),
            move_generator.valid_for(b0),
            b0.same_position(*old(board)),
            b0 == *old(board),
            forall|k: int| 0 <= k < counts.len() ==> generated_ok(b0, #[trigger] counts@[k].0),
            total_nodes == sum_wrapping(counts@),
            move_generator.moves@ == ms,
            moves_listed(b0, ms),
            counts.len() == move_generator.index,
            forall|k: int| 0 <= k < counts.len() ==> #[trigger] counts@[k].0 == ms[k],
            depth == 1 ==> forall|k: int| 0 <= k < counts.len() ==> #[trigger] counts@[k].1 == 1,
            kids.len() == counts.len(),
            !HASHED ==> forall|k: int| #![trigger kids[k]] 0 <= k < counts.len() ==> kids[k].made_from(b0, counts@[k].0)
                && perft_count(kids[k], (depth - 1) as nat, counts@[k].1),
            cache.size == old(cache).size,
            HASHED ==> caches.len() == counts.len() + 1 && caches[0] == old(cache).entries@ && cache.entries@ == caches.last()
                && forall|k: int| #![trigger kids[k]] 0 <= k < counts.len() ==> kids[k].made_from(b0, counts@[k].0)
                && perft_cached(caches[k], old(cache).size, kids[k], (depth - 1) as nat, counts@[k].1, caches[k + 1]),
        ensures
            counts@.map_values(|x: (Move, u64)| x.0) == ms,
            kids.len() == counts.len(),
            !HASHED ==> forall|k: int| #![trigger kids[k]] 0 <= k < counts.len() ==> kids[k].made_from(b0, counts@[k].0)
                && perft_count(kids[k], (depth - 1) as nat, counts@[k].1),
            cache.size == old(cache).size,
            HASHED ==> caches.len() == counts.len() + 1 && caches[0] == old(cache).entries@ && cache.entries@ == caches.last()
                && forall|k: int| #![trigger kids[k]] 0 <= k < counts.len() ==> kids[k].made_from(b0, counts@[k].0)
                && perft_cached(caches[k], old(cache).size, kids[k], (depth - 1) as nat, counts@[k].1, caches[k + 1]),
            cache.wf(),
            board.same_position(b0),
        decreases move_generator.size - move_generator.index,
    {
        let next = move_generator.next();
        let mov = match next {
            Some(mov) => mov,
            None => {
                proof {
                    assert(counts@.map_values(|x: (Move, u64)| x.0) =~= ms);
                }
                break;
            },
        };
        let ghost before = *board;
        proof {
            assert(generated_ok(b0, mov));
            lemma_make_fits(before, mov);
        }

        board.make(&mov);
        let ghost made = *board;

        let ghost cache_before = cache.entries@;
        let nodes = perft_normal::<HASHED>(board, cache, depth - 1);
        total_nodes = total_nodes.wrapping_add(nodes);

        proof {
            assert(board.made_from(before, mov));
            lemma_made_can_unmake(before, *board, mov);
        }
        let ghost returned = *board;
        board.unmake(&mov);
        proof {
            lemma_unmake_undoes_make(before, returned, *board, mov);
        }

        let ghost old_counts = counts@;
        counts.push((mov, nodes));
        proof {
            assert(counts@.drop_last() =~= old_counts);
            assert(made.made_from(b0, mov));
            let old_kids = kids;
            let old_caches = caches;
            kids = kids.push(made);
            caches = caches.push(cache.entries@);
            if HASHED {
                assert forall|k: int| #![trigger kids[k]] 0 <= k < counts.len() implies kids[k].made_from(b0, counts@[k].0)
                    && perft_cached(caches[k], old(cache).size, kids[k], (depth - 1) as nat, counts@[k].1, caches[k + 1]) by {
                    if k < counts.len() - 1 {
                        assert(counts@[k] == old_counts[k]);
                        assert(kids[k] == old_kids[k]);
                        assert(caches[k] == old_caches[k]);
                        assert(caches[k + 1] == old_caches[k + 1]);
                    } else {
                        assert(caches[k] == cache_before);
                    }
                }
            }
            if !HASHED {
                assert forall|k: int| #![trigger kids[k]] 0 <= k < counts.len() implies kids[k].made_from(b0, counts@[k].0)
                    && perft_count(kids[k], (depth - 1) as nat, counts@[k].1) by {
                    if k < counts.len() - 1 {
                        assert(counts@[k] == old_counts[k]);
                        assert(kids[k] == old_kids[k]);
                    }
                }
            }
        }
    }

    proof {
        assert(move_generator.valid_for(b0));
        assert(listing(b0, ms));
        if HASHED {
            assert(caches[counts.len() as int] == caches.last());
        }
    }
    (counts, total_nodes)
}

/// The sum of the counts, wrapping at the top of the range.
pub open spec fn sum_wrapping(counts: Seq<(Move, u64)>) -> u64
    decreases counts.len(),
{
    if counts.len() == 0 {
        0
    } else {
        sum_wrapping(counts.drop_last()).wrapping_add(counts.last().1)
    }
}

} // verus!
