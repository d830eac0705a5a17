//! The game: players take turns, in a fixed order, claiming cells of the spiral board.
//!
//! On its turn a player claims the lowest-numbered cell that is unclaimed and not
//! attacked by a piece of any other player; its own pieces do not hinder it. A
//! claimed cell then holds one of the player's pieces, which attacks every board cell
//! reached by one of the piece's moves. The game ends as soon as the player to move
//! finds no cell it may claim.
use vstd::prelude::*;
use std::collections::{HashMap, HashSet};
use crate::grid::{
    Coord, Spiral, coords_view, spiral_seq, board_fits_in_memory, sum_fits,
    lemma_spiral_points_distinct, lemma_spiral_point_bound,
};
use crate::piece::{Piece, piece_moves, lemma_piece_moves_reversible};

verus! {

broadcast use vstd::std_specs::hash::group_hash_axioms;

/// An RGB colour.
#[derive(Clone, Copy, Debug, PartialEq, Eq, Structural)]
pub struct Color {
    pub r: u8,
    pub g: u8,
    pub b: u8,
}

impl Color {
    pub fn red() -> (c: Color)
        ensures
            c == (Color { r: 255, g: 0, b: 0 }),
    {
        Color { r: 255, g: 0, b: 0 }
    }

    pub fn green() -> (c: Color)
        ensures
            c == (Color { r: 0, g: 255, b: 0 }),
    {
        Color { r: 0, g: 255, b: 0 }
    }

    pub fn blue() -> (c: Color)
        ensures
            c == (Color { r: 0, g: 0, b: 255 }),
    {
        Color { r: 0, g: 0, b: 255 }
    }

    pub fn black() -> (c: Color)
        ensures
            c == (Color { r: 0, g: 0, b: 0 }),
    {
        Color { r: 0, g: 0, b: 0 }
    }
}

/// A player: the piece it places and the colour of its cells.
#[derive(Debug)]
pub struct Player {
    pub piece: Piece,
    pub color: Color,
}

impl Clone for Player {
    fn clone(&self) -> (r: Player)
        ensures
            r.piece@ == self.piece@,
            r.color == self.color,
    {
        Player { piece: self.piece.clone(), color: self.color }
    }
}

// ---------------------------------------------------------------------------
// The rules, mathematically.  `board` lists the cells' coordinates, `moves[c]` the
// moves of player `c`'s piece, `players` the number of players, and `claims` the
// cells claimed so far, in order; claim `t` belongs to player `t % players`.
// ---------------------------------------------------------------------------
/// A piece of the given moves standing on cell `from` attacks cell `to`.
pub open spec fn attacks(board: Seq<(int, int)>, moves: Seq<(int, int)>, from: nat, to: nat) -> bool {
    exists|m: int|
        #![trigger moves[m]]
        0 <= m < moves.len() && board[to as int] == (
            board[from as int].0 + moves[m].0,
            board[from as int].1 + moves[m].1,
        )
}

/// Some piece of player `player` attacks `cell`.
pub open spec fn attacked_by(
    board: Seq<(int, int)>,
    moves: Seq<Seq<(int, int)>>,
    players: nat,
    claims: Seq<nat>,
    player: nat,
    cell: nat,
) -> bool {
    exists|t: int|
        #![trigger claims[t]]
        0 <= t < claims.len() && t % (players as int) == player && attacks(
            board,
            moves[player as int],
            claims[t],
            cell,
        )
}

/// Player `player` may claim `cell`: it is on the board, unclaimed, and no other
/// player's piece attacks it.
pub open spec fn can_claim(
    board: Seq<(int, int)>,
    moves: Seq<Seq<(int, int)>>,
    players: nat,
    claims: Seq<nat>,
    player: nat,
    cell: nat,
) -> bool {
    &&& cell < board.len()
    &&& !claims.contains(cell)
    &&& forall|other: nat|
        other < players && other != player ==> !#[trigger] attacked_by(
            board,
            moves,
            players,
            claims,
            other,
            cell,
        )
}

/// The lowest cell numbered `start` or above that `player` may claim.
pub open spec fn first_claimable_from(
    board: Seq<(int, int)>,
    moves: Seq<Seq<(int, int)>>,
    players: nat,
    claims: Seq<nat>,
    player: nat,
    start: nat,
) -> Option<nat>
    decreases board.len() - start,
{
    if start >= board.len() {
        None
    } else if can_claim(board, moves, players, claims, player, start) {
        Some(start)
    } else {
        first_claimable_from(board, moves, players, claims, player, start + 1)
    }
}

/// The cell that the player to move claims next, if any.
pub open spec fn next_claim(
    board: Seq<(int, int)>,
    moves: Seq<Seq<(int, int)>>,
    players: nat,
    claims: Seq<nat>,
) -> Option<nat> {
    first_claimable_from(board, moves, players, claims, claims.len() % players, 0)
}

/// All claims of a game that has reached `claims`, played to its end.
pub open spec fn played_claims(
    board: Seq<(int, int)>,
    moves: Seq<Seq<(int, int)>>,
    players: nat,
    claims: Seq<nat>,
) -> Seq<nat>
    decreases board.len() - claims.len(),
{
    if claims.len() >= board.len() {
        claims
    } else {
        match next_claim(board, moves, players, claims) {
            None => claims,
            Some(cell) => played_claims(board, moves, players, claims.push(cell)),
        }
    }
}

/// Which player owns each claimed cell.
pub open spec fn coloring_of(claims: Seq<nat>, players: nat) -> Map<usize, usize>
    decreases claims.len(),
{
    if claims.len() == 0 {
        Map::empty()
    } else {
        let t = (claims.len() - 1) as nat;
        coloring_of(claims.drop_last(), players).insert(
            claims.last() as usize,
            (t % players) as usize,
        )
    }
}

/// The coloring at the end of a game played from the start.
pub open spec fn final_coloring(
    board: Seq<(int, int)>,
    moves: Seq<Seq<(int, int)>>,
    players: nat,
) -> Map<usize, usize> {
    coloring_of(played_claims(board, moves, players, Seq::empty()), players)
}

/// Every claim of the game is made by a player that has a piece, and none of that
/// piece's moves leads out of `i32` range from the claimed cell.
pub open spec fn turns_are_playable(
    board: Seq<(int, int)>,
    moves: Seq<Seq<(int, int)>>,
    players: nat,
    pieces: nat,
) -> bool {
    let claims = played_claims(board, moves, players, Seq::empty());
    forall|t: int|
        0 <= t < claims.len() ==> {
            &&& t % (players as int) < pieces
            &&& moves_fit_from(board, moves[t % (players as int)], #[trigger] claims[t])
        }
}

/// No move of `moves` leads out of `i32` range from cell `cell`.
pub open spec fn moves_fit_from(board: Seq<(int, int)>, moves: Seq<(int, int)>, cell: nat) -> bool {
    forall|m: int| 0 <= m < moves.len() ==> sum_fits(board[cell as int], #[trigger] moves[m])
}

/// Every player has a piece, and no move of any player's piece leads out of `i32`
/// range from any cell of the board: a bound on the board and the moves alone under
/// which every game can be played.
pub open spec fn moves_fit_board(
    board: Seq<(int, int)>,
    moves: Seq<Seq<(int, int)>>,
    players: nat,
    pieces: nat,
) -> bool {
    &&& 0 < players <= pieces
    &&& forall|c: int, cell: nat|
        0 <= c < players && cell < board.len() ==> #[trigger] moves_fit_from(
            board,
            moves[c],
            cell,
        )
}

// ---------------------------------------------------------------------------
// Laws of the rules.
// ---------------------------------------------------------------------------
/// Claiming a cell never makes another cell claimable: what a player may claim only
/// shrinks as the game goes on.
pub proof fn lemma_claimable_only_shrinks(
    board: Seq<(int, int)>,
    moves: Seq<Seq<(int, int)>>,
    players: nat,
    claims: Seq<nat>,
    new_claim: nat,
    player: nat,
    cell: nat,
)
    requires
        can_claim(board, moves, players, claims.push(new_claim), player, cell),
    ensures
        can_claim(board, moves, players, claims, player, cell),
{
    let longer = claims.push(new_claim);
    if claims.contains(cell) {
        let i = choose|i: int| 0 <= i < claims.len() && claims[i] == cell;
        assert(longer[i] == cell);
    }
    assert forall|other: nat|
        other < players && other != player implies !#[trigger] attacked_by(
            board,
            moves,
            players,
            claims,
            other,
            cell,
        ) by {
        if attacked_by(board, moves, players, claims, other, cell) {
            let t = choose|t: int|
                #![trigger claims[t]]
                0 <= t < claims.len() && t % (players as int) == other && attacks(
                    board,
                    moves[other as int],
                    claims[t],
                    cell,
                );
            assert(longer[t] == claims[t]);
            assert(attacked_by(board, moves, players, longer, other, cell));
        }
    }
}

/// Cells below `start` that `player` may not claim do not change the lowest claimable one.
pub proof fn lemma_skip_unclaimable(
    board: Seq<(int, int)>,
    moves: Seq<Seq<(int, int)>>,
    players: nat,
    claims: Seq<nat>,
    player: nat,
    from: nat,
    to: nat,
)
    requires
        from <= to,
        forall|i: nat| from <= i < to ==> !can_claim(board, moves, players, claims, player, i),
    ensures
        first_claimable_from(board, moves, players, claims, player, from) == first_claimable_from(
            board,
            moves,
            players,
            claims,
            player,
            to,
        ),
    decreases to - from,
{
    if from < to {
        lemma_skip_unclaimable(board, moves, players, claims, player, from + 1, to);
        if from >= board.len() {
            assert(to >= board.len());
        }
    }
}

/// A lowest claimable cell is one the player may claim, and no lower cell is.
pub proof fn lemma_first_claimable_is_lowest(
    board: Seq<(int, int)>,
    moves: Seq<Seq<(int, int)>>,
    players: nat,
    claims: Seq<nat>,
    player: nat,
    start: nat,
)
    ensures
        match first_claimable_from(board, moves, players, claims, player, start) {
            Some(cell) => {
                &&& start <= cell
                &&& can_claim(board, moves, players, claims, player, cell)
                &&& forall|i: nat|
                    start <= i < cell ==> !can_claim(board, moves, players, claims, player, i)
            },
            None => forall|i: nat|
                start <= i ==> !can_claim(board, moves, players, claims, player, i),
        },
    decreases board.len() - start,
{
    if start < board.len() && !can_claim(board, moves, players, claims, player, start) {
        lemma_first_claimable_is_lowest(board, moves, players, claims, player, start + 1);
    }
}

/// A sequence of distinct cells below `n` has at most `n` entries.
proof fn lemma_distinct_below(s: Seq<nat>, n: nat)
    requires
        s.no_duplicates(),
        forall|i: int| 0 <= i < s.len() ==> s[i] < n,
    ensures
        s.len() <= n,
    decreases n,
{
    if s.len() > 0 {
        if n == 0 {
            assert(s[0] < 0);
        } else if s.contains((n - 1) as nat) {
            let p = s.index_of((n - 1) as nat);
            let rest = s.remove(p);
            assert forall|i: int| 0 <= i < rest.len() implies rest[i] < n - 1 by {
                if i < p {
                    assert(rest[i] == s[i]);
                } else {
                    assert(rest[i] == s[i + 1]);
                }
            }
            assert(rest.no_duplicates()) by {
                assert forall|i: int, j: int|
                    0 <= i < rest.len() && 0 <= j < rest.len() && i != j implies rest[i]
                    != rest[j] by {
                    let si = if i < p { i } else { i + 1 };
                    let sj = if j < p { j } else { j + 1 };
                    assert(rest[i] == s[si]);
                    assert(rest[j] == s[sj]);
                }
            }
            lemma_distinct_below(rest, (n - 1) as nat);
        } else {
            assert forall|i: int| 0 <= i < s.len() implies s[i] < n - 1 by {
                if s[i] == n - 1 {
                    assert(s.contains((n - 1) as nat));
                }
            }
            lemma_distinct_below(s, (n - 1) as nat);
        }
    }
}

/// A sequence of distinct cells below `n` that misses some cell below `n` has fewer
/// than `n` entries.
proof fn lemma_distinct_below_missing(s: Seq<nat>, n: nat, missing: nat)
    requires
        s.no_duplicates(),
        forall|i: int| 0 <= i < s.len() ==> s[i] < n,
        missing < n,
        !s.contains(missing),
    ensures
        s.len() < n,
{
    let top = (n - 1) as nat;
    let swapped = s.map_values(|v: nat| if v == top { missing } else { v });
    assert forall|i: int| 0 <= i < swapped.len() implies swapped[i] < top by {
        if s[i] == missing {
            assert(s.contains(missing));
        }
    }
    assert(swapped.no_duplicates()) by {
        assert forall|i: int, j: int|
            0 <= i < swapped.len() && 0 <= j < swapped.len() && i != j implies swapped[i]
            != swapped[j] by {
            if s[i] == missing {
                assert(s.contains(missing));
            }
            if s[j] == missing {
                assert(s.contains(missing));
            }
        }
    }
    lemma_distinct_below(swapped, top);
}

/// The claims of a game played to its end are distinct cells of the board, and each
/// was the lowest cell its player could claim at its turn.
pub proof fn lemma_played_claims_are_lowest_claimable(
    board: Seq<(int, int)>,
    moves: Seq<Seq<(int, int)>>,
    players: nat,
    claims: Seq<nat>,
)
    requires
        players > 0,
        claims.no_duplicates(),
        forall|i: int| 0 <= i < claims.len() ==> claims[i] < board.len(),
    ensures
        ({
            let all = played_claims(board, moves, players, claims);
            &&& all.len() >= claims.len()
            &&& all.take(claims.len() as int) == claims
            &&& all.no_duplicates()
            &&& forall|t: int|
                claims.len() <= t < all.len() ==> next_claim(board, moves, players, all.take(t))
                    == Some(#[trigger] all[t])
            &&& all.len() < board.len() ==> next_claim(board, moves, players, all) is None
        }),
    decreases board.len() - claims.len(),
{
    if claims.len() < board.len() {
        match next_claim(board, moves, players, claims) {
            None => {
                assert(claims.take(claims.len() as int) =~= claims);
            },
            Some(cell) => {
                lemma_first_claimable_is_lowest(board, moves, players, claims, claims.len() % players, 0);
                let longer = claims.push(cell);
                assert(longer.no_duplicates());
                lemma_played_claims_are_lowest_claimable(board, moves, players, longer);
                let all = played_claims(board, moves, players, claims);
                assert(all == played_claims(board, moves, players, longer));
                assert(all.take(longer.len() as int) == longer);
                assert(all.take(claims.len() as int) =~= claims) by {
                    assert forall|i: int| 0 <= i < claims.len() implies all.take(
                        claims.len() as int,
                    )[i] == claims[i] by {
                        assert(all.take(longer.len() as int)[i] == longer[i]);
                    }
                }
                assert forall|t: int| claims.len() <= t < all.len() implies next_claim(
                    board,
                    moves,
                    players,
                    all.take(t),
                ) == Some(#[trigger] all[t]) by {
                    if t == claims.len() {
                        assert(all.take(t) =~= claims);
                        assert(all[t] == all.take(longer.len() as int)[t]);
                    }
                }
            },
        }
    } else {
        assert(claims.take(claims.len() as int) =~= claims);
    }
}

/// The coloring of a game's claims gives claim `t` to player `t % players`, and owns
/// no other cell.
pub proof fn lemma_coloring_of_claims(claims: Seq<nat>, players: nat)
    requires
        players > 0,
        claims.no_duplicates(),
        forall|t: int| 0 <= t < claims.len() ==> #[trigger] claims[t] <= usize::MAX,
    ensures
        forall|t: int|
            0 <= t < claims.len() ==> coloring_of(claims, players).contains_key(
                #[trigger] claims[t] as usize,
            ) && coloring_of(claims, players)[claims[t] as usize] == (t % (players as int)) as usize,
        forall|k: usize|
            #[trigger] coloring_of(claims, players).contains_key(k) ==> claims.contains(k as nat),
    decreases claims.len(),
{
    if claims.len() > 0 {
        let init = claims.drop_last();
        assert(init.no_duplicates());
        lemma_coloring_of_claims(init, players);
        let last = claims.last();
        assert forall|t: int| 0 <= t < claims.len() implies coloring_of(claims, players).contains_key(
            #[trigger] claims[t] as usize,
        ) && coloring_of(claims, players)[claims[t] as usize] == (t % (players as int)) as usize by {
            if t < claims.len() - 1 {
                assert(init[t] == claims[t]);
                assert(claims[t] != last);
            }
        }
        assert forall|k: usize| #[trigger] coloring_of(claims, players).contains_key(k) implies claims.contains(
            k as nat,
        ) by {
            if k != last as usize {
                assert(coloring_of(init, players).contains_key(k));
                let t = choose|t: int| 0 <= t < init.len() && init[t] == k as nat;
                assert(claims[t] == k as nat);
            } else {
                assert(claims[claims.len() - 1] == k as nat);
            }
        }
    }
}

/// A piece never attacks a cell that a different player claimed after it: the claim
/// was made only because no other player's piece attacked that cell.
proof fn lemma_earlier_piece_attacks_no_later_claim(
    board: Seq<(int, int)>,
    moves: Seq<Seq<(int, int)>>,
    players: nat,
    a: int,
    b: int,
)
    requires
        players > 0,
        0 <= a < b < played_claims(board, moves, players, Seq::empty()).len(),
        a % (players as int) != b % (players as int),
    ensures
        ({
            let played = played_claims(board, moves, players, Seq::empty());
            !attacks(board, moves[a % (players as int)], played[a], played[b])
        }),
{
    let played = played_claims(board, moves, players, Seq::empty());
    lemma_played_claims_are_lowest_claimable(board, moves, players, Seq::empty());
    assert(played.take(0) =~= Seq::<nat>::empty());
    let before = played.take(b);
    assert(next_claim(board, moves, players, before) == Some(played[b]));
    lemma_first_claimable_is_lowest(board, moves, players, before, before.len() % players, 0);
    assert(can_claim(board, moves, players, before, (b % (players as int)) as nat, played[b]));
    let other = (a % (players as int)) as nat;
    assert(!attacked_by(board, moves, players, before, other, played[b]));
    if attacks(board, moves[a % (players as int)], played[a], played[b]) {
        assert(before[a] == played[a]);
        assert(attacked_by(board, moves, players, before, other, played[b]));
    }
}

/// When all players' pieces have the same moves `same_moves`, and these contain the
/// reverse of each move (as every piece's moves do), no piece ever attacks a cell
/// claimed by another player, at any point of the game.
pub proof fn lemma_no_attacks_between_players(
    board: Seq<(int, int)>,
    moves: Seq<Seq<(int, int)>>,
    players: nat,
    same_moves: Set<(int, int)>,
    t1: int,
    t2: int,
)
    requires
        players > 0,
        forall|c: int, m: (int, int)|
            0 <= c < players ==> (#[trigger] moves[c].contains(m) <==> same_moves.contains(m)),
        forall|m: (int, int)| #[trigger] same_moves.contains(m) ==> same_moves.contains((-m.0, -m.1)),
        0 <= t1 < played_claims(board, moves, players, Seq::empty()).len(),
        0 <= t2 < played_claims(board, moves, players, Seq::empty()).len(),
        t1 % (players as int) != t2 % (players as int),
    ensures
        ({
            let played = played_claims(board, moves, players, Seq::empty());
            !attacks(board, moves[t1 % (players as int)], played[t1], played[t2])
        }),
{
    let played = played_claims(board, moves, players, Seq::empty());
    let c1 = t1 % (players as int);
    let c2 = t2 % (players as int);
    if t1 < t2 {
        lemma_earlier_piece_attacks_no_later_claim(board, moves, players, t1, t2);
    } else {
        lemma_earlier_piece_attacks_no_later_claim(board, moves, players, t2, t1);
        if attacks(board, moves[c1], played[t1], played[t2]) {
            let mv1 = moves[c1];
            let w = choose|w: int|
                #![trigger mv1[w]]
                0 <= w < mv1.len() && board[played[t2] as int] == (
                    board[played[t1] as int].0 + mv1[w].0,
                    board[played[t1] as int].1 + mv1[w].1,
                );
            let m = mv1[w];
            assert(moves[c1].contains(m));
            assert(same_moves.contains(m));
            let back = (-m.0, -m.1);
            assert(same_moves.contains(back));
            assert(moves[c2].contains(back));
            let mv2 = moves[c2];
            let v = choose|v: int| 0 <= v < mv2.len() && mv2[v] == back;
            assert(board[played[t1] as int] == (
                board[played[t2] as int].0 + mv2[v].0,
                board[played[t2] as int].1 + mv2[v].1,
            ));
            assert(attacks(board, moves[c2], played[t2], played[t1]));
        }
    }
}

/// In the final coloring of a game whose players' pieces all have the same moves,
/// closed under reversal, no piece attacks a cell of another colour.
pub proof fn lemma_final_coloring_has_no_attacks_between_colors(
    board: Seq<(int, int)>,
    moves: Seq<Seq<(int, int)>>,
    players: nat,
    same_moves: Set<(int, int)>,
    i: usize,
    j: usize,
    m: (int, int),
)
    requires
        players > 0,
        board.len() <= usize::MAX,
        forall|c: int, m: (int, int)|
            0 <= c < players ==> (#[trigger] moves[c].contains(m) <==> same_moves.contains(m)),
        forall|m: (int, int)| #[trigger] same_moves.contains(m) ==> same_moves.contains((-m.0, -m.1)),
        final_coloring(board, moves, players).contains_key(i),
        final_coloring(board, moves, players).contains_key(j),
        final_coloring(board, moves, players)[i] != final_coloring(board, moves, players)[j],
        same_moves.contains(m),
    ensures
        board[j as int] != (board[i as int].0 + m.0, board[i as int].1 + m.1),
{
    let played = played_claims(board, moves, players, Seq::empty());
    lemma_played_claims_are_lowest_claimable(board, moves, players, Seq::empty());
    assert(played.take(0) =~= Seq::<nat>::empty());
    assert forall|t: int| 0 <= t < played.len() implies #[trigger] played[t] < board.len() by {
        let before = played.take(t);
        assert(next_claim(board, moves, players, before) == Some(played[t]));
        lemma_first_claimable_is_lowest(board, moves, players, before, before.len() % players, 0);
    }
    lemma_coloring_of_claims(played, players);
    let ti = choose|t: int| 0 <= t < played.len() && played[t] == i as nat;
    let tj = choose|t: int| 0 <= t < played.len() && played[t] == j as nat;
    assert(played[ti] as usize == i);
    assert(played[tj] as usize == j);
    lemma_no_attacks_between_players(board, moves, players, same_moves, ti, tj);
    let ci = ti % (players as int);
    assert(moves[ci].contains(m));
    let mv = moves[ci];
    let w = choose|w: int| 0 <= w < mv.len() && mv[w] == m;
    if board[j as int] == (board[i as int].0 + m.0, board[i as int].1 + m.1) {
        assert(attacks(board, moves[ci], played[ti], played[tj]));
    }
}

/// A player may claim exactly the cells of the board that are unclaimed and that no
/// piece of any other player attacks; the player's own pieces do not hinder it, however
/// many players there are.
pub proof fn lemma_own_pieces_do_not_hinder(
    board: Seq<(int, int)>,
    moves: Seq<Seq<(int, int)>>,
    players: nat,
    claims: Seq<nat>,
    player: nat,
    cell: nat,
)
    requires
        players > 0,
    ensures
        can_claim(board, moves, players, claims, player, cell) <==> {
            &&& cell < board.len()
            &&& !claims.contains(cell)
            &&& forall|t: int|
                #![trigger claims[t]]
                0 <= t < claims.len() && t % (players as int) != player ==> !attacks(
                    board,
                    moves[t % (players as int)],
                    claims[t],
                    cell,
                )
        },
{
    let others_clear = forall|t: int|
        #![trigger claims[t]]
        0 <= t < claims.len() && t % (players as int) != player ==> !attacks(
            board,
            moves[t % (players as int)],
            claims[t],
            cell,
        );
    if can_claim(board, moves, players, claims, player, cell) {
        assert forall|t: int|
            #![trigger claims[t]]
            0 <= t < claims.len() && t % (players as int) != player implies !attacks(
                board,
                moves[t % (players as int)],
                claims[t],
                cell,
            ) by {
            let other = (t % (players as int)) as nat;
            assert(other < players);
            if attacks(board, moves[t % (players as int)], claims[t], cell) {
                assert(attacked_by(board, moves, players, claims, other, cell));
            }
        }
    }
    if cell < board.len() && !claims.contains(cell) && others_clear {
        assert forall|other: nat|
            other < players && other != player implies !#[trigger] attacked_by(
                board,
                moves,
                players,
                claims,
                other,
                cell,
            ) by {
            if attacked_by(board, moves, players, claims, other, cell) {
                let t = choose|t: int|
                    #![trigger claims[t]]
                    0 <= t < claims.len() && t % (players as int) == other && attacks(
                        board,
                        moves[other as int],
                        claims[t],
                        cell,
                    );
                assert(!attacks(board, moves[t % (players as int)], claims[t], cell));
            }
        }
    }
}

/// Players move in turn, player `t % players` making claim `t`: each claim is the
/// lowest cell its player may claim after the claims before it, and the game ends, short
/// of filling the board, only when the player to move may claim no cell.
pub proof fn lemma_turns_claim_lowest_claimable(
    board: Seq<(int, int)>,
    moves: Seq<Seq<(int, int)>>,
    players: nat,
)
    requires
        players > 0,
    ensures
        ({
            let played = played_claims(board, moves, players, Seq::empty());
            &&& forall|t: int|
                0 <= t < played.len() ==> {
                    let player = (t % (players as int)) as nat;
                    &&& can_claim(board, moves, players, played.take(t), player, #[trigger] played[t])
                    &&& forall|c: nat|
                        c < played[t] ==> !can_claim(board, moves, players, played.take(t), player, c)
                }
            &&& played.len() < board.len() ==> forall|c: nat|
                !#[trigger] can_claim(
                    board,
                    moves,
                    players,
                    played,
                    played.len() % players,
                    c,
                )
        }),
{
    let played = played_claims(board, moves, players, Seq::empty());
    lemma_played_claims_are_lowest_claimable(board, moves, players, Seq::empty());
    assert(played.take(0) =~= Seq::<nat>::empty());
    assert forall|t: int| 0 <= t < played.len() implies {
        let player = (t % (players as int)) as nat;
        &&& can_claim(board, moves, players, played.take(t), player, #[trigger] played[t])
        &&& forall|c: nat|
            c < played[t] ==> !can_claim(board, moves, players, played.take(t), player, c)
    } by {
        let before = played.take(t);
        assert(next_claim(board, moves, players, before) == Some(played[t]));
        lemma_first_claimable_is_lowest(board, moves, players, before, before.len() % players, 0);
    }
    if played.len() < board.len() {
        lemma_first_claimable_is_lowest(board, moves, players, played, played.len() % players, 0);
    }
}

/// When every move fits from every cell of the board, every turn of the game can be
/// played.
pub proof fn lemma_moves_fit_board_playable(
    board: Seq<(int, int)>,
    moves: Seq<Seq<(int, int)>>,
    players: nat,
    pieces: nat,
)
    requires
        moves_fit_board(board, moves, players, pieces),
    ensures
        turns_are_playable(board, moves, players, pieces),
{
    let played = played_claims(board, moves, players, Seq::empty());
    lemma_played_claims_are_lowest_claimable(board, moves, players, Seq::empty());
    assert(played.take(0) =~= Seq::<nat>::empty());
    assert forall|t: int| 0 <= t < played.len() implies {
        &&& t % (players as int) < pieces
        &&& moves_fit_from(board, moves[t % (players as int)], #[trigger] played[t])
    } by {
        let before = played.take(t);
        assert(next_claim(board, moves, players, before) == Some(played[t]));
        lemma_first_claimable_is_lowest(board, moves, players, before, before.len() % players, 0);
        assert(played[t] < board.len());
        assert(moves_fit_from(board, moves[t % (players as int)], played[t]));
    }
}

/// The moves of a piece built from `base`, as a set.
pub open spec fn piece_move_set(base: Seq<(int, int)>) -> Set<(int, int)> {
    Set::new(|m: (int, int)| piece_moves(base).contains(m))
}

/// When every player's piece moves as a piece built from the base moves `base`, no
/// piece ever attacks a cell claimed by another player, at any point of the game.
pub proof fn lemma_same_pieces_never_attack_each_other(
    board: Seq<(int, int)>,
    moves: Seq<Seq<(int, int)>>,
    players: nat,
    base: Seq<(int, int)>,
    t1: int,
    t2: int,
)
    requires
        players > 0,
        forall|c: int, m: (int, int)|
            0 <= c < players ==> (#[trigger] moves[c].contains(m) <==> piece_moves(base).contains(
                m,
            )),
        0 <= t1 < played_claims(board, moves, players, Seq::empty()).len(),
        0 <= t2 < played_claims(board, moves, players, Seq::empty()).len(),
        t1 % (players as int) != t2 % (players as int),
    ensures
        ({
            let played = played_claims(board, moves, players, Seq::empty());
            !attacks(board, moves[t1 % (players as int)], played[t1], played[t2])
        }),
{
    let same = piece_move_set(base);
    assert forall|m: (int, int)| #[trigger] same.contains(m) implies same.contains(
        (-m.0, -m.1),
    ) by {
        lemma_piece_moves_reversible(base, m);
    }
    lemma_no_attacks_between_players(board, moves, players, same, t1, t2);
}

/// When every player's piece moves as a piece built from the base moves `base`, no
/// two cells of different colours in the final coloring are a move of that piece
/// apart.
pub proof fn lemma_same_pieces_final_coloring(
    board: Seq<(int, int)>,
    moves: Seq<Seq<(int, int)>>,
    players: nat,
    base: Seq<(int, int)>,
    i: usize,
    j: usize,
    m: (int, int),
)
    requires
        players > 0,
        board.len() <= usize::MAX,
        forall|c: int, m: (int, int)|
            0 <= c < players ==> (#[trigger] moves[c].contains(m) <==> piece_moves(base).contains(
                m,
            )),
        final_coloring(board, moves, players).contains_key(i),
        final_coloring(board, moves, players).contains_key(j),
        final_coloring(board, moves, players)[i] != final_coloring(board, moves, players)[j],
        piece_moves(base).contains(m),
    ensures
        board[j as int] != (board[i as int].0 + m.0, board[i as int].1 + m.1),
{
    let same = piece_move_set(base);
    assert forall|m: (int, int)| #[trigger] same.contains(m) implies same.contains(
        (-m.0, -m.1),
    ) by {
        lemma_piece_moves_reversible(base, m);
    }
    lemma_final_coloring_has_no_attacks_between_colors(board, moves, players, same, i, j, m);
}

// ---------------------------------------------------------------------------
// The game.
// ---------------------------------------------------------------------------
pub struct Game {
    board: Spiral,
    colors: Vec<Color>,
    pieces: Vec<Piece>,
    coloring: HashMap<usize, usize>,
}

/// Key of a coordinate in a map of board cells: distinct coordinates get distinct keys.
pub open spec fn coord_key(p: (int, int)) -> int {
    p.0 * 0x1_0000_0000 + p.1
}

fn coord_key_of(c: Coord) -> (k: i128)
    ensures
        k == coord_key(c@),
{
    (c.x as i128) * 0x1_0000_0000 + (c.y as i128)
}

proof fn lemma_coord_key_injective(a: (int, int), b: (int, int))
    requires
        i32::MIN <= a.1 <= i32::MAX,
        i32::MIN <= b.1 <= i32::MAX,
        coord_key(a) == coord_key(b),
    ensures
        a == b,
{
    assert((a.0 - b.0) * 0x1_0000_0000 == b.1 - a.1);
    if a.0 > b.0 {
        assert((a.0 - b.0) * 0x1_0000_0000 >= 0x1_0000_0000) by (nonlinear_arith)
            requires
                a.0 - b.0 >= 1,
        ;
    }
    if a.0 < b.0 {
        assert((b.0 - a.0) * 0x1_0000_0000 >= 0x1_0000_0000) by (nonlinear_arith)
            requires
                b.0 - a.0 >= 1,
        ;
    }
}

impl Game {
    /// The board's cells, in spiral order.
    pub closed spec fn cells(&self) -> Seq<(int, int)> {
        self.board@
    }

    /// The players' colours.
    pub closed spec fn player_colors(&self) -> Seq<Color> {
        self.colors@
    }

    /// The players' pieces.
    pub closed spec fn player_pieces(&self) -> Seq<(Seq<char>, Seq<(int, int)>)> {
        self.pieces@.map_values(|p: Piece| p@)
    }

    /// The moves of each player's piece.
    pub closed spec fn player_moves(&self) -> Seq<Seq<(int, int)>> {
        moves_of(self.pieces@)
    }

    /// The claimed cells and the player owning each.
    pub closed spec fn claimed(&self) -> Map<usize, usize> {
        self.coloring@
    }

    /// A game on the first `board_size` cells of the spiral, with player `i` using
    /// colour `colors[i]` and piece `pieces[i]`; no cell is claimed yet.
    pub fn new(board_size: usize, colors: Vec<Color>, pieces: Vec<Piece>) -> (game: Game)
        requires
            board_fits_in_memory(board_size as nat),
        ensures
            game.cells() == spiral_seq(board_size as nat),
            game.player_colors() == colors@,
            game.player_pieces() == pieces@.map_values(|p: Piece| p@),
            game.player_moves() == moves_of(pieces@),
            game.claimed() == Map::<usize, usize>::empty(),
    {
        Game { board: Spiral::new(board_size), colors, pieces, coloring: HashMap::new() }
    }

    /// Plays the game to its end, unless cells are claimed already.
    pub fn play(&mut self)
        requires
            old(self).claimed().is_empty() ==> {
                &&& old(self).player_colors().len() > 0
                &&& turns_are_playable(
                    old(self).cells(),
                    old(self).player_moves(),
                    old(self).player_colors().len(),
                    old(self).player_pieces().len(),
                )
            },
        ensures
            final(self).cells() == old(self).cells(),
            final(self).player_colors() == old(self).player_colors(),
            final(self).player_pieces() == old(self).player_pieces(),
            final(self).player_moves() == old(self).player_moves(),
            !old(self).claimed().is_empty() ==> final(self).claimed() == old(self).claimed(),
            old(self).claimed().is_empty() ==> final(self).claimed() == final_coloring(
                old(self).cells(),
                old(self).player_moves(),
                old(self).player_colors().len(),
            ),
    {
        if !self.coloring.is_empty() {
            return;
        }
        assert(self.coloring@ =~= Map::<usize, usize>::empty());
        let color_count = self.colors.len();
        let points = self.board.points();
        let n = points.len();
        let ghost board = self.cells();
        let ghost moves = self.player_moves();
        let ghost players = color_count as nat;
        assert(coords_view(points@) == board);

        // Where each coordinate lies on the board.
        let mut coord_to_index: HashMap<i128, usize> = HashMap::new();
        let mut i: usize = 0;
        while i < n
            invariant
                n == points@.len(),
                coords_view(points@) == board,
                board == spiral_seq(n as nat),
                board_fits_in_memory(n as nat),
                i <= n,
                forall|k: i128|
                    coord_to_index@.contains_key(k) <==> exists|j: int|
                        0 <= j < i && coord_key(#[trigger] board[j]) == k,
                forall|j: int|
                    0 <= j < i ==> coord_to_index@[coord_key(#[trigger] board[j]) as i128] == j,
            decreases n - i,
        {
            proof {
                assert(board[i as int] == points@[i as int]@);
                assert forall|j: int| 0 <= j < i implies coord_key(#[trigger] board[j]) != coord_key(
                    board[i as int],
                ) by {
                    lemma_spiral_points_distinct(j as nat, i as nat);
                    lemma_spiral_point_bound(j as nat);
                    lemma_spiral_point_bound(i as nat);
                    if coord_key(board[j]) == coord_key(board[i as int]) {
                        lemma_coord_key_injective(board[j], board[i as int]);
                    }
                }
            }
            coord_to_index.insert(coord_key_of(points[i]), i);
            i += 1;
        }
        run_turns(points, &self.pieces, color_count, &coord_to_index, &mut self.coloring);
    }

    /// Whether no player other than `current_color` attacks `index`.
    fn not_attacked(attacked: &[HashSet<usize>], current_color: usize, index: usize) -> (r: bool)
        ensures
            r == forall|i: int|
                0 <= i < attacked@.len() && i != current_color ==> !(
                #[trigger] attacked@[i])@.contains(index),
    {
        let mut i: usize = 0;
        while i < attacked.len()
            invariant
                i <= attacked@.len(),
                forall|k: int|
                    0 <= k < i && k != current_color ==> !(#[trigger] attacked@[k])@.contains(index),
            decreases attacked.len() - i,
        {
            if i != current_color && attacked[i].contains(&index) {
                return false;
            }
            i += 1;
        }
        true
    }

    /// Whether every player has a piece and no move of any player's piece leads out of
    /// `i32` range from any cell of the board; then the game can be played.
    pub fn moves_fit_board(&self) -> (r: bool)
        ensures
            r == moves_fit_board(
                self.cells(),
                self.player_moves(),
                self.player_colors().len(),
                self.player_pieces().len(),
            ),
            r ==> turns_are_playable(
                self.cells(),
                self.player_moves(),
                self.player_colors().len(),
                self.player_pieces().len(),
            ),
    {
        let ghost board = self.cells();
        let ghost moves = self.player_moves();
        let players = self.colors.len();
        if players == 0 || self.pieces.len() < players {
            return false;
        }
        let points = self.board.points();
        assert(coords_view(points@) == board);
        let mut c: usize = 0;
        while c < players
            invariant
                c <= players <= self.pieces@.len(),
                players == self.colors@.len(),
                board == self.cells(),
                moves == self.player_moves(),
                coords_view(points@) == board,
                forall|k: int, cell: nat|
                    0 <= k < c && cell < board.len() ==> #[trigger] moves_fit_from(
                        board,
                        moves[k],
                        cell,
                    ),
            decreases players - c,
        {
            let piece_moves = self.pieces[c].moves();
            assert(coords_view(piece_moves@) == moves[c as int]);
            if !moves_fit_cells(points, piece_moves) {
                let ghost bad = choose|cell: nat|
                    cell < board.len() && !moves_fit_from(board, moves[c as int], cell);
                assert(!moves_fit_from(board, moves[c as int], bad));
                return false;
            }
            c += 1;
        }
        proof {
            lemma_moves_fit_board_playable(
                board,
                moves,
                players as nat,
                self.player_pieces().len(),
            );
        }
        true
    }

    /// Which player owns each claimed cell.
    pub fn coloring(&self) -> (r: &HashMap<usize, usize>)
        ensures
            r@ == self.claimed(),
    {
        &self.coloring
    }

    /// The board.
    pub fn board(&self) -> (r: &Spiral)
        ensures
            r@ == self.cells(),
    {
        &self.board
    }

    /// The players' colours.
    pub fn colors(&self) -> (r: &[Color])
        ensures
            r@ == self.player_colors(),
    {
        self.colors.as_slice()
    }
}

/// The moves of each piece.
pub open spec fn moves_of(pieces: Seq<Piece>) -> Seq<Seq<(int, int)>> {
    pieces.map_values(|p: Piece| p@.1)
}

/// Whether no move of `moves` leads out of `i32` range from cell `p`.
fn moves_fit_cell(p: Coord, moves: &[Coord]) -> (r: bool)
    ensures
        r == forall|m: int| 0 <= m < moves@.len() ==> sum_fits(p@, #[trigger] coords_view(moves@)[m]),
{
    let mut m: usize = 0;
    while m < moves.len()
        invariant
            m <= moves@.len(),
            forall|k: int| 0 <= k < m ==> sum_fits(p@, #[trigger] coords_view(moves@)[k]),
        decreases moves@.len() - m,
    {
        let x: i64 = p.x as i64 + moves[m].x as i64;
        let y: i64 = p.y as i64 + moves[m].y as i64;
        assert(coords_view(moves@)[m as int] == moves@[m as int]@);
        if x < i32::MIN as i64 || x > i32::MAX as i64 || y < i32::MIN as i64 || y > i32::MAX as i64 {
            assert(!sum_fits(p@, coords_view(moves@)[m as int]));
            return false;
        }
        m += 1;
    }
    true
}

/// Whether no move of `moves` leads out of `i32` range from any of the cells `points`.
fn moves_fit_cells(points: &[Coord], moves: &[Coord]) -> (r: bool)
    ensures
        r == forall|cell: nat|
            cell < points@.len() ==> #[trigger] moves_fit_from(
                coords_view(points@),
                coords_view(moves@),
                cell,
            ),
{
    let ghost board = coords_view(points@);
    let ghost mv = coords_view(moves@);
    let mut i: usize = 0;
    while i < points.len()
        invariant
            i <= points@.len(),
            board == coords_view(points@),
            mv == coords_view(moves@),
            forall|cell: nat| cell < i ==> #[trigger] moves_fit_from(board, mv, cell),
        decreases points@.len() - i,
    {
        assert(board[i as int] == points@[i as int]@);
        if !moves_fit_cell(points[i], moves) {
            assert(!moves_fit_from(board, mv, i as nat));
            return false;
        }
        assert(moves_fit_from(board, mv, i as nat));
        i += 1;
    }
    true
}

/// Some move among the first `upto` of `moves` leads from cell `from` to cell `to`.
spec fn reached_by_first_moves(
    board: Seq<(int, int)>,
    moves: Seq<(int, int)>,
    from: nat,
    to: nat,
    upto: int,
) -> bool {
    exists|m: int|
        #![trigger moves[m]]
        0 <= m < upto && board[to as int] == (
            board[from as int].0 + moves[m].0,
            board[from as int].1 + moves[m].1,
        )
}

/// A new claim adds the attacks of its piece to its owner's, and to no one else's.
proof fn lemma_attacked_by_push(
    board: Seq<(int, int)>,
    moves: Seq<Seq<(int, int)>>,
    players: nat,
    claims: Seq<nat>,
    new_claim: nat,
    player: nat,
    cell: nat,
)
    requires
        players > 0,
    ensures
        attacked_by(board, moves, players, claims.push(new_claim), player, cell) <==> (
        attacked_by(board, moves, players, claims, player, cell) || (claims.len() % players
            == player && attacks(board, moves[player as int], new_claim, cell))),
{
    let longer = claims.push(new_claim);
    if attacked_by(board, moves, players, longer, player, cell) {
        let t = choose|t: int|
            #![trigger longer[t]]
            0 <= t < longer.len() && t % (players as int) == player && attacks(
                board,
                moves[player as int],
                longer[t],
                cell,
            );
        if t < claims.len() {
            assert(claims[t] == longer[t]);
        }
    }
    if attacked_by(board, moves, players, claims, player, cell) {
        let t = choose|t: int|
            #![trigger claims[t]]
            0 <= t < claims.len() && t % (players as int) == player && attacks(
                board,
                moves[player as int],
                claims[t],
                cell,
            );
        assert(longer[t] == claims[t]);
    }
    if claims.len() % players == player && attacks(board, moves[player as int], new_claim, cell) {
        assert(longer[claims.len() as int] == new_claim);
    }
}

/// Takes turns until the player to move has no cell to claim.
fn run_turns(
    points: &[Coord],
    pieces: &Vec<Piece>,
    color_count: usize,
    coord_to_index: &HashMap<i128, usize>,
    coloring: &mut HashMap<usize, usize>,
)
    requires
        coords_view(points@) == spiral_seq(points@.len()),
        board_fits_in_memory(points@.len()),
        color_count > 0,
        turns_are_playable(
            coords_view(points@),
            moves_of(pieces@),
            color_count as nat,
            pieces@.len(),
        ),
        forall|k: i128|
            coord_to_index@.contains_key(k) <==> exists|j: int|
                0 <= j < points@.len() && coord_key(#[trigger] coords_view(points@)[j]) == k,
        forall|j: int|
            0 <= j < points@.len() ==> coord_to_index@[coord_key(
                #[trigger] coords_view(points@)[j],
            ) as i128] == j,
        old(coloring)@ == Map::<usize, usize>::empty(),
    ensures
        final(coloring)@ == final_coloring(
            coords_view(points@),
            moves_of(pieces@),
            color_count as nat,
        ),
{
    let ghost board = coords_view(points@);
    let ghost moves = moves_of(pieces@);
    let ghost players = color_count as nat;
    let n = points.len();

    let mut occupied: HashSet<usize> = HashSet::new();
    let mut attacked_by_color: Vec<HashSet<usize>> = Vec::new();
    let mut next_candidate: Vec<usize> = Vec::new();
    let mut c: usize = 0;
    while c < color_count
        invariant
            c <= color_count,
            attacked_by_color@.len() == c,
            next_candidate@.len() == c,
            forall|p: int| 0 <= p < c ==> (#[trigger] attacked_by_color@[p])@ == Set::<usize>::empty(),
            forall|p: int| 0 <= p < c ==> #[trigger] next_candidate@[p] == 0,
        decreases color_count - c,
    {
        attacked_by_color.push(HashSet::new());
        next_candidate.push(0);
        c += 1;
    }

    let mut turn: usize = 0;
    let ghost mut claims: Seq<nat> = Seq::empty();
    assert(coloring_of(claims, players) =~= coloring@);
    loop
        invariant
            board == coords_view(points@),
            board == spiral_seq(n as nat),
            n == points@.len(),
            board_fits_in_memory(n as nat),
            moves == moves_of(pieces@),
            players == color_count,
            color_count > 0,
            turns_are_playable(board, moves, players, pieces@.len()),
            forall|k: i128|
                coord_to_index@.contains_key(k) <==> exists|j: int|
                    0 <= j < n && coord_key(#[trigger] board[j]) == k,
            forall|j: int| 0 <= j < n ==> coord_to_index@[coord_key(#[trigger] board[j]) as i128] == j,
            turn == claims.len(),
            claims.no_duplicates(),
            forall|t: int| 0 <= t < claims.len() ==> #[trigger] claims[t] < n,
            coloring@ == coloring_of(claims, players),
            forall|k: usize| occupied@.contains(k) <==> claims.contains(k as nat),
            attacked_by_color@.len() == color_count,
            forall|p: int, k: usize|
                0 <= p < color_count ==> (#[trigger] attacked_by_color@[p]@.contains(k) <==> (k
                    < n && attacked_by(board, moves, players, claims, p as nat, k as nat))),
            next_candidate@.len() == color_count,
            forall|p: int| 0 <= p < color_count ==> #[trigger] next_candidate@[p] <= n,
            forall|p: nat, k: nat|
                p < color_count && k < next_candidate@[p as int] ==> !#[trigger] can_claim(
                    board,
                    moves,
                    players,
                    claims,
                    p,
                    k,
                ),
            played_claims(board, moves, players, Seq::empty()) == played_claims(
                board,
                moves,
                players,
                claims,
            ),
        ensures
            coloring@ == coloring_of(played_claims(board, moves, players, Seq::empty()), players),
        decreases n - turn,
    {
        let current_color = turn % color_count;
        let ghost player = current_color as nat;
        let start = next_candidate[current_color];
        let mut candidate = start;
        while candidate < n && (occupied.contains(&candidate) || !Game::not_attacked(
            attacked_by_color.as_slice(),
            current_color,
            candidate,
        ))
            invariant
                board == coords_view(points@),
                n == points@.len(),
                n == board.len(),
                players == color_count,
                current_color < color_count,
                player == current_color,
                start <= candidate <= n,
                forall|k: usize| occupied@.contains(k) <==> claims.contains(k as nat),
                attacked_by_color@.len() == color_count,
                forall|p: int, k: usize|
                    0 <= p < color_count ==> (#[trigger] attacked_by_color@[p]@.contains(k) <==> (k
                        < n && attacked_by(board, moves, players, claims, p as nat, k as nat))),
                forall|k: nat|
                    start <= k < candidate ==> !can_claim(
                        board,
                        moves,
                        players,
                        claims,
                        player,
                        k,
                    ),
            decreases n - candidate,
        {
            proof {
                if can_claim(board, moves, players, claims, player, candidate as nat) {
                    assert(!occupied@.contains(candidate));
                    assert forall|i: int|
                        0 <= i < attacked_by_color@.len() && i != current_color implies !(
                        #[trigger] attacked_by_color@[i])@.contains(candidate) by {
                        assert(!attacked_by(board, moves, players, claims, i as nat, candidate as nat));
                    }
                }
            }
            candidate += 1;
        }
        proof {
            assert(turn % color_count == claims.len() % players);
            assert forall|k: nat| 0 <= k < start implies !can_claim(
                board,
                moves,
                players,
                claims,
                player,
                k,
            ) by {
                assert(next_candidate@[current_color as int] == start);
            }
            lemma_skip_unclaimable(board, moves, players, claims, player, 0, start as nat);
            lemma_skip_unclaimable(board, moves, players, claims, player, start as nat, candidate as nat);
        }
        if candidate == n {
            proof {
                assert(next_claim(board, moves, players, claims) is None);
            }
            break;
        }
        let index = candidate;
        proof {
            assert forall|other: nat|
                other < players && other != player implies !#[trigger] attacked_by(
                    board,
                    moves,
                    players,
                    claims,
                    other,
                    index as nat,
                ) by {
                assert(!(attacked_by_color@[other as int])@.contains(index));
            }
            assert(can_claim(board, moves, players, claims, player, index as nat));
            assert(next_claim(board, moves, players, claims) == Some(index as nat));
            lemma_distinct_below_missing(claims, n as nat, index as nat);
        }
        next_candidate.set(current_color, index + 1);
        coloring.insert(index, current_color);
        occupied.insert(index);
        let ghost old_claims = claims;
        proof {
            claims = claims.push(index as nat);
            assert(claims.drop_last() =~= old_claims);
            assert(played_claims(board, moves, players, old_claims) == played_claims(
                board,
                moves,
                players,
                claims,
            ));
        }

        proof {
            lemma_played_claims_are_lowest_claimable(board, moves, players, claims);
            let all = played_claims(board, moves, players, claims);
            assert(all[old_claims.len() as int] == all.take(claims.len() as int)[old_claims.len() as int]);
            assert(all[old_claims.len() as int] == index as nat);
            assert(old_claims.len() as int % (players as int) == current_color);
        }
        // Record the cells the new piece attacks.
        let current_coord = points[index];
        let offsets = pieces[current_color].moves();
        let mut m: usize = 0;
        while m < offsets.len()
            invariant
                board == coords_view(points@),
                n == points@.len(),
                board == spiral_seq(n as nat),
                board_fits_in_memory(n as nat),
                players == color_count,
                current_color < color_count,
                index < n,
                current_coord@ == board[index as int],
                coords_view(offsets@) == moves[current_color as int],
                forall|k: int|
                    0 <= k < moves[current_color as int].len() ==> sum_fits(
                        board[index as int],
                        #[trigger] moves[current_color as int][k],
                    ),
                forall|k: i128|
                    coord_to_index@.contains_key(k) <==> exists|j: int|
                        0 <= j < n && coord_key(#[trigger] board[j]) == k,
                forall|j: int|
                    0 <= j < n ==> coord_to_index@[coord_key(#[trigger] board[j]) as i128] == j,
                m <= offsets@.len(),
                attacked_by_color@.len() == color_count,
                forall|p: int, k: usize|
                    0 <= p < color_count && p != current_color ==> (
                    #[trigger] attacked_by_color@[p]@.contains(k) <==> (k < n && attacked_by(
                        board,
                        moves,
                        players,
                        old_claims,
                        p as nat,
                        k as nat,
                    ))),
                forall|k: usize|
                    #[trigger] attacked_by_color@[current_color as int]@.contains(k) <==> (k < n
                        && (attacked_by(board, moves, players, old_claims, player, k as nat)
                        || reached_by_first_moves(
                        board,
                        moves[current_color as int],
                        index as nat,
                        k as nat,
                        m as int,
                    ))),
            decreases offsets@.len() - m,
        {
            let offset = offsets[m];
            proof {
                assert(coords_view(offsets@)[m as int] == offset@);
                assert(sum_fits(board[index as int], moves[current_color as int][m as int]));
            }
            let attacked_coord = current_coord + offset;
            let key = coord_key_of(attacked_coord);
            let ghost target = attacked_coord@;
            let ghost before = attacked_by_color@[current_color as int]@;
            match coord_to_index.get(&key) {
                Some(attacked_index) => {
                    let attacked_index = *attacked_index;
                    proof {
                        let j = choose|j: int| 0 <= j < n && coord_key(#[trigger] board[j]) == key;
                        assert(coord_to_index@[coord_key(board[j]) as i128] == j);
                        lemma_spiral_point_bound(j as nat);
                        lemma_coord_key_injective(board[j], target);
                    }
                    attacked_by_color[current_color].insert(attacked_index);
                },
                None => {},
            }
            proof {
                assert forall|k: usize|
                    #[trigger] attacked_by_color@[current_color as int]@.contains(k) <==> (k < n
                        && (attacked_by(board, moves, players, old_claims, player, k as nat)
                        || reached_by_first_moves(
                        board,
                        moves[current_color as int],
                        index as nat,
                        k as nat,
                        m + 1,
                    ))) by {
                    let mv = moves[current_color as int];
                    if k < n && board[k as int] == target {
                        lemma_spiral_point_bound(k as nat);
                        assert(coord_to_index@.contains_key(key));
                        assert(coord_to_index@[coord_key(board[k as int]) as i128] == k);
                    }
                    if reached_by_first_moves(board, mv, index as nat, k as nat, m + 1) {
                        let w = choose|w: int|
                            #![trigger mv[w]]
                            0 <= w < m + 1 && board[k as int] == (
                                board[index as int].0 + mv[w].0,
                                board[index as int].1 + mv[w].1,
                            );
                        if w < m {
                            assert(reached_by_first_moves(board, mv, index as nat, k as nat, m as int));
                        }
                    }
                    if reached_by_first_moves(board, mv, index as nat, k as nat, m as int) {
                        let w = choose|w: int|
                            #![trigger mv[w]]
                            0 <= w < m && board[k as int] == (
                                board[index as int].0 + mv[w].0,
                                board[index as int].1 + mv[w].1,
                            );
                        assert(reached_by_first_moves(board, mv, index as nat, k as nat, m + 1));
                    }
                    if k < n && board[k as int] == target {
                        assert(mv[m as int] == offset@);
                        assert(reached_by_first_moves(board, mv, index as nat, k as nat, m + 1));
                    }
                }
            }
            m += 1;
        }
        proof {
            assert forall|p: int, k: usize|
                0 <= p < color_count implies (#[trigger] attacked_by_color@[p]@.contains(k) <==> (k
                    < n && attacked_by(board, moves, players, claims, p as nat, k as nat))) by {
                lemma_attacked_by_push(board, moves, players, old_claims, index as nat, p as nat, k as nat);
                if p == current_color {
                    let mv = moves[current_color as int];
                    if attacks(board, mv, index as nat, k as nat) {
                        let w = choose|w: int|
                            #![trigger mv[w]]
                            0 <= w < mv.len() && board[k as int] == (
                                board[index as int].0 + mv[w].0,
                                board[index as int].1 + mv[w].1,
                            );
                        assert(reached_by_first_moves(board, mv, index as nat, k as nat, m as int));
                    }
                    if reached_by_first_moves(board, mv, index as nat, k as nat, m as int) {
                        let w = choose|w: int|
                            #![trigger mv[w]]
                            0 <= w < m && board[k as int] == (
                                board[index as int].0 + mv[w].0,
                                board[index as int].1 + mv[w].1,
                            );
                        assert(attacks(board, mv, index as nat, k as nat));
                    }
                }
            }
            assert forall|p: nat, k: nat|
                p < color_count && k < next_candidate@[p as int] implies !#[trigger] can_claim(
                    board,
                    moves,
                    players,
                    claims,
                    p,
                    k,
                ) by {
                if can_claim(board, moves, players, claims, p, k) {
                    lemma_claimable_only_shrinks(board, moves, players, old_claims, index as nat, p, k);
                    if p == current_color && k == index {
                        assert(claims[old_claims.len() as int] == k);
                    }
                }
            }
            assert forall|k: usize| occupied@.contains(k) <==> claims.contains(k as nat) by {
                if old_claims.contains(k as nat) {
                    let t = choose|t: int| 0 <= t < old_claims.len() && old_claims[t] == k as nat;
                    assert(claims[t] == k as nat);
                }
                if k == index {
                    assert(claims[old_claims.len() as int] == k as nat);
                }
                if claims.contains(k as nat) {
                    let t = choose|t: int| 0 <= t < claims.len() && claims[t] == k as nat;
                    if t < old_claims.len() {
                        assert(old_claims[t] == k as nat);
                    }
                }
            }
        }
        turn += 1;
    }
}

} // verus!
