use vstd::prelude::*;
use crate::board::{Board, BoardView, make_view, square_from, lemma_unmake_inverts_make};
use crate::mv::Move;
use crate::movegen::{
    MoveGenerator, legal_move, move_key, promo_index, lemma_legal_move_reversible,
};
use crate::piece::PieceKind;
use crate::square::{sq_index, lemma_square_index_injective};

verus! {

broadcast use lemma_square_index_injective, crate::piece::lemma_kind_index_injective;

/// The promotion choice with place `i` in the generator's order: none, queen, rook, knight,
/// bishop.
pub open spec fn promotion_of_index(i: int) -> Option<PieceKind> {
    if i == 1 {
        Some(PieceKind::Queen)
    } else if i == 2 {
        Some(PieceKind::Rook)
    } else if i == 3 {
        Some(PieceKind::Knight)
    } else if i == 4 {
        Some(PieceKind::Bishop)
    } else {
        None
    }
}

/// The move with place `k` in the generator's order.
pub open spec fn move_of_key(k: int) -> Move {
    Move {
        source: square_from(k / 320),
        destination: square_from((k / 5) % 64),
        promotion: promotion_of_index(k % 5),
    }
}

/// The number of leaves of the tree of legal moves `depth` plies deep from `v`.
pub open spec fn perft_count(v: BoardView, depth: nat) -> int
    decreases depth, 20481nat,
{
    if depth == 0 {
        1
    } else {
        perft_sum(v, depth, 0)
    }
}

/// The leaves below the legal moves of `v` whose place in the generator's order is `k` or
/// more.
pub open spec fn perft_sum(v: BoardView, depth: nat, k: int) -> int
    decreases depth, (20480 - k) as nat,
{
    if depth == 0 || k < 0 || k >= 20480 {
        0
    } else {
        (if legal_move(v, move_of_key(k)) {
            perft_count(make_view(v, move_of_key(k)), (depth - 1) as nat)
        } else {
            0
        }) + perft_sum(v, depth, k + 1)
    }
}

proof fn lemma_count_nonnegative(v: BoardView, depth: nat)
    ensures
        perft_count(v, depth) >= 0,
    decreases depth, 20481nat,
{
    if depth > 0 {
        lemma_sum_nonnegative(v, depth, 0);
    }
}

proof fn lemma_sum_nonnegative(v: BoardView, depth: nat, k: int)
    ensures
        perft_sum(v, depth, k) >= 0,
    decreases depth, (20480 - k) as nat,
{
    if depth > 0 && 0 <= k < 20480 {
        lemma_sum_nonnegative(v, depth, k + 1);
        lemma_count_nonnegative(make_view(v, move_of_key(k)), (depth - 1) as nat);
    }
}

proof fn lemma_perft_nonnegative(v: BoardView, depth: nat)
    ensures
        perft_count(v, depth) >= 0,
        forall|k: int| perft_sum(v, depth, k) >= 0,
{
    lemma_count_nonnegative(v, depth);
    assert forall|k: int| perft_sum(v, depth, k) >= 0 by {
        lemma_sum_nonnegative(v, depth, k);
    }
}

/// A legal move sits at its own place in the order.
proof fn lemma_key_of_legal(v: BoardView, m: Move)
    requires
        legal_move(v, m),
    ensures
        0 <= move_key(m) < 20480,
        move_of_key(move_key(m)) == m,
{
    crate::movegen::lemma_legal_promo_index(v, m);
    lemma_key_of_move(m);
}

/// A move whose promotion the generator tries sits at its own place in the order.
proof fn lemma_key_of_move(m: Move)
    requires
        0 <= promo_index(m.promotion) <= 4,
    ensures
        0 <= move_key(m) < 20480,
        move_of_key(move_key(m)) == m,
{
    let k = move_key(m);
    let s = sq_index(m.source) as int;
    let d = sq_index(m.destination) as int;
    let p = promo_index(m.promotion);
    assert(k / 320 == s);
    assert((k / 5) % 64 == d);
    assert(k % 5 == p);
    let q = move_of_key(k);
    crate::square::lemma_square_exists(s);
    crate::square::lemma_square_exists(d);
    assert(sq_index(square_from(s)) == s);
    assert(sq_index(square_from(d)) == d);
    assert(q.promotion == m.promotion);
}

/// A place in the order is the place of the move it names.
proof fn lemma_key_round_trip(k: int)
    requires
        0 <= k < 20480,
    ensures
        move_key(move_of_key(k)) == k,
{
    crate::square::lemma_square_exists(k / 320);
    crate::square::lemma_square_exists((k / 5) % 64);
    let m = move_of_key(k);
    assert(sq_index(m.source) == k / 320);
    assert(sq_index(m.destination) == (k / 5) % 64);
    assert(promo_index(m.promotion) == k % 5);
}

/// Between two places with no legal move, the sum does not change.
#[verifier::rlimit(100)]
proof fn lemma_sum_skip(v: BoardView, depth: nat, k1: int, k2: int, moves: Seq<Move>, x: int)
    requires
        depth > 0,
        0 <= k1 <= k2 <= 20480,
        forall|m: Move| legal_move(v, m) ==> moves.contains(m),
        forall|i: int| 0 <= i < moves.len() ==> legal_move(v, #[trigger] moves[i]),
        forall|i: int, j: int| 0 <= i < j < moves.len() ==> move_key(moves[i]) < move_key(moves[j]),
        0 <= x <= moves.len(),
        x > 0 ==> move_key(moves[x - 1]) < k1,
        x < moves.len() ==> k2 <= move_key(moves[x]),
    ensures
        perft_sum(v, depth, k1) == perft_sum(v, depth, k2),
    decreases k2 - k1,
{
    if k1 < k2 {
        lemma_sum_skip(v, depth, k1 + 1, k2, moves, x);
        if legal_move(v, move_of_key(k1)) {
            let m = move_of_key(k1);
            let y = choose|y: int| 0 <= y < moves.len() && moves[y] == m;
            lemma_key_round_trip(k1);
            assert(move_key(moves[y]) == k1);
            if y < x {
                if y < x - 1 {
                    assert(move_key(moves[y]) < move_key(moves[x - 1]));
                }
            } else {
                if y > x {
                    assert(move_key(moves[x]) < move_key(moves[y]));
                }
            }
        }
    }
}

/// Counts the positions reached after `depth` legal moves from `board`. Each move is played,
/// counted below and taken back in turn, so the board is left as it was found.
pub fn perft(board: &mut Board, movegen: &MoveGenerator, depth: u64) -> (r: u64)
    requires
        old(board).wf(),
        movegen.wf(),
        perft_count(old(board)@, depth as nat) <= u64::MAX,
    ensures
        final(board).wf(),
        *final(board) == *old(board),
        r == perft_count(old(board)@, depth as nat),
    decreases depth,
{
    if depth == 0 {
        return 1;
    }
    let ghost v = board@;
    let ghost start = *board;
    proof {
        board.lemma_wf();
        lemma_perft_nonnegative(v, depth as nat);
    }
    let moves = movegen.compute_legal_moves(board);
    let mut nodes: u64 = 0;
    let mut i: usize = 0;
    proof {
        let k2 = if moves@.len() > 0 { move_key(moves@[0]) } else { 20480 };
        if moves@.len() > 0 {
            lemma_key_of_legal(v, moves@[0]);
        }
        lemma_sum_skip(v, depth as nat, 0, k2, moves@, 0);
    }
    while i < moves.len()
        invariant
            board.wf(),
            board@ == v,
            start.wf(),
            start@ == v,
            start == *old(board),
            v.squares.len() == 64,
            movegen.wf(),
            depth >= 1,
            perft_count(v, depth as nat) <= u64::MAX,
            perft_count(v, depth as nat) == perft_sum(v, depth as nat, 0),
            i <= moves@.len(),
            forall|m: Move| legal_move(v, m) ==> moves@.contains(m),
            forall|x: int| 0 <= x < moves@.len() ==> legal_move(v, #[trigger] moves@[x]),
            forall|x: int, y: int| 0 <= x < y < moves@.len() ==> move_key(moves@[x]) < move_key(moves@[y]),
            nodes + perft_sum(v, depth as nat, if i < moves@.len() { move_key(moves@[i as int]) } else { 20480 })
                == perft_sum(v, depth as nat, 0),
            forall|k: int| perft_sum(v, depth as nat, k) >= 0,
        decreases moves@.len() - i,
    {
        let mv = moves[i];
        let ghost k1 = move_key(mv);
        proof {
            lemma_key_of_legal(v, mv);
            lemma_perft_nonnegative(make_view(v, mv), (depth - 1) as nat);
            assert(perft_sum(v, depth as nat, k1) == perft_count(make_view(v, mv), (depth - 1) as nat)
                + perft_sum(v, depth as nat, k1 + 1));
        }
        let unmake = board.make_move(mv);
        let sub = perft(board, movegen, depth - 1);
        board.unmake_last_move(unmake);
        proof {
            lemma_legal_move_reversible(v, mv);
            lemma_unmake_inverts_make(v, mv, unmake);
            let k2 = if i + 1 < moves@.len() { move_key(moves@[i + 1]) } else { 20480 };
            if i + 1 < moves@.len() {
                lemma_key_of_legal(v, moves@[i + 1]);
            }
            lemma_sum_skip(v, depth as nat, k1 + 1, k2, moves@, i + 1);
        }
        nodes = nodes + sub;
        i = i + 1;
    }
    proof {
        board.lemma_view_determines(&start);
    }
    nodes
}

} // verus!
