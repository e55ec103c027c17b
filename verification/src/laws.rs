//! Properties of the marking rules, stated over the board model and proved
//! once for every board. The marked-cell counter is determined by the board
//! (`Clacker::wf` ties it to `marked_count`), so an equality of board
//! snapshots carries the counter with it.

use crate::game::{
    lemma_marked_count_full, lemma_marked_count_le_len, lemma_marked_count_update, mark_all,
    mark_one, marked_count, spec_choices, sum_faces, AllOrOne, Clacker, GameMode,
};
use vstd::prelude::*;

verus! {

/// Marking under REMOVE is idempotent: the same index applied twice in one
/// call, or in two successive calls, leaves the same board as applying it
/// once.
pub proof fn lemma_remove_idempotent(s: Seq<bool>, n: usize)
    requires
        n < s.len(),
    ensures
        mark_all(s, seq![n, n], GameMode::REMOVE) == mark_all(s, seq![n], GameMode::REMOVE),
        mark_all(mark_all(s, seq![n], GameMode::REMOVE), seq![n], GameMode::REMOVE) == mark_all(
            s,
            seq![n],
            GameMode::REMOVE,
        ),
{
    let once = mark_one(s, n as int, GameMode::REMOVE);
    lemma_mark_all_single(s, n, GameMode::REMOVE);
    lemma_mark_all_single(once, n, GameMode::REMOVE);
    lemma_mark_all_pair(s, n, n, GameMode::REMOVE);
    assert(once.update(n as int, true) =~= once);
}

/// Marking under TOGGLE is an involution: the same index applied twice
/// restores the board as it was, and with it the marked count.
pub proof fn lemma_toggle_involution(s: Seq<bool>, n: usize)
    requires
        n < s.len(),
    ensures
        mark_all(s, seq![n, n], GameMode::TOGGLE) == s,
        marked_count(mark_all(s, seq![n, n], GameMode::TOGGLE)) == marked_count(s),
{
    let once = mark_one(s, n as int, GameMode::TOGGLE);
    lemma_mark_all_pair(s, n, n, GameMode::TOGGLE);
    assert(once[n as int] == !s[n as int]);
    assert(once.update(n as int, !once[n as int]) =~= s);
}

/// A game is won exactly when every reachable cell is marked, whatever the
/// marking mode that produced the state.
pub proof fn lemma_won_iff_board_full(g: Clacker)
    requires
        g.wf(),
    ensures
        g.toggled_cells >= g.goal_cells <==> (forall|i: int|
            1 <= i <= g.goal_cells ==> g.cells@[i]),
{
    let s = g.cells@;
    let t = s.update(0, true);
    lemma_marked_count_update(s, 0, true);
    lemma_marked_count_le_len(s);
    lemma_marked_count_le_len(t);
    lemma_marked_count_full(t);
    if g.toggled_cells >= g.goal_cells {
        assert(marked_count(t) == t.len());
        assert forall|i: int| 1 <= i <= g.goal_cells implies s[i] by {
            assert(t[i]);
        }
    } else {
        if forall|i: int| 1 <= i <= g.goal_cells ==> s[i] {
            assert forall|i: int| 0 <= i < t.len() implies t[i] by {
                if i >= 1 {
                    assert(s[i]);
                }
            }
            assert(marked_count(t) == t.len());
            assert(false);
        }
    }
}

/// Worthiness under REMOVE: with the cell of the roll's sum already marked
/// and at least one individual face's cell clear, INDIVIDUAL is the only
/// strategy offered.
pub proof fn lemma_only_individual_offered(g: Clacker, throws: Seq<(usize, usize)>)
    requires
        g.mode == GameMode::REMOVE,
        0 <= sum_faces(throws) < g.cells@.len(),
        g.cells@[sum_faces(throws)],
        exists|i: int| 0 <= i < throws.len() && !g.cells@[(#[trigger] throws[i]).0 as int],
    ensures
        spec_choices(g, throws) =~= seq![AllOrOne::INDIVIDUAL],
{
    assert(!AllOrOne::TOTAL.spec_is_worth(g, throws));
    assert(AllOrOne::INDIVIDUAL.spec_is_worth(g, throws));
}

/// Unfolds the marking of a single index.
proof fn lemma_mark_all_single(s: Seq<bool>, n: usize, mode: GameMode)
    ensures
        mark_all(s, seq![n], mode) == mark_one(s, n as int, mode),
{
    let c = seq![n];
    assert(c[0] == n);
    assert(c.subrange(1, 1) =~= Seq::<usize>::empty());
    assert(mark_all(mark_one(s, n as int, mode), c.subrange(1, 1), mode) == mark_one(
        s,
        n as int,
        mode,
    ));
}

/// Unfolds the marking of two indices in one call.
proof fn lemma_mark_all_pair(s: Seq<bool>, n: usize, m: usize, mode: GameMode)
    ensures
        mark_all(s, seq![n, m], mode) == mark_one(mark_one(s, n as int, mode), m as int, mode),
{
    let c = seq![n, m];
    assert(c[0] == n);
    assert(c.subrange(1, 2) =~= seq![m]);
    lemma_mark_all_single(mark_one(s, n as int, mode), m, mode);
}

} // verus!
