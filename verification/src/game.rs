//! The game state: a linear board of togglable cells plus the rule axes
//! that decide how a roll of several dice is turned into cell indices.
//!
//! The board is a vector of booleans indexed `1..=goal_cells` (index 0 is
//! unused and stays false) together with a counter of marked cells that is
//! maintained incrementally on every mutation.

use crate::dice::{dice_wf, Dice};
use vstd::pervasive::VecAdditionalExecFns;
use vstd::prelude::*;

verus! {

/// How a selected cell is marked: REMOVE marks it permanently (marking a
/// marked cell is a no-op), TOGGLE flips it every time it is selected.
#[allow(non_camel_case_types)]
#[derive(PartialEq, Eq, Structural, Clone, Copy, Debug)]
pub enum GameMode {
    REMOVE,
    TOGGLE,
}

/// How a roll of two or more dice is combined into cell indices: either the
/// one total or all individual faces (ALLORONE), or a freely built stack of
/// per-die sums (SELECTION).
#[allow(non_camel_case_types)]
#[derive(PartialEq, Eq, Structural, Clone, Copy, Debug)]
pub enum DiceMode {
    ALLORONE,
    SELECTION,
}

/// The two strategies of the ALLORONE combination mode.
#[allow(non_camel_case_types)]
#[derive(PartialEq, Eq, Structural, Clone, Copy, Debug)]
pub enum AllOrOne {
    TOTAL,
    INDIVIDUAL,
}

/// Why a game could not be constructed.
#[allow(non_camel_case_types)]
#[derive(PartialEq, Eq, Structural, Clone, Copy, Debug)]
pub enum InvalidConfiguration {
    /// The list of dice was empty.
    NoDice,
    /// Some die had fewer than two sides.
    TooFewSides,
}

/// Count of marked (true) cells in a board snapshot.
pub open spec fn marked_count(s: Seq<bool>) -> nat
    decreases s.len(),
{
    if s.len() == 0 {
        0
    } else {
        marked_count(s.drop_last()) + (if s.last() {
            1nat
        } else {
            0nat
        })
    }
}

/// Sum of the face values of a roll; each pair is `(face, sides)`.
pub open spec fn sum_faces(throws: Seq<(usize, usize)>) -> int
    decreases throws.len(),
{
    if throws.len() == 0 {
        0
    } else {
        sum_faces(throws.drop_last()) + throws.last().0
    }
}

/// Smallest face value of a roll (0 for an empty roll).
pub open spec fn min_face(throws: Seq<(usize, usize)>) -> int
    decreases throws.len(),
{
    if throws.len() == 0 {
        0
    } else if throws.len() == 1 {
        throws[0].0 as int
    } else {
        let m = min_face(throws.drop_last());
        if throws.last().0 < m {
            throws.last().0 as int
        } else {
            m
        }
    }
}

/// Sum of the side counts of a collection of dice.
pub open spec fn sum_sides(dices: Seq<Dice>) -> int
    decreases dices.len(),
{
    if dices.len() == 0 {
        0
    } else {
        sum_sides(dices.drop_last()) + dices.last().sides
    }
}

/// One marking step on a board snapshot at index `n`.
pub open spec fn mark_one(s: Seq<bool>, n: int, mode: GameMode) -> Seq<bool> {
    match mode {
        GameMode::REMOVE => s.update(n, true),
        GameMode::TOGGLE => s.update(n, !s[n]),
    }
}

/// All marking steps of one call, applied independently in order.
pub open spec fn mark_all(s: Seq<bool>, choices: Seq<usize>, mode: GameMode) -> Seq<bool>
    decreases choices.len(),
{
    if choices.len() == 0 {
        s
    } else {
        mark_all(mark_one(s, choices[0] as int, mode), choices.subrange(1, choices.len() as int), mode)
    }
}

/// An update changes the marked count exactly by the difference between the
/// new and the old value of the updated cell.
pub proof fn lemma_marked_count_update(s: Seq<bool>, i: int, v: bool)
    requires
        0 <= i < s.len(),
    ensures
        marked_count(s.update(i, v)) == marked_count(s) - (if s[i] {
            1int
        } else {
            0int
        }) + (if v {
            1int
        } else {
            0int
        }),
    decreases s.len(),
{
    if i == s.len() - 1 {
        assert(s.update(i, v).drop_last() =~= s.drop_last());
    } else {
        assert(s.update(i, v).drop_last() =~= s.drop_last().update(i, v));
        lemma_marked_count_update(s.drop_last(), i, v);
    }
}

/// No board holds more marked cells than cells.
pub proof fn lemma_marked_count_le_len(s: Seq<bool>)
    ensures
        marked_count(s) <= s.len(),
    decreases s.len(),
{
    if s.len() > 0 {
        lemma_marked_count_le_len(s.drop_last());
    }
}

/// The marked count reaches the length exactly when every cell is marked.
pub proof fn lemma_marked_count_full(s: Seq<bool>)
    ensures
        marked_count(s) == s.len() <==> (forall|i: int| 0 <= i < s.len() ==> s[i]),
    decreases s.len(),
{
    if s.len() > 0 {
        lemma_marked_count_full(s.drop_last());
        lemma_marked_count_le_len(s.drop_last());
        if marked_count(s) == s.len() {
            assert forall|i: int| 0 <= i < s.len() implies s[i] by {
                if i < s.len() - 1 {
                    assert(s.drop_last()[i] == s[i]);
                }
            }
        } else {
            if forall|i: int| 0 <= i < s.len() ==> s[i] {
                assert forall|i: int| 0 <= i < s.drop_last().len() implies s.drop_last()[i] by {
                    assert(s.drop_last()[i] == s[i]);
                }
                assert(marked_count(s.drop_last()) == s.drop_last().len());
                assert(false);
            }
        }
    }
}

/// Appending one more choice marks it after all earlier ones.
pub proof fn lemma_mark_all_push(s: Seq<bool>, c: Seq<usize>, x: usize, mode: GameMode)
    ensures
        mark_all(s, c.push(x), mode) == mark_one(mark_all(s, c, mode), x as int, mode),
    decreases c.len(),
{
    if c.len() == 0 {
        assert(c.push(x)[0] == x);
        assert(c.push(x).subrange(1, 1) =~= Seq::<usize>::empty());
        assert(mark_all(mark_one(s, x as int, mode), c.push(x).subrange(1, 1), mode) == mark_one(
            mark_all(s, c, mode),
            x as int,
            mode,
        ));
    } else {
        assert(c.push(x)[0] == c[0]);
        assert(c.push(x).subrange(1, c.len() as int + 1) =~= c.subrange(1, c.len() as int).push(x));
        lemma_mark_all_push(mark_one(s, c[0] as int, mode), c.subrange(1, c.len() as int), x, mode);
    }
}

/// The whole game state: the dice, the board with its counter, the two rule
/// axes, and the number of throws taken so far.
pub struct Clacker {
    pub dices: Vec<Dice>,
    pub cells: Vec<bool>,
    pub goal_cells: usize,
    pub toggled_cells: usize,
    pub mode: GameMode,
    pub dice_mode: DiceMode,
    pub throws: usize,
}

impl Clacker {
    /// Well-formedness: the board has one unused cell at index 0 plus one
    /// cell per reachable index, the counter equals the number of marked
    /// cells, and the board size is the sum of the dice's side counts.
    pub open spec fn wf(self) -> bool {
        &&& self.cells@.len() == self.goal_cells + 1
        &&& self.goal_cells + 1 <= usize::MAX
        &&& self.cells@[0] == false
        &&& self.toggled_cells == marked_count(self.cells@)
        &&& self.goal_cells == sum_sides(self.dices@)
        &&& self.dices@.len() >= 1
        &&& forall|i: int| 0 <= i < self.dices@.len() ==> dice_wf(#[trigger] self.dices@[i])
    }

    pub fn new(dices: Vec<Dice>, mode: GameMode, dice_mode: DiceMode) -> (r: Self)
        requires
            dices@.len() >= 1,
            forall|i: int| 0 <= i < dices@.len() ==> dice_wf(#[trigger] dices@[i]),
            sum_sides(dices@) + 1 <= usize::MAX,
        ensures
            r.wf(),
            r.dices == dices,
            r.mode == mode,
            r.dice_mode == dice_mode,
            r.goal_cells == sum_sides(dices@),
            r.toggled_cells == 0,
            r.throws == 0,
            forall|i: int| 0 <= i < r.cells@.len() ==> !r.cells@[i],
    {
        let ghost ds = dices@;
        let mut len: usize = 0;
        let mut i: usize = 0;
        while i < dices.len()
            invariant
                i <= ds.len(),
                dices@ == ds,
                len == sum_sides(ds.subrange(0, i as int)),
                sum_sides(ds) + 1 <= usize::MAX,
            decreases ds.len() - i,
        {
            proof {
                lemma_sum_sides_prefix(ds, i as int + 1);
                assert(ds.subrange(0, i + 1).drop_last() =~= ds.subrange(0, i as int));
                assert(ds.subrange(0, i + 1).last() == ds[i as int]);
            }
            len = len + dices[i].sides;
            i = i + 1;
        }
        proof {
            assert(ds.subrange(0, ds.len() as int) =~= ds);
        }
        let mut cells: Vec<bool> = Vec::new();
        let mut j: usize = 0;
        while j < len + 1
            invariant
                j <= len + 1,
                len + 1 <= usize::MAX,
                cells@.len() == j,
                forall|k: int| 0 <= k < j ==> !cells@[k],
            decreases len + 1 - j,
        {
            cells.push(false);
            j = j + 1;
        }
        proof {
            lemma_marked_count_all_clear(cells@);
        }
        Self { dices, cells, goal_cells: len, toggled_cells: 0, mode, dice_mode, throws: 0 }
    }

    /// True when the cell at `index` is not marked (still available).
    pub fn is_clear(&self, index: usize) -> (r: bool)
        requires
            index < self.cells@.len(),
        ensures
            r == !self.cells@[index as int],
    {
        !self.cells[index]
    }

    /// The win condition: every reachable cell has been marked, tracked by
    /// the incrementally maintained counter.
    pub fn won(&self) -> (r: bool)
        ensures
            r == (self.toggled_cells >= self.goal_cells),
    {
        self.toggled_cells >= self.goal_cells
    }

    /// Apply one turn's chosen indices to the board, each occurrence
    /// independently in order, then count the throw and report whether the
    /// game is won.
    pub fn handle(&mut self, choices: Vec<usize>) -> (r: bool)
        requires
            old(self).wf(),
            forall|j: int|
                0 <= j < choices@.len() ==> 1 <= #[trigger] choices@[j] <= old(self).goal_cells,
            old(self).throws < usize::MAX,
        ensures
            final(self).wf(),
            final(self).cells@ == mark_all(old(self).cells@, choices@, old(self).mode),
            final(self).toggled_cells == marked_count(final(self).cells@),
            final(self).throws == old(self).throws + 1,
            final(self).dices == old(self).dices,
            final(self).mode == old(self).mode,
            final(self).dice_mode == old(self).dice_mode,
            final(self).goal_cells == old(self).goal_cells,
            r == (final(self).toggled_cells >= final(self).goal_cells),
    {
        let ghost s0 = self.cells@;
        let ghost m = self.mode;
        let ghost g = self.goal_cells as int;
        let ghost d0 = self.dices;
        let ghost dm = self.dice_mode;
        let ghost t0 = self.throws as int;
        let n = choices.len();
        let mut j: usize = 0;
        while j < n
            invariant
                j <= n,
                n == choices@.len(),
                forall|k: int| 0 <= k < choices@.len() ==> 1 <= #[trigger] choices@[k] <= g,
                self.mode == m,
                self.goal_cells == g,
                g + 1 <= usize::MAX,
                self.dices == d0,
                self.dice_mode == dm,
                self.throws == t0,
                self.cells@.len() == g + 1,
                self.cells@[0] == false,
                self.toggled_cells == marked_count(self.cells@),
                self.cells@ == mark_all(s0, choices@.subrange(0, j as int), m),
            decreases n - j,
        {
            let c = choices[j];
            proof {
                lemma_mark_all_push(s0, choices@.subrange(0, j as int), choices@[j as int], m);
                assert(choices@.subrange(0, j as int).push(choices@[j as int]) =~= choices@.subrange(
                    0,
                    j + 1,
                ));
            }
            match self.mode {
                GameMode::REMOVE => {
                    if !self.cells[c] {
                        proof {
                            lemma_marked_count_update(self.cells@, c as int, true);
                            lemma_marked_count_le_len(self.cells@.update(c as int, true));
                        }
                        self.cells.set(c, true);
                        self.toggled_cells = self.toggled_cells + 1;
                    } else {
                        proof {
                            assert(self.cells@.update(c as int, true) =~= self.cells@);
                        }
                    }
                },
                GameMode::TOGGLE => {
                    let v = !self.cells[c];
                    proof {
                        lemma_marked_count_update(self.cells@, c as int, v);
                        lemma_marked_count_le_len(self.cells@.update(c as int, v));
                    }
                    if self.cells[c] {
                        self.toggled_cells = self.toggled_cells - 1;
                    } else {
                        self.toggled_cells = self.toggled_cells + 1;
                    }
                    self.cells.set(c, v);
                },
            }
            j = j + 1;
        }
        proof {
            assert(choices@.subrange(0, n as int) =~= choices@);
        }
        self.throws = self.throws + 1;
        self.toggled_cells >= self.goal_cells
    }
}

/// The sum of a prefix of the dice never exceeds the sum of all of them.
pub proof fn lemma_sum_sides_prefix(ds: Seq<Dice>, i: int)
    requires
        0 <= i <= ds.len(),
    ensures
        sum_sides(ds.subrange(0, i)) <= sum_sides(ds),
    decreases ds.len() - i,
{
    if i == ds.len() {
        assert(ds.subrange(0, i) =~= ds);
    } else {
        lemma_sum_sides_prefix(ds, i + 1);
        assert(ds.subrange(0, i + 1).drop_last() =~= ds.subrange(0, i));
        assert(ds.subrange(0, i + 1).last() == ds[i]);
    }
}

/// The sum of a prefix of a roll never exceeds the sum of the whole roll.
pub proof fn lemma_sum_faces_prefix(t: Seq<(usize, usize)>, i: int)
    requires
        0 <= i <= t.len(),
    ensures
        sum_faces(t.subrange(0, i)) <= sum_faces(t),
    decreases t.len() - i,
{
    if i == t.len() {
        assert(t.subrange(0, i) =~= t);
    } else {
        lemma_sum_faces_prefix(t, i + 1);
        assert(t.subrange(0, i + 1).drop_last() =~= t.subrange(0, i));
        assert(t.subrange(0, i + 1).last() == t[i]);
    }
}

/// Every face of a roll is at most the roll's total.
pub proof fn lemma_face_le_sum(t: Seq<(usize, usize)>, k: int)
    requires
        0 <= k < t.len(),
    ensures
        t[k].0 <= sum_faces(t),
    decreases t.len(),
{
    if k == t.len() - 1 {
        lemma_sum_faces_nonneg(t.drop_last());
    } else {
        lemma_face_le_sum(t.drop_last(), k);
        assert(t.drop_last()[k] == t[k]);
    }
}

/// A roll's total is never negative.
pub proof fn lemma_sum_faces_nonneg(t: Seq<(usize, usize)>)
    ensures
        sum_faces(t) >= 0,
    decreases t.len(),
{
    if t.len() > 0 {
        lemma_sum_faces_nonneg(t.drop_last());
    }
}

/// For a roll of positive faces, the minimum face lies between 1 and the
/// roll's total.
pub proof fn lemma_min_face_bounds(t: Seq<(usize, usize)>)
    requires
        t.len() >= 1,
        forall|i: int| 0 <= i < t.len() ==> 1 <= (#[trigger] t[i]).0,
    ensures
        1 <= min_face(t),
        min_face(t) <= sum_faces(t),
    decreases t.len(),
{
    assert(1 <= t[t.len() - 1].0);
    if t.len() == 1 {
        assert(sum_faces(t.drop_last()) == 0);
        assert(sum_faces(t) == t[0].0);
    } else {
        let dl = t.drop_last();
        assert forall|i: int| 0 <= i < dl.len() implies 1 <= (#[trigger] dl[i]).0 by {
            assert(dl[i] == t[i]);
        }
        lemma_min_face_bounds(dl);
        assert(sum_faces(t) == sum_faces(dl) + t.last().0);
        if t.last().0 < min_face(dl) {
            assert(min_face(t) == t.last().0);
            assert(min_face(t) <= sum_faces(t)) by {
                assert(sum_faces(dl) >= 1);
            }
        } else {
            assert(min_face(t) == min_face(dl));
            assert(min_face(t) <= sum_faces(t)) by {
                assert(t.last().0 >= 1);
            }
        }
    }
}

/// A roll whose faces are bounded by the matching dice's side counts sums
/// to at most the sum of those side counts.
pub proof fn lemma_sum_faces_le_sum_sides(t: Seq<(usize, usize)>, ds: Seq<Dice>)
    requires
        t.len() == ds.len(),
        forall|i: int| 0 <= i < t.len() ==> (#[trigger] t[i]).0 <= ds[i].sides,
    ensures
        sum_faces(t) <= sum_sides(ds),
    decreases t.len(),
{
    if t.len() > 0 {
        assert forall|i: int|
            0 <= i < t.drop_last().len() implies (#[trigger] t.drop_last()[i]).0
            <= ds.drop_last()[i].sides by {
            assert(t.drop_last()[i] == t[i]);
            assert(ds.drop_last()[i] == ds[i]);
        }
        lemma_sum_faces_le_sum_sides(t.drop_last(), ds.drop_last());
    }
}

/// The total of all face values of a roll.
pub fn total_of(throws: &[(usize, usize)]) -> (r: usize)
    requires
        sum_faces(throws@) <= usize::MAX,
    ensures
        r == sum_faces(throws@),
{
    let ghost t = throws@;
    proof {
        lemma_sum_faces_nonneg(t);
    }
    let mut sum: usize = 0;
    let mut i: usize = 0;
    while i < throws.len()
        invariant
            i <= t.len(),
            throws@ == t,
            sum == sum_faces(t.subrange(0, i as int)),
            sum_faces(t) <= usize::MAX,
        decreases t.len() - i,
    {
        proof {
            lemma_sum_faces_prefix(t, i as int + 1);
            assert(t.subrange(0, i as int + 1).drop_last() =~= t.subrange(0, i as int));
            assert(t.subrange(0, i as int + 1).last() == t[i as int]);
        }
        sum = sum + throws[i].0;
        i = i + 1;
    }
    proof {
        assert(t.subrange(0, t.len() as int) =~= t);
    }
    sum
}

/// The smallest face value of a non-empty roll.
pub fn min_of(throws: &[(usize, usize)]) -> (r: usize)
    requires
        throws@.len() >= 1,
    ensures
        r == min_face(throws@),
{
    let ghost t = throws@;
    let mut m: usize = throws[0].0;
    let mut i: usize = 1;
    proof {
        assert(t.subrange(0, 1).len() == 1);
        assert(t.subrange(0, 1)[0] == t[0]);
    }
    while i < throws.len()
        invariant
            1 <= i <= t.len(),
            throws@ == t,
            m == min_face(t.subrange(0, i as int)),
        decreases t.len() - i,
    {
        proof {
            assert(t.subrange(0, i as int + 1).drop_last() =~= t.subrange(0, i as int));
            assert(t.subrange(0, i as int + 1).last() == t[i as int]);
        }
        if throws[i].0 < m {
            m = throws[i].0;
        }
        i = i + 1;
    }
    proof {
        assert(t.subrange(0, t.len() as int) =~= t);
    }
    m
}

/// The face values of a roll, one per die, in roll order.
pub open spec fn spec_faces(throws: Seq<(usize, usize)>) -> Seq<usize> {
    throws.map_values(|p: (usize, usize)| p.0)
}

impl AllOrOne {
    /// Whether choosing this strategy would mark at least one clear cell:
    /// TOTAL looks at the cell of the roll's sum, INDIVIDUAL at the cells of
    /// the single faces.
    pub open spec fn spec_is_worth(self, game: Clacker, throws: Seq<(usize, usize)>) -> bool {
        match self {
            AllOrOne::TOTAL => !game.cells@[sum_faces(throws)],
            AllOrOne::INDIVIDUAL => exists|i: int|
                0 <= i < throws.len() && !game.cells@[(#[trigger] throws[i]).0 as int],
        }
    }

    pub fn is_worth(&self, game: &Clacker, throws: &[(usize, usize)]) -> (r: bool)
        requires
            game.wf(),
            throws@.len() >= 1,
            forall|i: int| 0 <= i < throws@.len() ==> 1 <= (#[trigger] throws@[i]).0,
            sum_faces(throws@) <= game.goal_cells,
        ensures
            r == self.spec_is_worth(*game, throws@),
    {
        match self {
            AllOrOne::TOTAL => {
                let s = total_of(throws);
                !game.cells[s]
            },
            AllOrOne::INDIVIDUAL => {
                let ghost t = throws@;
                let mut found = false;
                let mut i: usize = 0;
                while i < throws.len()
                    invariant
                        i <= t.len(),
                        throws@ == t,
                        game.wf(),
                        forall|k: int| 0 <= k < t.len() ==> 1 <= (#[trigger] t[k]).0,
                        sum_faces(t) <= game.goal_cells,
                        found == exists|k: int|
                            0 <= k < i && !game.cells@[(#[trigger] t[k]).0 as int],
                    decreases t.len() - i,
                {
                    proof {
                        lemma_face_le_sum(t, i as int);
                    }
                    if !game.cells[throws[i].0] {
                        found = true;
                    }
                    i = i + 1;
                }
                found
            },
        }
    }

    /// The board indices the chosen strategy yields: the single total, or
    /// one index per die face.
    pub fn resolve(&self, throws: &[(usize, usize)]) -> (r: Vec<usize>)
        requires
            sum_faces(throws@) <= usize::MAX,
        ensures
            *self == AllOrOne::TOTAL ==> r@.len() == 1 && r@[0] == sum_faces(throws@),
            *self == AllOrOne::INDIVIDUAL ==> r@ == spec_faces(throws@),
    {
        match self {
            AllOrOne::TOTAL => {
                let s = total_of(throws);
                let mut v: Vec<usize> = Vec::new();
                v.push(s);
                v
            },
            AllOrOne::INDIVIDUAL => {
                let ghost t = throws@;
                let mut v: Vec<usize> = Vec::new();
                let mut i: usize = 0;
                while i < throws.len()
                    invariant
                        i <= t.len(),
                        throws@ == t,
                        v@.len() == i,
                        forall|k: int| 0 <= k < i ==> v@[k] == (#[trigger] t[k]).0,
                    decreases t.len() - i,
                {
                    v.push(throws[i].0);
                    i = i + 1;
                }
                proof {
                    assert(v@ =~= spec_faces(t));
                }
                v
            },
        }
    }
}

/// The strategies an ALLORONE roll offers: under TOGGLE always both, under
/// REMOVE only the worthwhile ones, TOTAL listed before INDIVIDUAL.
pub open spec fn spec_choices(game: Clacker, throws: Seq<(usize, usize)>) -> Seq<AllOrOne> {
    if game.mode == GameMode::TOGGLE {
        seq![AllOrOne::TOTAL, AllOrOne::INDIVIDUAL]
    } else {
        let tw = AllOrOne::TOTAL.spec_is_worth(game, throws);
        let iw = AllOrOne::INDIVIDUAL.spec_is_worth(game, throws);
        if tw && iw {
            seq![AllOrOne::TOTAL, AllOrOne::INDIVIDUAL]
        } else if tw {
            seq![AllOrOne::TOTAL]
        } else if iw {
            seq![AllOrOne::INDIVIDUAL]
        } else {
            Seq::empty()
        }
    }
}

/// What one roll offers under the current rules: indices applied with no
/// choice left, a choice between the two ALLORONE strategies, an
/// interactively built SELECTION stack, or a skipped turn.
pub enum TurnPlan {
    /// The indices to apply, with no choice to make.
    Auto(Vec<usize>),
    /// Both ALLORONE strategies are worthwhile; the player picks one.
    Choose,
    /// SELECTION is legal: the player places each die into the stack.
    BuildStack,
    /// No legal move: the board stays as it is, the throw still counts.
    Skip,
}

impl Clacker {
    /// Whether some cell in the inclusive range from the smallest face to
    /// the roll's sum is still clear: the SELECTION legality check.
    pub open spec fn spec_overlap(self, throws: Seq<(usize, usize)>) -> bool {
        exists|n: int| min_face(throws) <= n <= sum_faces(throws) && !self.cells@[n]
    }

    pub fn check_overlap(&self, throws: &[(usize, usize)]) -> (r: bool)
        requires
            self.wf(),
            throws@.len() >= 1,
            forall|i: int| 0 <= i < throws@.len() ==> 1 <= (#[trigger] throws@[i]).0,
            sum_faces(throws@) <= self.goal_cells,
        ensures
            r == self.spec_overlap(throws@),
    {
        proof {
            lemma_min_face_bounds(throws@);
        }
        let max = total_of(throws);
        let min = min_of(throws);
        let mut n: usize = min;
        let mut found = false;
        while n <= max
            invariant
                self.wf(),
                min as int == min_face(throws@),
                max as int == sum_faces(throws@),
                max <= self.goal_cells,
                min <= n,
                n <= max + 1,
                found == exists|k: int| min <= k < n && !self.cells@[k],
            decreases max + 1 - n,
        {
            if !self.cells[n] {
                found = true;
            }
            n = n + 1;
        }
        found
    }

    /// Roll every die once, in order, pairing each face value with its
    /// die's side count. The faces are random; only their ranges and the
    /// bound on their sum are known.
    pub fn throw(&self) -> (r: Vec<(usize, usize)>)
        requires
            self.wf(),
        ensures
            r@.len() == self.dices@.len(),
            forall|i: int|
                0 <= i < r@.len() ==> 1 <= (#[trigger] r@[i]).0 <= self.dices@[i].sides
                    && (#[trigger] r@[i]).1 == self.dices@[i].sides,
            sum_faces(r@) <= self.goal_cells,
    {
        let ghost ds = self.dices@;
        let mut r: Vec<(usize, usize)> = Vec::new();
        let mut i: usize = 0;
        while i < self.dices.len()
            invariant
                i <= ds.len(),
                self.dices@ == ds,
                forall|k: int| 0 <= k < ds.len() ==> dice_wf(#[trigger] ds[k]),
                r@.len() == i,
                forall|k: int|
                    0 <= k < i ==> 1 <= (#[trigger] r@[k]).0 <= ds[k].sides && r@[k].1
                        == ds[k].sides,
            decreases ds.len() - i,
        {
            let d = &self.dices[i];
            let face = d.throw();
            r.push((face, d.sides()));
            i = i + 1;
        }
        proof {
            lemma_sum_faces_le_sum_sides(r@, ds);
        }
        r
    }

    /// The strategies the roll offers under ALLORONE: under TOGGLE both,
    /// under REMOVE only the worthwhile ones.
    pub fn all_or_one_choices(&self, throws: &[(usize, usize)]) -> (r: Vec<AllOrOne>)
        requires
            self.wf(),
            throws@.len() >= 1,
            forall|i: int| 0 <= i < throws@.len() ==> 1 <= (#[trigger] throws@[i]).0,
            sum_faces(throws@) <= self.goal_cells,
        ensures
            r@ == spec_choices(*self, throws@),
    {
        let mut v: Vec<AllOrOne> = Vec::new();
        match self.mode {
            GameMode::TOGGLE => {
                v.push(AllOrOne::TOTAL);
                v.push(AllOrOne::INDIVIDUAL);
            },
            GameMode::REMOVE => {
                if AllOrOne::TOTAL.is_worth(self, throws) {
                    v.push(AllOrOne::TOTAL);
                }
                if AllOrOne::INDIVIDUAL.is_worth(self, throws) {
                    v.push(AllOrOne::INDIVIDUAL);
                }
            },
        }
        proof {
            assert(v@ =~= spec_choices(*self, throws@));
        }
        v
    }

    /// Decide what the given roll offers. A single die is applied as it
    /// is; with several dice the combination mode and, under REMOVE, the
    /// current board state decide.
    pub fn derive_turn(&self, throws: &[(usize, usize)]) -> (r: TurnPlan)
        requires
            self.wf(),
            throws@.len() >= 1,
            forall|i: int| 0 <= i < throws@.len() ==> 1 <= (#[trigger] throws@[i]).0,
            sum_faces(throws@) <= self.goal_cells,
        ensures
            throws@.len() == 1 ==> (r matches TurnPlan::Auto(v) && v@.len() == 1 && v@[0]
                == throws@[0].0),
            throws@.len() > 1 && self.dice_mode == DiceMode::ALLORONE && spec_choices(
                *self,
                throws@,
            ).len() == 0 ==> r matches TurnPlan::Skip,
            throws@.len() > 1 && self.dice_mode == DiceMode::ALLORONE && spec_choices(
                *self,
                throws@,
            ) == seq![AllOrOne::TOTAL] ==> (r matches TurnPlan::Auto(v) && v@.len() == 1 && v@[0]
                == sum_faces(throws@)),
            throws@.len() > 1 && self.dice_mode == DiceMode::ALLORONE && spec_choices(
                *self,
                throws@,
            ) == seq![AllOrOne::INDIVIDUAL] ==> (r matches TurnPlan::Auto(v) && v@ == spec_faces(
                throws@,
            )),
            throws@.len() > 1 && self.dice_mode == DiceMode::ALLORONE && spec_choices(
                *self,
                throws@,
            ).len() == 2 ==> r matches TurnPlan::Choose,
            throws@.len() > 1 && self.dice_mode == DiceMode::SELECTION ==> (if self.mode
                == GameMode::REMOVE && !self.spec_overlap(throws@) {
                r matches TurnPlan::Skip
            } else {
                r matches TurnPlan::BuildStack
            }),
    {
        if throws.len() == 1 {
            let mut v: Vec<usize> = Vec::new();
            v.push(throws[0].0);
            TurnPlan::Auto(v)
        } else {
            match self.dice_mode {
                DiceMode::ALLORONE => {
                    let cs = self.all_or_one_choices(throws);
                    if cs.len() == 0 {
                        TurnPlan::Skip
                    } else if cs.len() == 1 {
                        let c = cs[0];
                        TurnPlan::Auto(c.resolve(throws))
                    } else {
                        TurnPlan::Choose
                    }
                },
                DiceMode::SELECTION => {
                    if self.mode == GameMode::REMOVE && !self.check_overlap(throws) {
                        TurnPlan::Skip
                    } else {
                        TurnPlan::BuildStack
                    }
                },
            }
        }
    }

    /// One row per reachable cell, pairing the index with its marked state,
    /// for display by the surrounding program.
    pub fn board_snapshot(&self) -> (r: Vec<(usize, bool)>)
        requires
            self.wf(),
        ensures
            r@.len() == self.goal_cells,
            forall|i: int|
                0 <= i < r@.len() ==> #[trigger] r@[i] == ((i + 1) as usize, self.cells@[i + 1]),
    {
        let mut r: Vec<(usize, bool)> = Vec::new();
        let mut i: usize = 1;
        while i <= self.goal_cells
            invariant
                self.wf(),
                1 <= i,
                i <= self.goal_cells + 1,
                r@.len() == i - 1,
                forall|k: int|
                    0 <= k < r@.len() ==> #[trigger] r@[k] == ((k + 1) as usize, self.cells@[k + 1]),
            decreases self.goal_cells + 1 - i,
    {
            r.push((i, !self.is_clear(i)));
            i = i + 1;
        }
        r
    }
}

/// One placement step in SELECTION mode: the face joins an existing slot's
/// running total, or opens a new slot at the end of the stack.
pub open spec fn spec_place(stack: Seq<usize>, slot: int, face: usize) -> Seq<usize> {
    if slot < stack.len() {
        stack.update(slot, (stack[slot] + face) as usize)
    } else {
        stack.push(face)
    }
}

/// Place one die's face into the player's stack, at a slot the caller has
/// already validated: an existing slot, or the one just past the end.
pub fn place_in_stack(stack: &mut Vec<usize>, slot: usize, face: usize)
    requires
        slot <= old(stack)@.len(),
        slot < old(stack)@.len() ==> old(stack)@[slot as int] + face <= usize::MAX,
    ensures
        final(stack)@ == spec_place(old(stack)@, slot as int, face),
{
    if slot < stack.len() {
        let v = stack[slot] + face;
        stack.set(slot, v);
    } else {
        stack.push(face);
    }
}

/// Sum of a list of side counts.
pub open spec fn sum_counts(counts: Seq<usize>) -> int
    decreases counts.len(),
{
    if counts.len() == 0 {
        0
    } else {
        sum_counts(counts.drop_last()) + counts.last()
    }
}

/// Dice built one per side count sum to the same total as the counts.
proof fn lemma_sum_sides_matches_counts(ds: Seq<Dice>, counts: Seq<usize>)
    requires
        ds.len() == counts.len(),
        forall|i: int| 0 <= i < ds.len() ==> (#[trigger] ds[i]).sides == counts[i],
    ensures
        sum_sides(ds) == sum_counts(counts),
    decreases ds.len(),
{
    if ds.len() > 0 {
        assert forall|i: int|
            0 <= i < ds.drop_last().len() implies (#[trigger] ds.drop_last()[i]).sides
            == counts.drop_last()[i] by {
            assert(ds.drop_last()[i] == ds[i]);
            assert(counts.drop_last()[i] == counts[i]);
        }
        lemma_sum_sides_matches_counts(ds.drop_last(), counts.drop_last());
    }
}

/// Build a game from the dice's side counts and the two rule axes. The
/// configuration is rejected when there is no die at all or when some die
/// has fewer than two sides.
pub fn new_game(side_counts: &Vec<usize>, mode: GameMode, dice_mode: DiceMode) -> (r: Result<
    Clacker,
    InvalidConfiguration,
>)
    requires
        sum_counts(side_counts@) + 1 <= usize::MAX,
    ensures
        side_counts@.len() == 0 ==> (r matches Err(e) && e == InvalidConfiguration::NoDice),
        side_counts@.len() >= 1 && (exists|i: int|
            0 <= i < side_counts@.len() && side_counts@[i] < 2) ==> (r matches Err(e) && e
            == InvalidConfiguration::TooFewSides),
        side_counts@.len() >= 1 && (forall|i: int|
            0 <= i < side_counts@.len() ==> side_counts@[i] >= 2) ==> (r matches Ok(g) && {
            &&& g.wf()
            &&& g.mode == mode
            &&& g.dice_mode == dice_mode
            &&& g.goal_cells == sum_counts(side_counts@)
            &&& g.toggled_cells == 0
            &&& g.throws == 0
            &&& g.dices@.len() == side_counts@.len()
            &&& forall|i: int|
                0 <= i < g.dices@.len() ==> (#[trigger] g.dices@[i]).sides == side_counts@[i]
            &&& forall|i: int| 0 <= i < g.cells@.len() ==> !(#[trigger] g.cells@[i])
        }),
{
    if side_counts.len() == 0 {
        return Err(InvalidConfiguration::NoDice);
    }
    let mut dices: Vec<Dice> = Vec::new();
    let mut i: usize = 0;
    while i < side_counts.len()
        invariant
            i <= side_counts@.len(),
            dices@.len() == i,
            forall|k: int| 0 <= k < i ==> (#[trigger] dices@[k]).sides == side_counts@[k],
            forall|k: int| 0 <= k < i ==> dice_wf(#[trigger] dices@[k]),
            forall|k: int| 0 <= k < i ==> side_counts@[k] >= 2,
        decreases side_counts@.len() - i,
    {
        let c = side_counts[i];
        if c < 2 {
            return Err(InvalidConfiguration::TooFewSides);
        }
        dices.push(Dice::new(c));
        i = i + 1;
    }
    proof {
        lemma_sum_sides_matches_counts(dices@, side_counts@);
    }
    Ok(Clacker::new(dices, mode, dice_mode))
}

/// A board with no marked cell has a marked count of zero.
pub proof fn lemma_marked_count_all_clear(s: Seq<bool>)
    requires
        forall|k: int| 0 <= k < s.len() ==> !s[k],
    ensures
        marked_count(s) == 0,
    decreases s.len(),
{
    if s.len() > 0 {
        assert forall|k: int| 0 <= k < s.drop_last().len() implies !s.drop_last()[k] by {
            assert(s.drop_last()[k] == s[k]);
        }
        lemma_marked_count_all_clear(s.drop_last());
    }
}

} // verus!
