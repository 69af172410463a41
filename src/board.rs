//! The automaton engine: a toroidal grid of state indices, the ordered list of
//! state definitions, neighbour counting, and the synchronous step.
use vstd::prelude::*;
use vstd::string::StringExecFns;

use crate::rule::{
    counts, fix_ref, lemma_renumbered_refs, lemma_successor_below, repair_ref, Predicate, Rule,
    State, StateView,
};

verus! {

/// A coordinate one step off the grid wraps to the opposite edge.
pub open spec fn wrap(c: int, len: int) -> int {
    if c < 0 {
        len - 1
    } else if c >= len {
        0
    } else {
        c
    }
}

/// The row of neighbour slot `k` of a cell in row `y`. The slots 0 to 8 walk
/// the 3x3 block around the cell row by row; slot 4 is the cell itself.
pub open spec fn neighbor_row(grid: Seq<Seq<usize>>, y: int, k: int) -> int {
    wrap(y + k / 3 - 1, grid.len() as int)
}

/// The column of neighbour slot `k` of a cell in column `x`.
pub open spec fn neighbor_col(grid: Seq<Seq<usize>>, x: int, k: int) -> int {
    wrap(x + k % 3 - 1, grid[0].len() as int)
}

/// The state in neighbour slot `k` of cell `(x, y)`.
pub open spec fn neighbor(grid: Seq<Seq<usize>>, x: int, y: int, k: int) -> usize {
    grid[neighbor_row(grid, y, k)][neighbor_col(grid, x, k)]
}

/// How many of the neighbour slots below `k` (the cell itself excluded) hold
/// state `s`.
pub open spec fn count_in_slots(grid: Seq<Seq<usize>>, x: int, y: int, s: int, k: nat) -> nat
    decreases k,
{
    if k == 0 {
        0
    } else {
        let hit: nat = if k - 1 != 4 && neighbor(grid, x, y, k - 1) == s {
            1
        } else {
            0
        };
        count_in_slots(grid, x, y, s, (k - 1) as nat) + hit
    }
}

/// The neighbour histogram of cell `(x, y)` over `n` states: entry `s` is the
/// number of its eight Moore neighbours in state `s`.
pub open spec fn histogram(grid: Seq<Seq<usize>>, x: int, y: int, n: nat) -> Seq<int> {
    Seq::new(n, |s: int| count_in_slots(grid, x, y, s, 9) as int)
}

/// A `height` by `width` grid with every cell in state 0.
pub open spec fn blank_grid(width: nat, height: nat) -> Seq<Seq<usize>> {
    Seq::new(height, |y: int| Seq::new(width, |x: int| 0usize))
}

/// The state list with every index set to its position and every reference
/// repaired by `fix_ref`.
pub open spec fn renumber_all(states: Seq<StateView>, removed: Option<usize>) -> Seq<StateView> {
    Seq::new(states.len(), |i: int| states[i].renumbered(i as usize, states.len(), removed))
}

/// The built-in two-state rule set, standard Game of Life: state 0 (dead,
/// black) becomes alive on exactly 3 live neighbours; state 1 (alive, white)
/// stays alive on exactly 2 or 3 live neighbours; both otherwise fall to 0.
pub open spec fn default_states() -> Seq<StateView> {
    seq![
        StateView {
            index: 0,
            color: "#000000"@,
            fail_state: 0,
            rules: seq![Rule { target_state: 1, target_count: 3, count_state: 1, predicate: Predicate::Equals }],
        },
        StateView {
            index: 1,
            color: "#FFFFFF"@,
            fail_state: 0,
            rules: seq![
                Rule { target_state: 1, target_count: 2, count_state: 1, predicate: Predicate::Equals },
                Rule { target_state: 1, target_count: 3, count_state: 1, predicate: Predicate::Equals },
            ],
        },
    ]
}

/// Builds the built-in two-state rule set.
fn default_state_list() -> (r: Vec<State>)
    ensures
        r@.map_values(|s: State| s@) == default_states(),
        states_wf(default_states()),
{
    let dead = State::new(
        0,
        String::from_str("#000000"),
        0,
        vec![Rule::new(1, 3, 1, Predicate::Equals)],
    );
    let alive = State::new(
        1,
        String::from_str("#FFFFFF"),
        0,
        vec![Rule::new(1, 2, 1, Predicate::Equals), Rule::new(1, 3, 1, Predicate::Equals)],
    );
    let r = vec![dead, alive];
    assert(dead.rules@ =~= default_states()[0].rules);
    assert(alive.rules@ =~= default_states()[1].rules);
    assert(r@.map_values(|s: State| s@) =~= default_states());
    r
}

/// Whether a state list is usable: non-empty, each index equal to its
/// position, and every reference in range.
pub open spec fn states_wf(states: Seq<StateView>) -> bool {
    &&& states.len() > 0
    &&& forall|i: int|
        0 <= i < states.len() ==> (#[trigger] states[i]).index == i && states[i].refs_below(
            states.len(),
        )
}

/// Errors reported by the engine.
#[derive(Clone, Copy, Debug, PartialEq, Eq, Structural)]
pub enum BoardError {
    /// A width or height of zero.
    InvalidDimensions,
    /// An empty list of states.
    NoStates,
    /// A cell or rule position outside the board or the rule list.
    OutOfBounds,
    /// A state index outside the state list.
    UnknownState,
    /// Removing the only state left.
    LastState,
}

/// The grid (`grid[y][x]` is the state of the cell in row `y`, column `x`)
/// and the ordered state definitions.
#[derive(Clone, Debug)]
pub struct Board {
    pub grid: Vec<Vec<usize>>,
    pub state_types: Vec<State>,
}

/// The mathematical value of a `Board`.
pub struct BoardView {
    pub grid: Seq<Seq<usize>>,
    pub states: Seq<StateView>,
}

impl View for Board {
    type V = BoardView;

    open spec fn view(&self) -> BoardView {
        BoardView {
            grid: self.grid@.map_values(|row: Vec<usize>| row@),
            states: self.state_types@.map_values(|s: State| s@),
        }
    }
}

impl BoardView {
    pub open spec fn height(self) -> int {
        self.grid.len() as int
    }

    pub open spec fn width(self) -> int {
        self.grid[0].len() as int
    }

    /// A non-empty rectangular grid whose cells all name a state, over a
    /// well-formed state list.
    pub open spec fn wf(self) -> bool {
        &&& self.grid.len() > 0
        &&& self.grid[0].len() > 0
        &&& forall|y: int| 0 <= y < self.grid.len() ==> (#[trigger] self.grid[y]).len() == self.grid[0].len()
        &&& forall|y: int, x: int|
            0 <= y < self.grid.len() && 0 <= x < self.grid[0].len() ==> #[trigger] self.grid[y][x]
                < self.states.len()
        &&& states_wf(self.states)
    }

    /// The neighbour histogram of cell `(x, y)`.
    pub open spec fn histogram_at(self, x: int, y: int) -> Seq<int> {
        histogram(self.grid, x, y, self.states.len())
    }

    /// The state of cell `(x, y)` in the next generation.
    pub open spec fn next_cell(self, x: int, y: int) -> usize {
        self.states[self.grid[y][x] as int].successor(self.histogram_at(x, y))
    }

    /// The next generation: every cell computed from the current grid alone.
    pub open spec fn next_grid(self) -> Seq<Seq<usize>> {
        Seq::new(
            self.grid.len(),
            |y: int| Seq::new(self.grid[y].len(), |x: int| self.next_cell(x, y)),
        )
    }
}

/// A `height` by `width` grid of zeros.
fn zero_grid(width: usize, height: usize) -> (r: Vec<Vec<usize>>)
    ensures
        r@.map_values(|row: Vec<usize>| row@) == blank_grid(width as nat, height as nat),
{
    let mut grid: Vec<Vec<usize>> = Vec::new();
    let mut y: usize = 0;
    while y < height
        invariant
            y <= height,
            grid@.len() == y,
            forall|i: int| 0 <= i < y ==> (#[trigger] grid@[i])@ == Seq::new(width as nat, |x: int| 0usize),
        decreases height - y,
    {
        let mut row: Vec<usize> = Vec::new();
        let mut x: usize = 0;
        while x < width
            invariant
                x <= width,
                row@.len() == x,
                forall|i: int| 0 <= i < x ==> row@[i] == 0,
            decreases width - x,
        {
            row.push(0);
            x += 1;
        }
        assert(row@ =~= Seq::new(width as nat, |x: int| 0usize));
        grid.push(row);
        y += 1;
    }
    assert(grid@.map_values(|row: Vec<usize>| row@) =~= blank_grid(width as nat, height as nat));
    grid
}

/// Sets every state's index to its position and repairs its references.
fn renumber_states(states: &mut Vec<State>, removed: Option<usize>)
    ensures
        final(states)@.map_values(|s: State| s@) == renumber_all(old(states)@.map_values(|s: State| s@), removed),
{
    let ghost before = old(states)@.map_values(|s: State| s@);
    let n = states.len();
    let mut i: usize = 0;
    while i < n
        invariant
            i <= n,
            n == states@.len(),
            before.len() == n,
            before == old(states)@.map_values(|s: State| s@),
            forall|m: int| 0 <= m < i ==> (#[trigger] states@[m])@ == before[m].renumbered(m as usize, n as nat, removed),
            forall|m: int| i <= m < n ==> (#[trigger] states@[m])@ == before[m],
        decreases n - i,
    {
        states[i].renumber(i, n, removed);
        i += 1;
    }
    assert(states@.map_values(|s: State| s@) =~= renumber_all(before, removed));
}

/// A renumbered state list is well formed.
proof fn lemma_renumber_all_wf(states: Seq<StateView>, removed: Option<usize>)
    requires
        0 < states.len() <= usize::MAX,
    ensures
        states_wf(renumber_all(states, removed)),
{
    let r = renumber_all(states, removed);
    let n = states.len();
    assert forall|i: int| 0 <= i < n implies (#[trigger] r[i]).index == i && r[i].refs_below(n) by {
        lemma_renumbered_refs(states[i], i as usize, n, removed);
    }
}

/// The coordinate `c + d - 1` on an axis of length `len`, wrapped.
fn shift(c: usize, d: usize, len: usize) -> (r: usize)
    requires
        c < len,
        d < 3,
    ensures
        r == wrap(c + d - 1, len as int),
{
    if d == 0 {
        if c == 0 {
            len - 1
        } else {
            c - 1
        }
    } else if d == 1 {
        c
    } else if c + 1 >= len {
        0
    } else {
        c + 1
    }
}

impl Board {
    /// The board's invariant, on its view.
    pub open spec fn wf(&self) -> bool {
        self@.wf()
    }

    /// A `width` by `height` board with every cell in state 0. With no state
    /// list the built-in two-state rule set is installed; a given list has
    /// each index set to its position and each reference out of range reset
    /// to state 0. Fails on a zero dimension or an empty state list.
    pub fn new(width: usize, height: usize, state_types: Option<Vec<State>>) -> (r: Result<Board, BoardError>)
        ensures
            width == 0 || height == 0 ==> r == Err::<Board, BoardError>(BoardError::InvalidDimensions),
            width > 0 && height > 0 && state_types is Some && state_types->0@.len() == 0 ==> r == Err::<
                Board,
                BoardError,
            >(BoardError::NoStates),
            r is Ok <==> width > 0 && height > 0 && (state_types is None || state_types->0@.len() > 0),
            r matches Ok(b) ==> {
                &&& b.wf()
                &&& b@.grid == blank_grid(width as nat, height as nat)
                &&& b@.states == match state_types {
                    None => default_states(),
                    Some(v) => renumber_all(v@.map_values(|s: State| s@), None),
                }
            },
    {
        if width == 0 || height == 0 {
            return Err(BoardError::InvalidDimensions);
        }
        let states = match state_types {
            Some(mut v) => {
                if v.len() == 0 {
                    return Err(BoardError::NoStates);
                }
                proof {
                    lemma_renumber_all_wf(v@.map_values(|s: State| s@), None);
                }
                renumber_states(&mut v, None);
                v
            },
            None => default_state_list(),
        };
        let grid = zero_grid(width, height);
        let board = Board { grid, state_types: states };
        assert(board@.grid == blank_grid(width as nat, height as nat));
        Ok(board)
    }

    /// Checks every invariant of the board: a non-empty rectangular grid whose
    /// cells all name a state, a non-empty state list, each index equal to its
    /// position, and every reference in range. Callers that edit the public
    /// fields directly use it before stepping.
    pub fn is_valid(&self) -> (r: bool)
        ensures
            r == self.wf(),
    {
        let height = self.grid.len();
        if height == 0 {
            return false;
        }
        let width = self.grid[0].len();
        if width == 0 {
            return false;
        }
        let n = self.state_types.len();
        if n == 0 {
            return false;
        }
        let ghost v = self@;
        let mut i: usize = 0;
        while i < n
            invariant
                v == self@,
                n == v.states.len(),
                i <= n,
                forall|m: int| 0 <= m < i ==> (#[trigger] v.states[m]).index == m && v.states[m].refs_below(n as nat),
            decreases n - i,
        {
            let st = &self.state_types[i];
            assert(st@ == v.states[i as int]);
            if st.index != i || !st.refs_within(n) {
                return false;
            }
            i += 1;
        }
        assert(states_wf(v.states));
        let mut y: usize = 0;
        while y < height
            invariant
                v == self@,
                n == v.states.len(),
                height == v.grid.len(),
                width == v.grid[0].len(),
                y <= height,
                forall|m: int| 0 <= m < y ==> (#[trigger] v.grid[m]).len() == width,
                forall|m: int, x: int| 0 <= m < y && 0 <= x < width ==> #[trigger] v.grid[m][x] < n,
            decreases height - y,
        {
            let row = &self.grid[y];
            assert(row@ == v.grid[y as int]);
            if row.len() != width {
                return false;
            }
            let mut x: usize = 0;
            while x < width
                invariant
                    v == self@,
                    row@ == v.grid[y as int],
                    row@.len() == width,
                    n == v.states.len(),
                    height == v.grid.len(),
                    width == v.grid[0].len(),
                    y < height,
                    x <= width,
                    forall|m: int, c: int| 0 <= m < y && 0 <= c < width ==> #[trigger] v.grid[m][c] < n,
                    forall|c: int| 0 <= c < x ==> #[trigger] v.grid[y as int][c] < n,
                decreases width - x,
            {
                if row[x] >= n {
                    return false;
                }
                x += 1;
            }
            y += 1;
        }
        true
    }

    /// The state of cell `(x, y)`; fails outside the grid.
    pub fn cell(&self, x: usize, y: usize) -> (r: Result<usize, BoardError>)
        requires
            self.wf(),
        ensures
            r == if y < self@.height() && x < self@.width() {
                Ok::<usize, BoardError>(self@.grid[y as int][x as int])
            } else {
                Err::<usize, BoardError>(BoardError::OutOfBounds)
            },
    {
        if y >= self.grid.len() || x >= self.grid[0].len() {
            return Err(BoardError::OutOfBounds);
        }
        assert(self.grid@[y as int]@ == self@.grid[y as int]);
        Ok(self.grid[y][x])
    }

    /// Paints cell `(x, y)` with `state`. Fails, leaving the board as it was,
    /// outside the grid or on a state that does not exist.
    pub fn set_cell(&mut self, x: usize, y: usize, state: usize) -> (r: Result<(), BoardError>)
        requires
            old(self).wf(),
        ensures
            final(self).wf(),
            r == if !(y < old(self)@.height() && x < old(self)@.width()) {
                Err::<(), BoardError>(BoardError::OutOfBounds)
            } else if state >= old(self)@.states.len() {
                Err::<(), BoardError>(BoardError::UnknownState)
            } else {
                Ok::<(), BoardError>(())
            },
            r is Err ==> final(self)@ == old(self)@,
            r is Ok ==> final(self)@.grid == old(self)@.grid.update(
                y as int,
                old(self)@.grid[y as int].update(x as int, state),
            ),
            final(self)@.states == old(self)@.states,
    {
        if y >= self.grid.len() || x >= self.grid[0].len() {
            return Err(BoardError::OutOfBounds);
        }
        if state >= self.state_types.len() {
            return Err(BoardError::UnknownState);
        }
        let ghost before = self@;
        assert(before.grid[y as int] == self.grid@[y as int]@);
        self.grid[y][x] = state;
        assert(self@.grid =~= before.grid.update(y as int, before.grid[y as int].update(x as int, state)));
        assert(self@.states =~= before.states);
        Ok(())
    }

    /// Appends a state and returns its index. Existing cells and references
    /// are left as they are; the new state's index is set to its position and
    /// its references that name no state (counting itself) fall back to 0.
    pub fn add_state(&mut self, state: State) -> (id: usize)
        requires
            old(self).wf(),
            old(self)@.states.len() < usize::MAX,
        ensures
            final(self).wf(),
            id == old(self)@.states.len(),
            final(self)@.grid == old(self)@.grid,
            final(self)@.states == old(self)@.states.push(state@.renumbered(id, (id + 1) as nat, None)),
    {
        let ghost before = self@;
        let ghost given = state@;
        let n = self.state_types.len();
        let mut state = state;
        state.renumber(n, n + 1, None);
        proof {
            lemma_renumbered_refs(given, n, (n + 1) as nat, None);
        }
        self.state_types.push(state);
        let ghost after = self@;
        assert(after.states =~= before.states.push(given.renumbered(n, (n + 1) as nat, None)));
        assert(after.grid == before.grid);
        assert forall|i: int| 0 <= i < after.states.len() implies (#[trigger] after.states[i]).index == i
            && after.states[i].refs_below(after.states.len()) by {
            if i < n {
                assert(before.states[i].refs_below(before.states.len()));
                assert forall|j: int| 0 <= j < after.states[i].rules.len() implies #[trigger] after.states[i].rules[j].refs_below(
                    after.states.len(),
                ) by {
                    assert(before.states[i].rules[j].refs_below(before.states.len()));
                }
            }
        }
        n
    }

    /// Removes state `id`. The states after it move down one place and their
    /// indices follow; every reference to the removed state, or past the new
    /// end of the list, falls back to state 0; the grid is reset to all state
    /// 0, keeping its size. Fails, leaving the board as it was, on a state
    /// that does not exist or on the only state left.
    pub fn remove_state(&mut self, id: usize) -> (r: Result<(), BoardError>)
        requires
            old(self).wf(),
        ensures
            final(self).wf(),
            r == if id >= old(self)@.states.len() {
                Err::<(), BoardError>(BoardError::UnknownState)
            } else if old(self)@.states.len() == 1 {
                Err::<(), BoardError>(BoardError::LastState)
            } else {
                Ok::<(), BoardError>(())
            },
            r is Err ==> final(self)@ == old(self)@,
            r is Ok ==> final(self)@.states == renumber_all(old(self)@.states.remove(id as int), Some(id)),
            r is Ok ==> final(self)@.grid == blank_grid(
                old(self)@.width() as nat,
                old(self)@.height() as nat,
            ),
            r is Ok ==> final(self)@.states.len() == old(self)@.states.len() - 1,
            r is Ok ==> forall|i: int|
                0 <= i < final(self)@.states.len() ==> (#[trigger] final(self)@.states[i]).index == i
                    && final(self)@.states[i].refs_below((old(self)@.states.len() - 1) as nat),
            r is Ok && id > 0 ==> forall|i: int|
                0 <= i < final(self)@.states.len() ==> (#[trigger] final(self)@.states[i]).refs_avoid(id),
    {
        let n = self.state_types.len();
        if id >= n {
            return Err(BoardError::UnknownState);
        }
        if n == 1 {
            return Err(BoardError::LastState);
        }
        let ghost before = self@;
        let height = self.grid.len();
        let width = self.grid[0].len();
        self.state_types.remove(id);
        let ghost rest = self.state_types@.map_values(|s: State| s@);
        assert(rest =~= before.states.remove(id as int));
        proof {
            lemma_renumber_all_wf(rest, Some(id));
            assert forall|i: int| 0 <= i < rest.len() implies #[trigger] renumber_all(rest, Some(id))[i].refs_avoid(id)
                || id == 0 by {
                lemma_renumbered_refs(rest[i], i as usize, rest.len(), Some(id));
            }
        }
        renumber_states(&mut self.state_types, Some(id));
        self.grid = zero_grid(width, height);
        Ok(())
    }

    /// Appends `rule` to the rules of state `state`; its references that name
    /// no state fall back to 0. Fails, leaving the board as it was, on a state
    /// that does not exist.
    pub fn add_rule(&mut self, state: usize, rule: Rule) -> (r: Result<(), BoardError>)
        requires
            old(self).wf(),
        ensures
            final(self).wf(),
            r is Ok <==> state < old(self)@.states.len(),
            r is Err ==> r == Err::<(), BoardError>(BoardError::UnknownState) && final(self)@ == old(self)@,
            r is Ok ==> final(self)@.grid == old(self)@.grid,
            r is Ok ==> final(self)@.states == old(self)@.states.update(
                state as int,
                StateView {
                    rules: old(self)@.states[state as int].rules.push(
                        rule.retargeted(old(self)@.states.len(), None),
                    ),
                    ..old(self)@.states[state as int]
                },
            ),
    {
        let n = self.state_types.len();
        if state >= n {
            return Err(BoardError::UnknownState);
        }
        let ghost before = self@;
        let fixed = Rule {
            target_state: repair_ref(rule.target_state, n, None),
            target_count: rule.target_count,
            count_state: repair_ref(rule.count_state, n, None),
            predicate: rule.predicate,
        };
        self.state_types[state].rules.push(fixed);
        let ghost after = self@;
        let ghost expected = before.states.update(
            state as int,
            StateView { rules: before.states[state as int].rules.push(fixed), ..before.states[state as int] },
        );
        assert(after.states =~= expected);
        assert(after.grid =~= before.grid);
        assert forall|i: int| 0 <= i < after.states.len() implies (#[trigger] after.states[i]).index == i
            && after.states[i].refs_below(n as nat) by {
            assert(before.states[i].refs_below(n as nat));
            if i == state {
                assert forall|j: int| 0 <= j < after.states[i].rules.len() implies #[trigger] after.states[i].rules[j].refs_below(
                    n as nat,
                ) by {
                    if j < before.states[i].rules.len() {
                        assert(before.states[i].rules[j].refs_below(n as nat));
                    }
                }
            }
        }
        Ok(())
    }

    /// Removes and returns rule `index` of state `state`. Fails, leaving the
    /// board as it was, on a state that does not exist or a rule position past
    /// the end of its rules.
    pub fn remove_rule(&mut self, state: usize, index: usize) -> (r: Result<Rule, BoardError>)
        requires
            old(self).wf(),
        ensures
            final(self).wf(),
            state >= old(self)@.states.len() ==> r == Err::<Rule, BoardError>(BoardError::UnknownState),
            state < old(self)@.states.len() && index >= old(self)@.states[state as int].rules.len() ==> r
                == Err::<Rule, BoardError>(BoardError::OutOfBounds),
            r is Ok <==> state < old(self)@.states.len() && index < old(self)@.states[state as int].rules.len(),
            r is Err ==> final(self)@ == old(self)@,
            r is Ok ==> r == Ok::<Rule, BoardError>(old(self)@.states[state as int].rules[index as int]),
            r is Ok ==> final(self)@.grid == old(self)@.grid,
            r is Ok ==> final(self)@.states == old(self)@.states.update(
                state as int,
                StateView {
                    rules: old(self)@.states[state as int].rules.remove(index as int),
                    ..old(self)@.states[state as int]
                },
            ),
    {
        let n = self.state_types.len();
        if state >= n {
            return Err(BoardError::UnknownState);
        }
        if index >= self.state_types[state].rules.len() {
            return Err(BoardError::OutOfBounds);
        }
        let ghost before = self@;
        let removed = self.state_types[state].rules.remove(index);
        let ghost after = self@;
        let ghost expected = before.states.update(
            state as int,
            StateView {
                rules: before.states[state as int].rules.remove(index as int),
                ..before.states[state as int]
            },
        );
        assert(after.states =~= expected);
        assert(after.grid =~= before.grid);
        assert forall|i: int| 0 <= i < after.states.len() implies (#[trigger] after.states[i]).index == i
            && after.states[i].refs_below(n as nat) by {
            assert(before.states[i].refs_below(n as nat));
            if i == state {
                assert forall|j: int| 0 <= j < after.states[i].rules.len() implies #[trigger] after.states[i].rules[j].refs_below(
                    n as nat,
                ) by {
                    if j < index {
                        assert(before.states[i].rules[j].refs_below(n as nat));
                    } else {
                        assert(before.states[i].rules[j + 1].refs_below(n as nat));
                    }
                }
            }
        }
        Ok(removed)
    }

    /// Counts, for each state, how many of the eight neighbours of cell
    /// `(x, y)` are in it, wrapping around the edges.
    pub fn count_neighbors(&self, x: usize, y: usize) -> (r: Vec<u32>)
        requires
            self.wf(),
            y < self@.height(),
            x < self@.width(),
        ensures
            counts(r@) == self@.histogram_at(x as int, y as int),
    {
        let ghost g = self@.grid;
        let n = self.state_types.len();
        let height = self.grid.len();
        let width = self.grid[0].len();
        let mut counter: Vec<u32> = Vec::new();
        let mut s: usize = 0;
        while s < n
            invariant
                s <= n,
                counter@.len() == s,
                forall|t: int| 0 <= t < s ==> counter@[t] == 0,
            decreases n - s,
        {
            counter.push(0);
            s += 1;
        }
        let mut k: usize = 0;
        while k < 9
            invariant
                self.wf(),
                g == self@.grid,
                n == self@.states.len(),
                height == g.len(),
                width == g[0].len(),
                y < height,
                x < width,
                k <= 9,
                counter@.len() == n,
                forall|t: int|
                    0 <= t < n ==> #[trigger] counter@[t] as int == count_in_slots(
                        g,
                        x as int,
                        y as int,
                        t,
                        k as nat,
                    ) && counter@[t] <= k,
            decreases 9 - k,
        {
            if k != 4 {
                let row = shift(y, k / 3, height);
                let col = shift(x, k % 3, width);
                assert(self.grid@[row as int]@ == g[row as int]);
                let c = self.grid[row][col];
                assert(c == neighbor(g, x as int, y as int, k as int));
                counter[c] = counter[c] + 1;
            }
            k += 1;
        }
        assert(counts(counter@) =~= self@.histogram_at(x as int, y as int));
        counter
    }

    /// The state of cell `(x, y)` in the next generation: the target of the
    /// first rule of its current state that fires, else that state's fail
    /// state.
    fn next_cell(&self, x: usize, y: usize) -> (r: usize)
        requires
            self.wf(),
            y < self@.height(),
            x < self@.width(),
        ensures
            r == self@.next_cell(x as int, y as int),
            r < self@.states.len(),
    {
        let neighbors = self.count_neighbors(x, y);
        let ghost h = self@.histogram_at(x as int, y as int);
        assert(neighbors@.len() == counts(neighbors@).len());
        assert(self.grid@[y as int]@ == self@.grid[y as int]);
        let current = self.grid[y][x];
        let state = &self.state_types[current];
        let ghost sv = self@.states[current as int];
        assert(state@ == sv);
        proof {
            lemma_successor_below(sv, h, self@.states.len(), 0);
        }
        let len = state.rules.len();
        let mut j: usize = 0;
        while j < len
            invariant
                self.wf(),
                state@ == sv,
                sv == self@.states[current as int],
                current < self@.states.len(),
                current == self@.grid[y as int][x as int],
                h == self@.histogram_at(x as int, y as int),
                len == sv.rules.len(),
                neighbors@.len() == self@.states.len(),
                counts(neighbors@) == h,
                j <= len,
                sv.first_match_from(h, j as nat) == sv.successor(h),
            decreases len - j,
        {
            let rule = state.rules[j];
            assert(sv.rules[j as int].refs_below(self@.states.len()));
            assert(rule == sv.rules[j as int]);
            if rule.evaluate(&neighbors) {
                assert(sv.first_match_from(h, j as nat) == rule.target_state);
                return rule.target_state;
            }
            j += 1;
        }
        state.fail_state
    }

    /// The next generation, computed from the current grid alone: every cell
    /// reads its neighbours' current states, never new ones.
    pub fn next(&self) -> (r: Vec<Vec<usize>>)
        requires
            self.wf(),
        ensures
            r@.map_values(|row: Vec<usize>| row@) == self@.next_grid(),
    {
        let height = self.grid.len();
        let width = self.grid[0].len();
        let mut next_gen: Vec<Vec<usize>> = Vec::new();
        let mut y: usize = 0;
        while y < height
            invariant
                self.wf(),
                height == self@.height(),
                width == self@.width(),
                y <= height,
                next_gen@.len() == y,
                forall|i: int| 0 <= i < y ==> (#[trigger] next_gen@[i])@ == self@.next_grid()[i],
            decreases height - y,
        {
            let mut row: Vec<usize> = Vec::new();
            let mut x: usize = 0;
            while x < width
                invariant
                    self.wf(),
                    height == self@.height(),
                    width == self@.width(),
                    y < height,
                    x <= width,
                    row@.len() == x,
                    forall|i: int| 0 <= i < x ==> row@[i] == self@.next_cell(i, y as int),
                decreases width - x,
            {
                let c = self.next_cell(x, y);
                row.push(c);
                x += 1;
            }
            assert(row@ =~= self@.next_grid()[y as int]);
            next_gen.push(row);
            y += 1;
        }
        assert(next_gen@.map_values(|row: Vec<usize>| row@) =~= self@.next_grid());
        next_gen
    }

    /// Advances the board one generation, replacing the grid with the next one
    /// as a whole; the state definitions stay as they are.
    pub fn step(&mut self)
        requires
            old(self).wf(),
        ensures
            final(self).wf(),
            final(self)@.grid == old(self)@.next_grid(),
            final(self)@.states == old(self)@.states,
    {
        let next_gen = self.next();
        proof {
            lemma_next_grid_wf(self@);
        }
        self.grid = next_gen;
    }
}

/// The next generation has the same shape as the current one and every cell
/// of it names a state.
proof fn lemma_next_grid_wf(b: BoardView)
    requires
        b.wf(),
    ensures
        (BoardView { grid: b.next_grid(), states: b.states }).wf(),
{
    let nb = BoardView { grid: b.next_grid(), states: b.states };
    assert forall|y: int, x: int| 0 <= y < nb.grid.len() && 0 <= x < nb.grid[0].len() implies #[trigger] nb.grid[y][x]
        < nb.states.len() by {
        let st = b.states[b.grid[y][x] as int];
        assert(st.refs_below(b.states.len()));
        lemma_successor_below(st, b.histogram_at(x, y), b.states.len(), 0);
    }
}

/// The sum of a histogram's entries.
pub open spec fn total(h: Seq<int>) -> int
    decreases h.len(),
{
    if h.len() == 0 {
        0
    } else {
        total(h.drop_last()) + h.last()
    }
}

/// The per-state counts over the neighbour slots below `k`.
pub open spec fn slot_counts(grid: Seq<Seq<usize>>, x: int, y: int, n: nat, k: nat) -> Seq<int> {
    Seq::new(n, |s: int| count_in_slots(grid, x, y, s, k) as int)
}

proof fn lemma_total_zero(a: Seq<int>)
    requires
        forall|i: int| 0 <= i < a.len() ==> a[i] == 0,
    ensures
        total(a) == 0,
    decreases a.len(),
{
    if a.len() > 0 {
        lemma_total_zero(a.drop_last());
    }
}

/// Adding one to a single entry adds one to the total.
proof fn lemma_total_bump(a: Seq<int>, b: Seq<int>, c: int)
    requires
        a.len() == b.len(),
        0 <= c < a.len(),
        forall|i: int| 0 <= i < a.len() ==> #[trigger] b[i] == a[i] + if i == c { 1int } else { 0int },
    ensures
        total(b) == total(a) + 1,
    decreases a.len(),
{
    if c == a.len() - 1 {
        assert(a.drop_last() =~= b.drop_last());
    } else {
        lemma_total_bump(a.drop_last(), b.drop_last(), c);
    }
}

/// Every neighbour slot of a cell lies on the grid.
proof fn lemma_neighbor_on_grid(b: BoardView, x: int, y: int, k: int)
    requires
        b.wf(),
        0 <= y < b.height(),
        0 <= x < b.width(),
        0 <= k < 9,
    ensures
        0 <= neighbor_row(b.grid, y, k) < b.height(),
        0 <= neighbor_col(b.grid, x, k) < b.width(),
        neighbor(b.grid, x, y, k) < b.states.len(),
{
}

proof fn lemma_slot_counts_total(b: BoardView, x: int, y: int, k: nat)
    requires
        b.wf(),
        0 <= y < b.height(),
        0 <= x < b.width(),
        k <= 9,
    ensures
        total(slot_counts(b.grid, x, y, b.states.len(), k)) == if k > 4 {
            k - 1
        } else {
            k as int
        },
    decreases k,
{
    let n = b.states.len();
    if k == 0 {
        lemma_total_zero(slot_counts(b.grid, x, y, n, 0));
    } else {
        let k1 = (k - 1) as nat;
        lemma_slot_counts_total(b, x, y, k1);
        if k1 != 4 {
            lemma_neighbor_on_grid(b, x, y, k1 as int);
            let c = neighbor(b.grid, x, y, k1 as int);
            lemma_total_bump(slot_counts(b.grid, x, y, n, k1), slot_counts(b.grid, x, y, n, k), c as int);
        } else {
            assert(slot_counts(b.grid, x, y, n, k) =~= slot_counts(b.grid, x, y, n, k1));
        }
    }
}

/// Every cell has exactly eight neighbours, counted with wrap-around: its
/// histogram sums to 8, on a board of any size.
pub proof fn lemma_histogram_sums_to_eight(b: BoardView, x: int, y: int)
    requires
        b.wf(),
        0 <= y < b.height(),
        0 <= x < b.width(),
    ensures
        total(b.histogram_at(x, y)) == 8,
{
    lemma_slot_counts_total(b, x, y, 9);
    assert(b.histogram_at(x, y) =~= slot_counts(b.grid, x, y, b.states.len(), 9));
}

/// On a 1x1 board every one of the eight neighbour slots wraps back onto the
/// cell itself: its histogram holds 8 for the cell's own state, 0 for every
/// other state, and sums to 8.
pub proof fn lemma_single_cell_wraps_to_itself(b: BoardView)
    requires
        b.wf(),
        b.height() == 1,
        b.width() == 1,
    ensures
        forall|k: int|
            0 <= k < 9 ==> neighbor_row(b.grid, 0, k) == 0 && neighbor_col(b.grid, 0, k) == 0,
        b.histogram_at(0, 0)[b.grid[0][0] as int] == 8,
        forall|s: int|
            0 <= s < b.states.len() && s != b.grid[0][0] ==> b.histogram_at(0, 0)[s] == 0,
        total(b.histogram_at(0, 0)) == 8,
{
    reveal_with_fuel(count_in_slots, 10);
    lemma_histogram_sums_to_eight(b, 0, 0);
}

/// Two states with the same rules and fail state lead to the same state.
proof fn lemma_successor_same_rules(a: StateView, b: StateView, h: Seq<int>, i: nat)
    requires
        a.rules == b.rules,
        a.fail_state == b.fail_state,
    ensures
        a.first_match_from(h, i) == b.first_match_from(h, i),
    decreases a.rules.len() - i,
{
    if i < a.rules.len() {
        lemma_successor_same_rules(a, b, h, i + 1);
    }
}

/// Stepping is deterministic and reads nothing but the grid, the rules and
/// the fail states: two boards with the same grid and the same rules and fail
/// states (colours may differ) have the same next generation.
pub proof fn lemma_step_deterministic(a: BoardView, b: BoardView)
    requires
        a.wf(),
        a.grid == b.grid,
        a.states.len() == b.states.len(),
        forall|i: int|
            0 <= i < a.states.len() ==> (#[trigger] a.states[i]).rules == b.states[i].rules
                && a.states[i].fail_state == b.states[i].fail_state,
    ensures
        a.next_grid() == b.next_grid(),
{
    assert forall|y: int, x: int| 0 <= y < a.height() && 0 <= x < a.grid[y].len() implies a.next_cell(x, y)
        == b.next_cell(x, y) by {
        let c = a.grid[y][x] as int;
        assert(a.states[c].rules == b.states[c].rules);
        lemma_successor_same_rules(a.states[c], b.states[c], a.histogram_at(x, y), 0);
    }
    assert forall|y: int| 0 <= y < a.height() implies a.next_grid()[y] =~= b.next_grid()[y] by {
        assert forall|x: int| 0 <= x < a.grid[y].len() implies a.next_grid()[y][x] == b.next_grid()[y][x] by {
            assert(a.next_cell(x, y) == b.next_cell(x, y));
        }
    }
    assert(a.next_grid() =~= b.next_grid());
}

} // verus!
