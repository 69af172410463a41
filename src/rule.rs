//! Rules and state definitions: when a rule fires, and which state a cell
//! moves to given the neighbour counts around it.
use vstd::prelude::*;

verus! {

/// How a rule compares the observed neighbour count with its target count.
#[derive(Clone, Copy, Debug, PartialEq, Eq, Structural)]
pub enum Predicate {
    /// The count equals the target.
    Equals,
    /// The count is at least the target.
    AtLeast,
    /// The count is at most the target.
    AtMost,
    /// The count lies between the target and this upper bound, both included.
    Between(u32),
}

impl Predicate {
    /// Whether `count` satisfies this predicate against `target`.
    pub open spec fn holds(self, count: int, target: int) -> bool {
        match self {
            Predicate::Equals => count == target,
            Predicate::AtLeast => count >= target,
            Predicate::AtMost => count <= target,
            Predicate::Between(high) => target <= count && count <= high,
        }
    }

    /// Compares an observed count with a target count.
    pub fn eval(&self, count: u32, target: u32) -> (r: bool)
        ensures
            r == self.holds(count as int, target as int),
    {
        match self {
            Predicate::Equals => count == target,
            Predicate::AtLeast => count >= target,
            Predicate::AtMost => count <= target,
            Predicate::Between(high) => target <= count && count <= *high,
        }
    }
}

/// A conditional transition: if the number of neighbours in `count_state`
/// satisfies `predicate` against `target_count`, the cell moves to
/// `target_state`.
#[derive(Clone, Copy, Debug, PartialEq, Eq, Structural)]
pub struct Rule {
    pub target_state: usize,
    pub target_count: u32,
    pub count_state: usize,
    pub predicate: Predicate,
}

/// A neighbour histogram as mathematical integers.
pub open spec fn counts(histogram: Seq<u32>) -> Seq<int> {
    histogram.map_values(|c: u32| c as int)
}

impl Rule {
    pub fn new(target_state: usize, target_count: u32, count_state: usize, predicate: Predicate) -> (r: Rule)
        ensures
            r == (Rule { target_state, target_count, count_state, predicate }),
    {
        Rule { target_state, target_count, count_state, predicate }
    }

    /// Whether the rule fires on a neighbour histogram indexed by state.
    pub open spec fn fires(self, histogram: Seq<int>) -> bool {
        self.predicate.holds(histogram[self.count_state as int], self.target_count as int)
    }

    /// The rule with each state reference passed through `fix_ref`.
    pub open spec fn retargeted(self, n: nat, removed: Option<usize>) -> Rule {
        Rule {
            target_state: fix_ref(self.target_state, n, removed),
            target_count: self.target_count,
            count_state: fix_ref(self.count_state, n, removed),
            predicate: self.predicate,
        }
    }

    /// Whether both state references lie below `n`.
    pub open spec fn refs_below(self, n: nat) -> bool {
        self.target_state < n && self.count_state < n
    }

    /// Evaluates the rule on a neighbour histogram.
    pub fn evaluate(&self, histogram: &Vec<u32>) -> (r: bool)
        requires
            self.count_state < histogram.len(),
        ensures
            r == self.fires(counts(histogram@)),
    {
        self.predicate.eval(histogram[self.count_state], self.target_count)
    }
}

/// Where a state reference points once the state list has `n` entries: a
/// reference to the removed state, or one out of range, falls back to state 0.
pub open spec fn fix_ref(r: usize, n: nat, removed: Option<usize>) -> usize {
    if r >= n || removed == Some(r) {
        0
    } else {
        r
    }
}

/// Executable form of `fix_ref`.
pub fn repair_ref(r: usize, n: usize, removed: Option<usize>) -> (out: usize)
    ensures
        out == fix_ref(r, n as nat, removed),
{
    match removed {
        Some(k) => {
            if r >= n || r == k {
                0
            } else {
                r
            }
        },
        None => {
            if r >= n {
                0
            } else {
                r
            }
        },
    }
}

/// One state of the automaton: its position in the state list, its display
/// colour, the state it falls into when no rule fires, and its rules in order.
#[derive(Clone, Debug)]
pub struct State {
    pub index: usize,
    pub color: String,
    pub fail_state: usize,
    pub rules: Vec<Rule>,
}

/// The mathematical value of a `State`.
pub struct StateView {
    pub index: usize,
    pub color: Seq<char>,
    pub fail_state: usize,
    pub rules: Seq<Rule>,
}

impl View for State {
    type V = StateView;

    open spec fn view(&self) -> StateView {
        StateView {
            index: self.index,
            color: self.color@,
            fail_state: self.fail_state,
            rules: self.rules@,
        }
    }
}

impl StateView {
    /// The next state chosen by the rules from position `i` on: the target of
    /// the first rule there that fires, else the fail state.
    pub open spec fn first_match_from(self, histogram: Seq<int>, i: nat) -> usize
        decreases self.rules.len() - i,
    {
        if i >= self.rules.len() {
            self.fail_state
        } else if self.rules[i as int].fires(histogram) {
            self.rules[i as int].target_state
        } else {
            self.first_match_from(histogram, i + 1)
        }
    }

    /// The state a cell in this state moves to, given its neighbour histogram.
    pub open spec fn successor(self, histogram: Seq<int>) -> usize {
        self.first_match_from(histogram, 0)
    }

    /// Whether the fail state and every rule reference lie below `n`.
    pub open spec fn refs_below(self, n: nat) -> bool {
        &&& self.fail_state < n
        &&& forall|j: int| 0 <= j < self.rules.len() ==> #[trigger] self.rules[j].refs_below(n)
    }

    /// Whether no reference of this state names state `k`.
    pub open spec fn refs_avoid(self, k: usize) -> bool {
        &&& self.fail_state != k
        &&& forall|j: int|
            0 <= j < self.rules.len() ==> (#[trigger] self.rules[j]).target_state != k
                && self.rules[j].count_state != k
    }

    /// The state placed at position `i` of a list of `n` states, with its
    /// references repaired.
    pub open spec fn renumbered(self, i: usize, n: nat, removed: Option<usize>) -> StateView {
        StateView {
            index: i,
            color: self.color,
            fail_state: fix_ref(self.fail_state, n, removed),
            rules: self.rules.map_values(|r: Rule| r.retargeted(n, removed)),
        }
    }
}

impl State {
    pub fn new(index: usize, color: String, fail_state: usize, rules: Vec<Rule>) -> (r: State)
        ensures
            r.index == index,
            r.color@ == color@,
            r.fail_state == fail_state,
            r.rules@ == rules@,
    {
        State { index, color, fail_state, rules }
    }

    /// Whether the fail state and every rule reference lie below `n`.
    pub fn refs_within(&self, n: usize) -> (r: bool)
        ensures
            r == self@.refs_below(n as nat),
    {
        if self.fail_state >= n {
            return false;
        }
        let len = self.rules.len();
        let mut j: usize = 0;
        while j < len
            invariant
                j <= len,
                len == self.rules@.len(),
                forall|m: int| 0 <= m < j ==> #[trigger] self.rules@[m].refs_below(n as nat),
            decreases len - j,
        {
            let rule = self.rules[j];
            if rule.target_state >= n || rule.count_state >= n {
                assert(!self@.rules[j as int].refs_below(n as nat));
                return false;
            }
            j += 1;
        }
        true
    }

    /// Places the state at position `i` of a list of `n` states and repairs its
    /// references.
    pub fn renumber(&mut self, i: usize, n: usize, removed: Option<usize>)
        ensures
            final(self)@ == old(self)@.renumbered(i, n as nat, removed),
    {
        self.index = i;
        self.fail_state = repair_ref(self.fail_state, n, removed);
        let len = self.rules.len();
        let mut j: usize = 0;
        while j < len
            invariant
                j <= len,
                len == self.rules.len(),
                self.rules.len() == old(self).rules.len(),
                self.index == i,
                self.color@ == old(self).color@,
                self.fail_state == fix_ref(old(self).fail_state, n as nat, removed),
                forall|m: int| 0 <= m < j ==> self.rules@[m] == old(self).rules@[m].retargeted(n as nat, removed),
                forall|m: int| j <= m < len ==> self.rules@[m] == old(self).rules@[m],
            decreases len - j,
        {
            let r = self.rules[j];
            self.rules[j] = Rule {
                target_state: repair_ref(r.target_state, n, removed),
                target_count: r.target_count,
                count_state: repair_ref(r.count_state, n, removed),
                predicate: r.predicate,
            };
            j += 1;
        }
        assert(self@.rules =~= old(self)@.rules.map_values(|r: Rule| r.retargeted(n as nat, removed)));
    }
}

/// Rules between positions `i` and `j` that do not fire are passed over.
proof fn lemma_skip_silent_rules(st: StateView, histogram: Seq<int>, i: nat, j: nat)
    requires
        i <= j,
        forall|m: int| i <= m < j && m < st.rules.len() ==> !(#[trigger] st.rules[m]).fires(histogram),
    ensures
        st.first_match_from(histogram, i) == st.first_match_from(histogram, j),
    decreases j - i,
{
    if i < j {
        lemma_skip_silent_rules(st, histogram, i + 1, j);
    }
}

/// Rules are tried in order and the first one that fires decides: when rule
/// `i` fires and no rule before it does, the cell moves to rule `i`'s target,
/// whatever the later rules say.
pub proof fn lemma_first_firing_rule_wins(st: StateView, histogram: Seq<int>, i: int)
    requires
        0 <= i < st.rules.len(),
        st.rules[i].fires(histogram),
        forall|j: int| 0 <= j < i ==> !(#[trigger] st.rules[j]).fires(histogram),
    ensures
        st.successor(histogram) == st.rules[i].target_state,
{
    lemma_skip_silent_rules(st, histogram, 0, i as nat);
}

/// When none of a state's rules fires, the cell moves to exactly the state's
/// fail state.
pub proof fn lemma_no_rule_fires_gives_fail_state(st: StateView, histogram: Seq<int>)
    requires
        forall|j: int| 0 <= j < st.rules.len() ==> !(#[trigger] st.rules[j]).fires(histogram),
    ensures
        st.successor(histogram) == st.fail_state,
{
    lemma_skip_silent_rules(st, histogram, 0, st.rules.len());
}

/// Repaired references lie below `n`; with `removed` set to a nonzero `k`,
/// none of them names `k`.
pub proof fn lemma_renumbered_refs(st: StateView, i: usize, n: nat, removed: Option<usize>)
    requires
        n > 0,
    ensures
        st.renumbered(i, n, removed).refs_below(n),
        removed is Some && removed->0 > 0 ==> st.renumbered(i, n, removed).refs_avoid(removed->0),
{
    let r = st.renumbered(i, n, removed);
    assert forall|j: int| 0 <= j < r.rules.len() implies #[trigger] r.rules[j].refs_below(n) by {
        assert(r.rules[j] == st.rules[j].retargeted(n, removed));
    }
    if removed is Some && removed->0 > 0 {
        let k = removed->0;
        assert forall|j: int| 0 <= j < r.rules.len() implies (#[trigger] r.rules[j]).target_state != k
            && r.rules[j].count_state != k by {
            assert(r.rules[j] == st.rules[j].retargeted(n, removed));
        }
    }
}

/// A state whose references lie below `n` always leads to a state below `n`.
pub proof fn lemma_successor_below(st: StateView, histogram: Seq<int>, n: nat, i: nat)
    requires
        st.refs_below(n),
    ensures
        st.first_match_from(histogram, i) < n,
    decreases st.rules.len() - i,
{
    if i < st.rules.len() {
        assert(st.rules[i as int].refs_below(n));
        if !st.rules[i as int].fires(histogram) {
            lemma_successor_below(st, histogram, n, i + 1);
        }
    }
}

} // verus!
