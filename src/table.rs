use vstd::prelude::*;
use crate::program::{Instruction, InnerState, Program, State};
use crate::tape::U4Vec;
use crate::bound::lemma_distinct_bounded;

verus! {

/// A deterministic automaton over the inputs `0..16`: one row per state, each
/// with its accepting flag and its successor on every input. State 0 is the
/// start state.
pub struct Table {
    pub states: Vec<(bool, [usize; 16])>,
}

/// Index of a state equal to `st` in `states`, if there is one.
fn find_state(states: &Vec<State>, st: &State) -> (r: Option<usize>)
    ensures
        r matches Some(j) ==> j < states@.len() && states@[j as int]@ == st@,
        r is None ==> forall|k: int| 0 <= k < states@.len() ==> states@[k]@ != st@,
{
    let mut i: usize = 0;
    while i < states.len()
        invariant
            i <= states@.len(),
            forall|k: int| 0 <= k < i ==> states@[k]@ != st@,
        decreases states@.len() - i,
    {
        if states[i].same(st) {
            return Some(i);
        }
        i += 1;
    }
    None
}

/// `q` is `t` with its states merged into classes: `class` maps each state of
/// `t` to its row in `q`, `rep` names the lowest member of each class, whose
/// row `q` took, and the start state stays the start state. Merged states
/// agree on acceptance, and the class map is stable, so `q` moves between
/// classes as `t` moves between their members.
pub open spec fn is_quotient(t: Table, q: Table, class: Seq<usize>, rep: Seq<usize>) -> bool {
    &&& class.len() == t.len_spec()
    &&& rep.len() == q.len_spec()
    &&& class[0] == 0
    &&& forall|i: int|
        0 <= i < class.len() ==> #[trigger] class[i] < rep.len() && t.accepting_at(i) == q.accepting_at(
            class[i] as int,
        ) && rep[class[i] as int] <= i
    &&& forall|c: int|
        0 <= c < rep.len() ==> #[trigger] rep[c] < class.len() && class[rep[c] as int] == c
            && q.accepting_at(c) == t.accepting_at(rep[c] as int)
    &&& forall|c: int, s: int|
        0 <= c < rep.len() && 0 <= s < 16 ==> #[trigger] q.next_at(c, s) == class[t.next_at(
            rep[c] as int,
            s,
        ) as int]
    &&& stable(t, q, class)
}

/// Every entry of `w` is an input.
pub open spec fn is_word(w: Seq<int>) -> bool {
    forall|k: int| 0 <= k < w.len() ==> 0 <= #[trigger] w[k] < 16
}

/// The state that `t` reaches from state `i` on the inputs `w`.
pub open spec fn reach_from(t: Table, i: int, w: Seq<int>) -> int
    decreases w.len(),
{
    if w.len() == 0 {
        i
    } else {
        reach_from(t, t.next_at(i, w[0]), w.drop_first())
    }
}

/// The state that `t` reaches from its start state on the inputs `w`.
pub open spec fn reach(t: Table, w: Seq<int>) -> int {
    reach_from(t, 0, w)
}

/// Row `k` was found from a lower-numbered row: some row `p < k` moves to `k`
/// on some input.
pub open spec fn found_from_lower(t: Table, k: int) -> bool {
    exists|p: int, s: int| 0 <= p < k && 0 <= s < 16 && #[trigger] t.next_at(p, s) == k
}

/// Some input string leads `t` from its start state to state `i`.
pub open spec fn reachable(t: Table, i: int) -> bool {
    exists|w: Seq<int>| is_word(w) && #[trigger] reach(t, w) == i
}

proof fn lemma_reach_push(t: Table, i: int, w: Seq<int>, s: int)
    ensures
        reach_from(t, i, w.push(s)) == t.next_at(reach_from(t, i, w), s),
    decreases w.len(),
{
    if w.len() == 0 {
        assert(w.push(s).drop_first() =~= Seq::<int>::empty());
        assert(w.push(s)[0] == s);
        assert(reach_from(t, t.next_at(i, s), Seq::<int>::empty()) == t.next_at(i, s));
    } else {
        assert(w.push(s).drop_first() =~= w.drop_first().push(s));
        assert(w.push(s)[0] == w[0]);
        lemma_reach_push(t, t.next_at(i, w[0]), w.drop_first(), s);
    }
}

/// Where each row other than the start row was first found from some lower
/// row on some input, every row is reachable.
proof fn lemma_found_rows_reachable(t: Table, parent: Seq<(int, int)>, i: int)
    requires
        parent.len() == t.len_spec(),
        forall|k: int| 1 <= k < parent.len() ==> 0 <= (#[trigger] parent[k]).0 < k && 0 <= parent[k].1 < 16
            && t.next_at(parent[k].0, parent[k].1) == k,
        0 <= i < t.len_spec(),
    ensures
        reachable(t, i),
    decreases i,
{
    if i == 0 {
        let e = Seq::<int>::empty();
        assert(is_word(e) && reach(t, e) == 0);
    } else {
        let (p, s) = parent[i];
        lemma_found_rows_reachable(t, parent, p);
        let w = choose|w: Seq<int>| is_word(w) && #[trigger] reach(t, w) == p;
        lemma_reach_push(t, 0, w, s);
        let w2 = w.push(s);
        assert(is_word(w2)) by {
            assert forall|k: int| 0 <= k < w2.len() implies 0 <= #[trigger] w2[k] < 16 by {
                if k < w.len() {
                    assert(w2[k] == w[k]);
                }
            }
        }
        assert(reach(t, w2) == i);
    }
}

/// States `i` and `j` of `t` accept the same input strings.
pub open spec fn equivalent(t: Table, i: int, j: int) -> bool {
    forall|w: Seq<int>| is_word(w) ==> t.accepting_at(#[trigger] reach_from(t, i, w)) == t.accepting_at(
        reach_from(t, j, w),
    )
}

/// Equivalent states agree on acceptance, and their successors on any input
/// are equivalent.
proof fn lemma_equivalent_step(t: Table, i: int, j: int, s: int)
    requires
        equivalent(t, i, j),
        0 <= s < 16,
    ensures
        t.accepting_at(i) == t.accepting_at(j),
        equivalent(t, t.next_at(i, s), t.next_at(j, s)),
{
    let e = Seq::<int>::empty();
    assert(is_word(e));
    assert(t.accepting_at(reach_from(t, i, e)) == t.accepting_at(reach_from(t, j, e)));
    assert forall|w: Seq<int>| is_word(w) implies t.accepting_at(
        #[trigger] reach_from(t, t.next_at(i, s), w),
    ) == t.accepting_at(reach_from(t, t.next_at(j, s), w)) by {
        let w2 = seq![s].add(w);
        assert(w2.drop_first() =~= w);
        assert(w2[0] == s);
        assert(is_word(w2)) by {
            assert forall|k: int| 0 <= k < w2.len() implies 0 <= #[trigger] w2[k] < 16 by {
                if k > 0 {
                    assert(w2[k] == w[k - 1]);
                }
            }
        }
        assert(t.accepting_at(reach_from(t, i, w2)) == t.accepting_at(reach_from(t, j, w2)));
    }
}

/// `t` is the automaton of `program` with `ss` the automaton state of each
/// row: row 0 is what the machine produces from its start configuration and
/// input 0; a row whose machine waits for input moves on each input to the row
/// of what the machine produces from there; a row whose machine can never read
/// again loops back to itself; each row accepts as its state does; and no
/// state has two rows.
pub open spec fn is_automaton(program: Program, t: Table, ss: Seq<(Option<(Seq<u8>, int, int)>, bool)>) -> bool {
    &&& ss.len() == t.len_spec()
    &&& program.outcome(program.start_config(), 0, ss[0])
    &&& forall|i: int| 0 <= i < ss.len() ==> t.accepting_at(i) == (#[trigger] ss[i]).1
    &&& forall|i: int, s: int|
        0 <= i < ss.len() && 0 <= s < 16 && ss[i].0 is Some ==> program.outcome(
            ss[i].0->0,
            s,
            ss[#[trigger] t.next_at(i, s)],
        )
    &&& forall|i: int| 0 <= i < ss.len() && (#[trigger] ss[i]).0 is None ==> t.is_sink(i)
    &&& forall|k: int, l: int| 0 <= k < l < ss.len() ==> ss[k] != ss[l]
}

/// The class map of a quotient is stable when states of one class move, input
/// by input, into one class.
pub open spec fn stable(t: Table, q: Table, class: Seq<usize>) -> bool {
    forall|i: int, s: int|
        0 <= i < t.len_spec() && 0 <= s < 16 ==> class[#[trigger] t.next_at(i, s) as int]
            == q.next_at(class[i] as int, s)
}

/// A quotient by a stable class map accepts the same input strings: from any
/// state, on every string, the quotient reaches the class of the state the
/// table reaches.
pub proof fn lemma_stable_quotient_language(t: Table, q: Table, class: Seq<usize>, rep: Seq<usize>, i: int, w: Seq<int>)
    requires
        t.wf(),
        is_quotient(t, q, class, rep),
        0 <= i < t.len_spec(),
        is_word(w),
    ensures
        0 <= reach_from(t, i, w) < t.len_spec(),
        class[reach_from(t, i, w)] == reach_from(q, class[i] as int, w),
        t.accepting_at(reach_from(t, i, w)) == q.accepting_at(reach_from(q, class[i] as int, w)),
    decreases w.len(),
{
    if w.len() > 0 {
        let v = w.drop_first();
        assert(is_word(v)) by {
            assert forall|k: int| 0 <= k < v.len() implies 0 <= #[trigger] v[k] < 16 by {
                assert(v[k] == w[k + 1]);
            }
        }
        assert(0 <= w[0] < 16);
        assert(t.states@[i].1[w[0]] < t.len_spec());
        lemma_stable_quotient_language(t, q, class, rep, t.next_at(i, w[0]), v);
    }
}

/// `partition` splits the states `0..n` of `t` into the classes
/// `0..reps.len()`: `reps[c]` is the lowest member of class `c`, the members
/// of a class agree on acceptance, equivalent states share a class, and the
/// start state is in class 0.
spec fn refines(t: Table, partition: Seq<usize>, reps: Seq<usize>, n: int) -> bool {
    &&& n == t.len_spec()
    &&& partition.len() == n
    &&& 1 <= reps.len() <= n
    &&& partition[0] == 0
    &&& reps[0] == 0
    &&& forall|k: int| 0 <= k < n ==> #[trigger] partition[k] < reps.len() && reps[partition[k] as int] <= k
        && t.states@[k].0 == t.states@[reps[partition[k] as int] as int].0
    &&& forall|c: int| 0 <= c < reps.len() ==> #[trigger] reps[c] < n && partition[reps[c] as int] == c
    &&& forall|i: int, j: int| 0 <= i < n && 0 <= j < n && #[trigger] equivalent(t, i, j) ==> partition[i] == partition[j]
}

fn contains_id(queue: &Vec<usize>, id: usize) -> (r: bool)
    ensures
        r == queue@.contains(id),
{
    let mut i: usize = 0;
    while i < queue.len()
        invariant
            i <= queue@.len(),
            forall|k: int| 0 <= k < i ==> queue@[k] != id,
        decreases queue@.len() - i,
    {
        if queue[i] == id {
            return true;
        }
        i += 1;
    }
    false
}

impl Table {
    /// Class representatives that are pairwise distinct states are no more than the states.
    proof fn lemma_reps_bounded(&self, partition: Seq<usize>, reps: Seq<usize>)
        requires
            partition.len() == self.states@.len(),
            forall|c: int| 0 <= c < reps.len() ==> #[trigger] reps[c] < partition.len() && partition[reps[c] as int] == c,
        ensures
            reps.len() <= self.states@.len(),
    {
        let codes = reps.map(|k: int, x: usize| x as int);
        assert forall|k: int| 0 <= k < codes.len() implies 0 <= #[trigger] codes[k] < self.states@.len() by {
            assert(reps[k] < partition.len());
        }
        assert forall|k: int, l: int| 0 <= k < codes.len() && 0 <= l < codes.len() && k != l
            implies codes[k] != codes[l] by {
            assert(partition[reps[k] as int] == k);
            assert(partition[reps[l] as int] == l);
        }
        lemma_distinct_bounded(codes, self.states@.len() as int);
    }

    pub open spec fn len_spec(&self) -> int {
        self.states@.len() as int
    }

    pub open spec fn accepting_at(&self, i: int) -> bool {
        self.states@[i].0
    }

    pub open spec fn next_at(&self, i: int, s: int) -> int {
        self.states@[i].1[s] as int
    }

    /// At least one state, and every transition leads to a state of the table.
    pub open spec fn wf(&self) -> bool {
        &&& self.states@.len() > 0
        &&& forall|i: int, s: int|
            0 <= i < self.states@.len() && 0 <= s < 16 ==> #[trigger] self.states@[i].1[s]
                < self.states@.len()
    }

    /// Row `i` loops back to itself on every input.
    pub open spec fn is_sink(&self, i: int) -> bool {
        forall|s: int| 0 <= s < 16 ==> #[trigger] self.next_at(i, s) == i
    }

    /// Number of states.
    pub fn len(&self) -> (r: usize)
        ensures
            r == self.len_spec(),
    {
        self.states.len()
    }

    /// Explores every state reachable from the start, returning the table
    /// together with the automaton state that each row stands for.
    fn explore(program: &Program) -> (r: (Table, Vec<State>))
        requires
            program.wf(),
        ensures
            r.0.wf(),
            r.1@.len() == r.0.states@.len(),
            forall|i: int| 0 <= i < r.1@.len() ==> program.valid_state(#[trigger] r.1@[i]@),
            forall|i: int| 0 <= i < r.1@.len() ==> r.0.accepting_at(i) == #[trigger] r.1@[i].accepting,
            forall|i: int| 0 <= i < r.1@.len() && (#[trigger] r.1@[i]).inner is None ==> r.0.is_sink(i),
            forall|k: int, l: int| 0 <= k < l < r.1@.len() ==> r.1@[k]@ != r.1@[l]@,
            !program.has(Instruction::Read) ==> r.1@.len() == 1,
            program.outcome(program.start_config(), 0, r.1@[0]@),
            forall|i: int, s: int|
                0 <= i < r.1@.len() && 0 <= s < 16 && r.1@[i].inner is Some ==> program.outcome(
                    r.1@[i]@.0->0,
                    s,
                    r.1@[#[trigger] r.0.states@[i].1[s] as int]@,
                ),
            forall|i: int| 0 <= i < r.0.len_spec() ==> #[trigger] reachable(r.0, i),
            forall|k: int| 1 <= k < r.0.len_spec() ==> #[trigger] found_from_lower(r.0, k),
    {
        let n = program.cell_count;
        let mut rows: Vec<(bool, [usize; 16])> = Vec::new();
        let mut states: Vec<State> = Vec::new();
        let mut stack: Vec<usize> = Vec::new();

        let zero = InnerState { cells: U4Vec::zeroed(n), head_position: 0, instruction_position: 0 };
        let start = program.run_with_next_input(zero, 0);
        rows.push((start.accepting, [0usize; 16]));
        states.push(start);
        stack.push(0);
        let ghost bound = 2 * (program.config_bound() + 1);
        let ghost mut pending: Seq<bool> = seq![true];
        let ghost mut parent: Seq<(int, int)> = seq![(0int, 0int)];
        assert(stack@[0] == 0);

        loop
            invariant
                program.wf(),
                bound == 2 * (program.config_bound() + 1),
                rows@.len() == states@.len(),
                states@.len() >= 1,
                forall|i: int, s: int|
                    0 <= i < rows@.len() && 0 <= s < 16 ==> #[trigger] rows@[i].1[s] < rows@.len(),
                forall|i: int| 0 <= i < states@.len() ==> program.valid_state(#[trigger] states@[i]@),
                forall|i: int| 0 <= i < states@.len() ==> rows@[i].0 == #[trigger] states@[i].accepting,
                forall|i: int, s: int|
                    0 <= i < states@.len() && (#[trigger] states@[i]).inner is None && 0 <= s < 16
                        ==> #[trigger] rows@[i].1[s] == i,
                forall|k: int, l: int| 0 <= k < l < states@.len() ==> states@[k]@ != states@[l]@,
                forall|k: int| 0 <= k < stack@.len() ==> #[trigger] stack@[k] < states@.len(),
                program.outcome(program.start_config(), 0, states@[0]@),
                pending.len() == states@.len(),
                forall|i: int| 0 <= i < states@.len() && #[trigger] pending[i] ==> exists|k: int|
                    0 <= k < stack@.len() && stack@[k] == i,
                forall|k: int| 0 <= k < stack@.len() ==> pending[#[trigger] stack@[k] as int],
                forall|k: int, l: int| 0 <= k < l < stack@.len() ==> stack@[k] != stack@[l],
                parent.len() == states@.len(),
                forall|k: int| 1 <= k < parent.len() ==> 0 <= (#[trigger] parent[k]).0 < k && 0 <= parent[k].1 < 16
                    && !pending[parent[k].0] && states@[parent[k].0].inner is Some && rows@[parent[k].0].1[parent[k].1] == k,
                forall|i: int, s: int|
                    0 <= i < states@.len() && 0 <= s < 16 && states@[i].inner is Some && !pending[i]
                        ==> program.outcome(states@[i]@.0->0, s, states@[#[trigger] rows@[i].1[s] as int]@),
                !program.has(Instruction::Read) ==> states@.len() == 1,
                states@.len() <= bound,
            ensures
                stack@.len() == 0,
                pending.len() == states@.len(),
                parent.len() == states@.len(),
                rows@.len() == states@.len(),
                forall|k: int| 1 <= k < parent.len() ==> 0 <= (#[trigger] parent[k]).0 < k && 0 <= parent[k].1 < 16
                    && !pending[parent[k].0] && states@[parent[k].0].inner is Some && rows@[parent[k].0].1[parent[k].1] == k,
                forall|i: int| 0 <= i < states@.len() && #[trigger] pending[i] ==> exists|k: int|
                    0 <= k < stack@.len() && stack@[k] == i,
            decreases bound - states@.len(), stack@.len(),
        {
            let ghost stack_before = stack@;
            let current_id = match stack.pop() {
                Some(id) => id,
                None => {
                    break;
                },
            };
            let ghost stack_after = stack@;
            assert(program.valid_state(states@[current_id as int]@));
            assert(stack_before == stack@.push(current_id));
            assert(pending[current_id as int]) by {
                assert(stack_before[stack_before.len() - 1] == current_id);
            }
            assert forall|k: int| 0 <= k < stack@.len() implies #[trigger] stack@[k] != current_id by {
                assert(stack_before[k] == stack@[k]);
                assert(stack_before[stack_before.len() - 1] == current_id);
            }
            assert forall|i: int| 0 <= i < states@.len() && #[trigger] pending[i] && i != current_id implies exists|k: int|
                0 <= k < stack@.len() && stack@[k] == i by {
                let k = choose|k: int| 0 <= k < stack_before.len() && stack_before[k] == i;
                assert(k < stack@.len());
                assert(stack@[k] == stack_before[k]);
            }
            let accepting = states[current_id].accepting;
            let config = match &states[current_id].inner {
                Some(c) => c.duplicate(),
                // a state that can never read again: its row loops back to
                // itself since it was added
                None => {
                    proof {
                        pending = pending.update(current_id as int, false);
                    }
                    continue;
                },
            };
            let ghost len0 = states@.len();
            let mut row = [0usize; 16];
            let mut input: u8 = 0;
            while input < 16
                invariant
                    program.wf(),
                    bound == 2 * (program.config_bound() + 1),
                    program.waiting_config(config@),
                    current_id < len0,
                    len0 <= states@.len(),
                    rows@.len() == states@.len(),
                    input <= 16,
                    forall|s: int| 0 <= s < input ==> #[trigger] row[s] < rows@.len(),
                    forall|i: int, s: int|
                        0 <= i < rows@.len() && 0 <= s < 16 ==> #[trigger] rows@[i].1[s] < rows@.len(),
                    forall|i: int| 0 <= i < states@.len() ==> program.valid_state(#[trigger] states@[i]@),
                    forall|i: int| 0 <= i < states@.len() ==> rows@[i].0 == #[trigger] states@[i].accepting,
                    forall|i: int, s: int|
                        0 <= i < states@.len() && (#[trigger] states@[i]).inner is None && 0 <= s < 16
                            ==> #[trigger] rows@[i].1[s] == i,
                    forall|k: int, l: int| 0 <= k < l < states@.len() ==> states@[k]@ != states@[l]@,
                    forall|k: int| 0 <= k < stack@.len() ==> #[trigger] stack@[k] < states@.len(),
                    states@.len() == len0 ==> stack@ == stack_after,
                    states@.len() <= bound,
                    states@[current_id as int].accepting == accepting,
                    states@[current_id as int].inner is Some,
                    program.outcome(program.start_config(), 0, states@[0]@),
                    pending.len() == states@.len(),
                    forall|i: int| 0 <= i < states@.len() && #[trigger] pending[i] && i != current_id ==> exists|k: int|
                        0 <= k < stack@.len() && stack@[k] == i,
                    forall|k: int| 0 <= k < stack@.len() ==> pending[#[trigger] stack@[k] as int],
                    forall|k: int, l: int| 0 <= k < l < stack@.len() ==> stack@[k] != stack@[l],
                    forall|k: int| 0 <= k < stack@.len() ==> #[trigger] stack@[k] != current_id,
                    parent.len() == states@.len(),
                    forall|k: int| 1 <= k < parent.len() ==> 0 <= (#[trigger] parent[k]).0 < k && 0 <= parent[k].1 < 16
                        && states@[parent[k].0].inner is Some && if parent[k].0 == current_id {
                            parent[k].1 < input && row[parent[k].1] == k
                        } else {
                            !pending[parent[k].0] && rows@[parent[k].0].1[parent[k].1] == k
                        },
                    forall|i: int, s: int|
                        0 <= i < states@.len() && 0 <= s < 16 && states@[i].inner is Some && !pending[i]
                            ==> program.outcome(states@[i]@.0->0, s, states@[#[trigger] rows@[i].1[s] as int]@),
                    config@ == states@[current_id as int]@.0->0,
                    forall|t: int| 0 <= t < input ==> program.outcome(config@, t, states@[#[trigger] row[t] as int]@),
                    pending[current_id as int],
                decreases 16 - input,
            {
                let next = program.run_with_next_input(config.duplicate(), input);
                let id = match find_state(&states, &next) {
                    Some(j) => j,
                    None => {
                        proof {
                            let ss = states@.map_values(|x: State| x@).push(next@);
                            assert forall|k: int, l: int| 0 <= k < l < ss.len() implies ss[k] != ss[l] by {
                                assert(ss[k] == states@[k]@);
                                if l < states@.len() {
                                    assert(ss[l] == states@[l]@);
                                }
                            }
                            assert forall|k: int| 0 <= k < ss.len() implies program.valid_state(#[trigger] ss[k]) by {
                                if k < states@.len() {
                                    assert(ss[k] == states@[k]@);
                                }
                            }
                            program.lemma_states_bounded(ss);
                        }
                        let new_id = states.len();
                        let ghost stack_mid = stack@;
                        if next.inner.is_none() {
                            rows.push((next.accepting, [new_id; 16]));
                        } else {
                            rows.push((next.accepting, [0usize; 16]));
                        }
                        states.push(next);
                        stack.push(new_id);
                        proof {
                            pending = pending.push(true);
                            parent = parent.push((current_id as int, input as int));
                            assert(stack@[stack@.len() - 1] == new_id);
                            assert forall|i: int| 0 <= i < states@.len() && #[trigger] pending[i] && i != current_id
                                implies exists|k: int| 0 <= k < stack@.len() && stack@[k] == i by {
                                if i < states@.len() - 1 {
                                    let k = choose|k: int| 0 <= k < stack_mid.len() && stack_mid[k] == i;
                                    assert(stack@[k] == stack_mid[k]);
                                } else {
                                    assert(stack@[stack@.len() - 1] == i);
                                }
                            }
                        }
                        new_id
                    },
                };
                row[input as usize] = id;
                input += 1;
            }
            rows.set(current_id, (accepting, row));
            proof {
                pending = pending.update(current_id as int, false);
            }
        }
        assert forall|i: int| 0 <= i < states@.len() implies !pending[i] by {
            if pending[i] {
                let k = choose|k: int| 0 <= k < stack@.len() && stack@[k] == i;
            }
        }
        let table = Table { states: rows };
        proof {
            assert forall|i: int| 0 <= i < table.len_spec() implies #[trigger] reachable(table, i) by {
                lemma_found_rows_reachable(table, parent, i);
            }
            assert forall|k: int| 1 <= k < table.len_spec() implies #[trigger] found_from_lower(table, k) by {
                assert(table.next_at(parent[k].0, parent[k].1) == k);
            }
        }
        (table, states)
    }

    /// The automaton of a program: every state reachable from the start
    /// state, which is what the machine reaches from an all-zero tape with a
    /// first input of 0.
    pub fn build(program: &Program) -> (r: Self)
        requires
            program.wf(),
        ensures
            r.wf(),
            !program.has(Instruction::Accept) ==> forall|i: int|
                0 <= i < r.len_spec() ==> !#[trigger] r.accepting_at(i),
            !program.has(Instruction::Read) ==> r.len_spec() == 1 && r.is_sink(0),
            exists|ss: Seq<(Option<(Seq<u8>, int, int)>, bool)>| is_automaton(*program, r, ss),
            forall|i: int| 0 <= i < r.len_spec() ==> #[trigger] reachable(r, i),
            forall|k: int| 1 <= k < r.len_spec() ==> #[trigger] found_from_lower(r, k),
    {
        let (table, states) = Table::explore(program);
        proof {
            let ss = states@.map_values(|x: State| x@);
            assert forall|i: int, s: int|
                0 <= i < ss.len() && 0 <= s < 16 && ss[i].0 is Some implies program.outcome(
                    ss[i].0->0,
                    s,
                    ss[#[trigger] table.next_at(i, s)],
                ) by {
                assert(ss[i] == states@[i]@);
                assert(states@[i].inner is Some);
                assert(table.next_at(i, s) == table.states@[i].1[s] as int);
                assert(ss[table.next_at(i, s)] == states@[table.states@[i].1[s] as int]@);
            }
            assert forall|i: int| 0 <= i < ss.len() && (#[trigger] ss[i]).0 is None implies table.is_sink(i) by {
                assert(ss[i] == states@[i]@);
            }
            assert forall|i: int| 0 <= i < ss.len() implies table.accepting_at(i) == (#[trigger] ss[i]).1 by {
                assert(ss[i] == states@[i]@);
            }
            assert forall|k: int, l: int| 0 <= k < l < ss.len() implies ss[k] != ss[l] by {
                assert(ss[k] == states@[k]@ && ss[l] == states@[l]@);
            }
            assert(is_automaton(*program, table, ss));
            assert(program.valid_state(states@[0]@));
            assert forall|i: int| 0 <= i < table.len_spec() && !program.has(Instruction::Accept)
                implies !#[trigger] table.accepting_at(i) by {
                assert(program.valid_state(states@[i]@));
                assert(table.accepting_at(i) == states@[i].accepting);
            }
            if !program.has(Instruction::Read) {
                if let Some(c) = states@[0].inner {
                    assert(program.waiting_config(c@));
                    assert(program.instructions@[c@.2 - 1] == Instruction::Read);
                }
            }
        }
        table
    }

    /// Merges equivalent states by partition refinement: the classes start as
    /// accepting and non-accepting states and are split until every class
    /// agrees, input by input, on the class it moves to; a last pass confirms
    /// that every class does. Each class becomes one row, taken from its
    /// lowest-numbered member, in the order the classes were made. Two rows
    /// of the result never accept the same strings.
    pub fn minimize(&mut self)
        requires
            old(self).wf(),
        ensures
            final(self).wf(),
            final(self).len_spec() <= old(self).len_spec(),
            final(self).accepting_at(0) == old(self).accepting_at(0),
            exists|class: Seq<usize>, rep: Seq<usize>|
                is_quotient(*old(self), *final(self), class, rep) && forall|i: int, j: int|
                    0 <= i < class.len() && 0 <= j < class.len() && #[trigger] equivalent(*old(self), i, j)
                        ==> class[i] == class[j],
            forall|i: int, j: int| 0 <= i < j < final(self).len_spec() ==> !#[trigger] equivalent(*final(self), i, j),
    {
        let n = self.states.len();
        let ghost t0 = *old(self);
        let ghost old_states = self.states@;
        let mut partition: Vec<usize> = Vec::new();
        let mut i: usize = 0;
        while i < n
            invariant
                n == self.states@.len(),
                i <= n,
                partition@.len() == i,
                forall|k: int| 0 <= k < i ==> partition@[k] == 0,
            decreases n - i,
        {
            partition.push(0);
            i += 1;
        }
        let mut reps: Vec<usize> = Vec::new();
        reps.push(0);
        let initial_accepting = self.states[0].0;
        let mut seen_different = false;
        let mut id: usize = 0;
        while id < n
            invariant
                n == self.states@.len(),
                n > 0,
                id <= n,
                partition@.len() == n,
                initial_accepting == self.states@[0].0,
                partition@[0] == 0,
                reps@[0] == 0,
                reps@.len() == if seen_different { 2int } else { 1int },
                forall|k: int| 0 <= k < n ==> #[trigger] partition@[k] < reps@.len(),
                forall|c: int| 0 <= c < reps@.len() ==> #[trigger] reps@[c] < n && partition@[reps@[c] as int] == c,
                forall|k: int| 0 <= k < id ==> #[trigger] old_states[k].0 == old_states[reps@[partition@[k] as int] as int].0,
                forall|k: int| 0 <= k < id ==> reps@[#[trigger] partition@[k] as int] <= k,
                forall|k: int| id <= k < n ==> #[trigger] partition@[k] == 0,
                forall|k: int| 0 <= k < id ==> (#[trigger] partition@[k] == 1 <==> old_states[k].0 != initial_accepting),
                seen_different ==> old_states[reps@[1] as int].0 != initial_accepting && reps@[1] < id,
                old_states == self.states@,
            decreases n - id,
        {
            if self.states[id].0 != initial_accepting {
                if !seen_different {
                    seen_different = true;
                    reps.push(id);
                }
                partition.set(id, 1);
            }
            id += 1;
        }
        let mut queue: Vec<usize> = Vec::new();
        queue.push(0);
        if seen_different {
            queue.push(1);
        }
        proof {
            self.lemma_reps_bounded(partition@, reps@);
            assert forall|i: int, j: int| 0 <= i < n && 0 <= j < n && #[trigger] equivalent(t0, i, j)
                implies partition@[i] == partition@[j] by {
                lemma_equivalent_step(t0, i, j, 0);
            }
        }
        loop
            invariant
                self.wf(),
                n == self.states@.len(),
                old_states == self.states@,
                t0.states@ == old_states,
                refines(t0, partition@, reps@, n as int),
            decreases queue@.len() + n - reps@.len(),
        {
            let current = match queue.pop() {
                Some(c) => c,
                None => {
                    break;
                },
            };
            let ghost measure = queue@.len() + n - reps@.len();
            let mut input: usize = 0;
            while input < 16
                invariant
                    self.wf(),
                    n == self.states@.len(),
                    old_states == self.states@,
                    t0.states@ == old_states,
                    refines(t0, partition@, reps@, n as int),
                    queue@.len() + n - reps@.len() == measure,
                decreases 16 - input,
            {
                let mut preimage: Vec<bool> = Vec::new();
                let mut st: usize = 0;
                while st < n
                    invariant
                        self.wf(),
                        n == self.states@.len(),
                        partition@.len() == n,
                        input < 16,
                        st <= n,
                        preimage@.len() == st,
                        forall|x: int| 0 <= x < st ==> #[trigger] preimage@[x] == (partition@[old_states[x].1[input as int] as int] == current),
                        old_states == self.states@,
                    decreases n - st,
                {
                    let target = self.states[st].1[input];
                    preimage.push(partition[target] == current);
                    st += 1;
                }
                proof {
                    assert forall|i: int, j: int| 0 <= i < n && 0 <= j < n && #[trigger] equivalent(t0, i, j)
                        implies preimage@[i] == preimage@[j] by {
                        lemma_equivalent_step(t0, i, j, input as int);
                        assert(old_states[i].1[input as int] < n);
                        assert(old_states[j].1[input as int] < n);
                    }
                }
                let parts = reps.len();
                let mut part: usize = 0;
                while part < parts
                    invariant
                        n == self.states@.len(),
                        old_states == self.states@,
                        t0.states@ == old_states,
                        preimage@.len() == n,
                        reps@.len() >= parts,
                        refines(t0, partition@, reps@, n as int),
                        forall|i: int, j: int| 0 <= i < n && 0 <= j < n && #[trigger] equivalent(t0, i, j)
                            ==> preimage@[i] == preimage@[j],
                        queue@.len() + n - reps@.len() == measure,
                    decreases parts - part,
                {
                    let mut intersection: Vec<usize> = Vec::new();
                    let mut remainder: Vec<usize> = Vec::new();
                    let mut st: usize = 0;
                    while st < n
                        invariant
                            n == self.states@.len(),
                            partition@.len() == n,
                            preimage@.len() == n,
                            st <= n,
                            forall|k: int| 0 <= k < intersection@.len() ==> #[trigger] intersection@[k] < st
                                && partition@[intersection@[k] as int] == part && preimage@[intersection@[k] as int],
                            forall|k: int| 0 <= k < remainder@.len() ==> #[trigger] remainder@[k] < st
                                && partition@[remainder@[k] as int] == part && !preimage@[remainder@[k] as int],
                            forall|y: int| 0 <= y < st && #[trigger] partition@[y] == part && preimage@[y]
                                ==> intersection@.len() > 0 && intersection@[0] <= y,
                            forall|y: int| 0 <= y < st && #[trigger] partition@[y] == part && !preimage@[y]
                                ==> remainder@.len() > 0 && remainder@[0] <= y,
                        decreases n - st,
                    {
                        if partition[st] == part {
                            if preimage[st] {
                                intersection.push(st);
                            } else {
                                remainder.push(st);
                            }
                        }
                        st += 1;
                    }
                    if intersection.len() == 0 || remainder.len() == 0 {
                        part += 1;
                        continue;
                    }
                    let new_id = reps.len();
                    // the half whose lowest member is higher gets the new id
                    let higher_is_intersection = !(intersection[0] < remainder[0]);
                    let (lower_first, higher_first, inter_id, remain_id) = if higher_is_intersection {
                        (remainder[0], intersection[0], new_id, part)
                    } else {
                        (intersection[0], remainder[0], part, new_id)
                    };
                    let ghost part0 = partition@;
                    let ghost reps0 = reps@;
                    let mut x: usize = 0;
                    while x < n
                        invariant
                            n == self.states@.len(),
                            partition@.len() == n,
                            preimage@.len() == n,
                            x <= n,
                            forall|y: int| 0 <= y < x ==> #[trigger] partition@[y] == if part0[y] == part
                                && preimage@[y] == higher_is_intersection {
                                new_id
                            } else {
                                part0[y]
                            },
                            forall|y: int| x <= y < n ==> #[trigger] partition@[y] == part0[y],
                        decreases n - x,
                    {
                        if partition[x] == part && preimage[x] == higher_is_intersection {
                            partition.set(x, new_id);
                        }
                        x += 1;
                    }
                    reps.push(higher_first);
                    reps.set(part, lower_first);
                    if contains_id(&queue, part) {
                        queue.push(new_id);
                    } else if intersection.len() <= remainder.len() {
                        queue.push(inter_id);
                    } else {
                        queue.push(remain_id);
                    }
                    proof {
                        assert(part0[0] == part ==> preimage@[0] != higher_is_intersection);
                        assert forall|y: int| 0 <= y < n implies (#[trigger] partition@[y] == new_id)
                            == (part0[y] == part && preimage@[y] == higher_is_intersection) by {}
                        assert(partition@[higher_first as int] == new_id);
                        assert(partition@[lower_first as int] == part);
                        assert forall|y: int| 0 <= y < n implies #[trigger] partition@[y] < reps@.len()
                            && reps@[partition@[y] as int] <= y
                            && old_states[y].0 == old_states[reps@[partition@[y] as int] as int].0 by {
                            if partition@[y] == new_id {
                                assert(old_states[higher_first as int].0 == old_states[reps0[part as int] as int].0);
                            } else if part0[y] == part {
                                assert(old_states[lower_first as int].0 == old_states[reps0[part as int] as int].0);
                            }
                        }
                        assert forall|c: int| 0 <= c < reps@.len() implies #[trigger] reps@[c] < n
                            && partition@[reps@[c] as int] == c by {
                            if c != part && c < new_id {
                                assert(partition@[reps0[c] as int] == part0[reps0[c] as int]);
                            }
                        }
                        assert forall|i: int, j: int| 0 <= i < n && 0 <= j < n && #[trigger] equivalent(t0, i, j)
                            implies partition@[i] == partition@[j] by {}
                        self.lemma_reps_bounded(partition@, reps@);
                        assert(refines(t0, partition@, reps@, n as int));
                    }
                    part += 1;
                }
                input += 1;
            }
        }
        // Check that every class agrees, input by input, on the class it moves
        // to, and split any that does not.
        loop
            invariant
                self.wf(),
                n == self.states@.len(),
                old_states == self.states@,
                t0.states@ == old_states,
                refines(t0, partition@, reps@, n as int),
            ensures
                refines(t0, partition@, reps@, n as int),
                forall|i: int, s: int| 0 <= i < n && 0 <= s < 16 ==> partition@[#[trigger] old_states[i].1[s] as int]
                    == partition@[old_states[reps@[partition@[i] as int] as int].1[s] as int],
            decreases n - reps@.len(),
        {
            let mut found: Option<(usize, usize)> = None;
            let mut a: usize = 0;
            while a < n && found.is_none()
                invariant
                    self.wf(),
                    n == self.states@.len(),
                    old_states == self.states@,
                    refines(t0, partition@, reps@, n as int),
                    a <= n,
                    found is None ==> forall|i: int, s: int| 0 <= i < a && 0 <= s < 16 ==> partition@[#[trigger] old_states[i].1[s] as int]
                        == partition@[old_states[reps@[partition@[i] as int] as int].1[s] as int],
                    found matches Some(f) ==> f.0 < n && f.1 < 16 && partition@[old_states[f.0 as int].1[f.1 as int] as int]
                        != partition@[old_states[reps@[partition@[f.0 as int] as int] as int].1[f.1 as int] as int],
                decreases n - a + if found is None { 1int } else { 0int },
            {
                let rep = reps[partition[a]];
                let mut sym: usize = 0;
                while sym < 16
                    invariant
                        self.wf(),
                        n == self.states@.len(),
                        old_states == self.states@,
                        refines(t0, partition@, reps@, n as int),
                        a < n,
                        rep == reps@[partition@[a as int] as int],
                        sym <= 16,
                        found is None,
                        forall|s: int| 0 <= s < sym ==> partition@[#[trigger] old_states[a as int].1[s] as int]
                            == partition@[old_states[rep as int].1[s] as int],
                    ensures
                        sym <= 16,
                        forall|s: int| 0 <= s < sym ==> partition@[#[trigger] old_states[a as int].1[s] as int]
                            == partition@[old_states[rep as int].1[s] as int],
                        sym < 16 ==> partition@[old_states[a as int].1[sym as int] as int]
                            != partition@[old_states[rep as int].1[sym as int] as int],
                    decreases 16 - sym,
                {
                    if partition[self.states[a].1[sym]] != partition[self.states[rep].1[sym]] {
                        break;
                    }
                    sym += 1;
                }
                if sym < 16 {
                    found = Some((a, sym));
                } else {
                    a += 1;
                }
            }
            let (a, sym) = match found {
                None => {
                    break;
                },
                Some(f) => f,
            };
            let c = partition[a];
            let target = partition[self.states[reps[c]].1[sym]];
            let mut moving: Vec<bool> = Vec::new();
            let mut x: usize = 0;
            while x < n
                invariant
                    self.wf(),
                    n == self.states@.len(),
                    old_states == self.states@,
                    partition@.len() == n,
                    sym < 16,
                    x <= n,
                    moving@.len() == x,
                    forall|y: int| 0 <= y < x ==> #[trigger] moving@[y] == (partition@[y] == c
                        && partition@[old_states[y].1[sym as int] as int] != target),
                decreases n - x,
            {
                moving.push(partition[x] == c && partition[self.states[x].1[sym]] != target);
                x += 1;
            }
            proof {
                assert forall|i: int, j: int| 0 <= i < n && 0 <= j < n && #[trigger] equivalent(t0, i, j)
                    implies moving@[i] == moving@[j] by {
                    lemma_equivalent_step(t0, i, j, sym as int);
                    assert(old_states[i].1[sym as int] < n);
                    assert(old_states[j].1[sym as int] < n);
                }
                assert(moving@[a as int]);
                assert(!moving@[reps@[c as int] as int]);
            }
            let new_id = reps.len();
            let ghost part0 = partition@;
            let ghost reps0 = reps@;
            let mut first: Option<usize> = None;
            let mut x: usize = 0;
            while x < n
                invariant
                    n == self.states@.len(),
                    partition@.len() == n,
                    moving@.len() == n,
                    x <= n,
                    forall|y: int| 0 <= y < x ==> #[trigger] partition@[y] == if moving@[y] {
                        new_id
                    } else {
                        part0[y]
                    },
                    forall|y: int| x <= y < n ==> #[trigger] partition@[y] == part0[y],
                    first is None ==> forall|y: int| 0 <= y < x ==> !#[trigger] moving@[y],
                    first matches Some(f) ==> f < x && moving@[f as int] && forall|y: int| 0 <= y < f ==> !#[trigger] moving@[y],
                decreases n - x,
            {
                if moving[x] {
                    if first.is_none() {
                        first = Some(x);
                    }
                    partition.set(x, new_id);
                }
                x += 1;
            }
            let f = match first {
                Some(f) => f,
                None => {
                    proof {
                        assert(!moving@[a as int]);
                    }
                    a
                },
            };
            reps.push(f);
            proof {
                assert(partition@[f as int] == new_id);
                assert forall|y: int| 0 <= y < n implies #[trigger] partition@[y] < reps@.len()
                    && reps@[partition@[y] as int] <= y
                    && old_states[y].0 == old_states[reps@[partition@[y] as int] as int].0 by {
                    if moving@[y] {
                        assert(old_states[f as int].0 == old_states[reps0[c as int] as int].0);
                    }
                }
                assert forall|cc: int| 0 <= cc < reps@.len() implies #[trigger] reps@[cc] < n
                    && partition@[reps@[cc] as int] == cc by {
                    if cc < new_id {
                        assert(partition@[reps0[cc] as int] == part0[reps0[cc] as int]);
                    }
                }
                assert forall|i: int, j: int| 0 <= i < n && 0 <= j < n && #[trigger] equivalent(t0, i, j)
                    implies partition@[i] == partition@[j] by {}
                self.lemma_reps_bounded(partition@, reps@);
                assert(refines(t0, partition@, reps@, n as int));
            }
        }
        let mut new_states: Vec<(bool, [usize; 16])> = Vec::new();
        let mut c: usize = 0;
        while c < reps.len()
            invariant
                self.wf(),
                old_states == self.states@,
                partition@.len() == n,
                reps@.len() <= n,
                reps@.len() >= 1,
                reps@[0] == 0,
                n == self.states@.len(),
                c <= reps@.len(),
                new_states@.len() == c,
                forall|k: int| 0 <= k < n ==> #[trigger] partition@[k] < reps@.len(),
                forall|c: int| 0 <= c < reps@.len() ==> #[trigger] reps@[c] < n,
                forall|k: int, s: int| 0 <= k < c && 0 <= s < 16 ==> #[trigger] new_states@[k].1[s] < reps@.len(),
                forall|k: int| 0 <= k < c ==> #[trigger] new_states@[k].0 == self.states@[reps@[k] as int].0,
                forall|k: int, t: int| 0 <= k < c && 0 <= t < 16 ==> #[trigger] new_states@[k].1[t]
                    == partition@[self.states@[reps@[k] as int].1[t] as int],
                forall|k: int| 0 <= k < n ==> #[trigger] old_states[k].0 == old_states[reps@[partition@[k] as int] as int].0,
                forall|c: int| 0 <= c < reps@.len() ==> #[trigger] reps@[c] < n && partition@[reps@[c] as int] == c,
                partition@[0] == 0,
                t0.states@ == old_states,
                refines(t0, partition@, reps@, n as int),
                forall|i: int, s: int| 0 <= i < n && 0 <= s < 16 ==> partition@[#[trigger] old_states[i].1[s] as int]
                    == partition@[old_states[reps@[partition@[i] as int] as int].1[s] as int],
            decreases reps@.len() - c,
        {
            let (accepting, mut row) = self.states[reps[c]];
            let ghost orig = row;
            assert(forall|t: int| 0 <= t < 16 ==> #[trigger] row[t] == self.states@[reps@[c as int] as int].1[t]);
            let mut s: usize = 0;
            while s < 16
                invariant
                    self.wf(),
                    reps@.len() <= n,
                    n == self.states@.len(),
                    partition@.len() == n,
                    forall|k: int| 0 <= k < n ==> #[trigger] partition@[k] < reps@.len(),
                    s <= 16,
                    forall|t: int| 0 <= t < 16 ==> #[trigger] row[t] < n,
                    forall|t: int| 0 <= t < s ==> #[trigger] row[t] < reps@.len(),
                    forall|t: int| 0 <= t < s ==> #[trigger] row[t] == partition@[orig[t] as int],
                    forall|t: int| s <= t < 16 ==> #[trigger] row[t] == orig[t],
                    forall|t: int| 0 <= t < 16 ==> #[trigger] orig[t] < n,
                decreases 16 - s,
            {
                row[s] = partition[row[s]];
                s += 1;
            }
            new_states.push((accepting, row));
            c += 1;
        }
        self.states = new_states;
        proof {
            let q = *self;
            let class = partition@;
            let rep = reps@;
            assert(t0 == *old(self));
            assert forall|i: int, s: int| 0 <= i < t0.len_spec() && 0 <= s < 16 implies class[#[trigger] t0.next_at(i, s) as int]
                == q.next_at(class[i] as int, s) by {
                assert(old_states[i].1[s] < n);
            }
            assert(stable(t0, q, class));
            assert(is_quotient(t0, q, class, rep));
            assert forall|c: int, d: int| 0 <= c < d < q.len_spec() implies !#[trigger] equivalent(q, c, d) by {
                if equivalent(q, c, d) {
                    let i = rep[c] as int;
                    let j = rep[d] as int;
                    assert forall|w: Seq<int>| is_word(w) implies t0.accepting_at(#[trigger] reach_from(t0, i, w))
                        == t0.accepting_at(reach_from(t0, j, w)) by {
                        lemma_stable_quotient_language(t0, q, class, rep, i, w);
                        lemma_stable_quotient_language(t0, q, class, rep, j, w);
                        assert(q.accepting_at(reach_from(q, c, w)) == q.accepting_at(reach_from(q, d, w)));
                    }
                    assert(equivalent(t0, i, j));
                }
            }
        }
    }
}

} // verus!
