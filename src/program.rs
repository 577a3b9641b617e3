use vstd::prelude::*;
use vstd::string::*;
use crate::bound::{
    byte_code, lemma_byte_code_bound, lemma_byte_code_injective, lemma_distinct_bounded,
    lemma_triple_code, pow256, triple_code,
};
use crate::tape::{bytes_for, cell_of, set_cell, U4Vec};

verus! {

/// One instruction of the tape machine, written `<`, `>`, `+`, `-`, `[`, `]`,
/// `,` and `.` in program text.
#[derive(Clone, Copy, Debug, PartialEq, Eq, Structural)]
pub enum Instruction {
    MoveLeft,
    MoveRight,
    Increment,
    Decrement,
    StartLoop,
    EndLoop,
    Read,
    Accept,
}

/// The instruction that a source character stands for, if any.
pub open spec fn instruction_of(c: char) -> Option<Instruction> {
    if c == '<' {
        Some(Instruction::MoveLeft)
    } else if c == '>' {
        Some(Instruction::MoveRight)
    } else if c == '+' {
        Some(Instruction::Increment)
    } else if c == '-' {
        Some(Instruction::Decrement)
    } else if c == '[' {
        Some(Instruction::StartLoop)
    } else if c == ']' {
        Some(Instruction::EndLoop)
    } else if c == ',' {
        Some(Instruction::Read)
    } else if c == '.' {
        Some(Instruction::Accept)
    } else {
        None
    }
}

/// The instructions of a program text: every character that stands for one,
/// in order; all others are dropped.
pub open spec fn parse(text: Seq<char>) -> Seq<Instruction>
    decreases text.len(),
{
    if text.len() == 0 {
        Seq::empty()
    } else {
        let rest = parse(text.drop_last());
        match instruction_of(text.last()) {
            Some(i) => rest.push(i),
            None => rest,
        }
    }
}

impl Instruction {
    pub fn from_char(c: char) -> (r: Option<Self>)
        ensures
            r == instruction_of(c),
    {
        match c {
            '<' => Some(Self::MoveLeft),
            '>' => Some(Self::MoveRight),
            '+' => Some(Self::Increment),
            '-' => Some(Self::Decrement),
            '[' => Some(Self::StartLoop),
            ']' => Some(Self::EndLoop),
            ',' => Some(Self::Read),
            '.' => Some(Self::Accept),
            _ => None,
        }
    }
}

/// Bracket weight: `[` opens, `]` closes.
pub open spec fn weight(i: Instruction) -> int {
    match i {
        Instruction::StartLoop => 1,
        Instruction::EndLoop => -1,
        _ => 0,
    }
}

/// Net bracket nesting of the instructions at positions `a..b`.
pub open spec fn depth(s: Seq<Instruction>, a: int, b: int) -> int
    decreases b - a,
{
    if b <= a {
        0
    } else {
        depth(s, a, b - 1) + weight(s[b - 1])
    }
}

/// The `[` at `i` and the `]` at `j` match: `j` is the first position after `i`
/// at which the nesting opened at `i` falls back to zero.
pub open spec fn closes(s: Seq<Instruction>, i: int, j: int) -> bool {
    &&& 0 <= i < j < s.len()
    &&& s[i] == Instruction::StartLoop
    &&& s[j] == Instruction::EndLoop
    &&& depth(s, i, j + 1) == 0
    &&& forall|k: int| i < k <= j ==> #[trigger] depth(s, i, k) > 0
}

proof fn lemma_depth_split(s: Seq<Instruction>, a: int, b: int, c: int)
    requires
        a <= b <= c,
    ensures
        depth(s, a, c) == depth(s, a, b) + depth(s, b, c),
    decreases c - b,
{
    if b < c {
        lemma_depth_split(s, a, b, c - 1);
    }
}

proof fn lemma_closes_unique(s: Seq<Instruction>, i: int, j: int, k: int)
    requires
        closes(s, i, j),
        closes(s, i, k),
    ensures
        j == k,
{
    if j < k {
        assert(depth(s, i, j + 1) > 0);
    } else if k < j {
        assert(depth(s, i, k + 1) > 0);
    }
}

proof fn lemma_opens_unique(s: Seq<Instruction>, i: int, i2: int, j: int)
    requires
        closes(s, i, j),
        closes(s, i2, j),
    ensures
        i == i2,
{
    if i < i2 {
        lemma_depth_split(s, i, i2, j + 1);
        assert(depth(s, i, i2) > 0);
    } else if i2 < i {
        lemma_depth_split(s, i2, i, j + 1);
        assert(depth(s, i2, i) > 0);
    }
}

/// A program: its instructions and the number of cells on its ring-shaped
/// tape, which is at least one.
pub struct Program {
    pub cell_count: usize,
    pub instructions: Vec<Instruction>,
}

/// A machine configuration: packed tape, head position, instruction pointer.
pub struct InnerState {
    pub cells: U4Vec,
    pub head_position: usize,
    pub instruction_position: usize,
}

/// A state of the automaton: the configuration it waits in for input, or none
/// once the machine can never read again, and whether it accepted since the
/// last input.
pub struct State {
    pub inner: Option<InnerState>,
    pub accepting: bool,
}

impl InnerState {
    pub open spec fn view(&self) -> (Seq<u8>, int, int) {
        (self.cells@, self.head_position as int, self.instruction_position as int)
    }

    pub fn duplicate(&self) -> (r: InnerState)
        ensures
            r@ == self@,
    {
        InnerState {
            cells: self.cells.duplicate(),
            head_position: self.head_position,
            instruction_position: self.instruction_position,
        }
    }

    pub fn same(&self, other: &InnerState) -> (r: bool)
        ensures
            r == (self@ == other@),
    {
        self.head_position == other.head_position && self.instruction_position
            == other.instruction_position && self.cells.same_bytes(&other.cells)
    }
}

impl State {
    pub open spec fn view(&self) -> (Option<(Seq<u8>, int, int)>, bool) {
        (
            match self.inner {
                Some(c) => Some(c@),
                None => None,
            },
            self.accepting,
        )
    }

    pub fn duplicate(&self) -> (r: State)
        ensures
            r@ == self@,
    {
        State {
            inner: match &self.inner {
                Some(c) => Some(c.duplicate()),
                None => None,
            },
            accepting: self.accepting,
        }
    }

    pub fn same(&self, other: &State) -> (r: bool)
        ensures
            r == (self@ == other@),
    {
        if self.accepting != other.accepting {
            return false;
        }
        match (&self.inner, &other.inner) {
            (Some(a), Some(b)) => a.same(b),
            (None, None) => true,
            _ => false,
        }
    }
}

fn contains_config(seen: &Vec<InnerState>, c: &InnerState) -> (r: bool)
    ensures
        r == exists|k: int| 0 <= k < seen@.len() && seen@[k]@ == c@,
{
    let mut i: usize = 0;
    while i < seen.len()
        invariant
            i <= seen@.len(),
            forall|k: int| 0 <= k < i ==> seen@[k]@ != c@,
        decreases seen@.len() - i,
    {
        if seen[i].same(c) {
            return true;
        }
        i += 1;
    }
    false
}

impl Program {
    pub open spec fn wf(&self) -> bool {
        self.cell_count > 0
    }

    /// A configuration that the machine can be in for this program.
    pub open spec fn valid_config(&self, c: (Seq<u8>, int, int)) -> bool {
        &&& c.0.len() == bytes_for(self.cell_count as int)
        &&& self.cell_count as int % 2 == 1 ==> c.0[self.cell_count as int / 2] < 16
        &&& 0 <= c.1 < self.cell_count
        &&& 0 <= c.2 <= self.instructions@.len()
    }

    /// A configuration in which the machine waits for input: just past a `Read`.
    pub open spec fn waiting_config(&self, c: (Seq<u8>, int, int)) -> bool {
        &&& self.valid_config(c)
        &&& c.2 > 0
        &&& self.instructions@[c.2 - 1] == Instruction::Read
    }

    pub open spec fn has(&self, i: Instruction) -> bool {
        exists|k: int| 0 <= k < self.instructions@.len() && self.instructions@[k] == i
    }

    pub fn new(program_text: &str, cell_count: usize) -> (r: Self)
        requires
            cell_count > 0,
        ensures
            r.wf(),
            r.cell_count == cell_count,
            r.instructions@ == parse(program_text@),
    {
        let mut instructions: Vec<Instruction> = Vec::new();
        let n = program_text.unicode_len();
        let mut i: usize = 0;
        while i < n
            invariant
                n == program_text@.len(),
                i <= n,
                instructions@ == parse(program_text@.subrange(0, i as int)),
            decreases n - i,
        {
            let c = program_text.get_char(i);
            let ghost pre = program_text@.subrange(0, i as int);
            assert(program_text@.subrange(0, i + 1).drop_last() =~= pre);
            match Instruction::from_char(c) {
                Some(ins) => instructions.push(ins),
                None => {},
            }
            i += 1;
        }
        assert(program_text@.subrange(0, n as int) =~= program_text@);
        Program { cell_count, instructions }
    }

    /// Position of the `]` that matches the `[` at `i`, if there is one.
    fn match_forward(&self, i: usize) -> (r: Option<usize>)
        requires
            i < self.instructions@.len(),
            self.instructions@[i as int] == Instruction::StartLoop,
        ensures
            r matches Some(j) ==> closes(self.instructions@, i as int, j as int),
            r is None ==> forall|k: int|
                i < k <= self.instructions@.len() ==> #[trigger] depth(self.instructions@, i as int, k) > 0,
    {
        let ghost s = self.instructions@;
        let len = self.instructions.len();
        let mut nesting: usize = 1;
        let mut p: usize = i + 1;
        assert(depth(s, i as int, i as int) == 0);
        assert(depth(s, i as int, i + 1) == 1);
        while p < len
            invariant
                s == self.instructions@,
                len == s.len(),
                s[i as int] == Instruction::StartLoop,
                i < p <= len,
                1 <= nesting <= p - i,
                nesting == depth(s, i as int, p as int),
                forall|k: int| i < k <= p ==> #[trigger] depth(s, i as int, k) > 0,
            decreases len - p,
        {
            assert(depth(s, i as int, p + 1) == depth(s, i as int, p as int) + weight(s[p as int]));
            match self.instructions[p] {
                Instruction::StartLoop => nesting += 1,
                Instruction::EndLoop => {
                    nesting -= 1;
                    if nesting == 0 {
                        assert(s[p as int] == Instruction::EndLoop);
                        assert(depth(s, i as int, p + 1) == 0);
                        assert(s[i as int] == Instruction::StartLoop);
                        assert(forall|k: int| i < k <= p ==> #[trigger] depth(s, i as int, k) > 0);
                        assert(closes(s, i as int, p as int));
                        return Some(p);
                    }
                },
                _ => {},
            }
            p += 1;
        }
        None
    }

    /// Position of the `[` that matches the `]` at `j`, if there is one.
    fn match_back(&self, j: usize) -> (r: Option<usize>)
        requires
            j < self.instructions@.len(),
            self.instructions@[j as int] == Instruction::EndLoop,
        ensures
            r matches Some(i) ==> closes(self.instructions@, i as int, j as int),
            r is None ==> forall|i: int| !#[trigger] closes(self.instructions@, i, j as int),
    {
        let ghost s = self.instructions@;
        let len = self.instructions.len();
        let mut nesting: usize = 1;
        let mut p: usize = j;
        assert(depth(s, j as int, j + 1) == -1) by {
            assert(depth(s, j as int, j as int) == 0);
        }
        while p > 0
            invariant
                s == self.instructions@,
                j < s.len(),
                s[j as int] == Instruction::EndLoop,
                len == s.len(),
                p <= j,
                1 <= nesting <= j + 1 - p,
                nesting == -depth(s, p as int, j + 1),
                forall|q: int| p <= q <= j ==> #[trigger] depth(s, q, j + 1) < 0,
            decreases p,
        {
            p -= 1;
            proof {
                lemma_depth_split(s, p as int, p + 1, j + 1);
                assert(depth(s, p as int, p + 1) == weight(s[p as int])) by {
                    assert(depth(s, p as int, p as int) == 0);
                }
            }
            match self.instructions[p] {
                Instruction::EndLoop => nesting += 1,
                Instruction::StartLoop => {
                    nesting -= 1;
                    assert(nesting == -depth(s, p as int, j + 1));
                    if nesting == 0 {
                        proof {
                            assert forall|k: int| p < k <= j implies #[trigger] depth(s, p as int, k) > 0 by {
                                lemma_depth_split(s, p as int, k, j + 1);
                                assert(depth(s, k, j + 1) < 0);
                            }
                        }
                        assert(s[p as int] == Instruction::StartLoop);
                        assert(depth(s, p as int, j + 1) == 0);
                        assert(closes(s, p as int, j as int));
                        return Some(p);
                    }
                },
                _ => {},
            }
        }
        None
    }

    /// The machine stops for good at `m`: it ran off the program, or a loop
    /// bracket has no partner to jump to.
    #[verifier::opaque]
    pub open spec fn halts_at(&self, m: (Seq<u8>, int, int, bool)) -> bool {
        let s = self.instructions@;
        ||| m.2 >= s.len()
        ||| (s[m.2] == Instruction::StartLoop && cell_of(m.0, m.1) == 0 && !(exists|j: int|
            closes(s, m.2, j)))
        ||| (s[m.2] == Instruction::EndLoop && !(exists|i: int| closes(s, i, m.2)))
    }

    /// The machine waits for input at `m`.
    pub open spec fn waits_at(&self, m: (Seq<u8>, int, int, bool)) -> bool {
        m.2 < self.instructions@.len() && self.instructions@[m.2] == Instruction::Read
    }

    /// At `m` the machine is at a loop head whose body it is about to enter.
    pub open spec fn enters_loop_at(&self, m: (Seq<u8>, int, int, bool)) -> bool {
        &&& 0 <= m.2 < self.instructions@.len()
        &&& self.instructions@[m.2] == Instruction::StartLoop
        &&& cell_of(m.0, m.1) != 0
    }

    /// One instruction of the machine `(tape, head, ip, accepted)`, where it
    /// neither halts nor waits for input.
    #[verifier::opaque]
    pub open spec fn step(&self, m: (Seq<u8>, int, int, bool)) -> (Seq<u8>, int, int, bool) {
        let s = self.instructions@;
        let n = self.cell_count as int;
        let (b, h, ip, acc) = m;
        match s[ip] {
            Instruction::MoveLeft => (b, if h == 0 { n - 1 } else { h - 1 }, ip + 1, acc),
            Instruction::MoveRight => (b, if h == n - 1 { 0 } else { h + 1 }, ip + 1, acc),
            Instruction::Increment => (set_cell(b, h, cell_of(b, h) + 1), h, ip + 1, acc),
            Instruction::Decrement => (set_cell(b, h, cell_of(b, h) + 15), h, ip + 1, acc),
            Instruction::Accept => (b, h, ip + 1, true),
            Instruction::StartLoop => if cell_of(b, h) == 0 {
                (b, h, (choose|j: int| closes(s, ip, j)) + 1, acc)
            } else {
                (b, h, ip + 1, acc)
            },
            Instruction::EndLoop => (b, h, choose|i: int| closes(s, i, ip), acc),
            Instruction::Read => m,
        }
    }

    /// The machine after `t` instructions from `m`.
    pub open spec fn run(&self, m: (Seq<u8>, int, int, bool), t: nat) -> (Seq<u8>, int, int, bool)
        decreases t,
    {
        if t == 0 {
            m
        } else {
            self.step(self.run(m, (t - 1) as nat))
        }
    }

    /// The first `t` instructions from `m` neither halt nor wait for input.
    pub open spec fn live(&self, m: (Seq<u8>, int, int, bool), t: nat) -> bool {
        forall|u: nat| u < t ==> !self.halts_at(#[trigger] self.run(m, u)) && !self.waits_at(
            self.run(m, u),
        )
    }

    /// The machine that the configuration `c` and an input start: the input
    /// is written into the cell under the head.
    pub open spec fn entry(&self, c: (Seq<u8>, int, int), input: int) -> (Seq<u8>, int, int, bool) {
        (set_cell(c.0, c.1, input), c.1, c.2, false)
    }

    /// From `m`, the first input that the machine waits for comes after `t`
    /// instructions, in configuration `c` (past the `Read`), having accepted
    /// or not as `acc` says.
    pub open spec fn reads_after(
        &self,
        m: (Seq<u8>, int, int, bool),
        t: nat,
        c: (Seq<u8>, int, int),
        acc: bool,
    ) -> bool {
        let e = self.run(m, t);
        &&& self.live(m, t)
        &&& self.waits_at(e)
        &&& c == (e.0, e.1, e.2 + 1)
        &&& acc == e.3
    }

    /// From `m`, the machine never reads again, as seen after `t`
    /// instructions: it halts there, or enters a loop in a configuration it
    /// entered a loop in before (and then repeats itself for ever).
    pub open spec fn stops_after(&self, m: (Seq<u8>, int, int, bool), t: nat, acc: bool) -> bool {
        let e = self.run(m, t);
        &&& self.live(m, t)
        &&& acc == e.3
        &&& (self.halts_at(e) || exists|u: nat|
            u < t && #[trigger] self.enters_loop_at(self.run(m, u)) && self.enters_loop_at(e) && (
            self.run(m, u).0, self.run(m, u).1, self.run(m, u).2) == (e.0, e.1, e.2))
    }

    /// The configuration the machine starts in: every cell zero, head and
    /// instruction pointer at 0.
    pub open spec fn start_config(&self) -> (Seq<u8>, int, int) {
        (Seq::new(bytes_for(self.cell_count as int) as nat, |_i: int| 0u8), 0, 0)
    }

    /// `st` is what the machine produces from configuration `c` and `input`:
    /// the configuration in which it next waits for input, or none if it can
    /// never read again, and whether it accepted on the way.
    pub open spec fn outcome(
        &self,
        c: (Seq<u8>, int, int),
        input: int,
        st: (Option<(Seq<u8>, int, int)>, bool),
    ) -> bool {
        match st.0 {
            Some(d) => exists|t: nat| #[trigger] self.reads_after(self.entry(c, input), t, d, st.1),
            None => exists|t: nat| #[trigger] self.stops_after(self.entry(c, input), t, st.1),
        }
    }

    proof fn lemma_step_config(&self, a: (Seq<u8>, int, int, bool), b: (Seq<u8>, int, int, bool))
        requires
            (a.0, a.1, a.2) == (b.0, b.1, b.2),
        ensures
            (self.step(a).0, self.step(a).1, self.step(a).2) == (self.step(b).0, self.step(b).1, self.step(b).2),
            self.halts_at(a) == self.halts_at(b),
            self.waits_at(a) == self.waits_at(b),
    {
        reveal(Program::step);
        reveal(Program::halts_at);
    }

    proof fn lemma_shift(&self, m: (Seq<u8>, int, int, bool), u: nat, t: nat, j: nat)
        requires
            (self.run(m, u).0, self.run(m, u).1, self.run(m, u).2) == (self.run(m, t).0, self.run(m, t).1, self.run(m, t).2),
        ensures
            (self.run(m, u + j).0, self.run(m, u + j).1, self.run(m, u + j).2) == (
                self.run(m, t + j).0,
                self.run(m, t + j).1,
                self.run(m, t + j).2,
            ),
        decreases j,
    {
        if j > 0 {
            self.lemma_shift(m, u, t, (j - 1) as nat);
            self.lemma_step_config(self.run(m, (u + j - 1) as nat), self.run(m, (t + j - 1) as nat));
            assert(self.run(m, u + j) == self.step(self.run(m, (u + j - 1) as nat)));
            assert(self.run(m, t + j) == self.step(self.run(m, (t + j - 1) as nat)));
        }
    }

    proof fn lemma_cycle(&self, m: (Seq<u8>, int, int, bool), u: nat, t: nat, k: nat)
        requires
            self.live(m, t),
            u < t,
            (self.run(m, u).0, self.run(m, u).1, self.run(m, u).2) == (self.run(m, t).0, self.run(m, t).1, self.run(m, t).2),
        ensures
            !self.halts_at(self.run(m, k)),
            !self.waits_at(self.run(m, k)),
        decreases k,
    {
        if k >= t {
            let k2 = (k - (t - u)) as nat;
            self.lemma_cycle(m, u, t, k2);
            self.lemma_shift(m, u, t, (k - t) as nat);
            assert(u + (k - t) == k2);
            assert(t + (k - t) == k);
            self.lemma_step_config(self.run(m, k2), self.run(m, k));
        }
    }

    /// Once the machine stops, it never reads again: it either halts right
    /// there, or neither halts nor waits for input after any number of
    /// instructions; and it did not read before.
    pub proof fn lemma_stops_for_good(&self, m: (Seq<u8>, int, int, bool), t: nat, acc: bool)
        requires
            self.stops_after(m, t, acc),
        ensures
            forall|u: nat| u < t ==> !self.waits_at(#[trigger] self.run(m, u)),
            self.halts_at(self.run(m, t)) || forall|k: nat| !self.halts_at(#[trigger] self.run(m, k))
                && !self.waits_at(self.run(m, k)),
    {
        if !self.halts_at(self.run(m, t)) {
            let u = choose|u: nat|
                u < t && #[trigger] self.enters_loop_at(self.run(m, u)) && self.enters_loop_at(self.run(m, t)) && (
                self.run(m, u).0, self.run(m, u).1, self.run(m, u).2) == (self.run(m, t).0, self.run(m, t).1, self.run(m, t).2);
            assert forall|k: nat| !self.halts_at(#[trigger] self.run(m, k)) && !self.waits_at(self.run(m, k)) by {
                self.lemma_cycle(m, u, t, k);
            }
        }
    }

    proof fn lemma_stopped(&self, c: (Seq<u8>, int, int), input: int, t: nat, r: State)
        requires
            r.inner is None,
            self.stops_after(self.entry(c, input), t, r.accepting),
        ensures
            self.outcome(c, input, r@),
    {
        assert(self.stops_after(self.entry(c, input), t, r@.1));
    }

    proof fn lemma_read(&self, c: (Seq<u8>, int, int), input: int, t: nat, r: State)
        requires
            r.inner is Some,
            self.reads_after(self.entry(c, input), t, r.inner->0@, r.accepting),
        ensures
            self.outcome(c, input, r@),
    {
        assert(r@.0 == Some(r.inner->0@));
        assert(self.reads_after(self.entry(c, input), t, r@.0->0, r@.1));
    }

    proof fn lemma_advance(&self, m: (Seq<u8>, int, int, bool), t: nat, next: (Seq<u8>, int, int, bool))
        requires
            self.live(m, t),
            !self.halts_at(self.run(m, t)),
            !self.waits_at(self.run(m, t)),
            self.step(self.run(m, t)) == next,
        ensures
            self.live(m, t + 1),
            self.run(m, t + 1) == next,
    {
        self.lemma_live_extend(m, t);
    }

    proof fn lemma_live_extend(&self, m: (Seq<u8>, int, int, bool), t: nat)
        requires
            self.live(m, t),
            !self.halts_at(self.run(m, t)),
            !self.waits_at(self.run(m, t)),
        ensures
            self.live(m, t + 1),
    {
        assert forall|u: nat| u < t + 1 implies !self.halts_at(#[trigger] self.run(m, u))
            && !self.waits_at(self.run(m, u)) by {}
    }

    /// Runs the machine from `state` after writing `input` into the cell under
    /// the head, until it waits for the next input, halts, or comes back to a
    /// loop head in a configuration it entered that loop in before.
    #[verifier::rlimit(100)]
    pub(crate) fn run_with_next_input(&self, state: InnerState, input: u8) -> (r: State)
        requires
            self.wf(),
            self.valid_config(state@),
        ensures
            r.inner matches Some(c) ==> self.waiting_config(c@),
            self.cell_count == 1 ==> (r.inner matches Some(c) ==> c.head_position == 0),
            r.accepting ==> self.has(Instruction::Accept),
            self.outcome(state@, input as int, r@),
    {
        let ghost m0 = self.entry(state@, input as int);
        let n = self.cell_count;
        let len = self.instructions.len();
        let InnerState { mut cells, mut head_position, instruction_position } = state;
        let mut ip = instruction_position;
        assert(cells.holds(n as int));
        cells.set(head_position, input);
        let mut accepting = false;
        let mut seen: Vec<InnerState> = Vec::new();
        let ghost mut times: Seq<nat> = Seq::empty();
        let ghost mut t: nat = 0;
        let ghost bound = self.config_bound();
        assert(self.live(m0, 0));
        loop
            invariant
                self.wf(),
                n == self.cell_count,
                len == self.instructions@.len(),
                bound == self.config_bound(),
                m0 == self.entry(state@, input as int),
                self.valid_config((cells@, head_position as int, ip as int)),
                (cells@, head_position as int, ip as int, accepting) == self.run(m0, t),
                self.live(m0, t),
                accepting ==> self.has(Instruction::Accept),
                forall|k: int| 0 <= k < seen.len() ==> self.valid_config(#[trigger] seen@[k]@),
                forall|k: int, l: int| 0 <= k < l < seen.len() ==> seen@[k]@ != seen@[l]@,
                times.len() == seen.len(),
                forall|k: int| 0 <= k < seen.len() ==> #[trigger] times[k] < t && self.enters_loop_at(
                    self.run(m0, times[k]),
                ) && seen@[k]@ == (self.run(m0, times[k]).0, self.run(m0, times[k]).1, self.run(m0, times[k]).2),
                seen.len() <= bound,
            decreases bound - seen.len(), len - ip,
        {
            if ip >= len {
                reveal(Program::halts_at);
                let r = State { inner: None, accepting };
                proof {
                    self.lemma_stopped(state@, input as int, t, r);
                }
                return r;
            }
            assert(cells.holds(n as int));
            let ghost ip0 = ip;
            let mut at: usize = ip;
            let mut loop_head = false;
            match self.instructions[ip] {
                Instruction::MoveLeft => {
                    head_position = if head_position == 0 {
                        n - 1
                    } else {
                        head_position - 1
                    };
                    ip += 1;
                },
                Instruction::MoveRight => {
                    head_position = if head_position == n - 1 {
                        0
                    } else {
                        head_position + 1
                    };
                    ip += 1;
                },
                Instruction::Increment => {
                    let v = cells.get(head_position);
                    cells.set(head_position, v + 1);
                    ip += 1;
                },
                Instruction::Decrement => {
                    // one less, modulo 16
                    let v = cells.get(head_position);
                    cells.set(head_position, v + 15);
                    ip += 1;
                },
                Instruction::Accept => {
                    accepting = true;
                    ip += 1;
                },
                Instruction::Read => {
                    ip += 1;
                    let r = State {
                        inner: Some(InnerState { cells, head_position, instruction_position: ip }),
                        accepting,
                    };
                    proof {
                        self.lemma_read(state@, input as int, t, r);
                    }
                    return r;
                },
                Instruction::StartLoop => {
                    loop_head = true;
                },
                Instruction::EndLoop => {
                    // unconditional: back to the matching loop head, which is
                    // then evaluated again
                    match self.match_back(ip) {
                        None => {
                            reveal(Program::halts_at);
                            let r = State { inner: None, accepting };
                            proof {
                                self.lemma_stopped(state@, input as int, t, r);
                            }
                            return r;
                        },
                        Some(i) => {
                            proof {
                                let s = self.instructions@;
                                lemma_opens_unique(s, choose|i2: int| closes(s, i2, ip as int), i as int, ip as int);
                                reveal(Program::step);
                                reveal(Program::halts_at);
                                self.lemma_advance(m0, t, (cells@, head_position as int, i as int, accepting));
                                t = t + 1;
                            }
                            at = i;
                            loop_head = true;
                        },
                    }
                },
            }
            if !loop_head {
                proof {
                    reveal(Program::step);
                    reveal(Program::halts_at);
                    self.lemma_advance(m0, t, (cells@, head_position as int, ip as int, accepting));
                    t = t + 1;
                }
            } else {
                let ghost s = self.instructions@;
                assert((cells@, head_position as int, at as int, accepting) == self.run(m0, t));
                assert(s[at as int] == Instruction::StartLoop);
                if cells.get(head_position) == 0 {
                    match self.match_forward(at) {
                        None => {
                            reveal(Program::halts_at);
                            assert(self.halts_at(self.run(m0, t)));
                            let r = State { inner: None, accepting };
                            proof {
                                self.lemma_stopped(state@, input as int, t, r);
                            }
                            return r;
                        },
                        Some(k) => {
                            proof {
                                if at < ip0 {
                                    lemma_closes_unique(s, at as int, ip0 as int, k as int);
                                }
                                lemma_closes_unique(s, at as int, choose|j: int| closes(s, at as int, j), k as int);
                                reveal(Program::step);
                                reveal(Program::halts_at);
                                self.lemma_advance(m0, t, (cells@, head_position as int, k + 1, accepting));
                                t = t + 1;
                            }
                            ip = k + 1;
                        },
                    }
                } else {
                    assert(self.enters_loop_at(self.run(m0, t)));
                    let current = InnerState {
                        cells: cells.duplicate(),
                        head_position,
                        instruction_position: at,
                    };
                    if contains_config(&seen, &current) {
                        proof {
                            let k = choose|k: int| 0 <= k < seen@.len() && seen@[k]@ == current@;
                            assert(times[k] < t && self.enters_loop_at(self.run(m0, times[k])));
                        }
                        let r = State { inner: None, accepting };
                        proof {
                            self.lemma_stopped(state@, input as int, t, r);
                        }
                        return r;
                    }
                    proof {
                        let cs = seen@.map_values(|x: InnerState| x@).push(current@);
                        assert forall|k: int, l: int| 0 <= k < l < cs.len() implies cs[k] != cs[l] by {
                            if l == seen.len() {
                                assert(cs[k] == seen@[k]@);
                            } else {
                                assert(cs[k] == seen@[k]@ && cs[l] == seen@[l]@);
                            }
                        }
                        assert forall|k: int| 0 <= k < cs.len() implies self.valid_config(#[trigger] cs[k]) by {
                            if k < seen.len() {
                                assert(cs[k] == seen@[k]@);
                            }
                        }
                        self.lemma_configs_bounded(cs);
                    }
                    seen.push(current);
                    proof {
                        times = times.push(t);
                        reveal(Program::step);
                        reveal(Program::halts_at);
                        self.lemma_advance(m0, t, (cells@, head_position as int, at + 1, accepting));
                        t = t + 1;
                    }
                    ip = at + 1;
                }
            }
        }
    }

    /// A number that tells configurations apart.
    pub open spec fn config_code(&self, c: (Seq<u8>, int, int)) -> int {
        triple_code(c.2, c.1, byte_code(c.0) as int, self.cell_count as int,
            pow256(bytes_for(self.cell_count as int) as nat) as int)
    }

    /// How many configurations there are, at most.
    pub open spec fn config_bound(&self) -> int {
        (self.instructions@.len() + 1) * self.cell_count * pow256(
            bytes_for(self.cell_count as int) as nat,
        )
    }

    pub proof fn lemma_config_code(&self, c: (Seq<u8>, int, int), d: (Seq<u8>, int, int))
        requires
            self.valid_config(c),
            self.valid_config(d),
        ensures
            0 <= self.config_code(c) < self.config_bound(),
            self.config_code(c) == self.config_code(d) ==> c == d,
    {
        lemma_byte_code_bound(c.0);
        lemma_byte_code_bound(d.0);
        lemma_triple_code(c.2, c.1, byte_code(c.0) as int, d.2, d.1, byte_code(d.0) as int,
            self.cell_count as int, pow256(bytes_for(self.cell_count as int) as nat) as int,
            (self.instructions@.len() + 1) as int);
        if self.config_code(c) == self.config_code(d) {
            lemma_byte_code_injective(c.0, d.0);
        }
    }

    /// Pairwise distinct configurations are no more than `config_bound`.
    pub proof fn lemma_configs_bounded(&self, cs: Seq<(Seq<u8>, int, int)>)
        requires
            forall|k: int| 0 <= k < cs.len() ==> self.valid_config(#[trigger] cs[k]),
            forall|k: int, l: int| 0 <= k < l < cs.len() ==> cs[k] != cs[l],
        ensures
            cs.len() <= self.config_bound(),
    {
        let codes = cs.map(|k: int, c: (Seq<u8>, int, int)| self.config_code(c));
        assert forall|k: int| 0 <= k < codes.len() implies 0 <= #[trigger] codes[k]
            < self.config_bound() by {
            self.lemma_config_code(cs[k], cs[k]);
        }
        assert forall|k: int, l: int| 0 <= k < codes.len() && 0 <= l < codes.len() && k != l
            implies codes[k] != codes[l] by {
            self.lemma_config_code(cs[k], cs[l]);
        }
        if self.config_bound() < 0 {
            if cs.len() > 0 {
                self.lemma_config_code(cs[0], cs[0]);
            }
        } else {
            lemma_distinct_bounded(codes, self.config_bound());
        }
    }

    /// An automaton state that the machine can produce for this program.
    pub open spec fn valid_state(&self, st: (Option<(Seq<u8>, int, int)>, bool)) -> bool {
        &&& st.0 matches Some(c) ==> self.waiting_config(c)
        &&& st.1 ==> self.has(Instruction::Accept)
    }

    pub open spec fn state_code(&self, st: (Option<(Seq<u8>, int, int)>, bool)) -> int {
        2 * (match st.0 {
            Some(c) => self.config_code(c) + 1,
            None => 0,
        }) + if st.1 {
            1int
        } else {
            0
        }
    }

    /// Pairwise distinct automaton states are no more than `2 * (config_bound + 1)`.
    pub proof fn lemma_states_bounded(&self, ss: Seq<(Option<(Seq<u8>, int, int)>, bool)>)
        requires
            forall|k: int| 0 <= k < ss.len() ==> self.valid_state(#[trigger] ss[k]),
            forall|k: int, l: int| 0 <= k < l < ss.len() ==> ss[k] != ss[l],
        ensures
            ss.len() <= 2 * (self.config_bound() + 1),
    {
        let b = 2 * (self.config_bound() + 1);
        let codes = ss.map(|k: int, st: (Option<(Seq<u8>, int, int)>, bool)| self.state_code(st));
        assert forall|k: int| 0 <= k < codes.len() implies 0 <= #[trigger] codes[k] < b by {
            if let Some(c) = ss[k].0 {
                self.lemma_config_code(c, c);
            }
        }
        assert forall|k: int, l: int| 0 <= k < codes.len() && 0 <= l < codes.len() && k != l
            implies codes[k] != codes[l] by {
            if k < l {
                assert(ss[k] != ss[l]);
            } else {
                assert(ss[l] != ss[k]);
            }
            match (ss[k].0, ss[l].0) {
                (Some(c), Some(d)) => {
                    self.lemma_config_code(c, d);
                },
                (Some(c), None) => {
                    self.lemma_config_code(c, c);
                },
                (None, Some(d)) => {
                    self.lemma_config_code(d, d);
                },
                (None, None) => {},
            }
        }
        if ss.len() > 0 {
            if let Some(c) = ss[0].0 {
                self.lemma_config_code(c, c);
            }
        }
        if b >= 0 {
            lemma_distinct_bounded(codes, b);
        }
    }
}

} // verus!
