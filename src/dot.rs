use vstd::prelude::*;
use crate::table::Table;

verus! {

/// Upper-case hexadecimal digit of `d` (also the decimal digit for `d < 10`).
pub open spec fn hex_char(d: int) -> char {
    if d == 0 { '0' } else if d == 1 { '1' } else if d == 2 { '2' } else if d == 3 { '3' }
    else if d == 4 { '4' } else if d == 5 { '5' } else if d == 6 { '6' } else if d == 7 { '7' }
    else if d == 8 { '8' } else if d == 9 { '9' } else if d == 10 { 'A' } else if d == 11 { 'B' }
    else if d == 12 { 'C' } else if d == 13 { 'D' } else if d == 14 { 'E' } else { 'F' }
}

/// Decimal notation of `n`.
pub open spec fn decimal(n: nat) -> Seq<char>
    decreases n,
{
    if n < 10 {
        seq![hex_char(n as int)]
    } else {
        decimal(n / 10).push(hex_char((n % 10) as int))
    }
}

/// The hexadecimal digits of `a..b`, one per input.
pub open spec fn digits(a: int, b: int) -> Seq<char>
    decreases b - a,
{
    if b <= a {
        Seq::empty()
    } else {
        digits(a, b - 1).push(hex_char(b - 1))
    }
}

/// How the run of inputs `a..b` is written: each input up to three of them,
/// else first and last joined by `-`.
pub open spec fn run_text(a: int, b: int) -> Seq<char> {
    if b - a < 4 {
        digits(a, b)
    } else {
        seq![hex_char(a), '-', hex_char(b - 1)]
    }
}

/// The label of the inputs from `p` on that lead to `to`, where `open` is the
/// start of a run of such inputs that is still going on at `p`.
pub open spec fn label_from(next: Seq<usize>, to: int, p: int, open: Option<int>) -> Seq<char>
    decreases 16 - p,
{
    if p >= 16 {
        match open {
            Some(a) => run_text(a, 16),
            None => Seq::empty(),
        }
    } else if next[p] == to {
        label_from(next, to, p + 1, if open is Some { open } else { Some(p) })
    } else {
        match open {
            Some(a) => run_text(a, p) + label_from(next, to, p + 1, None),
            None => label_from(next, to, p + 1, None),
        }
    }
}

/// The label of the edge to `to` of a row with successors `next`: its maximal
/// runs of inputs, in order.
pub open spec fn label(next: Seq<usize>, to: int) -> Seq<char> {
    label_from(next, to, 0, None)
}

pub open spec fn edge_line(from: int, to: int, next: Seq<usize>) -> Seq<char> {
    if label(next, to).len() == 0 {
        Seq::empty()
    } else {
        "    "@ + decimal(from as nat) + " -> "@ + decimal(to as nat) + " [label=\""@ + label(next, to)
            + "\"];\n"@
    }
}

/// Edge lines of row `from` towards the states `0..t`.
pub open spec fn row_edges(from: int, next: Seq<usize>, t: int) -> Seq<char>
    decreases t,
{
    if t <= 0 {
        Seq::empty()
    } else {
        row_edges(from, next, t - 1) + edge_line(from, t - 1, next)
    }
}

/// Edge lines of the rows `0..k`.
pub open spec fn all_edges(rows: Seq<(bool, [usize; 16])>, k: int) -> Seq<char>
    decreases k,
{
    if k <= 0 {
        Seq::empty()
    } else {
        all_edges(rows, k - 1) + row_edges(k - 1, rows[k - 1].1@, rows.len() as int)
    }
}

pub open spec fn accept_line(id: int) -> Seq<char> {
    "    "@ + decimal(id as nat) + "[peripheries=2];\n"@
}

/// One line for each accepting row among `0..k`.
pub open spec fn accept_lines(rows: Seq<(bool, [usize; 16])>, k: int) -> Seq<char>
    decreases k,
{
    if k <= 0 {
        Seq::empty()
    } else {
        accept_lines(rows, k - 1) + if rows[k - 1].0 {
            accept_line(k - 1)
        } else {
            Seq::empty()
        }
    }
}

/// The Graphviz text of a table.
pub open spec fn dot_text(rows: Seq<(bool, [usize; 16])>) -> Seq<char> {
    "digraph G {\n"@ + all_edges(rows, rows.len() as int) + accept_lines(rows, rows.len() as int)
        + "}\n"@
}

fn hex(d: usize) -> (r: char)
    requires
        d < 16,
    ensures
        r == hex_char(d as int),
{
    match d {
        0 => '0', 1 => '1', 2 => '2', 3 => '3', 4 => '4', 5 => '5', 6 => '6', 7 => '7',
        8 => '8', 9 => '9', 10 => 'A', 11 => 'B', 12 => 'C', 13 => 'D', 14 => 'E', _ => 'F',
    }
}

fn push_str(out: &mut Vec<char>, s: &str)
    ensures
        final(out)@ == old(out)@ + s@,
{
    let n = s.unicode_len();
    let mut i: usize = 0;
    while i < n
        invariant
            n == s@.len(),
            i <= n,
            out@ == old(out)@ + s@.subrange(0, i as int),
        decreases n - i,
    {
        out.push(s.get_char(i));
        i += 1;
        assert(old(out)@ + s@.subrange(0, i as int) =~= out@);
    }
    assert(s@.subrange(0, n as int) =~= s@);
}

fn push_decimal(out: &mut Vec<char>, n: usize)
    ensures
        final(out)@ == old(out)@ + decimal(n as nat),
    decreases n,
{
    if n >= 10 {
        push_decimal(out, n / 10);
    }
    out.push(hex(n % 10));
    assert(final(out)@ =~= old(out)@ + decimal(n as nat));
}

fn push_run(out: &mut Vec<char>, a: usize, b: usize)
    requires
        a < b <= 16,
    ensures
        final(out)@ == old(out)@ + run_text(a as int, b as int),
{
    if b - a < 4 {
        let mut d: usize = a;
        assert(digits(a as int, a as int) =~= Seq::<char>::empty());
        assert(out@ =~= old(out)@ + digits(a as int, a as int));
        while d < b
            invariant
                a <= d <= b <= 16,
                out@ == old(out)@ + digits(a as int, d as int),
            decreases b - d,
        {
            out.push(hex(d));
            d += 1;
            assert(out@ =~= old(out)@ + digits(a as int, d as int));
        }
    } else {
        out.push(hex(a));
        out.push('-');
        out.push(hex(b - 1));
        assert(out@ =~= old(out)@ + run_text(a as int, b as int));
    }
}

/// Relies on `String`'s `FromIterator<&char>`: the characters in order.
#[verifier::external_body]
fn string_of(chars: &Vec<char>) -> (r: String)
    ensures
        r@ == chars@,
{
    chars.iter().collect()
}

impl Table {
    /// The label of the edge from a row with successors `next` to `to`.
    fn edge_label(next: &[usize; 16], to: usize) -> (r: Vec<char>)
        ensures
            r@ == label(next@, to as int),
    {
        let mut out: Vec<char> = Vec::new();
        let mut run_start: Option<usize> = None;
        let mut input: usize = 0;
        while input < 16
            invariant
                input <= 16,
                run_start matches Some(a) ==> a < input,
                out@ + label_from(next@, to as int, input as int, match run_start {
                    Some(a) => Some(a as int),
                    None => None,
                }) == label(next@, to as int),
            decreases 16 - input,
        {
            let ghost before = out@;
            if next[input] == to {
                if run_start.is_none() {
                    run_start = Some(input);
                }
            } else if let Some(a) = run_start {
                push_run(&mut out, a, input);
                run_start = None;
                assert(before + (run_text(a as int, input as int) + label_from(next@, to as int, input + 1, None))
                    =~= out@ + label_from(next@, to as int, input + 1, None));
            }
            input += 1;
        }
        if let Some(a) = run_start {
            push_run(&mut out, a, 16);
        } else {
            assert(out@ + Seq::<char>::empty() =~= out@);
        }
        out
    }

    /// Graphviz text of the automaton: one edge per pair of states that some
    /// input connects, labelled with those inputs, then one line for each
    /// accepting state.
    pub fn dot(&self) -> (r: String)
        ensures
            r@ == dot_text(self.states@),
    {
        let n = self.states.len();
        let mut out: Vec<char> = Vec::new();
        push_str(&mut out, "digraph G {\n");
        let mut from: usize = 0;
        while from < n
            invariant
                n == self.states@.len(),
                from <= n,
                out@ == "digraph G {\n"@ + all_edges(self.states@, from as int),
            decreases n - from,
        {
            let ghost at_row = out@;
            let mut to: usize = 0;
            while to < n
                invariant
                    n == self.states@.len(),
                    from < n,
                    to <= n,
                    out@ == at_row + row_edges(from as int, self.states@[from as int].1@, to as int),
                decreases n - to,
            {
                let ghost before = out@;
                let text = Table::edge_label(&self.states[from].1, to);
                if text.len() > 0 {
                    push_str(&mut out, "    ");
                    push_decimal(&mut out, from);
                    push_str(&mut out, " -> ");
                    push_decimal(&mut out, to);
                    push_str(&mut out, " [label=\"");
                    let mut k: usize = 0;
                    let ghost mid = out@;
                    while k < text.len()
                        invariant
                            k <= text@.len(),
                            out@ == mid + text@.subrange(0, k as int),
                        decreases text@.len() - k,
                    {
                        out.push(text[k]);
                        k += 1;
                        assert(out@ =~= mid + text@.subrange(0, k as int));
                    }
                    assert(text@.subrange(0, text@.len() as int) =~= text@);
                    push_str(&mut out, "\"];\n");
                }
                to += 1;
                assert(out@ =~= at_row + row_edges(from as int, self.states@[from as int].1@, to as int));
            }
            from += 1;
            assert(out@ =~= "digraph G {\n"@ + all_edges(self.states@, from as int));
        }
        let ghost edges_done = out@;
        let mut id: usize = 0;
        while id < n
            invariant
                n == self.states@.len(),
                id <= n,
                out@ == edges_done + accept_lines(self.states@, id as int),
            decreases n - id,
        {
            if self.states[id].0 {
                push_str(&mut out, "    ");
                push_decimal(&mut out, id);
                push_str(&mut out, "[peripheries=2];\n");
            }
            id += 1;
            assert(out@ =~= edges_done + accept_lines(self.states@, id as int));
        }
        push_str(&mut out, "}\n");
        assert(out@ =~= dot_text(self.states@));
        string_of(&out)
    }
}

proof fn lemma_no_accept_lines(rows: Seq<(bool, [usize; 16])>, k: int)
    requires
        forall|i: int| 0 <= i < rows.len() ==> !(#[trigger] rows[i]).0,
        k <= rows.len(),
    ensures
        accept_lines(rows, k) == Seq::<char>::empty(),
    decreases k,
{
    if k > 0 {
        lemma_no_accept_lines(rows, k - 1);
        assert(!rows[k - 1].0);
        assert(accept_lines(rows, k) =~= Seq::<char>::empty());
    }
}

/// With no accepting row, the text is the header, the edges and the closing
/// brace: no line marks a state as accepting.
pub proof fn lemma_dot_without_accepting(rows: Seq<(bool, [usize; 16])>)
    requires
        forall|i: int| 0 <= i < rows.len() ==> !(#[trigger] rows[i]).0,
    ensures
        dot_text(rows) == "digraph G {\n"@ + all_edges(rows, rows.len() as int) + "}\n"@,
{
    lemma_no_accept_lines(rows, rows.len() as int);
    assert(dot_text(rows) =~= "digraph G {\n"@ + all_edges(rows, rows.len() as int) + "}\n"@);
}

/// The runs of inputs from `p` on that lead to `to`, as half-open ranges,
/// where `open` is the start of a run still going on at `p`.
pub open spec fn runs_from(next: Seq<usize>, to: int, p: int, open: Option<int>) -> Seq<(int, int)>
    decreases 16 - p,
{
    if p >= 16 {
        match open {
            Some(a) => seq![(a, 16int)],
            None => Seq::empty(),
        }
    } else if next[p] == to {
        runs_from(next, to, p + 1, if open is Some { open } else { Some(p) })
    } else {
        match open {
            Some(a) => seq![(a, p)] + runs_from(next, to, p + 1, None),
            None => runs_from(next, to, p + 1, None),
        }
    }
}

/// The text of a list of runs, one after the other with no separator.
pub open spec fn runs_text(rs: Seq<(int, int)>) -> Seq<char>
    decreases rs.len(),
{
    if rs.len() == 0 {
        Seq::empty()
    } else {
        run_text(rs[0].0, rs[0].1) + runs_text(rs.drop_first())
    }
}

/// Input `s` lies in one of the runs.
pub open spec fn covered(rs: Seq<(int, int)>, s: int) -> bool {
    exists|i: int| 0 <= i < rs.len() && rs[i].0 <= s < #[trigger] rs[i].1
}

proof fn lemma_runs_from(next: Seq<usize>, to: int, p: int, open: Option<int>)
    requires
        0 <= p <= 16,
        next.len() == 16,
        open matches Some(a) ==> 0 <= a < p && forall|s: int| a <= s < p ==> #[trigger] next[s] == to,
    ensures
        ({
            let rs = runs_from(next, to, p, open);
            let lo = match open {
                Some(a) => a,
                None => p,
            };
            &&& label_from(next, to, p, open) == runs_text(rs)
            &&& forall|i: int| 0 <= i < rs.len() ==> lo <= #[trigger] rs[i].0 < rs[i].1 <= 16
            &&& forall|i: int, j: int| 0 <= i < j < rs.len() ==> #[trigger] rs[i].1 < #[trigger] rs[j].0
            &&& forall|s: int| lo <= s < 16 ==> (next[s] == to <==> #[trigger] covered(rs, s))
        }),
    decreases 16 - p,
{
    let rs = runs_from(next, to, p, open);
    if p >= 16 {
        if let Some(a) = open {
            assert(runs_text(rs) =~= run_text(a, 16) + runs_text(rs.drop_first()));
            assert(runs_text(rs.drop_first()) =~= Seq::<char>::empty());
            assert(runs_text(rs) =~= run_text(a, 16));
            assert forall|s: int| a <= s < 16 implies (next[s] == to <==> #[trigger] covered(rs, s)) by {
                assert(rs[0].0 <= s < rs[0].1);
            }
        }
    } else if next[p] == to {
        let nopen = if open is Some { open } else { Some(p) };
        lemma_runs_from(next, to, p + 1, nopen);
    } else {
        lemma_runs_from(next, to, p + 1, None);
        let rest = runs_from(next, to, p + 1, None);
        assert forall|s: int| p + 1 <= s < 16 implies (next[s] == to <==> #[trigger] covered(rest, s)) by {}
        assert(!covered(rest, p)) by {
            if covered(rest, p) {
                let i = choose|i: int| 0 <= i < rest.len() && rest[i].0 <= p < #[trigger] rest[i].1;
                assert(p + 1 <= rest[i].0);
            }
        }
        if let Some(a) = open {
            assert(rs == seq![(a, p)] + rest);
            assert(rs.drop_first() =~= rest);
            assert forall|s: int| a <= s < 16 implies (next[s] == to <==> #[trigger] covered(rs, s)) by {
                if s < p {
                    assert(rs[0].0 <= s < rs[0].1);
                } else if s == p {
                    if covered(rs, s) {
                        let i = choose|i: int| 0 <= i < rs.len() && rs[i].0 <= s < #[trigger] rs[i].1;
                        if i > 0 {
                            assert(rs[i] == rest[i - 1]);
                        }
                    }
                } else {
                    if covered(rest, s) {
                        let i = choose|i: int| 0 <= i < rest.len() && rest[i].0 <= s < #[trigger] rest[i].1;
                        assert(rs[i + 1] == rest[i]);
                    }
                    if covered(rs, s) {
                        let i = choose|i: int| 0 <= i < rs.len() && rs[i].0 <= s < #[trigger] rs[i].1;
                        assert(i > 0);
                        assert(rs[i] == rest[i - 1]);
                    }
                }
            }
            assert forall|i: int, j: int| 0 <= i < j < rs.len() implies #[trigger] rs[i].1 < #[trigger] rs[j].0 by {
                assert(rs[j] == rest[j - 1]);
                if i > 0 {
                    assert(rs[i] == rest[i - 1]);
                }
            }
            assert forall|i: int| 0 <= i < rs.len() implies a <= #[trigger] rs[i].0 < rs[i].1 <= 16 by {
                if i > 0 {
                    assert(rs[i] == rest[i - 1]);
                }
            }
        }
    }
}

/// An edge label is its runs written one after another; the runs come in
/// increasing order, no two of them overlap or touch, and together they hold
/// exactly the inputs on which `next` leads to `to`.
pub proof fn lemma_label_runs(next: Seq<usize>, to: int)
    requires
        next.len() == 16,
    ensures
        ({
            let rs = runs_from(next, to, 0, None);
            &&& label(next, to) == runs_text(rs)
            &&& forall|i: int| 0 <= i < rs.len() ==> 0 <= #[trigger] rs[i].0 < rs[i].1 <= 16
            &&& forall|i: int, j: int| 0 <= i < j < rs.len() ==> #[trigger] rs[i].1 < #[trigger] rs[j].0
            &&& forall|s: int| 0 <= s < 16 ==> (next[s] == to <==> #[trigger] covered(rs, s))
        }),
{
    lemma_runs_from(next, to, 0, None);
}

} // verus!
