//! Evaluation of the cells of a table, with each referenced cell evaluated
//! once and its value substituted into the referring expression.

use crate::reference::{find_reference_spans, reference_spans};
use crate::table::{
    build_graph, detect_cycles, edges_of, is_cyclic, lemma_edges_in_range, lemma_long_walk_shorter,
    lemma_long_walk_step, lemma_no_references_not_cyclic, lemma_reaches_self, lemma_reaches_step,
    long_walk, reaches, refers_to, Cell, DependencyGraph, Table,
};
use vstd::prelude::*;
use vstd::string::*;

verus! {

/// What `str::trim` leaves of a text.
pub uninterp spec fn trimmed(s: Seq<char>) -> Seq<char>;

/// What the arithmetic evaluator makes of an expression: the text of its
/// value, or `None` where it cannot evaluate it.
pub uninterp spec fn arithmetic_value(expr: Seq<char>) -> Option<Seq<char>>;

/// Space, tab, line feed, vertical tab, form feed or carriage return: the
/// ASCII characters that count as whitespace.
pub open spec fn is_ascii_space(c: char) -> bool {
    c == ' ' || ('\t' <= c && c <= '\r')
}

pub open spec fn all_ascii_space(s: Seq<char>) -> bool {
    forall|k: int| 0 <= k < s.len() ==> is_ascii_space(#[trigger] s[k])
}

/// Relies on `str::trim`: the text without leading and trailing whitespace
/// (Unicode `White_Space`, which holds the ASCII whitespace characters).
#[verifier::external_body]
fn trim_text(s: &str) -> (r: &str)
    ensures
        r@ == trimmed(s@),
        all_ascii_space(s@) ==> r@.len() == 0,
{
    s.trim()
}

/// Relies on `rpn::evaluate` (postfix arithmetic on numbers and `+ - * /`)
/// and on the decimal text that std's `Display` gives the number it returns.
#[verifier::external_body]
fn evaluate_arithmetic(expr: &str) -> (r: Option<String>)
    ensures
        match r {
            Some(v) => arithmetic_value(expr@) == Some(v@),
            None => arithmetic_value(expr@) is None,
        },
{
    rpn::evaluate(expr).ok().map(|value| value.to_string())
}

/// The text of `t` from `pos` on, with the references from the `k`-th on
/// replaced by their values.
pub open spec fn substituted_from(
    t: Seq<char>,
    spans: Seq<(int, int)>,
    values: Seq<Seq<char>>,
    pos: int,
    k: int,
) -> Seq<char>
    decreases spans.len() - k,
{
    if k < 0 || k >= spans.len() {
        t.subrange(pos, t.len() as int)
    } else {
        t.subrange(pos, spans[k].0) + values[k] + substituted_from(t, spans, values, spans[k].1, k + 1)
    }
}

/// `t` with each reference, at its own position, replaced by the value of
/// the same rank in `values`.
pub open spec fn dereferenced(t: Seq<char>, values: Seq<Seq<char>>) -> Seq<char> {
    substituted_from(t, reference_spans(t), values, 0, 0)
}

/// Replaces each reference in `text`, at its own position, by the value of
/// the same rank: with values ["3", "10"], "a1 b2 +" gives "3 10 +".
#[verifier::rlimit(40)]
pub fn dereference(text: &str, values: &Vec<String>) -> (r: String)
    requires
        values@.len() == reference_spans(text@).len(),
    ensures
        r@ == dereferenced(text@, values@.map_values(|v: String| v@)),
{
    let ghost t = text@;
    let ghost vals = values@.map_values(|v: String| v@);
    let ghost sp = reference_spans(t);
    let spans = find_reference_spans(text);
    let mut out = String::new();
    let mut pos: usize = 0;
    let mut k: usize = 0;
    assert(out@ + substituted_from(t, sp, vals, 0, 0) =~= dereferenced(t, vals));
    while k < spans.len()
        invariant
            spans@.len() == sp.len(),
            values@.len() == sp.len(),
            vals == values@.map_values(|v: String| v@),
            t == text@,
            sp == reference_spans(t),
            forall|j: int|
                0 <= j < spans@.len() ==> (#[trigger] spans@[j]).0 as int == sp[j].0
                    && spans@[j].1 as int == sp[j].1,
            forall|j: int| 0 <= j < spans@.len() ==> (#[trigger] spans@[j]).0 <= spans@[j].1 <= t.len(),
            forall|j: int| 0 < j < spans@.len() ==> spans@[j - 1].1 <= (#[trigger] spans@[j]).0,
            k <= spans@.len(),
            pos <= t.len(),
            k < spans@.len() ==> pos <= spans@[k as int].0,
            out@ + substituted_from(t, sp, vals, pos as int, k as int) == dereferenced(t, vals),
        decreases spans@.len() - k,
    {
        let (from, to) = spans[k];
        let piece = text.substring_char(pos, from);
        out.append(piece);
        out.append(values[k].as_str());
        proof {
            assert(vals[k as int] == values@[k as int]@);
        }
        pos = to;
        k = k + 1;
    }
    let rest = text.substring_char(pos, text.unicode_len());
    out.append(rest);
    out
}

/// What evaluating cell `i` with recursion depth `fuel` gives: `None` where
/// the depth runs out, `Some(None)` where the evaluation fails, and
/// `Some(Some(v))` for the value text `v`. A blank cell is worth "0"; any
/// other text has its references replaced by the values of the cells they
/// name and goes to the arithmetic evaluator.
pub open spec fn outcome(cells: Seq<Cell>, i: int, fuel: nat) -> Option<Option<Seq<char>>>
    decreases fuel, 0nat,
{
    if fuel == 0 {
        None
    } else if !(0 <= i < cells.len()) {
        Some(None)
    } else if trimmed(cells[i].text@).len() == 0 {
        Some(Some(seq!['0']))
    } else {
        match edges_of(cells, i) {
            None => Some(None),
            Some(es) => combine(
                cells[i].text@,
                child_outcomes(cells, es, (fuel - 1) as nat, es.len()),
            ),
        }
    }
}

/// The outcomes of the first `m` cells of `es`, in order.
pub open spec fn child_outcomes(cells: Seq<Cell>, es: Seq<int>, fuel: nat, m: nat) -> Seq<
    Option<Option<Seq<char>>>,
>
    decreases fuel, m,
{
    if m == 0 {
        seq![]
    } else {
        child_outcomes(cells, es, fuel, (m - 1) as nat).push(outcome(cells, es[m - 1], fuel))
    }
}

/// The outcome of text `t` given the outcomes of the cells it refers to.
pub open spec fn combine(t: Seq<char>, outs: Seq<Option<Option<Seq<char>>>>) -> Option<
    Option<Seq<char>>,
> {
    if exists|j: int| 0 <= j < outs.len() && (#[trigger] outs[j]) is None {
        None
    } else if exists|j: int| 0 <= j < outs.len() && (#[trigger] outs[j]) == Some(None::<Seq<char>>) {
        Some(None)
    } else {
        Some(arithmetic_value(dereferenced(t, outs.map_values(|o: Option<Option<Seq<char>>>| o->Some_0->Some_0))))
    }
}

/// The value of cell `i`, or `None` where it is cyclic or fails.
pub open spec fn cell_value(cells: Seq<Cell>, i: int) -> Option<Seq<char>> {
    if is_cyclic(cells, i) {
        None
    } else {
        match outcome(cells, i, cells.len()) {
            Some(Some(v)) => Some(v),
            _ => None,
        }
    }
}

/// The text that the solved table holds for cell `i`: its value, or `#ERR`.
pub open spec fn solved_text(cells: Seq<Cell>, i: int) -> Seq<char> {
    match cell_value(cells, i) {
        Some(v) => v,
        None => "#ERR"@,
    }
}

proof fn lemma_child_outcomes(cells: Seq<Cell>, es: Seq<int>, fuel: nat, m: nat)
    ensures
        child_outcomes(cells, es, fuel, m).len() == m,
        forall|j: int|
            0 <= j < m ==> #[trigger] child_outcomes(cells, es, fuel, m)[j] == outcome(
                cells,
                es[j],
                fuel,
            ),
    decreases m,
{
    if m > 0 {
        lemma_child_outcomes(cells, es, fuel, (m - 1) as nat);
    }
}

/// Where no walk of `fuel` edges starts at `i`, the depth suffices.
proof fn lemma_outcome_defined(cells: Seq<Cell>, i: int, fuel: nat)
    requires
        !long_walk(cells, i, fuel),
    ensures
        outcome(cells, i, fuel) is Some,
    decreases fuel,
{
    lemma_long_walk_step(cells, i, (fuel - 1) as nat);
    if 0 <= i < cells.len() && trimmed(cells[i].text@).len() != 0 {
        if let Some(es) = edges_of(cells, i) {
            let f = (fuel - 1) as nat;
            let outs = child_outcomes(cells, es, f, es.len());
            lemma_child_outcomes(cells, es, f, es.len());
            assert forall|j: int| 0 <= j < outs.len() implies (#[trigger] outs[j]) is Some by {
                assert(!long_walk(cells, es[j], f));
                lemma_outcome_defined(cells, es[j], f);
            }
        }
    }
}

/// Once the depth suffices, more depth changes nothing.
proof fn lemma_outcome_stable(cells: Seq<Cell>, i: int, f: nat, g: nat)
    requires
        f <= g,
        outcome(cells, i, f) is Some,
    ensures
        outcome(cells, i, g) == outcome(cells, i, f),
    decreases f,
{
    if 0 <= i < cells.len() && trimmed(cells[i].text@).len() != 0 {
        if let Some(es) = edges_of(cells, i) {
            let of = child_outcomes(cells, es, (f - 1) as nat, es.len());
            let og = child_outcomes(cells, es, (g - 1) as nat, es.len());
            lemma_child_outcomes(cells, es, (f - 1) as nat, es.len());
            lemma_child_outcomes(cells, es, (g - 1) as nat, es.len());
            assert forall|j: int| 0 <= j < of.len() implies #[trigger] og[j] == of[j] by {
                assert(of[j] is Some);
                lemma_outcome_stable(cells, es[j], (f - 1) as nat, (g - 1) as nat);
            }
            assert(og =~= of);
        }
    }
}

/// A cell that is not blank and refers to no cell takes the value that the
/// arithmetic evaluator gives its own text, whatever the other cells hold.
pub proof fn lemma_leaf_cell_value(cells: Seq<Cell>, i: int)
    requires
        0 <= i < cells.len(),
        edges_of(cells, i) matches Some(es) && es.len() == 0,
        trimmed(cells[i].text@).len() != 0,
    ensures
        cell_value(cells, i) == arithmetic_value(cells[i].text@),
{
    lemma_no_references_not_cyclic(cells, i);
    let t = cells[i].text@;
    let es = edges_of(cells, i)->Some_0;
    let outs = child_outcomes(cells, es, (cells.len() - 1) as nat, 0);
    let vals = outs.map_values(|o: Option<Option<Seq<char>>>| o->Some_0->Some_0);
    assert(reference_spans(t).len() == 0);
    assert(t.subrange(0, t.len() as int) =~= t);
    assert(dereferenced(t, vals) == t);
}

/// A blank cell that is not cyclic is worth "0".
pub proof fn lemma_blank_cell_value(cells: Seq<Cell>, i: int)
    requires
        0 <= i < cells.len(),
        trimmed(cells[i].text@).len() == 0,
        !is_cyclic(cells, i),
    ensures
        cell_value(cells, i) == Some(seq!['0']),
{
}

/// Each cell's memo entry, once set, is its final value or failure.
pub open spec fn memo_ok(cells: Seq<Cell>, memo: Seq<Option<Option<String>>>) -> bool {
    &&& memo.len() == cells.len()
    &&& forall|k: int|
        0 <= k < memo.len() ==> match #[trigger] memo[k] {
            Some(Some(v)) => cell_value(cells, k) == Some(v@),
            Some(None) => cell_value(cells, k) is None,
            None => true,
        }
}

/// Evaluates cell `i`, after the cells that it refers to. A cell whose memo
/// entry is set is not evaluated again; each cell evaluated gets its entry.
/// `fuel` bounds the depth of the recursion.
pub fn evaluate_recursive(
    table: &Table,
    graph: &DependencyGraph,
    memo: &mut Vec<Option<Option<String>>>,
    i: usize,
    fuel: usize,
) -> (r: Result<String, String>)
    requires
        graph.describes(table.cells@),
        memo_ok(table.cells@, old(memo)@),
        i < table.cells@.len(),
        fuel <= table.cells@.len(),
        !long_walk(table.cells@, i as int, fuel as nat),
    ensures
        memo_ok(table.cells@, final(memo)@),
        final(memo)@[i as int] is Some,
        old(memo)@[i as int] is Some ==> final(memo)@ == old(memo)@,
        forall|q: int|
            0 <= q < old(memo)@.len() && (#[trigger] old(memo)@[q]) is Some ==> final(memo)@[q]
                == old(memo)@[q],
        forall|q: int|
            0 <= q < old(memo)@.len() && (#[trigger] old(memo)@[q]) is None && final(memo)@[q] is Some
                ==> reaches(table.cells@, i as int, q),
        old(memo)@[i as int] is None && trimmed(table.cells@[i as int].text@).len() == 0 ==> {
            &&& (r matches Ok(s) && s@ == seq!['0'])
            &&& forall|q: int|
                0 <= q < old(memo)@.len() && q != i ==> #[trigger] final(memo)@[q] == old(memo)@[q]
        },
        old(memo)@[i as int] is None && all_ascii_space(table.cells@[i as int].text@) ==> (r matches Ok(
            s,
        ) && s@ == seq!['0']),
        match cell_value(table.cells@, i as int) {
            Some(v) => r matches Ok(s) && s@ == v,
            None => r is Err,
        },
    decreases fuel,
{
    let ghost cells = table.cells@;
    let ghost n = cells.len();
    proof {
        if long_walk(cells, i as int, n) {
            lemma_long_walk_shorter(cells, i as int, fuel as nat, n);
        }
        lemma_outcome_defined(cells, i as int, fuel as nat);
        lemma_outcome_stable(cells, i as int, fuel as nat, n);
    }
    match &memo[i] {
        Some(Some(v)) => {
            return Ok(v.clone());
        },
        Some(None) => {
            return Err(String::from_str("Unable to evaluate a referenced cell"));
        },
        None => {},
    }
    let text = table.cells[i].text.as_str();
    let trimmed_text = trim_text(text);
    proof {
        lemma_reaches_self(cells, i as int);
    }
    if trimmed_text.unicode_len() == 0 {
        let zero = String::from_str("0");
        proof {
            reveal_strlit("0");
            assert(zero@ =~= seq!['0']);
        }
        memo[i] = Some(Some(zero.clone()));
        return Ok(zero);
    }
    let es = match &graph.edges[i] {
        None => {
            memo[i] = Some(None);
            return Err(String::from_str("Invalid or dangling reference"));
        },
        Some(es) => es,
    };
    proof {
        assert(!all_ascii_space(text@));
    }
    let ghost t = text@;
    let ghost spec_es = edges_of(cells, i as int)->Some_0;
    let ghost f = (fuel - 1) as nat;
    proof {
        lemma_long_walk_step(cells, i as int, f);
        lemma_edges_in_range(cells, i as int);
        lemma_child_outcomes(cells, spec_es, f, spec_es.len());
    }
    let mut values: Vec<String> = Vec::new();
    let mut k: usize = 0;
    while k < es.len()
        invariant
            graph.describes(cells),
            cells == table.cells@,
            n == cells.len(),
            1 <= fuel <= n,
            f == fuel - 1,
            i < n,
            edges_of(cells, i as int) == Some(spec_es),
            es@.len() == spec_es.len(),
            forall|m: int| 0 <= m < es@.len() ==> es@[m] as int == #[trigger] spec_es[m],
            forall|m: int| 0 <= m < spec_es.len() ==> 0 <= #[trigger] spec_es[m] < n,
            forall|m: int| 0 <= m < spec_es.len() ==> !long_walk(cells, #[trigger] spec_es[m], f),
            memo_ok(cells, memo@),
            old(memo)@.len() == n,
            old(memo)@[i as int] is None,
            forall|q: int|
                0 <= q < old(memo)@.len() && (#[trigger] old(memo)@[q]) is Some ==> memo@[q] == old(
                    memo,
                )@[q],
            forall|q: int|
                0 <= q < old(memo)@.len() && (#[trigger] old(memo)@[q]) is None && memo@[q] is Some
                    ==> reaches(cells, i as int, q),
            reaches(cells, i as int, i as int),
            trimmed(t).len() != 0,
            !all_ascii_space(t),
            t == cells[i as int].text@,
            trimmed(t).len() != 0,
            !is_cyclic(cells, i as int),
            outcome(cells, i as int, n) == outcome(cells, i as int, fuel as nat),
            k <= es@.len(),
            values@.len() == k,
            forall|m: int|
                0 <= m < k ==> outcome(cells, #[trigger] spec_es[m], f) == Some(
                    Some(values@[m]@),
                ),
        decreases es@.len() - k,
    {
        let child = es[k];
        assert(child as int == spec_es[k as int]);
        let ghost before = memo@;
        let c = evaluate_recursive(table, graph, memo, child, fuel - 1);
        proof {
            assert(spec_es.contains(spec_es[k as int]));
            assert(refers_to(cells, i as int, child as int));
            assert forall|q: int|
                0 <= q < old(memo)@.len() && (#[trigger] old(memo)@[q]) is None && memo@[q] is Some
                    implies reaches(cells, i as int, q) by {
                if before[q] is None {
                    lemma_reaches_step(cells, i as int, child as int, q);
                }
            }
            assert forall|q: int|
                0 <= q < old(memo)@.len() && (#[trigger] old(memo)@[q]) is Some implies memo@[q]
                == old(memo)@[q] by {
                assert(before[q] == old(memo)@[q]);
            }
        }
        proof {
            lemma_outcome_defined(cells, child as int, f);
            lemma_outcome_stable(cells, child as int, f, n);
            if long_walk(cells, child as int, n) {
                lemma_long_walk_shorter(cells, child as int, f, n);
            }
        }
        match c {
            Err(e) => {
                proof {
                    let outs = child_outcomes(cells, spec_es, f, spec_es.len());
                    lemma_child_outcomes(cells, spec_es, f, spec_es.len());
                    assert(outs[k as int] == Some(None::<Seq<char>>));
                    assert forall|j: int| 0 <= j < outs.len() implies (#[trigger] outs[j]) is Some by {
                        lemma_outcome_defined(cells, spec_es[j], f);
                    }
                }
                memo[i] = Some(None);
                return Err(e);
            },
            Ok(v) => {
                values.push(v);
            },
        }
        k = k + 1;
    }
    let ghost outs = child_outcomes(cells, spec_es, f, spec_es.len());
    proof {
        lemma_child_outcomes(cells, spec_es, f, spec_es.len());
        assert(spec_es.len() == reference_spans(t).len());
        assert forall|j: int| 0 <= j < outs.len() implies (#[trigger] outs[j]) == Some(
            Some(values@[j]@),
        ) by {
            assert(outcome(cells, spec_es[j], f) == Some(Some(values@[j]@)));
        }
        assert(outs.map_values(|o: Option<Option<Seq<char>>>| o->Some_0->Some_0) =~= values@.map_values(
            |v: String| v@,
        ));
    }
    let expr = dereference(text, &values);
    match evaluate_arithmetic(expr.as_str()) {
        Some(v) => {
            memo[i] = Some(Some(v.clone()));
            Ok(v)
        },
        None => {
            memo[i] = Some(None);
            let mut e = String::from_str("Unable to evaluate expression: ");
            e.append(expr.as_str());
            Err(e)
        },
    }
}

/// Evaluates every cell of the table: a cyclic cell, and one whose
/// evaluation fails, gets `#ERR`; every other cell gets its value. The result
/// holds the same coordinates in the same order. A message for each failure
/// found is added to `messages`.
pub fn solve(table: &Table, messages: &mut Vec<String>) -> (r: Table)
    requires
        table.wf(),
    ensures
        old(messages)@.len() <= final(messages)@.len(),
        final(messages)@.subrange(0, old(messages)@.len() as int) == old(messages)@,
        r.cells@.len() == table.cells@.len(),
        forall|i: int|
            0 <= i < r.cells@.len() ==> (#[trigger] r.cells@[i]).row == table.cells@[i].row
                && r.cells@[i].column == table.cells@[i].column && r.cells@[i].text@ == solved_text(
                table.cells@,
                i,
            ),
        r.wf(),
{
    let ghost cells = table.cells@;
    let n = table.cells.len();
    let graph = build_graph(table);
    let cycles = detect_cycles(table, &graph);
    let mut memo: Vec<Option<Option<String>>> = Vec::new();
    while memo.len() < n
        invariant
            memo@.len() <= n,
            forall|q: int| 0 <= q < memo@.len() ==> (#[trigger] memo@[q]) is None,
        decreases n - memo@.len(),
    {
        memo.push(None);
    }
    let mut i: usize = 0;
    while i < n
        invariant
            n == cells.len(),
            cells == table.cells@,
            graph.describes(cells),
            cycles@.len() == n,
            forall|q: int| 0 <= q < n ==> #[trigger] cycles@[q] == is_cyclic(cells, q),
            memo_ok(cells, memo@),
            i <= n,
            forall|q: int| 0 <= q < i ==> (#[trigger] memo@[q]) is Some,
            old(messages)@.len() <= messages@.len(),
            messages@.subrange(0, old(messages)@.len() as int) == old(messages)@,
        decreases n - i,
    {
        let ghost msgs = messages@;
        let ghost prev = memo@;
        if memo[i].is_none() {
            if cycles[i] {
                memo[i] = Some(None);
                messages.push(String::from_str("Cycle detected."));
            } else {
                match evaluate_recursive(table, &graph, &mut memo, i, n) {
                    Ok(_) => {},
                    Err(e) => {
                        messages.push(e);
                    },
                }
            }
        }
        assert(messages@.subrange(0, old(messages)@.len() as int) =~= old(messages)@) by {
            assert(msgs.subrange(0, old(messages)@.len() as int) == old(messages)@);
            assert forall|q: int| 0 <= q < old(messages)@.len() implies messages@[q] == msgs[q] by {}
        }
        assert forall|q: int| 0 <= q < i + 1 implies (#[trigger] memo@[q]) is Some by {
            if q < i {
                assert(prev[q] is Some);
            }
        }
        i = i + 1;
    }
    let mut out: Vec<Cell> = Vec::new();
    let mut j: usize = 0;
    while j < n
        invariant
            n == cells.len(),
            cells == table.cells@,
            memo_ok(cells, memo@),
            forall|q: int| 0 <= q < n ==> (#[trigger] memo@[q]) is Some,
            table.wf(),
            j <= n,
            out@.len() == j,
            forall|q: int|
                0 <= q < j ==> (#[trigger] out@[q]).row == cells[q].row && out@[q].column
                    == cells[q].column && out@[q].text@ == solved_text(cells, q),
        decreases n - j,
    {
        let text = match &memo[j] {
            Some(Some(v)) => v.clone(),
            _ => {
                let e = String::from_str("#ERR");
                proof {
                    reveal_strlit("#ERR");
                }
                e
            },
        };
        out.push(Cell { row: table.cells[j].row, column: table.cells[j].column, text });
        j = j + 1;
    }
    let r = Table { cells: out };
    assert forall|a: int, b: int| 0 <= a < b < r.cells@.len() implies crate::table::key_before(
        #[trigger] r.cells@[a],
        #[trigger] r.cells@[b],
    ) by {
        assert(crate::table::key_before(cells[a], cells[b]));
    }
    r
}

} // verus!
