//! The table of cells, its dependency graph, cycle detection and evaluation.

use crate::reference::{
    decode_reference, extract_cell_references_with_indexes, find_reference_spans, reference_at,
    reference_spans, references_decode,
};
use vstd::prelude::*;
use vstd::string::*;

verus! {

/// One cell: its zero-based coordinate and its text.
pub struct Cell {
    pub row: usize,
    pub column: usize,
    pub text: String,
}

/// Cells keyed by coordinate, in row-major order.
pub struct Table {
    pub cells: Vec<Cell>,
}

/// `a` comes strictly before `b` in row-major order.
pub open spec fn key_before(a: Cell, b: Cell) -> bool {
    a.row < b.row || (a.row == b.row && a.column < b.column)
}

pub open spec fn has_key(cells: Seq<Cell>, i: int, row: int, column: int) -> bool {
    0 <= i < cells.len() && cells[i].row == row && cells[i].column == column
}

/// The position of the cell at (row, column), if there is one.
pub open spec fn position_of(cells: Seq<Cell>, row: int, column: int) -> Option<int> {
    if exists|i: int| has_key(cells, i, row, column) {
        Some(choose|i: int| has_key(cells, i, row, column))
    } else {
        None
    }
}

impl Table {
    /// Keys strictly increase in row-major order, so each is held once.
    pub open spec fn wf(&self) -> bool {
        forall|i: int, j: int|
            0 <= i < j < self.cells@.len() ==> key_before(
                #[trigger] self.cells@[i],
                #[trigger] self.cells@[j],
            )
    }

    /// The position of the cell at (row, column), if the table holds it.
    pub fn find(&self, row: usize, column: usize) -> (r: Option<usize>)
        requires
            self.wf(),
        ensures
            r is Some <==> position_of(self.cells@, row as int, column as int) is Some,
            r matches Some(j) ==> position_of(self.cells@, row as int, column as int) == Some(j as int)
                && has_key(self.cells@, j as int, row as int, column as int),
    {
        let mut i: usize = 0;
        while i < self.cells.len()
            invariant
                self.wf(),
                forall|k: int| 0 <= k < i ==> !has_key(self.cells@, k, row as int, column as int),
            decreases self.cells@.len() - i,
        {
            if self.cells[i].row == row && self.cells[i].column == column {
                proof {
                    assert(has_key(self.cells@, i as int, row as int, column as int));
                    let c = choose|k: int| has_key(self.cells@, k, row as int, column as int);
                    if c != i {
                        if c < i {
                            assert(key_before(self.cells@[c], self.cells@[i as int]));
                        } else {
                            assert(key_before(self.cells@[i as int], self.cells@[c]));
                        }
                    }
                }
                return Some(i);
            }
            i = i + 1;
        }
        None
    }
}

impl Table {
    /// The table of a grid of texts: the cell at (row, column) holds
    /// `rows[row][column]`. Rows may differ in length.
    pub fn from_rows(rows: &Vec<Vec<String>>) -> (t: Table)
        ensures
            t.wf(),
            forall|i: int|
                0 <= i < t.cells@.len() ==> {
                    let c = #[trigger] t.cells@[i];
                    &&& c.row < rows@.len()
                    &&& c.column < rows@[c.row as int]@.len()
                    &&& c.text@ == rows@[c.row as int]@[c.column as int]@
                },
            forall|r: int, c: int|
                0 <= r < rows@.len() && 0 <= c < rows@[r]@.len() ==> #[trigger] position_of(
                    t.cells@,
                    r,
                    c,
                ) is Some,
    {
        let mut cells: Vec<Cell> = Vec::new();
        let mut r: usize = 0;
        while r < rows.len()
            invariant
                r <= rows@.len(),
                forall|a: int, b: int|
                    0 <= a < b < cells@.len() ==> key_before(
                        #[trigger] cells@[a],
                        #[trigger] cells@[b],
                    ),
                forall|a: int| 0 <= a < cells@.len() ==> (#[trigger] cells@[a]).row < r,
                forall|i: int|
                    0 <= i < cells@.len() ==> {
                        let c = #[trigger] cells@[i];
                        &&& c.row < rows@.len()
                        &&& c.column < rows@[c.row as int]@.len()
                        &&& c.text@ == rows@[c.row as int]@[c.column as int]@
                    },
                forall|x: int, y: int|
                    0 <= x < r && 0 <= y < rows@[x]@.len() ==> #[trigger] position_of(cells@, x, y) is Some,
            decreases rows@.len() - r,
        {
            let row = &rows[r];
            let mut col: usize = 0;
            let ghost start = cells@.len();
            while col < row.len()
                invariant
                    r < rows@.len(),
                    row == rows@[r as int],
                    col <= row@.len(),
                    start <= cells@.len(),
                    forall|a: int, b: int|
                        0 <= a < b < cells@.len() ==> key_before(
                            #[trigger] cells@[a],
                            #[trigger] cells@[b],
                        ),
                    forall|a: int| 0 <= a < start ==> (#[trigger] cells@[a]).row < r,
                    forall|a: int|
                        start <= a < cells@.len() ==> (#[trigger] cells@[a]).row == r
                            && cells@[a].column < col,
                    forall|i: int|
                        0 <= i < cells@.len() ==> {
                            let c = #[trigger] cells@[i];
                            &&& c.row < rows@.len()
                            &&& c.column < rows@[c.row as int]@.len()
                            &&& c.text@ == rows@[c.row as int]@[c.column as int]@
                        },
                    forall|x: int, y: int|
                        0 <= x < r && 0 <= y < rows@[x]@.len() ==> #[trigger] position_of(cells@, x, y) is Some,
                    forall|y: int| 0 <= y < col ==> #[trigger] position_of(cells@, r as int, y) is Some,
                decreases row@.len() - col,
            {
                let ghost prev = cells@;
                cells.push(Cell { row: r, column: col, text: row[col].clone() });
                proof {
                    assert(has_key(cells@, prev.len() as int, r as int, col as int));
                    assert forall|x: int, y: int|
                        0 <= x < r && 0 <= y < rows@[x]@.len() implies #[trigger] position_of(
                            cells@,
                            x,
                            y,
                        ) is Some by {
                        assert(position_of(prev, x, y) is Some);
                        let i = choose|i: int| has_key(prev, i, x, y);
                        assert(has_key(cells@, i, x, y));
                    }
                    assert forall|y: int| 0 <= y < col + 1 implies #[trigger] position_of(
                        cells@,
                        r as int,
                        y,
                    ) is Some by {
                        if y < col {
                            assert(position_of(prev, r as int, y) is Some);
                            let i = choose|i: int| has_key(prev, i, r as int, y);
                            assert(has_key(cells@, i, r as int, y));
                        }
                    }
                }
                col = col + 1;
            }
            r = r + 1;
        }
        Table { cells }
    }
}

/// The coordinate of the `k`-th reference in `t`.
pub open spec fn reference_coordinate(t: Seq<char>, k: int) -> (int, int) {
    decode_reference(reference_at(t, k))->Some_0
}

/// Every reference in `t` names a coordinate that the table holds.
pub open spec fn references_resolve(cells: Seq<Cell>, t: Seq<char>) -> bool {
    &&& references_decode(t)
    &&& forall|k: int|
        0 <= k < reference_spans(t).len() ==> (#[trigger] position_of(
            cells,
            reference_coordinate(t, k).0,
            reference_coordinate(t, k).1,
        )) is Some
}

/// The positions of the cells that cell `i` refers to, in the order of the
/// references in its text; `None` where a reference cannot be decoded or
/// names a cell that the table does not hold.
pub open spec fn edges_of(cells: Seq<Cell>, i: int) -> Option<Seq<int>> {
    let t = cells[i].text@;
    if references_resolve(cells, t) {
        Some(
            Seq::new(
                reference_spans(t).len(),
                |k: int|
                    position_of(cells, reference_coordinate(t, k).0, reference_coordinate(t, k).1)->Some_0,
            ),
        )
    } else {
        None
    }
}

/// The dependency graph: for each cell, the positions of the cells that it
/// refers to, or `None` where its references do not resolve.
pub struct DependencyGraph {
    pub edges: Vec<Option<Vec<usize>>>,
}

impl DependencyGraph {
    /// The graph is the one of `cells`.
    pub open spec fn describes(&self, cells: Seq<Cell>) -> bool {
        &&& self.edges@.len() == cells.len()
        &&& forall|i: int|
            0 <= i < cells.len() ==> match edges_of(cells, i) {
                None => self.edges@[i] is None,
                Some(es) => #[trigger] self.edges@[i] matches Some(v) && v@.len() == es.len() && (
                forall|k: int| 0 <= k < es.len() ==> v@[k] as int == #[trigger] es[k]),
            }
    }
}

/// Builds the dependency graph of a table: an edge from each cell to each
/// cell that its text refers to.
pub fn build_graph(table: &Table) -> (g: DependencyGraph)
    requires
        table.wf(),
    ensures
        g.describes(table.cells@),
{
    let n = table.cells.len();
    let mut edges: Vec<Option<Vec<usize>>> = Vec::new();
    let mut i: usize = 0;
    while i < n
        invariant
            n == table.cells@.len(),
            table.wf(),
            i <= n,
            edges@.len() == i,
            forall|j: int|
                0 <= j < i ==> match edges_of(table.cells@, j) {
                    None => edges@[j] is None,
                    Some(es) => #[trigger] edges@[j] matches Some(v) && v@.len() == es.len() && (
                    forall|k: int| 0 <= k < es.len() ==> v@[k] as int == #[trigger] es[k]),
                },
        decreases n - i,
    {
        let e = cell_edges(table, i);
        edges.push(e);
        i = i + 1;
    }
    DependencyGraph { edges }
}

spec fn resolved_at(cells: Seq<Cell>, t: Seq<char>, out: Seq<usize>, j: int) -> bool {
    &&& position_of(cells, reference_coordinate(t, j).0, reference_coordinate(t, j).1) is Some
    &&& out[j] as int == position_of(
        cells,
        reference_coordinate(t, j).0,
        reference_coordinate(t, j).1,
    )->Some_0
}

fn cell_edges(table: &Table, i: usize) -> (r: Option<Vec<usize>>)
    requires
        table.wf(),
        i < table.cells@.len(),
    ensures
        match edges_of(table.cells@, i as int) {
            None => r is None,
            Some(es) => r matches Some(v) && v@.len() == es.len() && (forall|k: int|
                0 <= k < es.len() ==> v@[k] as int == #[trigger] es[k]),
        },
{
    let ghost cells = table.cells@;
    let ghost t = table.cells@[i as int].text@;
    let refs = match extract_cell_references_with_indexes(table.cells[i].text.as_str()) {
        Ok(v) => v,
        Err(_) => {
            return None;
        },
    };
    let mut out: Vec<usize> = Vec::new();
    let mut k: usize = 0;
    while k < refs.len()
        invariant
            cells == table.cells@,
            i < cells.len(),
            t == cells[i as int].text@,
            table.wf(),
            references_decode(t),
            refs@.len() == reference_spans(t).len(),
            forall|j: int|
                0 <= j < refs@.len() ==> decode_reference(reference_at(t, j)) == Some(
                    ((#[trigger] refs@[j]).1.0 as int, refs@[j].1.1 as int),
                ),
            k <= refs@.len(),
            out@.len() == k,
            forall|j: int| 0 <= j < k ==> #[trigger] resolved_at(cells, t, out@, j),
        decreases refs@.len() - k,
    {
        let (_, (row, column)) = refs[k];
        assert(reference_coordinate(t, k as int) == (row as int, column as int));
        match table.find(row, column) {
            Some(j) => {
                let ghost prev = out@;
                out.push(j);
                proof {
                    assert(position_of(cells, row as int, column as int) is Some);
                    assert(out@[k as int] as int == position_of(
                        cells,
                        reference_coordinate(t, k as int).0,
                        reference_coordinate(t, k as int).1,
                    )->Some_0);
                    assert forall|m: int| 0 <= m < k + 1 implies #[trigger] resolved_at(
                        cells,
                        t,
                        out@,
                        m,
                    ) by {
                        if m < k {
                            assert(resolved_at(cells, t, prev, m));
                            assert(out@[m] == prev[m]);
                        }
                    }
                }
            },
            None => {
                assert(!references_resolve(cells, t));
                return None;
            },
        }
        k = k + 1;
    }
    proof {
        assert forall|j: int| 0 <= j < reference_spans(t).len() implies (#[trigger] position_of(
            cells,
            reference_coordinate(t, j).0,
            reference_coordinate(t, j).1,
        )) is Some by {
            assert(resolved_at(cells, t, out@, j));
        }
        assert(references_resolve(cells, t));
        let es = edges_of(cells, i as int)->Some_0;
        assert forall|k: int| 0 <= k < es.len() implies out@[k] as int == #[trigger] es[k] by {
            assert(resolved_at(cells, t, out@, k));
        }
    }
    Some(out)
}

pub(crate) proof fn lemma_edges_in_range(cells: Seq<Cell>, i: int)
    requires
        edges_of(cells, i) is Some,
    ensures
        forall|k: int|
            0 <= k < edges_of(cells, i)->Some_0.len() ==> 0 <= #[trigger] edges_of(
                cells,
                i,
            )->Some_0[k] < cells.len(),
{
    let t = cells[i].text@;
    let es = edges_of(cells, i)->Some_0;
    assert forall|k: int| 0 <= k < es.len() implies 0 <= #[trigger] es[k] < cells.len() by {
        let c = reference_coordinate(t, k);
        assert(position_of(cells, c.0, c.1) is Some);
    }
}

/// A walk of `k` edges of the dependency graph starts at cell `i`.
pub open spec fn long_walk(cells: Seq<Cell>, i: int, k: nat) -> bool
    decreases k, 0nat,
{
    if k == 0 {
        true
    } else {
        match edges_of(cells, i) {
            Some(es) => some_long_walk(cells, es, es.len(), (k - 1) as nat),
            None => false,
        }
    }
}

/// A walk of `k` edges starts at one of the first `m` cells of `es`.
pub open spec fn some_long_walk(cells: Seq<Cell>, es: Seq<int>, m: nat, k: nat) -> bool
    decreases k, m,
{
    if m == 0 {
        false
    } else {
        long_walk(cells, es[m - 1], k) || some_long_walk(cells, es, (m - 1) as nat, k)
    }
}

proof fn lemma_some_long_walk(cells: Seq<Cell>, es: Seq<int>, m: nat, k: nat)
    ensures
        some_long_walk(cells, es, m, k) <==> exists|j: int|
            0 <= j < m && #[trigger] long_walk(cells, es[j], k),
    decreases m,
{
    if m > 0 {
        lemma_some_long_walk(cells, es, (m - 1) as nat, k);
        if some_long_walk(cells, es, m, k) {
            if long_walk(cells, es[m - 1], k) {
                assert(long_walk(cells, es[m - 1], k));
            } else {
                let j = choose|j: int| 0 <= j < m - 1 && #[trigger] long_walk(cells, es[j], k);
                assert(long_walk(cells, es[j], k));
            }
        }
    }
}

/// A walk of `k + 1` edges starts at `i` exactly where its references resolve
/// and a walk of `k` edges starts at one of the cells that it refers to.
pub(crate) proof fn lemma_long_walk_step(cells: Seq<Cell>, i: int, k: nat)
    ensures
        long_walk(cells, i, k + 1) <==> (edges_of(cells, i) matches Some(es) && exists|j: int|
            0 <= j < es.len() && #[trigger] long_walk(cells, es[j], k)),
{
    if let Some(es) = edges_of(cells, i) {
        lemma_some_long_walk(cells, es, es.len(), k);
    }
}

/// Cell `i` lies on or leads to a cycle. Among `n` cells a walk of `n` edges
/// visits some cell twice, and from a cycle walks of every length start.
pub open spec fn is_cyclic(cells: Seq<Cell>, i: int) -> bool {
    long_walk(cells, i, cells.len())
}

pub(crate) proof fn lemma_long_walk_shorter(cells: Seq<Cell>, i: int, f: nat, g: nat)
    requires
        f <= g,
        long_walk(cells, i, g),
    ensures
        long_walk(cells, i, f),
    decreases f,
{
    if f > 0 {
        lemma_long_walk_step(cells, i, (g - 1) as nat);
        lemma_long_walk_step(cells, i, (f - 1) as nat);
        let es = edges_of(cells, i)->Some_0;
        let j = choose|j: int| 0 <= j < es.len() && #[trigger] long_walk(cells, es[j], (g - 1) as nat);
        lemma_long_walk_shorter(cells, es[j], (f - 1) as nat, (g - 1) as nat);
    }
}

/// A cell that refers to itself, with all its references resolving, is
/// cyclic.
pub proof fn lemma_self_reference_is_cyclic(cells: Seq<Cell>, i: int, k: int)
    requires
        edges_of(cells, i) matches Some(es) && 0 <= k < es.len() && es[k] == i,
    ensures
        is_cyclic(cells, i),
{
    lemma_self_loop_walks(cells, i, k, cells.len());
}

proof fn lemma_self_loop_walks(cells: Seq<Cell>, i: int, k: int, m: nat)
    requires
        edges_of(cells, i) matches Some(es) && 0 <= k < es.len() && es[k] == i,
    ensures
        long_walk(cells, i, m),
    decreases m,
{
    if m > 0 {
        lemma_self_loop_walks(cells, i, k, (m - 1) as nat);
        lemma_long_walk_step(cells, i, (m - 1) as nat);
        let es = edges_of(cells, i)->Some_0;
        assert(long_walk(cells, es[k], (m - 1) as nat));
    }
}

/// A cell whose references all resolve and name no cell at all is not
/// cyclic, whatever cycles the other cells form.
pub proof fn lemma_no_references_not_cyclic(cells: Seq<Cell>, i: int)
    requires
        cells.len() > 0,
        edges_of(cells, i) matches Some(es) && es.len() == 0,
    ensures
        !is_cyclic(cells, i),
{
}

/// Cell `u` refers to cell `v`, and all of `u`'s references resolve.
pub open spec fn refers_to(cells: Seq<Cell>, u: int, v: int) -> bool {
    edges_of(cells, u) matches Some(es) && es.contains(v)
}

/// `w` is a walk of the dependency graph.
pub open spec fn is_walk(cells: Seq<Cell>, w: Seq<int>) -> bool {
    forall|m: int| 0 <= m < w.len() - 1 ==> #[trigger] refers_to(cells, w[m], w[m + 1])
}

/// Some walk from cell `i` comes back to a cell that it has passed: `i`
/// lies on a cycle or leads to one.
pub open spec fn reaches_cycle(cells: Seq<Cell>, i: int) -> bool {
    exists|w: Seq<int>, a: int, b: int|
        w.len() > 0 && w[0] == i && is_walk(cells, w) && 0 <= a < b < w.len() && #[trigger] w[a]
            == #[trigger] w[b]
}

/// A walk of the dependency graph leads from cell `i` to cell `q` (`i`
/// reaches itself).
pub open spec fn reaches(cells: Seq<Cell>, i: int, q: int) -> bool {
    exists|w: Seq<int>| w.len() > 0 && w[0] == i && w.last() == q && #[trigger] is_walk(cells, w)
}

pub(crate) proof fn lemma_reaches_self(cells: Seq<Cell>, i: int)
    ensures
        reaches(cells, i, i),
{
    let w = seq![i];
    assert(is_walk(cells, w));
}

pub(crate) proof fn lemma_reaches_step(cells: Seq<Cell>, i: int, c: int, q: int)
    requires
        refers_to(cells, i, c),
        reaches(cells, c, q),
    ensures
        reaches(cells, i, q),
{
    let rest = choose|w: Seq<int>| w.len() > 0 && w[0] == c && w.last() == q && #[trigger] is_walk(cells, w);
    let w = seq![i] + rest;
    assert forall|m: int| 0 <= m < w.len() - 1 implies #[trigger] refers_to(cells, w[m], w[m + 1]) by {
        if m > 0 {
            let p = m - 1;
            assert(w[m] == rest[p] && w[m + 1] == rest[p + 1]);
            assert(refers_to(cells, rest[p], rest[p + 1]));
        }
    }
    assert(w.last() == rest.last());
    assert(is_walk(cells, w));
}

proof fn lemma_walk_of(cells: Seq<Cell>, i: int, k: nat) -> (w: Seq<int>)
    requires
        long_walk(cells, i, k),
    ensures
        w.len() == k + 1,
        w[0] == i,
        is_walk(cells, w),
    decreases k,
{
    if k == 0 {
        seq![i]
    } else {
        lemma_long_walk_step(cells, i, (k - 1) as nat);
        let es = edges_of(cells, i)->Some_0;
        let j = choose|j: int| 0 <= j < es.len() && #[trigger] long_walk(cells, es[j], (k - 1) as nat);
        let rest = lemma_walk_of(cells, es[j], (k - 1) as nat);
        let w = seq![i] + rest;
        assert forall|m: int| 0 <= m < w.len() - 1 implies #[trigger] refers_to(
            cells,
            w[m],
            w[m + 1],
        ) by {
            if m == 0 {
                assert(es[j] == rest[0]);
                assert(es.contains(w[1]));
            } else {
                let q = m - 1;
                assert(w[m] == rest[q] && w[m + 1] == rest[q + 1]);
                assert(refers_to(cells, rest[q], rest[q + 1]));
            }
        }
        w
    }
}

proof fn lemma_walk_in_range(cells: Seq<Cell>, w: Seq<int>)
    requires
        is_walk(cells, w),
        w.len() > 0,
        0 <= w[0] < cells.len(),
    ensures
        forall|m: int| 0 <= m < w.len() ==> 0 <= #[trigger] w[m] < cells.len(),
{
    assert forall|m: int| 0 <= m < w.len() implies 0 <= #[trigger] w[m] < cells.len() by {
        if m > 0 {
            let q = m - 1;
            assert(refers_to(cells, w[q], w[q + 1]));
            lemma_edges_in_range(cells, w[q]);
            let es = edges_of(cells, w[q])->Some_0;
            let x = choose|x: int| 0 <= x < es.len() && es[x] == w[m];
        }
    }
}

proof fn lemma_pigeonhole(w: Seq<int>, n: nat)
    requires
        w.len() == n + 1,
        forall|m: int| 0 <= m < w.len() ==> 0 <= #[trigger] w[m] < n,
    ensures
        exists|a: int, b: int| 0 <= a < b < w.len() && #[trigger] w[a] == #[trigger] w[b],
{
    if w.no_duplicates() {
        w.unique_seq_to_set();
        let range = vstd::set_lib::set_int_range(0, n as int);
        vstd::set_lib::lemma_int_range(0, n as int);
        assert(w.to_set().subset_of(range));
        vstd::set_lib::lemma_len_subset(w.to_set(), range);
    } else {
        let (x, y) = choose|x: int, y: int|
            0 <= x < w.len() && 0 <= y < w.len() && x != y && w[x] == w[y];
        if x < y {
            assert(w[x] == w[y]);
        } else {
            assert(w[y] == w[x]);
        }
    }
}

proof fn lemma_cycle_walks(cells: Seq<Cell>, w: Seq<int>, a: int, b: int, p: int, k: nat)
    requires
        is_walk(cells, w),
        0 <= a <= p < b < w.len(),
        w[a] == w[b],
    ensures
        long_walk(cells, w[p], k),
    decreases k,
{
    if k > 0 {
        let next = if p + 1 < b {
            p + 1
        } else {
            a
        };
        lemma_cycle_walks(cells, w, a, b, next, (k - 1) as nat);
        assert(refers_to(cells, w[p], w[p + 1]));
        let es = edges_of(cells, w[p])->Some_0;
        let x = choose|x: int| 0 <= x < es.len() && es[x] == w[p + 1];
        assert(long_walk(cells, es[x], (k - 1) as nat));
        lemma_long_walk_step(cells, w[p], (k - 1) as nat);
    }
}

proof fn lemma_prefix_walks(cells: Seq<Cell>, w: Seq<int>, a: int, b: int, p: int, k: nat)
    requires
        is_walk(cells, w),
        0 <= p <= a < b < w.len(),
        w[a] == w[b],
    ensures
        long_walk(cells, w[p], k),
    decreases a - p,
{
    if p == a {
        lemma_cycle_walks(cells, w, a, b, p, k);
    } else if k > 0 {
        lemma_prefix_walks(cells, w, a, b, p + 1, (k - 1) as nat);
        assert(refers_to(cells, w[p], w[p + 1]));
        let es = edges_of(cells, w[p])->Some_0;
        let x = choose|x: int| 0 <= x < es.len() && es[x] == w[p + 1];
        assert(long_walk(cells, es[x], (k - 1) as nat));
        lemma_long_walk_step(cells, w[p], (k - 1) as nat);
    }
}

/// A cell is cyclic exactly where some walk from it comes back to a cell that
/// it has passed: where it lies on a cycle or leads to one. A cycle among
/// cells that it cannot reach leaves it acyclic.
pub proof fn lemma_cyclic_iff_reaches_cycle(cells: Seq<Cell>, i: int)
    requires
        0 <= i < cells.len(),
    ensures
        is_cyclic(cells, i) <==> reaches_cycle(cells, i),
{
    if is_cyclic(cells, i) {
        let w = lemma_walk_of(cells, i, cells.len());
        lemma_walk_in_range(cells, w);
        lemma_pigeonhole(w, cells.len());
        let (a, b) = choose|a: int, b: int| 0 <= a < b < w.len() && #[trigger] w[a] == #[trigger] w[b];
        assert(w.len() > 0 && w[0] == i && is_walk(cells, w) && 0 <= a < b < w.len() && w[a] == w[b]);
    }
    if reaches_cycle(cells, i) {
        let (w, a, b) = choose|w: Seq<int>, a: int, b: int|
            w.len() > 0 && w[0] == i && is_walk(cells, w) && 0 <= a < b < w.len() && #[trigger] w[a]
                == #[trigger] w[b];
        lemma_prefix_walks(cells, w, a, b, 0, cells.len());
    }
}

fn has_marked_successor(graph: &DependencyGraph, level: &Vec<bool>, u: usize, Ghost(
    cells,
): Ghost<Seq<Cell>>, Ghost(k): Ghost<nat>) -> (r: bool)
    requires
        graph.describes(cells),
        u < cells.len(),
        level@.len() == cells.len(),
        forall|v: int| 0 <= v < cells.len() ==> #[trigger] level@[v] == long_walk(cells, v, k),
    ensures
        r == long_walk(cells, u as int, k + 1),
{
    proof {
        lemma_long_walk_step(cells, u as int, k);
    }
    match &graph.edges[u] {
        None => false,
        Some(es) => {
            let ghost spec_es = edges_of(cells, u as int)->Some_0;
            proof {
                lemma_edges_in_range(cells, u as int);
            }
            let mut j: usize = 0;
            while j < es.len()
                invariant
                    edges_of(cells, u as int) is Some,
                    spec_es == edges_of(cells, u as int)->Some_0,
                    es@.len() == spec_es.len(),
                    forall|m: int| 0 <= m < es@.len() ==> es@[m] as int == #[trigger] spec_es[m],
                    forall|m: int| 0 <= m < spec_es.len() ==> 0 <= #[trigger] spec_es[m] < cells.len(),
                    level@.len() == cells.len(),
                    forall|v: int| 0 <= v < cells.len() ==> #[trigger] level@[v] == long_walk(cells, v, k),
                    forall|m: int| 0 <= m < j ==> !long_walk(cells, #[trigger] spec_es[m], k),
                decreases es@.len() - j,
            {
                assert(es@[j as int] as int == spec_es[j as int]);
                if level[es[j]] {
                    assert(long_walk(cells, spec_es[j as int], k));
                    assert(exists|m: int|
                        0 <= m < spec_es.len() && #[trigger] long_walk(cells, spec_es[m], k));
                    proof {
                        lemma_long_walk_step(cells, u as int, k);
                    }
                    return true;
                }
                j = j + 1;
            }
            false
        },
    }
}

/// Marks each cell that lies on or leads to a cycle.
pub fn detect_cycles(table: &Table, graph: &DependencyGraph) -> (r: Vec<bool>)
    requires
        graph.describes(table.cells@),
    ensures
        r@.len() == table.cells@.len(),
        forall|i: int| 0 <= i < r@.len() ==> #[trigger] r@[i] == is_cyclic(table.cells@, i),
{
    let ghost cells = table.cells@;
    let n = table.cells.len();
    let mut level: Vec<bool> = Vec::new();
    while level.len() < n
        invariant
            level@.len() <= n,
            forall|v: int| 0 <= v < level@.len() ==> #[trigger] level@[v] == long_walk(cells, v, 0),
        decreases n - level@.len(),
    {
        level.push(true);
    }
    let mut k: usize = 0;
    while k < n
        invariant
            n == cells.len(),
            cells == table.cells@,
            graph.describes(cells),
            k <= n,
            level@.len() == n,
            forall|v: int| 0 <= v < n ==> #[trigger] level@[v] == long_walk(cells, v, k as nat),
        decreases n - k,
    {
        let mut next: Vec<bool> = Vec::new();
        let mut u: usize = 0;
        while u < n
            invariant
                n == cells.len(),
                graph.describes(cells),
                u <= n,
                k < n,
                level@.len() == n,
                forall|v: int| 0 <= v < n ==> #[trigger] level@[v] == long_walk(cells, v, k as nat),
                next@.len() == u,
                forall|v: int| 0 <= v < u ==> #[trigger] next@[v] == long_walk(cells, v, (k + 1) as nat),
            decreases n - u,
        {
            let b = has_marked_successor(graph, &level, u, Ghost(cells), Ghost(k as nat));
            next.push(b);
            u = u + 1;
        }
        level = next;
        k = k + 1;
    }
    level
}

/// Whether the cell at `cell_index` lies on or leads to a cycle. Fails where
/// the table holds no such cell, and where one of the cell's references
/// cannot be decoded or names a cell that the table does not hold.
pub fn detect_cycle(table: &Table, cell_index: &(usize, usize)) -> (r: Result<bool, String>)
    requires
        table.wf(),
    ensures
        match position_of(table.cells@, cell_index.0 as int, cell_index.1 as int) {
            Some(i) => match edges_of(table.cells@, i) {
                Some(_) => r == Ok::<bool, String>(is_cyclic(table.cells@, i)),
                None => r is Err && r->Err_0@ == "Invalid or dangling reference"@,
            },
            None => r is Err && r->Err_0@ == "Invalid cell reference"@,
        },
{
    match table.find(cell_index.0, cell_index.1) {
        None => Err(String::from_str("Invalid cell reference")),
        Some(i) => {
            let graph = build_graph(table);
            if graph.edges[i].is_none() {
                return Err(String::from_str("Invalid or dangling reference"));
            }
            let cycles = detect_cycles(table, &graph);
            Ok(cycles[i])
        },
    }
}

} // verus!
