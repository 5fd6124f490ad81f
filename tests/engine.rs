use cellcalc::evaluate::{dereference, evaluate_recursive, solve};
use cellcalc::render::render_rows;
use cellcalc::table::{build_graph, detect_cycle, detect_cycles, Table};

fn table(rows: &[&[&str]]) -> Table {
    let rows: Vec<Vec<String>> = rows
        .iter()
        .map(|r| r.iter().map(|s| s.to_string()).collect())
        .collect();
    Table::from_rows(&rows)
}

fn solved(t: &Table) -> Table {
    let mut messages = Vec::new();
    solve(t, &mut messages)
}

fn texts(t: &Table) -> Vec<String> {
    t.cells.iter().map(|c| c.text.clone()).collect()
}

#[test]
fn from_rows_keeps_row_major_order() {
    let t = table(&[&["1", "2"], &["3"]]);
    let keys: Vec<(usize, usize)> = t.cells.iter().map(|c| (c.row, c.column)).collect();
    assert_eq!(keys, vec![(0, 0), (0, 1), (1, 0)]);
    assert_eq!(t.find(1, 0), Some(2));
    assert_eq!(t.find(1, 1), None);
}

#[test]
fn cycle_elsewhere_does_not_block_a_cell() {
    let t = table(&[&["b1", "a1", "5"]]);
    assert_eq!(detect_cycle(&t, &(0, 2)), Ok(false));
    assert_eq!(detect_cycle(&t, &(0, 0)), Ok(true));
    assert_eq!(detect_cycle(&t, &(0, 1)), Ok(true));
}

#[test]
fn cell_leading_to_a_cycle_is_cyclic() {
    let t = table(&[&["b1", "a1", "a1 1 +"]]);
    assert_eq!(detect_cycle(&t, &(0, 2)), Ok(true));
}

#[test]
fn self_reference_is_cyclic() {
    let t = table(&[&["a1 1 +", "2"]]);
    assert_eq!(detect_cycle(&t, &(0, 0)), Ok(true));
    assert_eq!(detect_cycle(&t, &(0, 1)), Ok(false));
}

#[test]
fn detect_cycle_on_unknown_cell() {
    let t = table(&[&["1"]]);
    assert_eq!(
        detect_cycle(&t, &(3, 3)),
        Err("Invalid cell reference".to_string())
    );
}

#[test]
fn graph_edges_follow_references() {
    let t = table(&[&["2", "a1 a1 +", "b1 a1 +", "z9"]]);
    let g = build_graph(&t);
    assert_eq!(g.edges[0], Some(vec![]));
    assert_eq!(g.edges[1], Some(vec![0, 0]));
    assert_eq!(g.edges[2], Some(vec![1, 0]));
    assert_eq!(g.edges[3], None);
    assert_eq!(detect_cycles(&t, &g), vec![false, false, false, false]);
}

#[test]
fn shared_dependency_values() {
    let t = table(&[&["2", "a1 a1 +", "b1 a1 +"]]);
    assert_eq!(texts(&solved(&t)), vec!["2", "4", "6"]);
}

#[test]
fn malformed_cell_is_isolated() {
    let mut row: Vec<&str> = vec![""; 24];
    row[0] = "4";
    row[1] = "a1 1 +";
    row[23] = "1 + )";
    let t = table(&[&row]);
    let result = texts(&solved(&t));
    assert_eq!(result[23], "#ERR");
    assert_eq!(result[0], "4");
    assert_eq!(result[1], "5");
    assert_eq!(result[2], "0");
}

#[test]
fn blank_cell_is_zero_and_usable() {
    let t = table(&[&["", "a1 5 +", "   "]]);
    assert_eq!(texts(&solved(&t)), vec!["0", "5", "0"]);
}

#[test]
fn end_to_end_output() {
    let t = table(&[&["3", "a1 2 +"]]);
    let result = solved(&t);
    assert_eq!(texts(&result), vec!["3", "5"]);
    assert_eq!(render_rows(&result), vec!["3,5".to_string()]);
}

#[test]
fn cyclic_cells_get_error_marker() {
    let t = table(&[&["b1", "a1", "5"]]);
    assert_eq!(texts(&solved(&t)), vec!["#ERR", "#ERR", "5"]);
}

#[test]
fn dependent_of_failed_cell_fails() {
    let t = table(&[&["1 +", "a1 1 +", "z9 1 +", "7"]]);
    assert_eq!(texts(&solved(&t)), vec!["#ERR", "#ERR", "#ERR", "7"]);
}

#[test]
fn values_are_arithmetic_results() {
    let t = table(&[&["1 2 /", "6 7 *", "a1 b1 -"]]);
    assert_eq!(texts(&solved(&t)), vec!["0.5", "42", "-41.5"]);
}

#[test]
fn dereference_substitutes_by_position() {
    let values = vec!["3".to_string(), "10".to_string()];
    assert_eq!(dereference("a1 b2 +", &values), "3 10 +");
    let values = vec!["2".to_string(), "7".to_string()];
    assert_eq!(dereference("a1 a11 +", &values), "2 7 +");
}

#[test]
fn render_groups_rows() {
    let t = table(&[&["1", "2"], &["3"], &["4", "5", "6"]]);
    assert_eq!(
        render_rows(&t),
        vec!["1,2".to_string(), "3".to_string(), "4,5,6".to_string()]
    );
}

#[test]
fn shared_dependency_is_memoised() {
    let t = table(&[&["2", "a1 a1 +", "b1 a1 +"]]);
    let g = build_graph(&t);
    let mut memo: Vec<Option<Option<String>>> = vec![None; 3];
    assert_eq!(evaluate_recursive(&t, &g, &mut memo, 2, 3), Ok("6".to_string()));
    assert_eq!(
        memo,
        vec![
            Some(Some("2".to_string())),
            Some(Some("4".to_string())),
            Some(Some("6".to_string()))
        ]
    );
    let before = memo.clone();
    assert_eq!(evaluate_recursive(&t, &g, &mut memo, 1, 3), Ok("4".to_string()));
    assert_eq!(memo, before);
}

#[test]
fn dangling_reference_is_an_error_for_its_cell() {
    let t = table(&[&["z9 1 +", "a1", "3"]]);
    assert_eq!(
        detect_cycle(&t, &(0, 0)),
        Err("Invalid or dangling reference".to_string())
    );
    assert_eq!(detect_cycle(&t, &(0, 1)), Ok(false));
    assert_eq!(detect_cycle(&t, &(0, 2)), Ok(false));
}

#[test]
fn failures_are_reported() {
    let t = table(&[&["b1", "a1", "1 +", "4"]]);
    let mut messages = Vec::new();
    let result = solve(&t, &mut messages);
    assert_eq!(texts(&result), vec!["#ERR", "#ERR", "#ERR", "4"]);
    assert_eq!(
        messages,
        vec![
            "Cycle detected.".to_string(),
            "Cycle detected.".to_string(),
            "Unable to evaluate expression: 1 +".to_string()
        ]
    );
}

#[test]
fn blank_cell_adds_only_its_own_entry() {
    let t = table(&[&["5", " \t "]]);
    let g = build_graph(&t);
    let mut memo: Vec<Option<Option<String>>> = vec![None; 2];
    assert_eq!(evaluate_recursive(&t, &g, &mut memo, 1, 2), Ok("0".to_string()));
    assert_eq!(memo, vec![None, Some(Some("0".to_string()))]);
}
