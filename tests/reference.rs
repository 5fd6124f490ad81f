use cellcalc::reference::{
    cell_reference_to_index, extract_cell_references_with_indexes, find_reference_spans,
    index_to_cell_reference,
};

#[test]
fn index_to_cell_reference_success() {
    assert_eq!(index_to_cell_reference(&(1, 4)), Ok("e2".to_string()));
    assert_eq!(index_to_cell_reference(&(3, 5)), Ok("f4".to_string()));
}

#[test]
fn index_to_cell_reference_failure() {
    assert_eq!(
        index_to_cell_reference(&(1, 26)),
        Err("Index out of bounds".to_string())
    );
}

#[test]
fn cell_reference_to_index_success() {
    assert_eq!(cell_reference_to_index("e7"), Ok((6, 4)));
    assert_eq!(cell_reference_to_index("u14"), Ok((13, 20)));
}

#[test]
fn cell_reference_to_index_failure() {
    assert_eq!(
        cell_reference_to_index("!7"),
        Err("Unable to parse cell reference: !7".to_string())
    );
    assert_eq!(
        cell_reference_to_index("a0"),
        Err("Unable to parse cell reference: a0".to_string())
    );
    assert_eq!(
        cell_reference_to_index("10"),
        Err("Unable to parse cell reference: 10".to_string())
    );
}

#[test]
fn round_trip_on_sample_coordinates() {
    for &(row, column) in &[(0usize, 0usize), (9, 25), (99, 3), (123456, 12)] {
        let text = index_to_cell_reference(&(row, column)).unwrap();
        assert_eq!(cell_reference_to_index(&text), Ok((row, column)));
    }
    assert_eq!(index_to_cell_reference(&(9, 25)), Ok("z10".to_string()));
}

#[test]
fn decoding_accepts_upper_case_and_leading_zeros() {
    assert_eq!(cell_reference_to_index("E7"), Ok((6, 4)));
    assert_eq!(cell_reference_to_index("b010"), Ok((9, 1)));
}

#[test]
fn decoding_rejects_malformed_text() {
    assert!(cell_reference_to_index("a").is_err());
    assert!(cell_reference_to_index("").is_err());
    assert!(cell_reference_to_index("ab").is_err());
    assert!(cell_reference_to_index("a1x").is_err());
    assert!(cell_reference_to_index("a99999999999999999999999").is_err());
}

#[test]
fn extraction_keeps_order() {
    let refs = extract_cell_references_with_indexes("1 a4 + 14 - h2").unwrap();
    assert_eq!(refs, vec![("a4", (3, 0)), ("h2", (1, 7))]);
}

#[test]
fn extraction_keeps_duplicates() {
    let refs = extract_cell_references_with_indexes("a1 + a1").unwrap();
    assert_eq!(refs, vec![("a1", (0, 0)), ("a1", (0, 0))]);
}

#[test]
fn extraction_takes_longest_digit_run() {
    let refs = extract_cell_references_with_indexes("ab12 c3d").unwrap();
    assert_eq!(refs, vec![("b12", (11, 1)), ("c3", (2, 2))]);
    assert_eq!(find_reference_spans("ab12 c3d"), vec![(1, 4), (5, 7)]);
}

#[test]
fn extraction_fails_on_out_of_range_row() {
    let r = extract_cell_references_with_indexes("1 a0 +");
    assert_eq!(r, Err("Unable to parse cell reference: a0".to_string()));
}

#[test]
fn out_of_range_column_on_last_row() {
    assert_eq!(
        index_to_cell_reference(&(usize::MAX, 26)),
        Err("Index out of bounds".to_string())
    );
}
