use letterscan::flatten::flatten_letter_matrix_with_limit;

#[test]
fn keeps_runs_within_the_cap() {
    let matrix = vec![vec!['a', 'a', 'a', 'b', 'a', 'a', 'a']];
    assert_eq!(flatten_letter_matrix_with_limit(&matrix, 2), "aabaa");
}

#[test]
fn letter_change_always_emits() {
    let matrix = vec![vec!['a', 'a', 'a', 'a', 'b']];
    assert_eq!(flatten_letter_matrix_with_limit(&matrix, 2), "aab");
}

#[test]
fn run_crossing_row_boundary_is_one_run() {
    // three 'a' in a row, split over two rows: capped as a single run
    let matrix = vec![vec!['a', 'a'], vec!['a', 'b']];
    assert_eq!(flatten_letter_matrix_with_limit(&matrix, 2), "aab");
}

#[test]
fn boundary_run_within_cap_is_kept() {
    let matrix = vec![vec!['a', 'b'], vec!['b', 'c']];
    assert_eq!(flatten_letter_matrix_with_limit(&matrix, 2), "abbc");
}

#[test]
fn solid_grid_flattens_to_cap_letters() {
    let matrix = vec![vec!['q', 'q', 'q'], vec!['q', 'q', 'q'], vec!['q', 'q', 'q']];
    assert_eq!(flatten_letter_matrix_with_limit(&matrix, 2), "qq");
}

#[test]
fn cap_one_collapses_each_run() {
    let matrix = vec![vec!['a', 'a', 'b', 'b', 'a']];
    assert_eq!(flatten_letter_matrix_with_limit(&matrix, 1), "aba");
}

#[test]
fn single_cell_grid() {
    let matrix = vec![vec!['z']];
    assert_eq!(flatten_letter_matrix_with_limit(&matrix, 2), "z");
}

#[test]
fn empty_grid_gives_empty_string() {
    let matrix: Vec<Vec<char>> = vec![];
    assert_eq!(flatten_letter_matrix_with_limit(&matrix, 2), "");
}

#[test]
fn grid_shorter_than_cap_is_kept_whole() {
    let matrix = vec![vec!['c', 'c']];
    assert_eq!(flatten_letter_matrix_with_limit(&matrix, 5), "cc");
}

#[test]
fn leading_underscores_continue_the_initial_run() {
    // the scan starts as if an underscore run of length zero were underway
    let matrix = vec![vec!['_', '_', '_']];
    assert_eq!(flatten_letter_matrix_with_limit(&matrix, 2), "__");
}
