use tents::grid::{Cell, State};

fn parse(text: &str) -> State {
    State::parse(&text.as_bytes().to_vec()).expect("fixture must parse")
}

#[test]
fn cells_are_read_and_written_by_coordinates() {
    let mut st = parse(" 01\n1T \n0  ");
    assert_eq!(st.get_cell(0, 0), Cell::Tree);
    assert_eq!(st.get_cell(1, 0), Cell::Empty);
    st.set_cell(1, 1, Cell::Grass);
    assert_eq!(st.get_cell(1, 1), Cell::Grass);
    assert_eq!(st.cells[1 + 1 * 2], Cell::Grass);
}

#[test]
fn indices_decompose_into_coordinates() {
    let st = parse(" 102\n0T  \n0   \n0  T");
    assert_eq!(st.index_to_xy(0), (0, 0));
    assert_eq!(st.index_to_xy(5), (2, 1));
    assert_eq!(st.index_to_xy(8), (2, 2));
}

#[test]
fn counting_cells_matches_the_board() {
    let st = parse(" 102\n0T  \n0   \n0  T");
    assert_eq!(st.count_cells(Cell::Tree), 2);
    assert_eq!(st.count_cells(Cell::Tent), 0);
    assert_eq!(st.count_cells(Cell::Empty), 7);
}

#[test]
fn orthogonal_neighbours_are_counted() {
    let st = parse(" 102\n0T  \n0T  \n0  T");
    assert_eq!(st.orth_count(0, 1, Cell::Tree), 1);
    assert_eq!(st.orth_count(1, 0, Cell::Tree), 1);
    assert_eq!(st.orth_count(1, 1, Cell::Tree), 1);
    assert_eq!(st.orth_count(2, 2, Cell::Tree), 0);
}

#[test]
fn deduction_clears_cells_away_from_trees() {
    let mut st = parse(" 11\n1T \n1  ");
    st.fill_green();
    // (1, 1) touches no tree; the others stay undecided
    assert_eq!(st.get_cell(1, 0), Cell::Empty);
    assert_eq!(st.get_cell(0, 1), Cell::Empty);
    assert_eq!(st.get_cell(1, 1), Cell::Grass);
}

#[test]
fn deduction_clears_exhausted_rows_and_columns() {
    let mut st = parse(" 01\n1T \n0  ");
    st.fill_green();
    // column 0 and row 1 need no tents; only (1, 0) can still hold one
    assert_eq!(st.get_cell(1, 0), Cell::Empty);
    assert_eq!(st.get_cell(0, 1), Cell::Grass);
    assert_eq!(st.get_cell(1, 1), Cell::Grass);
}

#[test]
fn deduction_keeps_decided_cells() {
    let mut st = parse(" 00\n0TX\n0..");
    st.fill_green();
    assert_eq!(
        st.cells,
        vec![Cell::Tree, Cell::Tent, Cell::Grass, Cell::Grass]
    );
}

#[test]
fn deduction_is_idempotent() {
    let mut once = parse(" 11\n1T \n1  ");
    once.fill_green();
    let mut twice = parse(" 11\n1T \n1  ");
    twice.fill_green();
    twice.fill_green();
    assert_eq!(once.cells, twice.cells);
}
