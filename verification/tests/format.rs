use tents::grid::{Cell, State};
use tents::parse::{parse_ascii_digit, ParseError};

fn parse(text: &str) -> State {
    State::parse(&text.as_bytes().to_vec()).expect("fixture must parse")
}

#[test]
fn parses_the_seven_grid() {
    let st = parse(" 1202031\n1       \n2  T  T \n1T      \n2T   T T\n1 T    T\n1       \n1    T  ");
    assert_eq!(st.dim, 7);
    assert_eq!(st.col_tents, vec![1, 2, 0, 2, 0, 3, 1]);
    assert_eq!(st.row_tents, vec![1, 2, 1, 2, 1, 1, 1]);
    assert_eq!(st.cells.len(), 49);
    assert_eq!(st.cells[2 + 1 * 7], Cell::Tree);
    assert_eq!(st.cells[5 + 1 * 7], Cell::Tree);
    assert_eq!(st.cells[0 + 2 * 7], Cell::Tree);
    assert_eq!(st.cells[4 + 6 * 7], Cell::Tree);
    assert_eq!(st.cells[0], Cell::Empty);
    assert_eq!(st.cells.iter().filter(|&&c| c == Cell::Tree).count(), 9);
}

#[test]
fn parses_every_cell_kind() {
    let st = parse(" 10\n0TX\n0. ");
    assert_eq!(
        st.cells,
        vec![Cell::Tree, Cell::Tent, Cell::Grass, Cell::Empty]
    );
}

#[test]
fn parses_with_a_trailing_line_break() {
    let st = parse(" 01\n1T \n0  \n");
    assert_eq!(st.dim, 2);
    assert_eq!(st.row_tents, vec![1, 0]);
}

#[test]
fn parses_the_empty_grid() {
    let st = parse(" ");
    assert_eq!(st.dim, 0);
    assert!(st.cells.is_empty());
}

#[test]
fn rejects_empty_input() {
    assert_eq!(
        State::parse(&Vec::new()).unwrap_err(),
        ParseError::EmptyInput
    );
}

#[test]
fn rejects_a_header_without_the_blank() {
    assert_eq!(
        State::parse(&b"01\n1T \n0  ".to_vec()).unwrap_err(),
        ParseError::BadHeader
    );
}

#[test]
fn rejects_a_bad_column_count() {
    assert_eq!(
        State::parse(&b" 0a\n1T \n0  ".to_vec()).unwrap_err(),
        ParseError::BadDigit
    );
}

#[test]
fn rejects_a_bad_row_count() {
    assert_eq!(
        State::parse(&b" 01\nxT \n0  ".to_vec()).unwrap_err(),
        ParseError::BadDigit
    );
}

#[test]
fn rejects_a_short_row() {
    assert_eq!(
        State::parse(&b" 01\n1T\n0  ".to_vec()).unwrap_err(),
        ParseError::BadShape
    );
}

#[test]
fn rejects_missing_rows() {
    assert_eq!(
        State::parse(&b" 01\n1T ".to_vec()).unwrap_err(),
        ParseError::BadShape
    );
}

#[test]
fn rejects_extra_rows() {
    assert_eq!(
        State::parse(&b" 01\n1T \n0  \n0  ".to_vec()).unwrap_err(),
        ParseError::BadShape
    );
}

#[test]
fn digits_parse_exactly() {
    assert_eq!(parse_ascii_digit(b'0'), Ok(0));
    assert_eq!(parse_ascii_digit(b'7'), Ok(7));
    assert_eq!(parse_ascii_digit(b'9'), Ok(9));
    assert_eq!(parse_ascii_digit(b'/'), Err(ParseError::BadDigit));
    assert_eq!(parse_ascii_digit(b':'), Err(ParseError::BadDigit));
    assert_eq!(parse_ascii_digit(b'T'), Err(ParseError::BadDigit));
}

#[test]
fn cell_bytes_round_trip() {
    for (byte, cell) in [
        (b'T', Cell::Tree),
        (b'X', Cell::Tent),
        (b'.', Cell::Grass),
        (b' ', Cell::Empty),
    ] {
        assert_eq!(Cell::from_byte(byte), Ok(cell));
        assert_eq!(cell.to_byte(), byte);
    }
    assert_eq!(Cell::from_byte(b'#'), Err(ParseError::BadCell));
}

#[test]
fn rendering_inverts_parsing() {
    let text = " 1202031\n1       \n2  T  T \n1T      \n2T   T T\n1 T    T\n1       \n1    T  ";
    let st = parse(text);
    assert_eq!(st.render(), text.as_bytes().to_vec());
}

#[test]
fn renders_the_solved_two_by_two() {
    let post = parse(" 01\n1T \n0  ").solve().expect("solvable");
    assert_eq!(post.render(), b" 00\n0TX\n0..".to_vec());
}
