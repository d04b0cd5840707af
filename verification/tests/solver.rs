use tents::grid::{Cell, State};
use tents::parse::ParseError;
use tents::solver::Backtrack;

fn parse(text: &str) -> State {
    State::parse(&text.as_bytes().to_vec()).expect("fixture must parse")
}

fn cell(st: &State, x: usize, y: usize) -> Cell {
    st.cells[x + y * st.dim]
}

/// Acceptance check, written independently of the library: every cell
/// decided, every tree next to a tent and every tent next to a tree with a
/// one-to-one pairing between them, no two tents touching (diagonals
/// included), and every row and column holding exactly the count the input
/// required.
fn assert_valid_solution(pre: &State, post: &State) {
    let dim = pre.dim;
    assert_eq!(post.dim, dim);
    for y in 0..dim {
        for x in 0..dim {
            let c = cell(post, x, y);
            assert_ne!(c, Cell::Empty, "undecided cell at ({}, {})", x, y);
            if cell(pre, x, y) != Cell::Empty {
                assert_eq!(c, cell(pre, x, y), "decided cell changed at ({}, {})", x, y);
            }
            let mut orth_tents = 0;
            let mut orth_trees = 0;
            let mut king_tents = 0;
            for (dx, dy) in [(-1i64, 0i64), (1, 0), (0, -1), (0, 1)] {
                let nx = x as i64 + dx;
                let ny = y as i64 + dy;
                if nx >= 0 && ny >= 0 && (nx as usize) < dim && (ny as usize) < dim {
                    match cell(post, nx as usize, ny as usize) {
                        Cell::Tent => orth_tents += 1,
                        Cell::Tree => orth_trees += 1,
                        _ => {}
                    }
                }
            }
            for dx in -1i64..=1 {
                for dy in -1i64..=1 {
                    if dx == 0 && dy == 0 {
                        continue;
                    }
                    let nx = x as i64 + dx;
                    let ny = y as i64 + dy;
                    if nx >= 0 && ny >= 0 && (nx as usize) < dim && (ny as usize) < dim {
                        if cell(post, nx as usize, ny as usize) == Cell::Tent {
                            king_tents += 1;
                        }
                    }
                }
            }
            if c == Cell::Tree {
                assert!(orth_tents >= 1, "tree at ({}, {}) must have a tent", x, y);
            }
            if c == Cell::Tent {
                assert!(orth_trees >= 1, "tent at ({}, {}) must have a tree", x, y);
                assert_eq!(king_tents, 0, "tent at ({}, {}) touches another tent", x, y);
            }
        }
    }
    for y in 0..dim {
        let placed = (0..dim).filter(|&x| cell(post, x, y) == Cell::Tent).count();
        assert_eq!(placed, pre.row_tents[y] as usize, "row {} count", y);
        assert_eq!(post.row_tents[y], 0);
    }
    for x in 0..dim {
        let placed = (0..dim).filter(|&y| cell(post, x, y) == Cell::Tent).count();
        assert_eq!(placed, pre.col_tents[x] as usize, "column {} count", x);
        assert_eq!(post.col_tents[x], 0);
    }
    assert!(
        has_perfect_pairing(post),
        "tents and trees admit no one-to-one pairing"
    );
}

/// Whether the tents and trees of a finished board can be paired one to
/// one, each pair orthogonally adjacent, by augmenting-path matching.
fn has_perfect_pairing(post: &State) -> bool {
    let dim = post.dim;
    let mut trees = Vec::new();
    let mut tents = Vec::new();
    for y in 0..dim {
        for x in 0..dim {
            match cell(post, x, y) {
                Cell::Tree => trees.push((x, y)),
                Cell::Tent => tents.push((x, y)),
                _ => {}
            }
        }
    }
    let mut matched: Vec<Option<usize>> = vec![None; tents.len()];
    trees.len() == tents.len()
        && (0..trees.len()).all(|tree| {
            let mut seen = vec![false; tents.len()];
            augment(tree, &trees, &tents, &mut matched, &mut seen)
        })
}

/// One augmenting step of the matching: tries to give `tree` a tent,
/// displacing earlier assignments where that frees one up.
fn augment(
    tree: usize,
    trees: &[(usize, usize)],
    tents: &[(usize, usize)],
    matched: &mut Vec<Option<usize>>,
    seen: &mut Vec<bool>,
) -> bool {
    for t in 0..tents.len() {
        let dx = (trees[tree].0 as i64 - tents[t].0 as i64).abs();
        let dy = (trees[tree].1 as i64 - tents[t].1 as i64).abs();
        if dx + dy == 1 && !seen[t] {
            seen[t] = true;
            if matched[t].is_none() || augment(matched[t].unwrap(), trees, tents, matched, seen) {
                matched[t] = Some(tree);
                return true;
            }
        }
    }
    false
}

const PUZZLE: &str =
    " 1202031\n1       \n2  T  T \n1T      \n2T   T T\n1 T    T\n1       \n1    T  ";

#[test]
fn solves_the_seven_grid() {
    let pre = parse(PUZZLE);
    let post = parse(PUZZLE).solve().expect("the puzzle has a solution");
    assert_valid_solution(&pre, &post);
}

#[test]
fn solving_is_deterministic() {
    let a = parse(PUZZLE).solve().expect("solvable");
    let b = parse(PUZZLE).solve().expect("solvable");
    assert_eq!(a.cells, b.cells);
    assert_eq!(a.row_tents, b.row_tents);
    assert_eq!(a.col_tents, b.col_tents);
}

#[test]
fn solves_a_two_by_two() {
    let post = parse(" 01\n1T \n0  ").solve().expect("solvable");
    assert_eq!(post.cells, vec![Cell::Tree, Cell::Tent, Cell::Grass, Cell::Grass]);
    assert_eq!(post.row_tents, vec![0, 0]);
    assert_eq!(post.col_tents, vec![0, 0]);
}

#[test]
fn solves_the_empty_grid() {
    let post = parse(" ").solve().expect("trivially solvable");
    assert_eq!(post.dim, 0);
    assert!(post.cells.is_empty());
}

#[test]
fn returns_an_already_solved_board_unchanged() {
    let post = parse(" 00\n0TX\n0..").solve().expect("already solved");
    assert_eq!(post.cells, vec![Cell::Tree, Cell::Tent, Cell::Grass, Cell::Grass]);
    assert_eq!(post.row_tents, vec![0, 0]);
    assert_eq!(post.col_tents, vec![0, 0]);
}

#[test]
fn reports_unsolvable_when_row_counts_are_short() {
    // one tree but the row counts sum to zero
    assert!(parse(" 1\n0T").solve().is_err());
}

#[test]
fn reports_unsolvable_when_sums_disagree() {
    // row counts sum to one, column counts to zero: no board can satisfy both
    assert!(parse(" 00\n1T \n0  ").solve().is_err());
}

#[test]
fn reports_unsolvable_for_crowded_tents() {
    // two trees in a corner cannot get two separated tents in two rows
    assert!(parse(" 20\n1TT\n1  ").solve().is_err());
}

#[test]
fn apply_solves_a_prepared_board() {
    let mut pre = parse(" 01\n1T \n0  ");
    let snapshot = parse(" 01\n1T \n0  ");
    pre.fill_green();
    let post = Backtrack::apply(pre).expect("solvable");
    assert_valid_solution(&snapshot, &post);
}

#[test]
fn is_solved_accepts_a_finished_board() {
    let st = State {
        dim: 2,
        cells: vec![Cell::Tree, Cell::Tent, Cell::Grass, Cell::Grass],
        col_tents: vec![0, 0],
        row_tents: vec![0, 0],
    };
    assert!(st.is_solved());
}

#[test]
fn is_solved_rejects_an_undecided_cell() {
    let st = State {
        dim: 2,
        cells: vec![Cell::Tree, Cell::Tent, Cell::Grass, Cell::Empty],
        col_tents: vec![0, 0],
        row_tents: vec![0, 0],
    };
    assert!(!st.is_solved());
}

#[test]
fn is_solved_rejects_leftover_counts() {
    let st = State {
        dim: 2,
        cells: vec![Cell::Tree, Cell::Tent, Cell::Grass, Cell::Grass],
        col_tents: vec![0, 0],
        row_tents: vec![1, 0],
    };
    assert!(!st.is_solved());
}

#[test]
fn is_solved_rejects_touching_tents() {
    let st = State {
        dim: 3,
        cells: vec![
            Cell::Tree,
            Cell::Tent,
            Cell::Tent,
            Cell::Grass,
            Cell::Grass,
            Cell::Tree,
            Cell::Grass,
            Cell::Grass,
            Cell::Grass,
        ],
        col_tents: vec![0, 0, 0],
        row_tents: vec![0, 0, 0],
    };
    assert!(!st.is_solved());
}

#[test]
fn is_solved_rejects_a_tent_without_a_tree() {
    let st = State {
        dim: 2,
        cells: vec![Cell::Grass, Cell::Tent, Cell::Grass, Cell::Grass],
        col_tents: vec![0, 0],
        row_tents: vec![0, 0],
    };
    assert!(!st.is_solved());
}

#[test]
fn parse_rejects_unknown_cells() {
    assert_eq!(
        State::parse(&b" 01\n1T?\n0  ".to_vec()).unwrap_err(),
        ParseError::BadCell
    );
}
