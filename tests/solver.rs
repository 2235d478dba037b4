use sudoku::grid::{Grid, ParseError};
use sudoku::search::{NoSolution, Search, Step};

const PUZZLE: &str =
    "530070000600195000098000060800060003400803001700020006060000280000419005000080079";
const SOLUTION: &str =
    "534678912672195348198342567859761423426853791713924856961537284287419635345286179";
const EMPTY_BOARD_SOLUTION: &str =
    "123456789456789123789123456214365897365897214897214365531642978642978531978531642";

fn grid(s: &str) -> Grid {
    Grid::parse(s).expect("a valid board")
}

fn cells(s: &str) -> Vec<u8> {
    s.chars().map(|c| c.to_digit(10).unwrap() as u8).collect()
}

fn box_of(p: usize) -> usize {
    (p % 9) / 3 + 3 * ((p / 9) / 3)
}

/// Every row, column and box holds each of 1..=9 once.
fn is_solved(g: &Grid) -> bool {
    let v = g.to_cells();
    let mut groups: Vec<Vec<u8>> = vec![Vec::new(); 27];
    for p in 0..81 {
        groups[p / 9].push(v[p]);
        groups[9 + p % 9].push(v[p]);
        groups[18 + box_of(p)].push(v[p]);
    }
    groups.iter().all(|g| {
        let mut s = g.clone();
        s.sort();
        s == vec![1, 2, 3, 4, 5, 6, 7, 8, 9]
    })
}

#[test]
fn parse_reads_digits_and_skips_whitespace() {
    let mut text = String::new();
    for (i, c) in PUZZLE.chars().enumerate() {
        text.push(c);
        text.push(if i % 3 == 0 { '\t' } else if i % 3 == 1 { '\n' } else { '\u{3000}' });
    }
    let g = grid(&text);
    assert_eq!(g.to_cells(), cells(PUZZLE));
    assert_eq!(g.get(0), 5);
    assert_eq!(g.get(2), 0);
    assert_eq!(g.get(80), 9);
}

#[test]
fn parse_rejects_too_few_digits() {
    assert_eq!(Grid::parse(&PUZZLE[..80]), Err(ParseError::WrongCount(80)));
    assert_eq!(Grid::parse(""), Err(ParseError::WrongCount(0)));
    assert_eq!(Grid::parse("  \n\t "), Err(ParseError::WrongCount(0)));
}

#[test]
fn parse_rejects_too_many_digits() {
    let text = format!("{}7", PUZZLE);
    assert_eq!(Grid::parse(&text), Err(ParseError::WrongCount(82)));
    let text = format!("{}{}", PUZZLE, PUZZLE);
    assert_eq!(Grid::parse(&text), Err(ParseError::WrongCount(162)));
}

#[test]
fn parse_rejects_a_letter() {
    let text = format!("{}x{}", &PUZZLE[..40], &PUZZLE[40..80]);
    assert_eq!(Grid::parse(&text), Err(ParseError::InvalidChar('x')));
    // the first offending character is reported, even past 81 digits
    let text = format!("{}{}a", PUZZLE, PUZZLE);
    assert_eq!(Grid::parse(&text), Err(ParseError::InvalidChar('a')));
    let text = format!("{}-{}", &PUZZLE[..10], &PUZZLE[10..]);
    assert_eq!(Grid::parse(&text), Err(ParseError::InvalidChar('-')));
}

#[test]
fn render_writes_nine_lines() {
    let g = grid(PUZZLE);
    let text = g.to_string();
    let lines: Vec<&str> = text.split('\n').collect();
    assert_eq!(lines.len(), 10);
    assert_eq!(lines[0], "5 3 0 0 7 0 0 0 0 ");
    assert_eq!(lines[4], "4 0 0 8 0 3 0 0 1 ");
    assert_eq!(lines[8], "0 0 0 0 8 0 0 7 9 ");
    assert_eq!(lines[9], "");
    assert_eq!(text.len(), 9 * 19);
}

#[test]
fn render_then_parse_round_trips() {
    for s in [PUZZLE, SOLUTION, EMPTY_BOARD_SOLUTION] {
        let g = grid(s);
        let text = g.to_string();
        assert_eq!(Grid::parse(&text), Ok(g.clone()));
        let collapsed: String = text.chars().filter(|c| !c.is_whitespace()).collect();
        assert_eq!(collapsed, s);
        assert_eq!(Grid::parse(&collapsed), Ok(g));
    }
}

#[test]
fn from_cells_checks_length_and_range() {
    assert!(Grid::from_cells(cells(PUZZLE)).is_some());
    assert!(Grid::from_cells(vec![0; 80]).is_none());
    assert!(Grid::from_cells(vec![0; 82]).is_none());
    let mut v = cells(PUZZLE);
    v[17] = 10;
    assert!(Grid::from_cells(v).is_none());
}

#[test]
fn set_writes_one_cell() {
    let mut g = grid(PUZZLE);
    g.set(2, 4);
    let mut expected = cells(PUZZLE);
    expected[2] = 4;
    assert_eq!(g.to_cells(), expected);
}

#[test]
fn blanks_are_listed_in_ascending_order() {
    let g = grid(PUZZLE);
    let b = g.guess_idxs();
    assert_eq!(&b[..6], &[2, 3, 5, 6, 7, 8]);
    assert_eq!(b.len(), 81 - 30);
    assert_eq!(*b.last().unwrap(), 78);
    assert!(grid(SOLUTION).guess_idxs().is_empty());
    assert_eq!(Grid::from_cells(vec![0; 81]).unwrap().guess_idxs(), (0..81).collect::<Vec<usize>>());
}

#[test]
fn trivial_puzzle_is_returned_unchanged() {
    let g = grid(SOLUTION);
    let mut s = Search::new(g.clone());
    assert_eq!(s.state(), Step::Solved);
    assert_eq!(s.step(), Step::Solved);
    assert_eq!(s.grid(), &g);
    assert_eq!(g.clone().solve(), Ok(g));
}

#[test]
fn minimal_puzzle_finds_the_missing_digit() {
    let mut v = cells(SOLUTION);
    v[40] = 0;
    let g = Grid::from_cells(v).unwrap();
    let solved = g.solve().unwrap();
    assert_eq!(solved.get(40), 5);
    assert_eq!(solved, grid(SOLUTION));
}

#[test]
fn unsolvable_puzzle_is_exhausted() {
    // the first blank needs a 1, which its column already holds
    let mut v = vec![0u8; 81];
    for d in 2..=9u8 {
        v[(d - 1) as usize] = d;
    }
    v[9] = 1;
    let g = Grid::from_cells(v.clone()).unwrap();
    assert_eq!(g.clone().solve(), Err(NoSolution));
    let mut s = Search::new(g);
    let mut steps = 0;
    let last = loop {
        let r = s.step();
        steps += 1;
        if r != Step::Running {
            break r;
        }
    };
    assert_eq!(last, Step::Exhausted);
    assert_eq!(steps, 10);
    assert_eq!(s.grid().to_cells(), v);
    assert_eq!(s.step(), Step::Exhausted);
}

#[test]
fn duplicate_in_a_row_is_unsolvable() {
    // row 0 repeats a 1; its blank needs an 8 or a 9, which its column holds
    let mut v = vec![0u8; 81];
    for (p, d) in [1u8, 1, 2, 3, 4, 5, 6, 7].iter().enumerate() {
        v[p + 1] = *d;
    }
    v[27] = 8;
    v[36] = 9;
    let g = Grid::from_cells(v).unwrap();
    assert_eq!(g.solve(), Err(NoSolution));
}

#[test]
fn clashing_givens_are_not_checked() {
    // only placed digits are checked: two given 4s in row 0 stay as they are
    let mut v = cells(SOLUTION);
    v[0] = 0;
    v[1] = 0;
    v[3] = 4;
    v[4] = 0;
    let g = Grid::from_cells(v).unwrap();
    let solved = g.solve().unwrap().to_cells();
    assert_eq!(&solved[..9], &[5, 3, 4, 4, 7, 8, 9, 1, 2]);
}

#[test]
fn canonical_puzzle_gives_known_solution() {
    let solved = grid(PUZZLE).solve().unwrap();
    assert_eq!(solved, grid(SOLUTION));
    assert_eq!(solved.to_cells(), cells(SOLUTION));
}

#[test]
fn solved_grid_is_valid() {
    let solved = grid(PUZZLE).solve().unwrap();
    assert!(is_solved(&solved));
    let solved = Grid::from_cells(vec![0; 81]).unwrap().solve().unwrap();
    assert!(is_solved(&solved));
}

#[test]
fn given_cells_are_kept() {
    let input = cells(PUZZLE);
    let solved = grid(PUZZLE).solve().unwrap().to_cells();
    for p in 0..81 {
        if input[p] != 0 {
            assert_eq!(solved[p], input[p]);
        } else {
            assert!((1..=9).contains(&solved[p]));
        }
    }
}

#[test]
fn solving_twice_gives_the_same_board() {
    let a = grid(PUZZLE).solve().unwrap();
    let b = grid(PUZZLE).solve().unwrap();
    assert_eq!(a, b);
    let e1 = Grid::from_cells(vec![0; 81]).unwrap().solve().unwrap();
    let e2 = Grid::from_cells(vec![0; 81]).unwrap().solve().unwrap();
    assert_eq!(e1, e2);
}

#[test]
fn empty_board_gives_least_solution() {
    let solved = Grid::from_cells(vec![0; 81]).unwrap().solve().unwrap();
    assert_eq!(solved, grid(EMPTY_BOARD_SOLUTION));
}

#[test]
fn first_steps_follow_the_trial_order() {
    let mut s = Search::new(grid(PUZZLE));
    assert_eq!(s.state(), Step::Running);
    // position 2 takes 1, which fits
    assert_eq!(s.step(), Step::Running);
    assert_eq!(s.grid().get(2), 1);
    // position 3 takes 1, which clashes with the 1 just placed
    assert_eq!(s.step(), Step::Running);
    assert_eq!(s.grid().get(3), 1);
    // then 2, which fits
    assert_eq!(s.step(), Step::Running);
    assert_eq!(s.grid().get(3), 2);
    let done = loop {
        let r = s.step();
        if r != Step::Running {
            break r;
        }
    };
    assert_eq!(done, Step::Solved);
    assert_eq!(s.into_grid(), grid(SOLUTION));
}
