use life::board::{MAX_X, MAX_Y, MIN_X, MIN_Y};
use life::{compute_next, get_nbors, in_bounds, parse_coords, parse_line, Cell};

fn sorted(mut cells: Vec<Cell>) -> Vec<Cell> {
    cells.sort();
    cells
}

#[test]
fn test_coords_in_bounds() {
    let some_squares: Vec<(i32, i32)> = vec![(21, 21), (22, 21), (23, 21), (23, 22), (22, 23)];
    for pos in some_squares.iter() {
        assert!(in_bounds(pos.0, pos.1))
    }
}

#[test]
fn test_coords_not_in_bounds() {
    // (0, 400) lies well inside the 1000 x 1000 boundary; (0, 1000) is the
    // first cell past its exclusive edge.
    let some_squares: Vec<(i32, i32)> = vec![(0, 1000)];
    for pos in some_squares.iter() {
        assert!(!in_bounds(pos.0, pos.1))
    }
}

#[test]
fn test_nbors() {
    let some_squares: Vec<(i32, i32)> = vec![(21, 21)];
    let mut expected_squares: Vec<(i32, i32)> = vec![
        (21, 20),
        (21, 22),
        (20, 21),
        (22, 21),
        (20, 20),
        (22, 20),
        (20, 22),
        (22, 22),
    ];
    let mut calculcated_nbors: Vec<(i32, i32)> = Vec::with_capacity(8);
    expected_squares.sort();

    for _ in some_squares.iter() {
        let nbors = get_nbors(21, 21);
        calculcated_nbors.extend(nbors)
    }
    calculcated_nbors.sort();
    assert_eq!(calculcated_nbors, expected_squares);
}

#[test]
fn boundary_corners() {
    assert_eq!((MIN_X, MIN_Y, MAX_X, MAX_Y), (0, 0, 1000, 1000));
    assert!(in_bounds(0, 0));
    assert!(in_bounds(999, 999));
    assert!(in_bounds(0, 999));
    assert!(in_bounds(999, 0));
    assert!(in_bounds(0, 400));
    assert!(in_bounds(500, 0));
    assert!(!in_bounds(1000, 0));
    assert!(!in_bounds(0, 1000));
    assert!(!in_bounds(-1, 5));
    assert!(!in_bounds(5, -1));
    assert!(!in_bounds(i32::MIN, i32::MAX));
}

#[test]
fn in_bounds_same_answer_twice() {
    for &(x, y) in [(5, 5), (-3, 7), (1000, 999), (999, 0)].iter() {
        assert_eq!(in_bounds(x, y), in_bounds(x, y));
    }
}

#[test]
fn nbors_fixed_order() {
    assert_eq!(
        get_nbors(5, -7),
        vec![(4, -8), (4, -7), (4, -6), (5, -8), (5, -6), (6, -8), (6, -7), (6, -6)]
    );
}

#[test]
fn nbors_eight_distinct_and_not_self() {
    for &(x, y) in [(0, 0), (i32::MAX, i32::MIN), (i32::MIN, i32::MAX), (-4, 9)].iter() {
        let n = get_nbors(x, y);
        assert_eq!(n.len(), 8);
        assert!(!n.contains(&(x, y)));
        let mut s = n.clone();
        s.sort();
        s.dedup();
        assert_eq!(s.len(), 8);
    }
}

#[test]
fn nbors_wrap_at_the_ends() {
    let n = get_nbors(i32::MAX, i32::MIN);
    assert_eq!(n[0], (i32::MAX - 1, i32::MAX));
    assert_eq!(n[7], (i32::MIN, i32::MIN + 1));
}

#[test]
fn lone_cell_dies() {
    assert!(compute_next(&vec![(10, 10)]).is_empty());
    assert!(compute_next(&vec![(i32::MAX, i32::MIN)]).is_empty());
}

#[test]
fn block_stays_still() {
    let block: Vec<Cell> = vec![(10, 10), (10, 11), (11, 10), (11, 11)];
    assert_eq!(sorted(compute_next(&block)), sorted(block.clone()));
}

#[test]
fn blinker_oscillates() {
    let horizontal: Vec<Cell> = vec![(10, 9), (10, 10), (10, 11)];
    let vertical = compute_next(&horizontal);
    assert_eq!(sorted(vertical.clone()), vec![(9, 10), (10, 10), (11, 10)]);
    let back = compute_next(&vertical);
    assert_eq!(sorted(back), sorted(horizontal));
}

#[test]
fn input_left_unchanged() {
    let cells: Vec<Cell> = vec![(10, 9), (10, 10), (10, 11), (3, 3)];
    let copy = cells.clone();
    let _ = compute_next(&cells);
    assert_eq!(cells, copy);
}

#[test]
fn empty_stays_empty() {
    assert!(compute_next(&Vec::new()).is_empty());
}

#[test]
fn birth_survival_and_crowding() {
    // An L of three cells becomes a block: one birth, three survivors.
    let l_shape: Vec<Cell> = vec![(0, 0), (0, 1), (1, 0)];
    assert_eq!(sorted(compute_next(&l_shape)), vec![(0, 0), (0, 1), (1, 0), (1, 1)]);
    // A plus sign: the centre has four neighbors and dies of crowding.
    let plus: Vec<Cell> = vec![(5, 5), (4, 5), (6, 5), (5, 4), (5, 6)];
    let next = compute_next(&plus);
    assert!(!next.contains(&(5, 5)));
    assert!(next.contains(&(4, 4)));
    assert!(next.contains(&(4, 5)));
    let mut d = next.clone();
    d.sort();
    d.dedup();
    assert_eq!(d.len(), next.len());
}

#[test]
fn cells_may_leave_the_boundary() {
    let horizontal: Vec<Cell> = vec![(0, -1), (0, 0), (0, 1)];
    assert_eq!(sorted(compute_next(&horizontal)), vec![(-1, 0), (0, 0), (1, 0)]);
}

#[test]
fn parse_plain_and_spaced_lines() {
    assert_eq!(parse_line(b"21,22"), Some((21, 22)));
    assert_eq!(parse_line(b"  -3 ,\t+17  "), Some((-3, 17)));
    assert_eq!(parse_line(b"0,0\r"), Some((0, 0)));
}

#[test]
fn parse_extreme_values() {
    assert_eq!(parse_line(b"2147483647,-2147483648"), Some((i32::MAX, i32::MIN)));
    assert_eq!(parse_line(b"2147483648,0"), None);
    assert_eq!(parse_line(b"0,-2147483649"), None);
    assert_eq!(parse_line(b"99999999999999999999,1"), None);
    assert_eq!(parse_line(b"007,-0"), Some((7, 0)));
}

#[test]
fn parse_malformed_lines() {
    assert_eq!(parse_line(b""), None);
    assert_eq!(parse_line(b"   "), None);
    assert_eq!(parse_line(b"12"), None);
    assert_eq!(parse_line(b"1,2,3"), None);
    assert_eq!(parse_line(b",5"), None);
    assert_eq!(parse_line(b"5,"), None);
    assert_eq!(parse_line(b"1 2,3"), None);
    assert_eq!(parse_line(b"x,3"), None);
    assert_eq!(parse_line(b"-,3"), None);
    assert_eq!(parse_line(b"+-1,3"), None);
}

#[test]
fn parse_unicode_whitespace() {
    assert_eq!(parse_line("1,\u{a0}2".as_bytes()), Some((1, 2)));
    assert_eq!(parse_line("\u{3000}-4\u{85} ,\u{2009}5\u{1680}".as_bytes()), Some((-4, 5)));
    assert_eq!(parse_line("\u{205f}\u{202f}7,8\u{2028}\u{2029}".as_bytes()), Some((7, 8)));
    // Not whitespace: a zero-width space and a letter with a two-byte encoding.
    assert_eq!(parse_line("\u{200b}1,2".as_bytes()), None);
    assert_eq!(parse_line("1,2\u{e9}".as_bytes()), None);
    // Whitespace inside a number still splits it.
    assert_eq!(parse_line("1\u{a0}0,2".as_bytes()), None);
}

#[test]
fn parse_coords_lines_in_order() {
    assert_eq!(parse_coords(b"1,2\n\n3,4\r\n"), Ok(vec![(1, 2), (3, 4)]));
    assert_eq!(parse_coords(b"10,9\n10,10\n10,11"), Ok(vec![(10, 9), (10, 10), (10, 11)]));
    assert_eq!(parse_coords(b" -5 , 6 \n\r\n"), Ok(vec![(-5, 6)]));
}

#[test]
fn parse_coords_empty_text() {
    assert_eq!(parse_coords(b""), Ok(vec![]));
    assert_eq!(parse_coords(b"\n\n\r\n"), Ok(vec![]));
}

#[test]
fn parse_coords_names_first_bad_line() {
    assert_eq!(parse_coords(b"1,2\nbad\n3,4"), Err(2));
    assert_eq!(parse_coords(b"\n\n x ,1\n7"), Err(3));
    assert_eq!(parse_coords(b"1,2\n3,4\n5"), Err(3));
    assert_eq!(parse_coords(b"1,2\n   \n"), Err(2));
    assert_eq!(parse_coords(b"1,2\n\r"), Err(2));
}
