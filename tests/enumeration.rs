use polyomino::growth::{
    enum_polyomino, enumerate, extract, group_by_size, neighbor, next_step, tile, Cell, EnumError, Node,
};
use polyomino::connectivity::connected;
use polyomino::shape::{Mino, P};

fn sorted_points(m: &Mino) -> Vec<(usize, usize)> {
    let mut v: Vec<(usize, usize)> = m.ps.iter().map(|p| (p.x, p.y)).collect();
    v.sort();
    v
}

fn check_normalized(m: &Mino) {
    assert!(!m.ps.is_empty());
    assert_eq!(m.ps.iter().map(|p| p.x).min().unwrap(), 0);
    assert_eq!(m.ps.iter().map(|p| p.y).min().unwrap(), 0);
    assert_eq!(m.ps.iter().map(|p| p.x).max().unwrap() + 1, m.width);
    assert_eq!(m.ps.iter().map(|p| p.y).max().unwrap() + 1, m.height);
}

#[test]
fn enumerate_one_gives_single_point() {
    let xs = enum_polyomino(1);
    assert_eq!(xs.len(), 1);
    assert_eq!(sorted_points(&xs[0]), vec![(0, 0)]);
    assert_eq!(xs[0].width, 1);
    assert_eq!(xs[0].height, 1);
}

#[test]
fn enumerate_counts_fixed_polyominoes() {
    let xs = enum_polyomino(5);
    let grps = group_by_size(&xs, 5);
    let counts: Vec<usize> = grps.iter().map(|g| g.len()).collect();
    assert_eq!(counts, vec![0, 1, 2, 6, 19, 63]);
    assert_eq!(xs.len(), 91);
}

#[test]
fn enumerate_counts_hold_for_each_bound() {
    let expected = [1usize, 2, 6, 19, 63];
    for n in 1..=5usize {
        let grps = group_by_size(&enum_polyomino(n), n);
        for s in 1..=n {
            assert_eq!(grps[s].len(), expected[s - 1]);
        }
    }
}

#[test]
fn enumerate_has_no_repeated_shape() {
    let xs = enum_polyomino(5);
    let grps = group_by_size(&xs, 5);
    for g in &grps {
        let mut keys: Vec<Vec<(usize, usize)>> = g.iter().map(sorted_points).collect();
        let before = keys.len();
        keys.sort();
        keys.dedup();
        assert_eq!(keys.len(), before);
    }
}

#[test]
fn enumerated_shapes_are_connected_and_normalized() {
    for m in &enum_polyomino(5) {
        assert!(connected(m));
        check_normalized(m);
    }
}

#[test]
fn enumerate_is_deterministic() {
    let mut a: Vec<Vec<(usize, usize)>> = enum_polyomino(4).iter().map(sorted_points).collect();
    let mut b: Vec<Vec<(usize, usize)>> = enum_polyomino(4).iter().map(sorted_points).collect();
    a.sort();
    b.sort();
    assert_eq!(a, b);
}

#[test]
fn enumerate_refuses_zero() {
    assert!(matches!(enumerate(0), Err(EnumError::InvalidArgument)));
    assert_eq!(enumerate(3).unwrap().len(), 9);
}

#[test]
fn group_by_size_sorts_by_point_count() {
    let xs = enum_polyomino(3);
    let grps = group_by_size(&xs, 3);
    assert_eq!(grps.len(), 4);
    for (s, g) in grps.iter().enumerate() {
        for m in g {
            assert_eq!(m.ps.len(), s);
        }
    }
    assert_eq!(grps[3].len(), 6);
}

#[test]
fn extract_translates_committed_cells() {
    let node = Node {
        cells: vec![
            Cell { x: 0, y: 0, num: 1, is_border: true },
            Cell { x: -1, y: 1, num: 2, is_border: true },
            Cell { x: 0, y: 1, num: 3, is_border: true },
            Cell { x: 1, y: 0, num: 4, is_border: false },
        ],
        nums: vec![4],
    };
    let m = extract(&node);
    assert_eq!(sorted_points(&m), vec![(0, 1), (1, 0), (1, 1)]);
    assert_eq!(m.width, 2);
    assert_eq!(m.height, 2);
}

#[test]
fn extract_takes_any_committed_cells() {
    let node = Node {
        cells: vec![
            Cell { x: -1, y: 1, num: 4, is_border: true },
            Cell { x: 0, y: 0, num: 1, is_border: true },
            Cell { x: 0, y: 1, num: 3, is_border: true },
            Cell { x: 1, y: 0, num: 2, is_border: false },
        ],
        nums: vec![],
    };
    let m = extract(&node);
    assert_eq!(sorted_points(&m), vec![(0, 1), (1, 0), (1, 1)]);
    assert_eq!((m.width, m.height), (2, 2));
}

#[test]
fn extract_single_cell_away_from_origin() {
    let node = Node { cells: vec![Cell { x: -2, y: 1, num: 1, is_border: true }], nums: vec![] };
    let m = extract(&node);
    assert_eq!(sorted_points(&m), vec![(0, 0)]);
    assert_eq!((m.width, m.height), (1, 1));
}

#[test]
fn extract_of_normalized_shape_is_itself() {
    let cells = vec![
        Cell { x: 1, y: 0, num: 1, is_border: true },
        Cell { x: 0, y: 1, num: 2, is_border: true },
        Cell { x: 1, y: 1, num: 3, is_border: true },
    ];
    let m = extract(&Node { cells: cells.clone(), nums: vec![] });
    assert_eq!(sorted_points(&m), vec![(0, 1), (1, 0), (1, 1)]);
    assert_eq!((m.width, m.height), (2, 2));
    let moved: Vec<Cell> = cells.iter().map(|c| Cell { x: c.x - 5, y: c.y + 3, ..*c }).collect();
    let mut with_pending = moved.clone();
    with_pending.push(Cell { x: -20, y: 40, num: 4, is_border: false });
    let m2 = extract(&Node { cells: with_pending, nums: vec![4] });
    assert_eq!(sorted_points(&m2), sorted_points(&m));
    assert_eq!((m2.width, m2.height), (m.width, m.height));
}

#[test]
fn neighbor_commits_and_discovers_in_reading_order() {
    let mut node = Node {
        cells: vec![Cell { x: 0, y: 0, num: 1, is_border: false }],
        nums: vec![],
    };
    neighbor(&mut node, 1);
    assert!(node.cells[0].is_border);
    let found: Vec<(i32, i32, usize, bool)> = node.cells.iter().map(|c| (c.x, c.y, c.num, c.is_border)).collect();
    assert_eq!(found, vec![(0, 0, 1, true), (1, 0, 2, false), (0, 1, 3, false)]);
    assert_eq!(node.nums, vec![2, 3]);
}

#[test]
fn neighbor_skips_known_cells() {
    let mut node = Node {
        cells: vec![
            Cell { x: 0, y: 0, num: 1, is_border: true },
            Cell { x: 1, y: 0, num: 2, is_border: false },
            Cell { x: 0, y: 1, num: 3, is_border: false },
        ],
        nums: vec![2],
    };
    neighbor(&mut node, 3);
    let found: Vec<(i32, i32, usize)> = node.cells.iter().map(|c| (c.x, c.y, c.num)).collect();
    assert_eq!(found, vec![(0, 0, 1), (1, 0, 2), (0, 1, 3), (-1, 1, 4), (1, 1, 5), (0, 2, 6)]);
    assert!(node.cells[2].is_border);
    assert!(!node.cells[1].is_border);
    assert_eq!(node.nums, vec![2, 4, 5, 6]);
}

#[test]
fn next_step_grows_then_backtracks() {
    let mut stack = vec![Node {
        cells: vec![Cell { x: 0, y: 0, num: 1, is_border: false }],
        nums: vec![1],
    }];
    let mut res: Vec<Mino> = Vec::new();
    next_step(1, &mut stack, &mut res);
    assert_eq!(stack.len(), 2);
    assert_eq!(res.len(), 1);
    assert_eq!(sorted_points(&res[0]), vec![(0, 0)]);
    next_step(1, &mut stack, &mut res);
    assert_eq!(stack.len(), 1);
    next_step(1, &mut stack, &mut res);
    assert_eq!(stack.len(), 0);
    assert_eq!(res.len(), 1);
}

#[test]
fn tile_accepts_a_board() {
    tile(vec![true, false], vec![vec![vec![1u32, 2]]]);
}

#[test]
fn mino_points_compare_by_value() {
    let a = P { x: 1, y: 2 };
    let b = P { x: 1, y: 2 };
    assert_eq!(a, b);
    assert!(P { x: 0, y: 5 } < P { x: 1, y: 0 });
}

#[test]
fn mino_size_counts_points() {
    let xs = enum_polyomino(3);
    assert_eq!(xs[0].size(), 1);
    assert!(xs.iter().all(|m| m.size() >= 1 && m.size() <= 3));
    assert_eq!(xs.iter().filter(|m| m.size() == 2).count(), 2);
}

#[test]
fn enumerate_one_through_checked_entry() {
    let xs = enumerate(1).unwrap();
    assert_eq!(xs.len(), 1);
    assert_eq!(sorted_points(&xs[0]), vec![(0, 0)]);
    assert!(matches!(enumerate(polyomino::growth::MAX_N + 1), Err(EnumError::InvalidArgument)));
}
