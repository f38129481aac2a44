use polyomino::combine;
use polyomino::combine::{combine_all, duplicate};
use polyomino::connectivity::{connected, dfs};
use polyomino::dedup::{canonical_key, Seen};
use polyomino::growth::{enum_polyomino, group_by_size};
use polyomino::shape::{Mino, P};

fn sorted_points(m: &Mino) -> Vec<(usize, usize)> {
    let mut v: Vec<(usize, usize)> = m.ps.iter().map(|p| (p.x, p.y)).collect();
    v.sort();
    v
}

fn mino(points: &[(usize, usize)]) -> Mino {
    let ps: Vec<P> = points.iter().map(|&(x, y)| P { x, y }).collect();
    let width = points.iter().map(|p| p.0).max().unwrap() + 1;
    let height = points.iter().map(|p| p.1).max().unwrap() + 1;
    Mino { ps, width, height }
}

fn shape_keys(v: &[Mino]) -> Vec<Vec<(usize, usize)>> {
    let mut keys: Vec<Vec<(usize, usize)>> = v.iter().map(sorted_points).collect();
    keys.sort();
    keys
}

#[test]
fn combine_single_points_gives_dominoes() {
    let grps = group_by_size(&enum_polyomino(1), 1);
    let res = combine_all(&grps[1], 1);
    assert_eq!(shape_keys(&res), vec![vec![(0, 0), (0, 1)], vec![(0, 0), (1, 0)]]);
    for m in &res {
        assert_eq!(m.ps.len(), 2);
        assert!(connected(m));
    }
}

#[test]
fn combine_dominoes_gives_splittable_tetrominoes() {
    let grps = group_by_size(&enum_polyomino(2), 2);
    let res = combine_all(&grps[2], 2);
    assert_eq!(res.len(), 15);
    let keys = shape_keys(&res);
    assert!(!keys.contains(&vec![(0, 0), (1, 0), (1, 1), (2, 0)]));
    assert!(keys.contains(&vec![(0, 0), (0, 1), (1, 0), (1, 1)]));
}

#[test]
fn combine_keeps_doubled_connected_distinct_shapes() {
    let grps = group_by_size(&enum_polyomino(3), 3);
    let res = combine_all(&grps[3], 3);
    assert!(!res.is_empty());
    for m in &res {
        assert_eq!(m.ps.len(), 6);
        assert!(connected(m));
        assert_eq!(m.ps.iter().map(|p| p.x).min().unwrap(), 0);
        assert_eq!(m.ps.iter().map(|p| p.y).min().unwrap(), 0);
    }
    let keys = shape_keys(&res);
    let mut unique = keys.clone();
    unique.dedup();
    assert_eq!(unique.len(), keys.len());
}

#[test]
fn combine_empty_group_keeps_nothing() {
    assert!(combine_all(&Vec::new(), 1).is_empty());
}

#[test]
fn concat_with_itself_at_origin_is_identity() {
    for m in &enum_polyomino(4) {
        let r = combine::concat(0, 0, m, m);
        assert_eq!(sorted_points(&r), sorted_points(m));
        assert_eq!((r.width, r.height), (m.width, m.height));
    }
}

#[test]
fn combine_is_deterministic() {
    let grps = group_by_size(&enum_polyomino(2), 2);
    let a = combine_all(&grps[2], 2);
    let b = combine_all(&grps[2], 2);
    assert_eq!(shape_keys(&a), shape_keys(&b));
}

#[test]
fn duplicate_combines_each_class() {
    let grps = group_by_size(&enum_polyomino(3), 3);
    let res = duplicate(&grps);
    assert_eq!(res.len(), 4);
    assert_eq!(res[0].len(), 0);
    assert_eq!(res[1].len(), 2);
    assert_eq!(res[2].len(), 15);
    for m in &res[3] {
        assert_eq!(m.ps.len(), 6);
    }
}

#[test]
fn concat_places_second_shape_at_offset() {
    let single = mino(&[(0, 0)]);
    let right = combine::concat(1, 0, &single, &single);
    assert_eq!(sorted_points(&right), vec![(0, 0), (1, 0)]);
    assert_eq!((right.width, right.height), (2, 1));
    let left = combine::concat(-1, 0, &single, &single);
    assert_eq!(sorted_points(&left), vec![(0, 0), (1, 0)]);
    let same = combine::concat(0, 0, &single, &single);
    assert_eq!(sorted_points(&same), vec![(0, 0)]);
    let bar = mino(&[(0, 0), (1, 0)]);
    let stair = combine::concat(-1, -1, &bar, &bar);
    assert_eq!(sorted_points(&stair), vec![(0, 0), (1, 0), (1, 1), (2, 1)]);
    assert_eq!((stair.width, stair.height), (3, 2));
    let apart = combine::concat(3, 0, &single, &single);
    assert_eq!(sorted_points(&apart), vec![(0, 0), (3, 0)]);
    assert!(!connected(&apart));
}

#[test]
fn connected_detects_split_shapes() {
    assert!(!connected(&mino(&[(0, 0), (1, 1)])));
    assert!(connected(&mino(&[(0, 0), (1, 0), (1, 1)])));
    assert!(connected(&mino(&[(0, 0)])));
    assert!(!connected(&mino(&[(0, 0), (2, 0), (1, 1)])));
}

#[test]
fn dfs_removes_reachable_points_only() {
    let mut ps = vec![P { x: 0, y: 0 }, P { x: 2, y: 0 }, P { x: 0, y: 1 }, P { x: 2, y: 1 }];
    dfs(0, &mut ps, 3, 2);
    let mut rest: Vec<(usize, usize)> = ps.iter().map(|p| (p.x, p.y)).collect();
    rest.sort();
    assert_eq!(rest, vec![(2, 0), (2, 1)]);
}

#[test]
fn seen_accepts_each_shape_once() {
    let mut seen = Seen::new();
    let a = mino(&[(0, 0), (1, 0)]);
    let b = mino(&[(1, 0), (0, 0)]);
    let c = mino(&[(0, 0), (0, 1)]);
    assert!(seen.accept(&a));
    assert!(!seen.accept(&b));
    assert!(seen.accept(&c));
    assert!(!seen.accept(&c));
}

#[test]
fn canonical_key_sorts_points() {
    let m = mino(&[(1, 1), (0, 1), (2, 0), (1, 0)]);
    let key: Vec<(usize, usize)> = canonical_key(&m).iter().map(|p| (p.x, p.y)).collect();
    assert_eq!(key, vec![(0, 1), (1, 0), (1, 1), (2, 0)]);
    let n = mino(&[(2, 0), (1, 0), (1, 1), (0, 1)]);
    assert_eq!(canonical_key(&m), canonical_key(&n));
}
