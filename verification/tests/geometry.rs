use procon_lib::convex_hull::ConvexHull;
use procon_lib::line2d::Line2d;

fn hull_of(points: &[(i64, i64)]) -> Vec<(i64, i64)> {
    let mut h = ConvexHull::new();
    for &(y, x) in points {
        h.add(y, x);
    }
    h.convex_hull()
}

#[test]
fn convex_hull_square_drops_the_inner_point() {
    let r = hull_of(&[(0, 0), (0, 2), (2, 0), (2, 2), (1, 1)]);
    assert_eq!(r, vec![(2, 0), (0, 0), (0, 2), (2, 2)]);
}

#[test]
fn convex_hull_keeps_collinear_points() {
    let r = hull_of(&[(0, 0), (1, 1), (2, 2)]);
    assert_eq!(r, vec![(0, 0), (1, 1), (2, 2)]);
}

#[test]
fn convex_hull_single_point() {
    assert_eq!(hull_of(&[(5, 3)]), vec![(5, 3)]);
}

#[test]
fn convex_hull_empty() {
    assert_eq!(hull_of(&[]), Vec::<(i64, i64)>::new());
}

#[test]
fn convex_hull_one_vertical_column() {
    let r = hull_of(&[(0, 0), (3, 0), (1, 0)]);
    assert_eq!(r, vec![(3, 0), (1, 0), (0, 0)]);
}

#[test]
fn convex_hull_mixed_points() {
    let r = hull_of(&[(0, 0), (1, 2), (0, 4), (-3, 2), (1, 1), (0, 2)]);
    assert_eq!(r, vec![(0, 0), (-3, 2), (0, 4), (1, 2), (1, 1)]);
}

#[test]
fn convex_hull_repeated_point_listed_once() {
    assert_eq!(hull_of(&[(1, 1), (1, 1), (0, 0)]), vec![(0, 0), (1, 1)]);
}

use procon_lib::manhattan_mst::ManhattanMST;

fn mst_of(points: &[(i64, i64)]) -> Vec<Vec<(i64, usize)>> {
    let mut m = ManhattanMST::new();
    for &p in points {
        m.push(p);
    }
    m.minimum_spanning_tree()
}

#[test]
fn manhattan_mst_four_points() {
    let g = mst_of(&[(0, 0), (1, 1), (3, 0), (0, 4)]);
    assert_eq!(
        g,
        vec![vec![(2, 1), (3, 2), (4, 3)], vec![(2, 0)], vec![(3, 0)], vec![(4, 0)]]
    );
}

#[test]
fn manhattan_mst_on_a_line() {
    let g = mst_of(&[(0, 0), (2, 2), (5, 5)]);
    assert_eq!(g, vec![vec![(4, 1)], vec![(4, 0), (6, 2)], vec![(6, 1)]]);
}

#[test]
fn manhattan_mst_single_and_empty() {
    assert_eq!(mst_of(&[(7, -3)]), vec![Vec::<(i64, usize)>::new()]);
    assert_eq!(mst_of(&[]), Vec::<Vec<(i64, usize)>>::new());
}

#[test]
fn manhattan_mst_repeated_point() {
    let g = mst_of(&[(1, 1), (1, 1), (4, 1)]);
    assert_eq!(g, vec![vec![(0, 1), (3, 2)], vec![(0, 0)], vec![(3, 0)]]);
}

#[test]
fn manhattan_mst_total_weight() {
    let pts = [(3, 1), (-2, 4), (0, 0), (5, 5), (-1, -3), (2, -2)];
    let g = mst_of(&pts);
    let total: i64 = g.iter().flatten().map(|&(d, _)| d).sum::<i64>() / 2;
    let edges: usize = g.iter().map(|v| v.len()).sum::<usize>() / 2;
    assert_eq!(edges, pts.len() - 1);
    // every listed length is the distance of its two points
    for (i, adj) in g.iter().enumerate() {
        for &(d, j) in adj {
            let (yi, xi) = pts[i];
            let (yj, xj) = pts[j];
            assert_eq!(d, (yi - yj).abs() + (xi - xj).abs());
        }
    }
    assert_eq!(total, 24);
}

#[test]
fn line2d_canonical_form() {
    assert_eq!(Line2d::new(0, 0, 2, 2), Line2d(1, 1, 0));
    assert_eq!(Line2d::new(2, 2, 0, 0), Line2d(1, 1, 0));
    assert_eq!(Line2d::new(0, 0, -2, 0), Line2d(0, 1, 0));
    assert_eq!(Line2d::new(1, 0, 3, 4), Line2d(2, 1, 2));
    assert_eq!(Line2d::new(0, 1, 1, 0), Line2d(1, -1, 1));
    let l = Line2d::new(-3, 5, 7, -1);
    assert_eq!(l, Line2d::new(7, -1, -3, 5));
    assert_eq!(l.0 * -3 - l.1 * 5, l.2);
}

#[test]
fn manhattan_mst_adjacency_is_symmetric() {
    let pts = [(3, 1), (-2, 4), (0, 0), (5, 5), (-1, -3), (2, -2), (7, -4), (-6, 2)];
    let g = mst_of(&pts);
    for (i, adj) in g.iter().enumerate() {
        for &(d, j) in adj {
            assert!(g[j].contains(&(d, i)));
        }
    }
}

#[test]
fn line2d_same_line_iff_collinear() {
    assert_eq!(Line2d::new(0, 0, 1, 1), Line2d::new(2, 2, 5, 5));
    assert_eq!(Line2d::new(0, 3, 0, 7), Line2d::new(0, -1, 0, 100));
    assert_ne!(Line2d::new(0, 0, 1, 1), Line2d::new(0, 0, 1, 2));
    assert_ne!(Line2d::new(0, 0, 1, 1), Line2d::new(1, 0, 2, 1));
}
