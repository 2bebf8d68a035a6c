use mercator_core::coordinate::Coordinate;
use mercator_core::position::Position;
use mercator_core::shape::Shape;

fn pos(v: &[u64]) -> Position {
    Position::from_grid(v.to_vec())
}

#[test]
fn coordinate_reduce_precision() {
    assert_eq!(Coordinate::new(1023).reduce_precision(2).u64(), 255);
    assert_eq!(Coordinate::new(5).reduce_precision(0).u64(), 5);
    assert_eq!(Coordinate::new(u64::MAX).reduce_precision(63).u64(), 1);
    assert_eq!(Coordinate::new(u64::MAX).reduce_precision(64).u64(), 0);
    assert_eq!(Coordinate::new(u64::MAX).reduce_precision(200).u64(), 0);
}

#[test]
fn position_basics() {
    let p = Position::new(vec![Coordinate::new(1), Coordinate::new(2), Coordinate::new(3)]);
    assert_eq!(p.dimensions(), 3);
    assert_eq!(p.get(1).u64(), 2);
    assert_eq!(p.grid(), vec![1, 2, 3]);
    let mut q = p.duplicate();
    assert!(q == p);
    q.set(2, Coordinate::new(9));
    assert_eq!(q.grid(), vec![1, 2, 9]);
    assert!(q != p);
    assert!(pos(&[1, 2]) != pos(&[1, 2, 3]));
    assert_eq!(pos(&[7, 8]).extended(9).grid(), vec![7, 8, 9]);
}

#[test]
fn position_arithmetic_saturates() {
    let a = pos(&[5, u64::MAX - 1, 0]);
    let b = pos(&[3, 4, 2]);
    assert_eq!(a.add(&b).grid(), vec![8, u64::MAX, 2]);
    assert_eq!(a.sub(&b).grid(), vec![2, u64::MAX - 5, 0]);
}

#[test]
fn position_reduce_precision() {
    assert_eq!(pos(&[512, 1023, 3]).reduce_precision(1).grid(), vec![256, 511, 1]);
}

#[test]
fn position_within_radius() {
    let c = pos(&[10, 10, 10]);
    assert!(pos(&[13, 14, 10]).within(&c, 5));
    assert!(!pos(&[13, 14, 11]).within(&c, 5));
    assert!(pos(&[10, 10, 10]).within(&c, 0));
    assert!(!pos(&[0, 0, 0]).within(&pos(&[u64::MAX, u64::MAX, u64::MAX]), u64::MAX));
}

#[test]
fn mbb_of_each_shape() {
    let (lo, hi) = Shape::Point(pos(&[4, 5])).get_mbb();
    assert_eq!((lo.grid(), hi.grid()), (vec![4, 5], vec![4, 5]));
    let (lo, hi) = Shape::HyperSphere(pos(&[4, 10]), Coordinate::new(6)).get_mbb();
    assert_eq!((lo.grid(), hi.grid()), (vec![0, 4], vec![10, 16]));
    let (lo, hi) = Shape::BoundingBox(pos(&[1, 2]), pos(&[3, 4])).get_mbb();
    assert_eq!((lo.grid(), hi.grid()), (vec![1, 2], vec![3, 4]));
}

#[test]
fn rasterise_point() {
    let r = Shape::Point(pos(&[4, 5, 6])).rasterise().unwrap();
    assert_eq!(r.len(), 1);
    assert_eq!(r[0].grid(), vec![4, 5, 6]);
}

#[test]
fn rasterise_box_excludes_upper_corner() {
    let r = Shape::BoundingBox(pos(&[1, 2]), pos(&[3, 5])).rasterise().unwrap();
    let grids: Vec<Vec<u64>> = r.iter().map(|p| p.grid()).collect();
    assert_eq!(
        grids,
        vec![vec![1, 2], vec![1, 3], vec![1, 4], vec![2, 2], vec![2, 3], vec![2, 4]]
    );
}

#[test]
fn rasterise_empty_box() {
    assert!(Shape::BoundingBox(pos(&[1, 2]), pos(&[1, 5])).rasterise().unwrap().is_empty());
    assert!(Shape::BoundingBox(pos(&[4, 2]), pos(&[1, 5])).rasterise().unwrap().is_empty());
}

#[test]
fn rasterised_points_lie_in_mbb() {
    let shapes = vec![
        Shape::Point(pos(&[3, 3])),
        Shape::HyperSphere(pos(&[5, 5]), Coordinate::new(3)),
        Shape::BoundingBox(pos(&[2, 1]), pos(&[6, 4])),
    ];
    for s in shapes {
        let (lo, hi) = s.get_mbb();
        for p in s.rasterise().unwrap() {
            for k in 0..p.dimensions() {
                assert!(lo.get(k).u64() <= p.get(k).u64());
                assert!(p.get(k).u64() <= hi.get(k).u64());
            }
        }
    }
}

#[test]
fn rasterise_sphere_keeps_points_within_radius() {
    let c = pos(&[5, 5]);
    let r = Shape::HyperSphere(c.clone(), Coordinate::new(2)).rasterise().unwrap();
    let mut grids: Vec<Vec<u64>> = r.iter().map(|p| p.grid()).collect();
    grids.sort();
    // Points within distance 2 of (5, 5), upper corner of the box excluded.
    let mut expected = vec![];
    for x in 3u64..7 {
        for y in 3u64..7 {
            let dx = x as i64 - 5;
            let dy = y as i64 - 5;
            if dx * dx + dy * dy <= 4 {
                expected.push(vec![x, y]);
            }
        }
    }
    assert_eq!(grids, expected);
    assert!(grids.contains(&vec![5, 5]));
    assert!(grids.contains(&vec![3, 5]));
    assert!(!grids.contains(&vec![4, 4 - 1]));
    for p in r {
        let d: f64 = (0..2)
            .map(|k| {
                let v = p.get(k).u64() as f64 - c.get(k).u64() as f64;
                v * v
            })
            .sum::<f64>()
            .sqrt();
        assert!(d <= 2.0);
    }
}

#[test]
fn shape_contains() {
    let b = Shape::BoundingBox(pos(&[1, 1]), pos(&[3, 3]));
    assert!(b.contains(&pos(&[1, 2])));
    assert!(!b.contains(&pos(&[3, 2])));
    assert!(!b.contains(&pos(&[1, 2, 0])));
    let s = Shape::HyperSphere(pos(&[5, 5]), Coordinate::new(2));
    assert!(s.contains(&pos(&[5, 3])));
    assert!(!s.contains(&pos(&[7, 5])));
    assert!(!s.contains(&pos(&[6, 6, 6])));
    assert!(Shape::Point(pos(&[2])).contains(&pos(&[2])));
    assert!(!Shape::Point(pos(&[2])).contains(&pos(&[3])));
}
