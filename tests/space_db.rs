use mercator_core::coordinate::Coordinate;
use mercator_core::position::Position;
use mercator_core::shape::Shape;
use mercator_core::space_db::{CoreQueryParameters, SpaceDB};
use mercator_core::space_index::{SpaceSetIndex, SpaceSetObject};

const ID_A: u64 = 65;
const ID_B: u64 = 66;

fn pos(v: &[u64]) -> Position {
    Position::from_grid(v.to_vec())
}

fn obj(v: &[u64], value: u64) -> SpaceSetObject {
    SpaceSetObject::new(pos(v), Coordinate::new(value))
}

/// A value in [0, 1] on a grid of `bits` bits per axis.
fn grid(x: f64, bits: u32) -> u64 {
    (x * (1u64 << bits) as f64) as u64
}

fn params(volume_exponent: Option<u32>) -> CoreQueryParameters {
    CoreQueryParameters { volume_exponent, view_port: None, resolution: None }
}

fn name() -> String {
    "std".to_string()
}

fn diagonal(bits: u32) -> Vec<SpaceSetObject> {
    (0..10)
        .map(|k| {
            let g = grid(k as f64 / 10.0, bits);
            obj(&[g, g, g], ID_A)
        })
        .collect()
}

fn grids(r: &[SpaceSetObject]) -> Vec<(Vec<u64>, u64)> {
    let mut v: Vec<(Vec<u64>, u64)> =
        r.iter().map(|o| (o.position().grid(), o.value().u64())).collect();
    v.sort();
    v
}

#[test]
fn single_object_found_by_id() {
    let g = grid(0.5, 10);
    let db = SpaceDB::new(&name(), 3, vec![obj(&[g, g, g], ID_A)], None, None);
    let r = db.get_by_id(ID_A as usize, &params(None)).unwrap();
    assert_eq!(r.len(), 1);
    assert_eq!(r[0].value().u64(), ID_A);
    assert_eq!(r[0].position().grid(), vec![512, 512, 512]);
}

#[test]
fn unknown_id_gives_nothing() {
    let g = grid(0.5, 10);
    let db = SpaceDB::new(&name(), 3, vec![obj(&[g, g, g], ID_A)], None, None);
    assert!(db.get_by_id(ID_B as usize, &params(None)).unwrap().is_empty());
}

#[test]
fn box_query_on_diagonal() {
    let db = SpaceDB::new(&name(), 3, diagonal(10), None, None);
    let lo = grid(0.2, 10);
    let hi = grid(0.8, 10);
    let shape = Shape::BoundingBox(pos(&[lo, lo, lo]), pos(&[hi, hi, hi]));
    let r = db.get_by_shape(&shape, &params(Some(63))).unwrap();
    assert_eq!(r.len(), 6);
    assert!(r.iter().all(|o| o.value().u64() == ID_A));
}

#[test]
fn sphere_query_on_diagonal() {
    let bits = 10;
    let db = SpaceDB::new(&name(), 3, diagonal(bits), None, None);
    let c = grid(0.5, bits);
    let radius = grid(0.15, bits);
    let shape = Shape::HyperSphere(pos(&[c, c, c]), Coordinate::new(radius));
    let r = db.get_by_shape(&shape, &params(Some(63))).unwrap();
    assert!(r.iter().any(|o| o.position().grid() == vec![c, c, c]));
    for o in &r {
        let d: f64 = o
            .position()
            .grid()
            .iter()
            .map(|&x| (x as f64 - c as f64) * (x as f64 - c as f64))
            .sum::<f64>()
            .sqrt();
        assert!(d <= radius as f64);
        assert_eq!(o.value().u64(), ID_A);
    }
    assert_eq!(r.len(), 1);
}

#[test]
fn coarsened_objects_keep_both_ids() {
    let objects = vec![obj(&[100, 200, 300], ID_A), obj(&[101, 202, 303], ID_B)];
    let db = SpaceDB::new(&name(), 3, objects, Some(vec![vec![2, 2, 2]]), None);
    let r = db.get_by_positions(&vec![pos(&[25, 50, 75])], &params(None)).unwrap();
    assert_eq!(grids(&r), vec![(vec![25, 50, 75], ID_A), (vec![25, 50, 75], ID_B)]);
}

#[test]
fn empty_database() {
    let db = SpaceDB::new(&name(), 3, vec![], None, None);
    assert!(db.is_empty());
    assert!(db.get_by_id(7, &params(None)).unwrap().is_empty());
    assert_eq!(db.lowest_resolution(), 0);
}

#[test]
fn accessors() {
    let db = SpaceDB::new(&name(), 3, diagonal(10), None, None);
    assert_eq!(db.name(), "std");
    assert!(!db.is_empty());
    assert_eq!(db.highest_resolution(), 0);
    assert_eq!(db.lowest_resolution(), 0);
}

#[test]
fn explicit_scales_are_sorted() {
    let db = SpaceDB::new(
        &name(),
        3,
        diagonal(10),
        Some(vec![vec![4, 4, 4], vec![0, 0, 0], vec![2, 2, 2]]),
        None,
    );
    assert_eq!(db.lowest_resolution(), 2);
    let fine = params(Some(63));
    assert_eq!(db.get_resolution(&fine), 0);
    // Explicit scales pick the first level at least that coarse.
    let mut p = params(None);
    p.resolution = Some(vec![1, 1, 1]);
    assert_eq!(db.get_resolution(&p), 1);
    p.resolution = Some(vec![4, 4, 4]);
    assert_eq!(db.get_resolution(&p), 2);
    p.resolution = Some(vec![9, 9, 9]);
    assert_eq!(db.get_resolution(&p), 2);
    p.resolution = Some(vec![1, 1]);
    assert_eq!(db.get_resolution(&p), 2);
    // Shifts 0, 1, 2: thresholds V/4, V/2, V.
    assert_eq!(db.get_resolution(&params(Some(2))), 0);
    assert_eq!(db.get_resolution(&params(Some(1))), 1);
    assert_eq!(db.get_resolution(&params(Some(0))), 2);
    assert_eq!(db.get_resolution(&params(None)), 2);
    // The level of scale 4 holds the diagonal coarsened by 4 bits.
    let r = db.get_by_id(ID_A as usize, &params(None)).unwrap();
    let expected: Vec<(Vec<u64>, u64)> = {
        let mut v: Vec<(Vec<u64>, u64)> = (0..10)
            .map(|k| {
                let g = grid(k as f64 / 10.0, 10) >> 4;
                (vec![g, g, g], ID_A)
            })
            .collect();
        v.sort();
        v.dedup();
        v
    };
    assert_eq!(grids(&r), expected);
}

#[test]
fn counted_ladder_halves_each_level() {
    let objects: Vec<SpaceSetObject> = (0..64u64).map(|k| obj(&[k, k, k], k % 4)).collect();
    let db = SpaceDB::new(&name(), 3, objects, None, Some(1));
    let top = db.lowest_resolution();
    assert!(top >= 1);
    // The coarsest level holds no more than the number of distinct values.
    let mut total = 0;
    for id in 0..4u64 {
        total += db.get_by_id(id as usize, &params(None)).unwrap().len();
    }
    assert!(total <= 4);
    // The finest level holds every object.
    let mut all = 0;
    for id in 0..4u64 {
        all += db.get_by_id(id as usize, &params(Some(63))).unwrap().len();
    }
    assert_eq!(all, 64);
}

#[test]
fn counted_ladder_stops_when_nothing_changes() {
    // Three distinct values, four objects: the population can no longer
    // halve once all positions merge; construction still ends.
    let objects = vec![
        obj(&[0, 0, 0], 1),
        obj(&[1000, 0, 0], 1),
        obj(&[0, 1000, 0], 2),
        obj(&[0, 0, 1000], 3),
    ];
    let db = SpaceDB::new(&name(), 3, objects, None, Some(1));
    assert_eq!(db.lowest_resolution(), 0);
    assert_eq!(db.get_by_id(1, &params(None)).unwrap().len(), 2);
}

#[test]
fn viewport_filters_results() {
    let db = SpaceDB::new(&name(), 3, diagonal(10), None, None);
    let lo = grid(0.2, 10);
    let hi = grid(0.8, 10);
    let mut p = params(Some(63));
    p.view_port = Some(Shape::BoundingBox(pos(&[0, 0, 0]), pos(&[500, 500, 500])));
    let shape = Shape::BoundingBox(pos(&[lo, lo, lo]), pos(&[hi, hi, hi]));
    let r = db.get_by_shape(&shape, &p).unwrap();
    assert_eq!(grids(&r).len(), 3);
    let r = db.get_by_id(ID_A as usize, &p).unwrap();
    assert_eq!(r.len(), 5);
    let r = db
        .get_by_positions(&vec![pos(&[512, 512, 512]), pos(&[204, 204, 204])], &p)
        .unwrap();
    assert_eq!(grids(&r), vec![(vec![204, 204, 204], ID_A)]);
}

#[test]
fn decoded_values_are_supplied_values() {
    let objects = vec![obj(&[1, 1, 1], 900), obj(&[2, 2, 2], 30), obj(&[3, 3, 3], 900)];
    let db = SpaceDB::new(&name(), 3, objects, None, None);
    let shape = Shape::BoundingBox(pos(&[0, 0, 0]), pos(&[4, 4, 4]));
    let r = db.get_by_shape(&shape, &params(None)).unwrap();
    assert_eq!(
        grids(&r),
        vec![(vec![1, 1, 1], 900), (vec![2, 2, 2], 30), (vec![3, 3, 3], 900)]
    );
}

#[test]
fn index_lookups() {
    let objects = vec![obj(&[1, 1], 0), obj(&[1, 1], 1), obj(&[2, 3], 1)];
    let index = SpaceSetIndex::new(objects);
    assert_eq!(index.len(), 3);
    assert_eq!(grids(&index.find(&pos(&[1, 1]))), vec![(vec![1, 1], 0), (vec![1, 1], 1)]);
    assert_eq!(grids(&index.find_by_value(1)), vec![(vec![1, 1], 1), (vec![2, 3], 1)]);
    let shape = Shape::BoundingBox(pos(&[0, 0]), pos(&[3, 4]));
    let all = index.find_by_shape(&shape, &None).unwrap();
    assert_eq!(all.len(), 3);
    let view = Some(Shape::Point(pos(&[2, 3])));
    let some = index.find_by_shape(&shape, &view).unwrap();
    assert_eq!(grids(&some), vec![(vec![2, 3], 1)]);
}
