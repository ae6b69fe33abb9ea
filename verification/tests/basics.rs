use borys::block_id::{child_id, copy_id, get_start_id, minted_id, same_id};
use borys::color::Color;
use borys::error::Error;
use borys::geometry::{Point, Rect};
use borys::partition::{Axis, Partition};
use borys::raster::Raster;
use borys::scorer::get_pixel_distances_squared;

#[test]
fn the_root_is_named_zero() {
    assert_eq!(get_start_id(), b"0".to_vec());
}

#[test]
fn children_are_named_by_a_dot_and_a_digit() {
    assert_eq!(child_id(&b"0".to_vec(), 0), b"0.0".to_vec());
    assert_eq!(child_id(&b"0.3".to_vec(), 2), b"0.3.2".to_vec());
    assert_eq!(child_id(&b"12".to_vec(), 1), b"12.1".to_vec());
}

#[test]
fn merged_blocks_are_named_in_decimal() {
    assert_eq!(minted_id(0), b"0".to_vec());
    assert_eq!(minted_id(7), b"7".to_vec());
    assert_eq!(minted_id(10), b"10".to_vec());
    assert_eq!(minted_id(12345), b"12345".to_vec());
    assert_eq!(minted_id(u64::MAX), b"18446744073709551615".to_vec());
}

#[test]
fn identifiers_are_equal_byte_by_byte() {
    assert!(same_id(&b"0.1".to_vec(), &b"0.1".to_vec()));
    assert!(!same_id(&b"0.1".to_vec(), &b"0.2".to_vec()));
    assert!(!same_id(&b"0.1".to_vec(), &b"0.1.0".to_vec()));
    assert!(same_id(&Vec::new(), &Vec::new()));
    assert_eq!(copy_id(&b"0.1.2".to_vec()), b"0.1.2".to_vec());
}

#[test]
fn a_rectangle_keeps_its_corners_as_given() {
    let r = Rect::new(Point::new(3, 4), Point::new(1, 9));
    assert_eq!(r.from, Point::new(3, 4));
    assert_eq!(r.to, Point::new(1, 9));
    assert_eq!(Point::zero(), Point::new(0, 0));
}

#[test]
fn the_area_is_the_product_of_the_extents() {
    let r = |x1, y1, x2, y2| Rect::new(Point::new(x1, y1), Point::new(x2, y2));
    assert_eq!(r(0, 0, 4, 3).size(), 12);
    assert_eq!(r(2, 5, 9, 6).size(), 7);
    assert_eq!(r(2, 2, 2, 7).size(), 0);
    assert_eq!(r(3, 0, 1, 5).size(), -10);
    assert_eq!(r(3, 5, 1, 0).size(), 10);
    assert_eq!(r(0, 0, i32::MAX, i32::MAX).size(), 4611686014132420609);
}

#[test]
fn rectangles_that_share_a_whole_edge_can_be_merged() {
    let r = |x1, y1, x2, y2| Rect::new(Point::new(x1, y1), Point::new(x2, y2));
    assert!(r(0, 0, 2, 3).can_merge_with(&r(2, 0, 5, 3)));
    assert!(r(2, 0, 5, 3).can_merge_with(&r(0, 0, 2, 3)));
    assert!(r(0, 0, 2, 3).can_merge_with(&r(0, 3, 2, 4)));
    assert!(!r(0, 0, 2, 3).can_merge_with(&r(2, 0, 5, 2)));
    assert!(!r(0, 0, 2, 3).can_merge_with(&r(3, 0, 5, 3)));
    assert!(!r(0, 0, 2, 3).can_merge_with(&r(0, 0, 2, 3)));
    assert_eq!(r(0, 0, 2, 3).union_with(&r(2, 0, 5, 3)), r(0, 0, 5, 3));
    assert!(r(0, 0, 4, 4).has_inside(Point::new(1, 3)));
    assert!(!r(0, 0, 4, 4).has_inside(Point::new(0, 3)));
    assert!(!r(0, 0, 4, 4).has_inside(Point::new(1, 4)));
}

#[test]
fn the_distance_is_taken_over_all_four_channels() {
    let a = Color::new(0, 0, 0, 0);
    let b = Color::new(1, 2, 3, 4);
    assert_eq!(a.dist_squared(&b), 1 + 4 + 9 + 16);
    assert_eq!(b.dist_squared(&a), 30);
    assert_eq!(b.dist_squared(&b), 0);
    assert_eq!(
        Color::new(255, 255, 255, 255).dist_squared(&a),
        4 * 255 * 255
    );
    assert_eq!(Color::white(), Color::new(255, 255, 255, 255));
}

#[test]
fn a_fresh_partition_is_the_root_alone() {
    let p = Partition::new(6, 4);
    assert_eq!(p.len(), 1);
    assert_eq!(p.width(), 6);
    assert_eq!(p.height(), 4);
    assert_eq!(p.minted(), 0);
    assert_eq!(p.block(0).id, b"0".to_vec());
    assert_eq!(
        p.get(&b"0".to_vec()),
        Ok(Rect::new(Point::new(0, 0), Point::new(6, 4)))
    );
    assert_eq!(p.get(&b"1".to_vec()), Err(Error::UnknownBlock));
}

#[test]
fn cuts_and_merges_of_a_partition() {
    let r = |x1, y1, x2, y2| Rect::new(Point::new(x1, y1), Point::new(x2, y2));
    let id = |text: &str| text.as_bytes().to_vec();
    let mut p = Partition::new(6, 4);
    p.cut_axis(&id("0"), Axis::X, 2);
    assert_eq!(p.get(&id("0.0")), Ok(r(0, 0, 2, 4)));
    assert_eq!(p.get(&id("0.1")), Ok(r(2, 0, 6, 4)));
    p.cut_axis(&id("0.1"), Axis::Y, 3);
    assert_eq!(p.get(&id("0.1.0")), Ok(r(2, 0, 6, 3)));
    assert_eq!(p.get(&id("0.1.1")), Ok(r(2, 3, 6, 4)));
    p.cut_point(&id("0.1.0"), Point::new(4, 1));
    assert_eq!(p.get(&id("0.1.0.0")), Ok(r(2, 0, 4, 1)));
    assert_eq!(p.get(&id("0.1.0.1")), Ok(r(4, 0, 6, 1)));
    assert_eq!(p.get(&id("0.1.0.2")), Ok(r(4, 1, 6, 3)));
    assert_eq!(p.get(&id("0.1.0.3")), Ok(r(2, 1, 4, 3)));
    assert_eq!(p.len(), 6);
    assert_eq!(p.merge(&id("0.1.0.1"), &id("0.1.0.0")), id("1"));
    assert_eq!(p.get(&id("1")), Ok(r(2, 0, 6, 1)));
    assert_eq!(p.merge(&id("0.1.0.3"), &id("0.1.0.2")), id("2"));
    assert_eq!(p.merge(&id("1"), &id("2")), id("3"));
    assert_eq!(p.get(&id("3")), Ok(r(2, 0, 6, 3)));
    assert_eq!(p.get(&id("1")), Err(Error::UnknownBlock));
    assert_eq!(p.get(&id("0.1.0.2")), Err(Error::UnknownBlock));
    assert_eq!(p.len(), 3);
    assert_eq!(p.minted(), 3);
}

#[test]
fn a_raster_is_white_until_it_is_painted() {
    let mut raster = Raster::new(3, 2);
    assert_eq!(raster.width(), 3);
    assert_eq!(raster.height(), 2);
    let c = Color::new(9, 8, 7, 6);
    raster.set(2, 1, c);
    raster.fill(
        &Rect::new(Point::new(0, 0), Point::new(2, 1)),
        Color::new(1, 1, 1, 1),
    );
    raster.fill(&Rect::new(Point::new(1, 1), Point::new(1, 2)), c);
    for x in 0..3 {
        for y in 0..2 {
            let expected = if (x, y) == (2, 1) {
                c
            } else if x < 2 && y < 1 {
                Color::new(1, 1, 1, 1)
            } else {
                Color::white()
            };
            assert_eq!(raster.get(x, y), expected);
        }
    }
    assert_eq!(Raster::new(0, 5).to_rgba(), Vec::<u8>::new());
    assert_eq!(Raster::new(5, 0).to_rgba(), Vec::<u8>::new());
}

fn penalty(squares: &[Vec<u32>]) -> f64 {
    let mut sum = 0.0;
    for column in squares {
        for &square in column {
            sum += (square as f64).sqrt();
        }
    }
    sum * 0.005
}

#[test]
fn identical_rasters_are_at_distance_zero() {
    let mut a = Raster::new(3, 4);
    let mut b = Raster::new(3, 4);
    a.set(1, 2, Color::new(4, 5, 6, 7));
    b.set(1, 2, Color::new(4, 5, 6, 7));
    let squares = get_pixel_distances_squared(&a, &b).unwrap();
    assert_eq!(squares, vec![vec![0u32; 4]; 3]);
    assert_eq!(penalty(&squares), 0.0);
}

#[test]
fn distances_are_given_pixel_by_pixel() {
    let mut a = Raster::new(2, 2);
    let b = Raster::new(2, 2);
    a.set(0, 1, Color::new(255, 255, 252, 251));
    a.set(1, 0, Color::new(0, 0, 0, 0));
    let squares = get_pixel_distances_squared(&a, &b).unwrap();
    assert_eq!(squares, vec![vec![0, 25], vec![4 * 255 * 255, 0]]);
    assert_eq!(penalty(&squares), (5.0 + 510.0) * 0.005);
    assert_eq!(
        get_pixel_distances_squared(&b, &a).unwrap(),
        vec![vec![0, 25], vec![4 * 255 * 255, 0]]
    );
}

#[test]
fn rasters_of_different_size_are_not_compared() {
    let a = Raster::new(2, 3);
    assert_eq!(
        get_pixel_distances_squared(&a, &Raster::new(3, 3)),
        Err(Error::DimensionMismatch)
    );
    assert_eq!(
        get_pixel_distances_squared(&a, &Raster::new(2, 2)),
        Err(Error::DimensionMismatch)
    );
    assert_eq!(
        get_pixel_distances_squared(&a, &Raster::new(3, 2)),
        Err(Error::DimensionMismatch)
    );
    assert_eq!(
        get_pixel_distances_squared(&Raster::new(0, 1), &Raster::new(0, 2)),
        Err(Error::DimensionMismatch)
    );
}
