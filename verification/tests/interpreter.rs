use borys::block_id::{child_id, get_start_id};
use borys::color::Color;
use borys::error::Error;
use borys::geometry::{Point, Rect};
use borys::interpreter::{apply_ops, Canvas};
use borys::op::Op;
use borys::partition::Axis;

fn id(text: &str) -> Vec<u8> {
    text.as_bytes().to_vec()
}

#[test]
fn colouring_the_root_of_a_two_by_two_canvas() {
    let black = Color::new(0, 0, 0, 255);
    let ops = vec![Op::Color(get_start_id(), black)];
    let result = apply_ops(&ops, 2, 2).unwrap();
    assert_eq!(result.picture.width(), 2);
    assert_eq!(result.picture.height(), 2);
    for x in 0..2 {
        for y in 0..2 {
            assert_eq!(result.picture.get(x, y), black);
        }
    }
    assert_eq!(result.cost, 5);
}

#[test]
fn point_cut_then_colour_of_one_quadrant() {
    let red = Color::new(255, 0, 0, 255);
    let root = get_start_id();
    let ops = vec![
        Op::CutPoint(root.clone(), Point::new(2, 2)),
        Op::Color(child_id(&root, 1), red),
    ];
    let result = apply_ops(&ops, 4, 4).unwrap();
    for x in 0..4 {
        for y in 0..4 {
            let expected = if x >= 2 && y < 2 { red } else { Color::white() };
            assert_eq!(result.picture.get(x, y), expected);
        }
    }
    assert_eq!(result.cost, 30);
}

#[test]
fn empty_program_leaves_a_white_canvas_at_no_cost() {
    let result = apply_ops(&[], 3, 2).unwrap();
    assert_eq!(result.cost, 0);
    assert_eq!(result.picture.width(), 3);
    assert_eq!(result.picture.height(), 2);
    for x in 0..3 {
        for y in 0..2 {
            assert_eq!(result.picture.get(x, y), Color::white());
        }
    }
}

#[test]
fn unknown_block_is_refused() {
    let ops = vec![Op::CutAxis(id("7"), Axis::X, 1)];
    assert_eq!(apply_ops(&ops, 4, 4), Err(Error::UnknownBlock));
    let ops = vec![Op::Color(id("0.0"), Color::white())];
    assert_eq!(apply_ops(&ops, 4, 4), Err(Error::UnknownBlock));
    let ops = vec![Op::CutPoint(id(""), Point::new(1, 1))];
    assert_eq!(apply_ops(&ops, 4, 4), Err(Error::UnknownBlock));
    let ops = vec![Op::Merge(id("0"), id("1"))];
    assert_eq!(apply_ops(&ops, 4, 4), Err(Error::UnknownBlock));
}

#[test]
fn a_block_that_was_cut_is_no_longer_live() {
    let ops = vec![
        Op::CutAxis(id("0"), Axis::Y, 1),
        Op::Color(id("0"), Color::white()),
    ];
    assert_eq!(apply_ops(&ops, 2, 2), Err(Error::UnknownBlock));
}

#[test]
fn cut_on_the_edge_or_outside_is_refused() {
    for p in [
        Point::new(0, 2),
        Point::new(2, 0),
        Point::new(4, 2),
        Point::new(2, 4),
        Point::new(-1, 2),
        Point::new(5, 5),
    ] {
        let ops = vec![Op::CutPoint(id("0"), p)];
        assert_eq!(apply_ops(&ops, 4, 4), Err(Error::CutOutsideBlock));
    }
    for c in [0, 4, -3, 9] {
        let ops = vec![Op::CutAxis(id("0"), Axis::X, c)];
        assert_eq!(apply_ops(&ops, 4, 4), Err(Error::CutOutsideBlock));
        let ops = vec![Op::CutAxis(id("0"), Axis::Y, c)];
        assert_eq!(apply_ops(&ops, 4, 4), Err(Error::CutOutsideBlock));
    }
}

#[test]
fn merge_of_blocks_that_share_no_whole_edge_is_refused() {
    let ops = vec![
        Op::CutPoint(id("0"), Point::new(2, 2)),
        Op::Merge(id("0.0"), id("0.2")),
    ];
    assert_eq!(apply_ops(&ops, 4, 4), Err(Error::IncompatibleMerge));
    let ops = vec![
        Op::CutPoint(id("0"), Point::new(1, 2)),
        Op::CutAxis(id("0.1"), Axis::Y, 1),
        Op::Merge(id("0.0"), id("0.1.0")),
    ];
    assert_eq!(apply_ops(&ops, 4, 4), Err(Error::IncompatibleMerge));
    let ops = vec![Op::Merge(id("0"), id("0"))];
    assert_eq!(apply_ops(&ops, 4, 4), Err(Error::IncompatibleMerge));
}

#[test]
fn costs_are_rounded_to_the_nearest_integer_halves_upwards() {
    let grey = Color::new(9, 9, 9, 255);
    // Canvas area 9. The cut at (1, 1) leaves blocks of area 1, 2, 4 and 2.
    let cut = Op::CutPoint(id("0"), Point::new(1, 1));
    let cost = |last: Op| apply_ops(&[cut.clone(), last], 3, 3).unwrap().cost - 10;
    assert_eq!(cost(Op::Color(id("0.0"), grey)), 45);
    // 45 / 2 = 22.5
    assert_eq!(cost(Op::Color(id("0.1"), grey)), 23);
    // 45 / 4 = 11.25
    assert_eq!(cost(Op::Color(id("0.2"), grey)), 11);
    // 63 / 2 = 31.5
    assert_eq!(cost(Op::CutAxis(id("0.1"), Axis::X, 2)), 32);
    // 63 / 4 = 15.75
    assert_eq!(cost(Op::CutAxis(id("0.2"), Axis::Y, 2)), 16);
    // 90 / 4 = 22.5
    assert_eq!(cost(Op::CutPoint(id("0.2"), Point::new(2, 2))), 23);
    // 9 / max(1, 2) = 4.5
    assert_eq!(cost(Op::Merge(id("0.0"), id("0.1"))), 5);
    // 9 / max(4, 2) = 2.25
    assert_eq!(cost(Op::Merge(id("0.3"), id("0.2"))), 2);
}

#[test]
fn line_cuts_give_the_lower_half_first() {
    let red = Color::new(255, 0, 0, 255);
    let blue = Color::new(0, 0, 255, 255);
    let ops = vec![
        Op::CutAxis(id("0"), Axis::Y, 1),
        Op::Color(id("0.0"), red),
        Op::CutAxis(id("0.1"), Axis::X, 3),
        Op::Color(id("0.1.1"), blue),
    ];
    let result = apply_ops(&ops, 4, 3).unwrap();
    for x in 0..4 {
        for y in 0..3 {
            let expected = if y < 1 {
                red
            } else if x >= 3 {
                blue
            } else {
                Color::white()
            };
            assert_eq!(result.picture.get(x, y), expected);
        }
    }
    // 7 * 12 / 12 + 5 * 12 / 4 + round(7 * 12 / 8) + 5 * 12 / 2
    assert_eq!(result.cost, 7 + 15 + 11 + 30);
}

#[test]
fn point_cut_numbers_the_quadrants_counterclockwise_from_the_lower_left() {
    let mut canvas = Canvas::new(5, 4);
    canvas
        .apply(&Op::CutPoint(id("0"), Point::new(2, 1)))
        .unwrap();
    let partition = canvas.partition();
    let r = |x1, y1, x2, y2| Rect::new(Point::new(x1, y1), Point::new(x2, y2));
    assert_eq!(partition.len(), 4);
    assert_eq!(partition.get(&id("0.0")), Ok(r(0, 0, 2, 1)));
    assert_eq!(partition.get(&id("0.1")), Ok(r(2, 0, 5, 1)));
    assert_eq!(partition.get(&id("0.2")), Ok(r(2, 1, 5, 4)));
    assert_eq!(partition.get(&id("0.3")), Ok(r(0, 1, 2, 4)));
    assert_eq!(partition.get(&id("0")), Err(Error::UnknownBlock));
}

#[test]
fn merged_blocks_are_numbered_in_turn() {
    let green = Color::new(0, 255, 0, 255);
    let ops = vec![
        Op::CutPoint(id("0"), Point::new(2, 2)),
        Op::Merge(id("0.0"), id("0.1")),
        Op::Merge(id("0.3"), id("0.2")),
        Op::Color(id("1"), green),
        Op::Merge(id("2"), id("1")),
        Op::CutAxis(id("3"), Axis::X, 1),
    ];
    let result = apply_ops(&ops, 4, 4).unwrap();
    for x in 0..4 {
        for y in 0..4 {
            let expected = if y < 2 { green } else { Color::white() };
            assert_eq!(result.picture.get(x, y), expected);
        }
    }
    // 10 + 16/4 + 16/4 + 5 * 16/8 + 16/8 + 7
    assert_eq!(result.cost, 10 + 4 + 4 + 10 + 2 + 7);
}

#[test]
fn blocks_never_overlap_and_fill_the_canvas_after_every_instruction() {
    let ops = vec![
        Op::CutPoint(id("0"), Point::new(3, 2)),
        Op::CutAxis(id("0.2"), Axis::X, 5),
        Op::Color(id("0.2.0"), Color::new(1, 2, 3, 4)),
        Op::Merge(id("0.0"), id("0.3")),
        Op::CutAxis(id("1"), Axis::Y, 4),
        Op::Merge(id("0.2.0"), id("0.2.1")),
        Op::Merge(id("0.1"), id("2")),
    ];
    let mut canvas = Canvas::new(7, 5);
    for op in &ops {
        canvas.apply(op).unwrap();
        let partition = canvas.partition();
        let mut covered = vec![vec![0u32; 5]; 7];
        let mut area = 0i64;
        for i in 0..partition.len() {
            let rect = partition.block(i).rect;
            area += rect.size();
            for x in rect.from.x..rect.to.x {
                for y in rect.from.y..rect.to.y {
                    covered[x as usize][y as usize] += 1;
                }
            }
        }
        assert_eq!(area, 35);
        assert!(covered.iter().all(|column| column.iter().all(|&n| n == 1)));
    }
    assert_eq!(canvas.partition().len(), 3);
    assert_eq!(canvas.partition().minted(), 3);
}

#[test]
fn cost_never_goes_down_and_is_the_sum_of_the_prices() {
    let ops = vec![
        Op::CutPoint(id("0"), Point::new(1, 1)),
        Op::Color(id("0.1"), Color::new(0, 0, 0, 0)),
        Op::CutAxis(id("0.2"), Axis::Y, 2),
        Op::Merge(id("0.0"), id("0.1")),
        Op::Color(id("1"), Color::new(7, 7, 7, 7)),
    ];
    let prices = [10, 23, 16, 5, 15];
    let mut canvas = Canvas::new(3, 3);
    let mut sum = 0;
    for (op, price) in ops.iter().zip(prices) {
        let before = canvas.cost();
        canvas.apply(op).unwrap();
        assert!(canvas.cost() >= before);
        assert_eq!(canvas.cost() - before, price);
        sum += price;
        assert_eq!(canvas.cost(), sum);
    }
    assert_eq!(apply_ops(&ops, 3, 3).unwrap().cost, sum);
}

#[test]
fn a_refused_instruction_changes_nothing() {
    let mut canvas = Canvas::new(4, 4);
    canvas
        .apply(&Op::CutPoint(id("0"), Point::new(2, 2)))
        .unwrap();
    canvas
        .apply(&Op::Color(id("0.0"), Color::new(5, 6, 7, 8)))
        .unwrap();
    let cost = canvas.cost();
    let bytes = canvas.render();
    let blocks = canvas.partition().len();
    assert_eq!(
        canvas.apply(&Op::Merge(id("0.0"), id("0.2"))),
        Err(Error::IncompatibleMerge)
    );
    assert_eq!(
        canvas.apply(&Op::CutPoint(id("0.0"), Point::new(2, 2))),
        Err(Error::CutOutsideBlock)
    );
    assert_eq!(
        canvas.apply(&Op::Color(id("0"), Color::white())),
        Err(Error::UnknownBlock)
    );
    assert_eq!(canvas.cost(), cost);
    assert_eq!(canvas.render(), bytes);
    assert_eq!(canvas.partition().len(), blocks);
}

#[test]
fn the_first_refusal_ends_the_run() {
    let ops = vec![
        Op::CutAxis(id("0"), Axis::X, 2),
        Op::CutAxis(id("0.0"), Axis::X, 2),
        Op::Color(id("nothing"), Color::white()),
    ];
    assert_eq!(apply_ops(&ops, 4, 4), Err(Error::CutOutsideBlock));
}

#[test]
fn rendering_twice_gives_the_same_bytes() {
    let mut canvas = Canvas::new(3, 2);
    canvas.apply(&Op::CutAxis(id("0"), Axis::X, 1)).unwrap();
    canvas
        .apply(&Op::Color(id("0.1"), Color::new(10, 20, 30, 40)))
        .unwrap();
    let first = canvas.render();
    let second = canvas.render();
    assert_eq!(first, second);
    assert_eq!(first.len(), 4 * 3 * 2);
}

#[test]
fn rendering_starts_with_the_top_row() {
    let a = Color::new(1, 2, 3, 4);
    let b = Color::new(5, 6, 7, 8);
    let mut canvas = Canvas::new(2, 2);
    canvas
        .apply(&Op::CutPoint(id("0"), Point::new(1, 1)))
        .unwrap();
    // Upper left and lower right.
    canvas.apply(&Op::Color(id("0.3"), a)).unwrap();
    canvas.apply(&Op::Color(id("0.1"), b)).unwrap();
    assert_eq!(
        canvas.render(),
        vec![1, 2, 3, 4, 255, 255, 255, 255, 255, 255, 255, 255, 5, 6, 7, 8]
    );
    assert_eq!(canvas.picture().to_rgba(), canvas.render());
    let result = canvas.finish();
    assert_eq!(result.picture.get(0, 1), a);
    assert_eq!(result.picture.get(1, 0), b);
    assert_eq!(result.cost, 10 + 20 + 20);
}
