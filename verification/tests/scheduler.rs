use borys::color::Color;
use borys::error::Error;
use borys::geometry::Point;
use borys::interpreter::apply_ops;
use borys::op::Op;
use borys::partition::Axis;
use borys::scheduler::{
    color_corner, gen_ops_by_solution_rects, gen_rects_by_ops, precedes, schedule, MergeResult,
    SolutionRect,
};

fn id(text: &str) -> Vec<u8> {
    text.as_bytes().to_vec()
}

fn rect(x1: i32, y1: i32, x2: i32, y2: i32, shade: u8) -> SolutionRect {
    SolutionRect {
        from: Point::new(x1, y1),
        to: Point::new(x2, y2),
        color: Color::new(shade, shade, shade, 255),
    }
}

fn shade(s: u8) -> Color {
    Color::new(s, s, s, 255)
}

fn fresh() -> MergeResult {
    MergeResult {
        ops: Vec::new(),
        last_block_id: 0,
    }
}

#[test]
fn no_rectangles_need_no_order() {
    assert_eq!(schedule(&[]), Ok(vec![]));
    assert_eq!(gen_ops_by_solution_rects(&[], 4, 4, &fresh()), Ok(vec![]));
}

#[test]
fn rectangles_that_do_not_wait_for_each_other_keep_their_order() {
    // Each starts to the right of or above the far corner of the other.
    let a = rect(2, 0, 4, 2, 1);
    let b = rect(0, 2, 2, 4, 2);
    assert!(!precedes(&[a, b], 0, 1));
    assert!(!precedes(&[a, b], 1, 0));
    assert!(!precedes(&[a, b], 0, 0));
    assert_eq!(schedule(&[a, b]), Ok(vec![0, 1]));
    assert_eq!(schedule(&[b, a]), Ok(vec![0, 1]));
}

#[test]
fn a_chain_is_painted_from_its_start() {
    let a = rect(0, 0, 1, 1, 1);
    let b = rect(1, 0, 2, 1, 2);
    let c = rect(2, 0, 3, 1, 3);
    assert!(precedes(&[a, b, c], 0, 1));
    assert!(precedes(&[a, b, c], 1, 2));
    assert!(!precedes(&[a, b, c], 1, 0));
    assert!(!precedes(&[a, b, c], 2, 1));
    assert_eq!(schedule(&[a, b, c]), Ok(vec![0, 1, 2]));
    assert_eq!(schedule(&[c, a, b]), Ok(vec![1, 2, 0]));
    assert_eq!(schedule(&[c, b, a]), Ok(vec![2, 1, 0]));
    assert_eq!(schedule(&[b, c, a]), Ok(vec![2, 0, 1]));
}

#[test]
fn what_becomes_ready_during_a_pass_is_painted_in_that_pass() {
    // 0 waits for 3; 1 and 2 wait for nothing but 0 and 3; 3 waits for nothing.
    let r0 = rect(1, 0, 2, 1, 0);
    let r3 = rect(0, 0, 1, 1, 3);
    let r1 = rect(2, 0, 3, 1, 1);
    let r2 = rect(3, 0, 4, 1, 2);
    // After 3 is painted nothing is left of the pass, so 0, 1 and 2 follow
    // in the second pass, in the order of their indices.
    assert_eq!(schedule(&[r0, r1, r2, r3]), Ok(vec![3, 0, 1, 2]));
}

#[test]
fn rectangles_that_wait_for_each_other_cannot_be_scheduled() {
    let a = rect(0, 0, 3, 3, 1);
    let b = rect(1, 1, 4, 4, 2);
    assert!(precedes(&[a, b], 0, 1));
    assert!(precedes(&[a, b], 1, 0));
    assert_eq!(schedule(&[a, b]), Err(Error::UnsatisfiableOrder(vec![0, 1])));
    assert_eq!(
        gen_ops_by_solution_rects(&[a, b], 4, 4, &fresh()),
        Err(Error::UnsatisfiableOrder(vec![0, 1]))
    );
}

#[test]
fn only_the_rectangles_that_are_stuck_are_reported() {
    let free = rect(0, 0, 1, 1, 0);
    let a = rect(1, 1, 3, 3, 1);
    let b = rect(2, 2, 4, 4, 2);
    assert_eq!(
        schedule(&[a, free, b]),
        Err(Error::UnsatisfiableOrder(vec![0, 2]))
    );
    // What waits for a stuck rectangle is stuck as well.
    let last = rect(4, 1, 5, 2, 3);
    assert_eq!(
        schedule(&[last, a, free, b]),
        Err(Error::UnsatisfiableOrder(vec![0, 1, 3]))
    );
}

#[test]
fn a_rectangle_that_covers_itself_alone_can_be_painted() {
    assert_eq!(schedule(&[rect(0, 0, 4, 4, 1)]), Ok(vec![0]));
}

#[test]
fn the_origin_is_painted_without_a_cut() {
    let paint = color_corner(Point::new(0, 0), 5, shade(1));
    assert_eq!(paint.ops, vec![Op::Color(id("5"), shade(1))]);
    assert_eq!(paint.cur_whole_id, 5);
}

#[test]
fn a_corner_on_an_edge_is_painted_with_a_line_cut() {
    let paint = color_corner(Point::new(0, 3), 0, shade(1));
    assert_eq!(
        paint.ops,
        vec![
            Op::CutAxis(id("0"), Axis::Y, 3),
            Op::Color(id("0.1"), shade(1)),
            Op::Merge(id("0.0"), id("0.1")),
        ]
    );
    assert_eq!(paint.cur_whole_id, 1);
    let paint = color_corner(Point::new(2, 0), 9, shade(2));
    assert_eq!(
        paint.ops,
        vec![
            Op::CutAxis(id("9"), Axis::X, 2),
            Op::Color(id("9.1"), shade(2)),
            Op::Merge(id("9.0"), id("9.1")),
        ]
    );
    assert_eq!(paint.cur_whole_id, 10);
}

#[test]
fn a_corner_inside_is_painted_with_a_point_cut() {
    let paint = color_corner(Point::new(2, 3), 8, shade(7));
    assert_eq!(
        paint.ops,
        vec![
            Op::CutPoint(id("8"), Point::new(2, 3)),
            Op::Color(id("8.2"), shade(7)),
            Op::Merge(id("8.0"), id("8.1")),
            Op::Merge(id("8.3"), id("8.2")),
            Op::Merge(id("9"), id("10")),
        ]
    );
    assert_eq!(paint.cur_whole_id, 11);
}

#[test]
fn the_program_follows_the_prior_instructions() {
    let prior = MergeResult {
        ops: vec![
            Op::CutAxis(id("0"), Axis::X, 1),
            Op::Merge(id("0.0"), id("0.1")),
        ],
        last_block_id: 1,
    };
    let b = rect(1, 0, 2, 1, 2);
    let a = rect(0, 0, 1, 1, 1);
    let ops = gen_ops_by_solution_rects(&[b, a], 2, 1, &prior).unwrap();
    assert_eq!(
        ops,
        vec![
            Op::CutAxis(id("0"), Axis::X, 1),
            Op::Merge(id("0.0"), id("0.1")),
            Op::Color(id("1"), shade(1)),
            Op::CutAxis(id("1"), Axis::X, 1),
            Op::Color(id("1.1"), shade(2)),
            Op::Merge(id("1.0"), id("1.1")),
        ]
    );
    let result = apply_ops(&ops, 2, 1).unwrap();
    assert_eq!(result.picture.get(0, 0), shade(1));
    assert_eq!(result.picture.get(1, 0), shade(2));
}

#[test]
fn the_program_paints_the_picture() {
    let tiles = [
        rect(2, 2, 4, 4, 3),
        rect(0, 0, 2, 4, 1),
        rect(2, 0, 4, 2, 2),
    ];
    assert_eq!(schedule(&tiles), Ok(vec![1, 2, 0]));
    let ops = gen_ops_by_solution_rects(&tiles, 4, 4, &fresh()).unwrap();
    assert_eq!(
        ops,
        vec![
            Op::Color(id("0"), shade(1)),
            Op::CutAxis(id("0"), Axis::X, 2),
            Op::Color(id("0.1"), shade(2)),
            Op::Merge(id("0.0"), id("0.1")),
            Op::CutPoint(id("1"), Point::new(2, 2)),
            Op::Color(id("1.2"), shade(3)),
            Op::Merge(id("1.0"), id("1.1")),
            Op::Merge(id("1.3"), id("1.2")),
            Op::Merge(id("2"), id("3")),
        ]
    );
    let result = apply_ops(&ops, 4, 4).unwrap();
    for x in 0..4usize {
        for y in 0..4usize {
            let tile = tiles
                .iter()
                .find(|t| {
                    (t.from.x..t.to.x).contains(&(x as i32))
                        && (t.from.y..t.to.y).contains(&(y as i32))
                })
                .unwrap();
            assert_eq!(result.picture.get(x, y), tile.color);
        }
    }
    // 5 + 7 + 10 + 2 + 10 + 20 + 4 + 4 + 2
    assert_eq!(result.cost, 64);
}

#[test]
fn rectangles_are_read_from_the_cuts_before_each_colouring() {
    let ops = vec![
        Op::Color(id("0"), shade(1)),
        Op::CutPoint(id("0"), Point::new(2, 3)),
        Op::Color(id("0.2"), shade(2)),
        Op::Merge(id("0.0"), id("0.1")),
        Op::Color(id("0.3"), shade(3)),
        Op::CutAxis(id("1"), Axis::Y, 1),
        Op::Color(id("1.1"), shade(4)),
        Op::CutAxis(id("1.0"), Axis::X, 5),
        Op::Color(id("1.0.1"), shade(5)),
    ];
    assert_eq!(
        gen_rects_by_ops(&ops, 6, 7),
        vec![
            rect(0, 0, 6, 7, 1),
            rect(2, 3, 6, 7, 2),
            rect(2, 3, 6, 7, 3),
            rect(0, 1, 6, 7, 4),
            rect(5, 0, 6, 7, 5),
        ]
    );
    assert_eq!(gen_rects_by_ops(&[], 6, 7), vec![]);
}

#[test]
fn the_rectangles_can_be_had_again_from_the_program() {
    // One rectangle starts on the canvas and reaches to its far corner; the
    // others start outside it and so cover nothing.
    let rects = [
        rect(4, 1, 4, 4, 2),
        rect(1, 2, 4, 4, 1),
        rect(0, 4, 4, 4, 3),
    ];
    assert_eq!(schedule(&rects), Ok(vec![1, 2, 0]));
    let ops = gen_ops_by_solution_rects(&rects, 4, 4, &fresh()).unwrap();
    let back = gen_rects_by_ops(&ops, 4, 4);
    assert_eq!(back, vec![rects[1], rects[2], rects[0]]);
    for r in &rects {
        assert!(back.contains(r));
    }
    for r in &back {
        assert!(rects.contains(r));
    }
    // A rectangle at the origin is painted first and is told from the
    // missing cut.
    let whole = [rect(0, 0, 4, 4, 9)];
    let ops = gen_ops_by_solution_rects(&whole, 4, 4, &fresh()).unwrap();
    assert_eq!(gen_rects_by_ops(&ops, 4, 4), whole.to_vec());
}

#[test]
fn a_rectangle_that_ends_before_the_far_corner_comes_back_longer() {
    let rects = [rect(0, 0, 2, 2, 1)];
    let ops = gen_ops_by_solution_rects(&rects, 4, 4, &fresh()).unwrap();
    assert_eq!(gen_rects_by_ops(&ops, 4, 4), vec![rect(0, 0, 4, 4, 1)]);
}
