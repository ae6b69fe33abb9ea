use borys::color::Color;
use borys::geometry::Point;
use borys::interpreter::apply_ops;
use borys::op::Op;
use borys::parser::{
    parse_mid_int, parse_submit, read_color, read_id, read_instruction, remove_prefix,
    remove_suffix,
};
use borys::partition::Axis;

fn tokens(text: &str) -> Vec<Vec<u8>> {
    text.split_ascii_whitespace()
        .map(|t| t.as_bytes().to_vec())
        .collect()
}

fn id(text: &str) -> Vec<u8> {
    text.as_bytes().to_vec()
}

#[test]
fn the_first_byte_is_taken_off() {
    assert_eq!(remove_prefix(b"[0.1]".to_vec(), '['), b"0.1]".to_vec());
    assert_eq!(remove_prefix(b"x".to_vec(), 'x'), Vec::<u8>::new());
}

#[test]
fn the_last_byte_is_taken_off() {
    assert_eq!(remove_suffix(b"0.1]".to_vec(), ']'), b"0.1".to_vec());
    assert_eq!(remove_suffix(b"x".to_vec(), 'x'), Vec::<u8>::new());
}

#[test]
fn an_identifier_stands_in_square_brackets() {
    assert_eq!(read_id(&id("[0]")), Some(id("0")));
    assert_eq!(read_id(&id("[0.1.3]")), Some(id("0.1.3")));
    assert_eq!(read_id(&id("[]")), Some(id("")));
    assert_eq!(read_id(&id("[")), None);
    assert_eq!(read_id(&id("]")), None);
    assert_eq!(read_id(&id("")), None);
    assert_eq!(read_id(&id("0.1")), None);
    assert_eq!(read_id(&id("[0.1")), None);
    assert_eq!(read_id(&id("0.1]")), None);
}

#[test]
fn a_number_is_read_from_between_what_is_not_a_digit() {
    assert_eq!(parse_mid_int(b"12"), Some(12));
    assert_eq!(parse_mid_int(b"[12,"), Some(12));
    assert_eq!(parse_mid_int(b"34]"), Some(34));
    assert_eq!(parse_mid_int(b"[0]"), Some(0));
    assert_eq!(parse_mid_int(b"[[007]],"), Some(7));
    assert_eq!(parse_mid_int(b"-5"), Some(5));
    assert_eq!(parse_mid_int(b"2147483647"), Some(i32::MAX));
    assert_eq!(parse_mid_int(b"0002147483647"), Some(i32::MAX));
}

#[test]
fn what_is_no_number_is_not_read() {
    assert_eq!(parse_mid_int(b""), None);
    assert_eq!(parse_mid_int(b"[]"), None);
    assert_eq!(parse_mid_int(b"abc"), None);
    assert_eq!(parse_mid_int(b"[12,34]"), None);
    assert_eq!(parse_mid_int(b"1 2"), None);
    assert_eq!(parse_mid_int(b"2147483648"), None);
    assert_eq!(parse_mid_int(b"99999999999999999999999999"), None);
    assert_eq!(parse_mid_int(b"99999999999999999999999999x9"), None);
}

#[test]
fn channels_are_taken_modulo_256() {
    assert_eq!(
        read_color(b"[1,", b"2,", b"3,", b"4]"),
        Some(Color::new(1, 2, 3, 4))
    );
    assert_eq!(
        read_color(b"[255,", b"256,", b"257,", b"1000]"),
        Some(Color::new(255, 0, 1, 232))
    );
    assert_eq!(read_color(b"[1,", b"x,", b"3,", b"4]"), None);
    assert_eq!(read_color(b"[1,", b"2,", b"3,", b"]"), None);
}

#[test]
fn one_instruction_is_read_at_a_time() {
    let t = tokens("cut [0] [X] [3] color [0.1] [1, 2, 3, 4] cut [0.0] [1, 2]");
    assert_eq!(
        read_instruction(&t, 0),
        Some((Op::CutAxis(id("0"), Axis::X, 3), 4))
    );
    assert_eq!(
        read_instruction(&t, 4),
        Some((Op::Color(id("0.1"), Color::new(1, 2, 3, 4)), 6))
    );
    assert_eq!(
        read_instruction(&t, 10),
        Some((Op::CutPoint(id("0.0"), Point::new(1, 2)), 4))
    );
    assert_eq!(read_instruction(&t, 1), None);
    assert_eq!(read_instruction(&t, 13), None);
}

#[test]
fn a_program_is_read_to_its_end() {
    let text = "cut [0] [2, 2]\ncolor [0.1] [255, 0, 0, 255]\ncut [0.2] [Y] [3]\n\ncut [0.3] [1, 1]\nmerge [0.0] [0.1]\n";
    let ops = parse_submit(&tokens(text)).unwrap();
    assert_eq!(
        ops,
        vec![
            Op::CutPoint(id("0"), Point::new(2, 2)),
            Op::Color(id("0.1"), Color::new(255, 0, 0, 255)),
            Op::CutAxis(id("0.2"), Axis::Y, 3),
            Op::CutPoint(id("0.3"), Point::new(1, 1)),
            Op::Merge(id("0.0"), id("0.1")),
        ]
    );
    assert_eq!(parse_submit(&[]), Some(vec![]));
}

#[test]
fn a_program_that_was_read_can_be_run() {
    let text = "cut [0] [2, 2] color [0.1] [255, 0, 0, 255]";
    let ops = parse_submit(&tokens(text)).unwrap();
    let result = apply_ops(&ops, 4, 4).unwrap();
    assert_eq!(result.cost, 30);
    assert_eq!(result.picture.get(3, 1), Color::new(255, 0, 0, 255));
    assert_eq!(result.picture.get(1, 1), Color::white());
}

#[test]
fn what_is_no_program_is_not_read() {
    for text in [
        "merge [0.0]",
        "merge [0.0] 0.1",
        "merge 0.0 [0.1]",
        "swap [0.0] [0.1]",
        "cut",
        "cut [0]",
        "cut [0] [2,",
        "cut [0] [X]",
        "cut 0 [2, 2]",
        "cut [0] [ 2]",
        "cut [0] [2, y]",
        "cut [0] [X] []",
        "cut [0] x 2]",
        "cut [0] [x] [1]",
        "color [0] [1, 2, 3]",
        "color [0] [1, 2, 3, z]",
        "color 0 [1, 2, 3, 4]",
        "cut [0] [2, 2] paint",
        "CUT [0] [2, 2]",
        "[0] cut [2, 2]",
    ] {
        assert_eq!(parse_submit(&tokens(text)), None, "{}", text);
    }
}
