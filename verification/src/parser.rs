//! The text form of a program.
//!
//! A program is a run of tokens, as they stand between the white space of a
//! file. An instruction is one of
//!
//! ```text
//! cut [id] [x, y]
//! cut [id] [X] [x]
//! cut [id] [Y] [y]
//! color [id] [r, g, b, a]
//! merge [id] [id]
//! ```
//!
//! A number is read from the token that holds it by leaving out what is not
//! a digit at both ends of the token.

use vstd::prelude::*;
use crate::block_id::copy_id;
use crate::color::Color;
use crate::geometry::Point;
use crate::op::{program, Op, OpView};
use crate::partition::Axis;

verus! {

/// The byte `[`.
pub const OPEN_BRACKET: u8 = 91;

/// The byte `]`.
pub const CLOSE_BRACKET: u8 = 93;

/// The byte `X`.
pub const LETTER_X: u8 = 88;

/// The byte `Y`.
pub const LETTER_Y: u8 = 89;

/// The word `cut`.
pub open spec fn word_cut() -> Seq<u8> {
    seq![99u8, 117u8, 116u8]
}

/// The word `color`.
pub open spec fn word_color() -> Seq<u8> {
    seq![99u8, 111u8, 108u8, 111u8, 114u8]
}

/// The word `merge`.
pub open spec fn word_merge() -> Seq<u8> {
    seq![109u8, 101u8, 114u8, 103u8, 101u8]
}

/// Whether the byte is one of the digits `0` to `9`.
pub open spec fn is_digit(b: u8) -> bool {
    48 <= b <= 57
}

/// `s` without the bytes at its start that are not digits.
pub open spec fn skip_front(s: Seq<u8>) -> Seq<u8>
    decreases s.len(),
{
    if s.len() > 0 && !is_digit(s[0]) {
        skip_front(s.skip(1))
    } else {
        s
    }
}

/// `s` without the bytes at its end that are not digits.
pub open spec fn skip_back(s: Seq<u8>) -> Seq<u8>
    decreases s.len(),
{
    if s.len() > 0 && !is_digit(s.last()) {
        skip_back(s.drop_last())
    } else {
        s
    }
}

/// Whether `s` holds digits only.
pub open spec fn all_digits(s: Seq<u8>) -> bool {
    forall|i: int| 0 <= i < s.len() ==> is_digit(#[trigger] s[i])
}

/// The number that the digits of `s` write in decimal.
pub open spec fn numeral_value(s: Seq<u8>) -> nat
    decreases s.len(),
{
    if s.len() == 0 {
        0
    } else {
        numeral_value(s.drop_last()) * 10 + (s.last() - 48) as nat
    }
}

/// The number in the middle of a token: what is left of the token without
/// the bytes at both ends that are not digits must be a decimal numeral of
/// a number that fits in an `i32`.
pub open spec fn mid_int(s: Seq<u8>) -> Option<i32> {
    let mid = skip_back(skip_front(s));
    if mid.len() > 0 && all_digits(mid) && numeral_value(mid) <= i32::MAX {
        Some(numeral_value(mid) as i32)
    } else {
        None
    }
}

/// The identifier in a token: the token must be an identifier in square
/// brackets.
pub open spec fn bracketed(token: Seq<u8>) -> Option<Seq<u8>> {
    if token.len() >= 2 && token[0] == OPEN_BRACKET && token.last() == CLOSE_BRACKET {
        Some(token.subrange(1, token.len() - 1))
    } else {
        None
    }
}

/// The colour with the given channels, each taken modulo 256.
pub open spec fn color_of(r: i32, g: i32, b: i32, a: i32) -> Color {
    Color { r: (r % 256) as u8, g: (g % 256) as u8, b: (b % 256) as u8, a: (a % 256) as u8 }
}

/// The instruction that starts at token `pos`, and the number of tokens
/// that it takes up.
pub open spec fn instruction_at(tokens: Seq<Seq<u8>>, pos: int) -> Option<(OpView, int)> {
    if tokens[pos] == word_cut() {
        if pos + 4 > tokens.len() {
            None
        } else {
            let how = tokens[pos + 2];
            match bracketed(tokens[pos + 1]) {
                None => None,
                Some(id) => if how.len() < 2 {
                    None
                } else if how[1] == LETTER_X || how[1] == LETTER_Y {
                    match mid_int(tokens[pos + 3]) {
                        None => None,
                        Some(coordinate) => Some(
                            (
                                OpView::CutAxis(
                                    id,
                                    if how[1] == LETTER_X {
                                        Axis::X
                                    } else {
                                        Axis::Y
                                    },
                                    coordinate,
                                ),
                                4int,
                            ),
                        ),
                    }
                } else {
                    match (mid_int(how), mid_int(tokens[pos + 3])) {
                        (Some(x), Some(y)) => Some((OpView::CutPoint(id, Point { x, y }), 4int)),
                        _ => None,
                    }
                },
            }
        }
    } else if tokens[pos] == word_color() {
        if pos + 6 > tokens.len() {
            None
        } else {
            match (
                bracketed(tokens[pos + 1]),
                mid_int(tokens[pos + 2]),
                mid_int(tokens[pos + 3]),
                mid_int(tokens[pos + 4]),
                mid_int(tokens[pos + 5]),
            ) {
                (Some(id), Some(r), Some(g), Some(b), Some(a)) => Some(
                    (OpView::Color(id, color_of(r, g, b, a)), 6int),
                ),
                _ => None,
            }
        }
    } else if tokens[pos] == word_merge() {
        if pos + 3 > tokens.len() {
            None
        } else {
            match (bracketed(tokens[pos + 1]), bracketed(tokens[pos + 2])) {
                (Some(a), Some(b)) => Some((OpView::Merge(a, b), 3int)),
                _ => None,
            }
        }
    } else {
        None
    }
}

/// The instructions that the tokens from `pos` on spell, if they spell
/// instructions to the end.
pub open spec fn instructions_from(tokens: Seq<Seq<u8>>, pos: int) -> Option<Seq<OpView>>
    decreases tokens.len() - pos,
{
    if pos < 0 || pos >= tokens.len() {
        Some(Seq::empty())
    } else {
        match instruction_at(tokens, pos) {
            None => None,
            Some((op, taken)) => if taken <= 0 {
                None
            } else {
                match instructions_from(tokens, pos + taken) {
                    None => None,
                    Some(rest) => Some(seq![op] + rest),
                }
            },
        }
    }
}

/// The tokens as specifications see them.
pub open spec fn token_views(tokens: Seq<Vec<u8>>) -> Seq<Seq<u8>> {
    tokens.map_values(|t: Vec<u8>| t@)
}

/// `s` without its first byte, which must be `c`.
pub fn remove_prefix(s: Vec<u8>, c: char) -> (rest: Vec<u8>)
    requires
        s.len() > 0,
        s[0] == c as u8,
    ensures
        rest@ == s@.subrange(1, s.len() as int),
{
    let mut rest: Vec<u8> = s;
    let _first: u8 = rest.remove(0);
    assert(rest@ =~= s@.subrange(1, s.len() as int));
    rest
}

/// `s` without its last byte, which must be `c`.
pub fn remove_suffix(s: Vec<u8>, c: char) -> (rest: Vec<u8>)
    requires
        s.len() > 0,
        s[s.len() - 1] == c as u8,
    ensures
        rest@ == s@.subrange(0, s.len() - 1),
{
    let mut rest: Vec<u8> = s;
    let _last: Option<u8> = rest.pop();
    assert(rest@ =~= s@.subrange(0, s.len() - 1));
    rest
}

/// The identifier in a token: the token without its square brackets, or
/// `None` if it does not stand in square brackets.
pub fn read_id(token: &Vec<u8>) -> (id: Option<Vec<u8>>)
    ensures
        match id {
            Some(id) => bracketed(token@) == Some(id@),
            None => bracketed(token@) is None,
        },
{
    if token.len() < 2 || token[0] != OPEN_BRACKET || token[token.len() - 1] != CLOSE_BRACKET {
        return None;
    }
    let inner: Vec<u8> = remove_suffix(remove_prefix(copy_id(token), '['), ']');
    assert(inner@ =~= token@.subrange(1, token.len() - 1));
    Some(inner)
}

/// Bytes that are not digits at the start of `s` do not count.
pub proof fn lemma_skip_front(s: Seq<u8>, k: int)
    requires
        0 <= k <= s.len(),
        forall|i: int| 0 <= i < k ==> !is_digit(#[trigger] s[i]),
    ensures
        skip_front(s) == skip_front(s.skip(k)),
    decreases k,
{
    if k == 0 {
        assert(s.skip(0) =~= s);
    } else {
        assert(!is_digit(s[0]));
        let t = s.skip(1);
        assert forall|i: int| 0 <= i < k - 1 implies !is_digit(#[trigger] t[i]) by {
            assert(t[i] == s[i + 1]);
        }
        lemma_skip_front(t, k - 1);
        assert(t.skip(k - 1) =~= s.skip(k));
    }
}

/// Bytes that are not digits at the end of `s` do not count.
pub proof fn lemma_skip_back(s: Seq<u8>, k: int)
    requires
        0 <= k <= s.len(),
        forall|i: int| k <= i < s.len() ==> !is_digit(#[trigger] s[i]),
    ensures
        skip_back(s) == skip_back(s.take(k)),
    decreases s.len() - k,
{
    if k == s.len() {
        assert(s.take(k) =~= s);
    } else {
        assert(!is_digit(s.last()));
        let t = s.drop_last();
        assert forall|i: int| k <= i < t.len() implies !is_digit(#[trigger] t[i]) by {
            assert(t[i] == s[i]);
        }
        lemma_skip_back(t, k);
        assert(t.take(k) =~= s.take(k));
    }
}

/// A numeral is worth at least as much as any of its beginnings.
pub proof fn lemma_numeral_grows(s: Seq<u8>, k: int)
    requires
        0 <= k <= s.len(),
        all_digits(s),
    ensures
        numeral_value(s.take(k)) <= numeral_value(s),
    decreases s.len() - k,
{
    if k == s.len() {
        assert(s.take(k) =~= s);
    } else {
        let t = s.drop_last();
        assert forall|i: int| 0 <= i < t.len() implies is_digit(#[trigger] t[i]) by {
            assert(t[i] == s[i]);
        }
        lemma_numeral_grows(t, k);
        assert(t.take(k) =~= s.take(k));
        assert(is_digit(s.last()));
    }
}

/// Whether the byte is a digit.
fn digit(b: u8) -> (d: bool)
    ensures
        d == is_digit(b),
{
    48 <= b && b <= 57
}

/// The number in the middle of a token: the token without what is not a
/// digit at both of its ends, read as a decimal numeral. `None` if nothing
/// is left, if something other than a digit stands between two digits, or
/// if the number does not fit in an `i32`.
pub fn parse_mid_int(s: &[u8]) -> (value: Option<i32>)
    ensures
        value == mid_int(s@),
{
    let n: usize = s.len();
    let mut start: usize = 0;
    while start < n && !digit(s[start])
        invariant
            start <= n,
            n == s.len(),
            forall|i: int| 0 <= i < start ==> !is_digit(#[trigger] s@[i]),
        decreases n - start,
    {
        start += 1;
    }
    proof {
        lemma_skip_front(s@, start as int);
    }
    if start == n {
        assert(s@.skip(n as int).len() == 0);
        return None;
    }
    let mut end: usize = n - 1;
    while !digit(s[end])
        invariant
            start <= end < n,
            n == s.len(),
            is_digit(s@[start as int]),
            forall|i: int| end < i < n ==> !is_digit(#[trigger] s@[i]),
        decreases end,
    {
        end -= 1;
    }
    let ghost front = s@.skip(start as int);
    let ghost mid = s@.subrange(start as int, end + 1);
    proof {
        assert(front[0] == s@[start as int]);
        assert(skip_front(s@) == front);
        assert forall|i: int| end + 1 - start <= i < front.len() implies !is_digit(
            #[trigger] front[i],
        ) by {
            assert(front[i] == s@[i + start]);
        }
        lemma_skip_back(front, end + 1 - start);
        assert(front.take(end + 1 - start) =~= mid);
        assert(mid.last() == s@[end as int]);
        assert(skip_back(mid) == mid);
        assert(skip_back(skip_front(s@)) == mid);
    }
    let mut value: i64 = 0;
    let mut i: usize = start;
    assert(mid.take(0).len() == 0);
    while i <= end
        invariant
            start <= i <= end + 1,
            end < n,
            n == s.len(),
            mid == s@.subrange(start as int, end + 1),
            skip_back(skip_front(s@)) == mid,
            all_digits(mid.take(i - start)),
            value == numeral_value(mid.take(i - start)),
            0 <= value <= i32::MAX,
        decreases end + 1 - i,
    {
        let b: u8 = s[i];
        assert(mid[i - start] == b);
        if !digit(b) {
            return None;
        }
        proof {
            assert(mid.take(i + 1 - start).drop_last() =~= mid.take(i - start));
            assert(mid.take(i + 1 - start).last() == b);
            assert forall|j: int| 0 <= j < i + 1 - start implies is_digit(
                #[trigger] mid.take(i + 1 - start)[j],
            ) by {
                if j < i - start {
                    assert(mid.take(i - start)[j] == mid.take(i + 1 - start)[j]);
                }
            }
        }
        value = value * 10 + (b - 48) as i64;
        if value > 0x7fff_ffff {
            proof {
                if all_digits(mid) {
                    lemma_numeral_grows(mid, i + 1 - start);
                }
            }
            return None;
        }
        i += 1;
    }
    assert(mid.take(i - start) =~= mid);
    Some(value as i32)
}

/// Whether the token is the word `cut`.
fn is_cut(token: &Vec<u8>) -> (b: bool)
    ensures
        b == (token@ == word_cut()),
{
    let b: bool = token.len() == 3 && token[0] == 99 && token[1] == 117 && token[2] == 116;
    proof {
        if b {
            assert(token@ =~= word_cut());
        } else if token@ == word_cut() {
            assert(word_cut().len() == 3);
        }
    }
    b
}

/// Whether the token is the word `color`.
fn is_color(token: &Vec<u8>) -> (b: bool)
    ensures
        b == (token@ == word_color()),
{
    let b: bool = token.len() == 5 && token[0] == 99 && token[1] == 111 && token[2] == 108
        && token[3] == 111 && token[4] == 114;
    proof {
        if b {
            assert(token@ =~= word_color());
        } else if token@ == word_color() {
            assert(word_color().len() == 5);
        }
    }
    b
}

/// Whether the token is the word `merge`.
fn is_merge(token: &Vec<u8>) -> (b: bool)
    ensures
        b == (token@ == word_merge()),
{
    let b: bool = token.len() == 5 && token[0] == 109 && token[1] == 101 && token[2] == 114
        && token[3] == 103 && token[4] == 101;
    proof {
        if b {
            assert(token@ =~= word_merge());
        } else if token@ == word_merge() {
            assert(word_merge().len() == 5);
        }
    }
    b
}

/// A number between 0 and 255 from one that is not negative: the number
/// modulo 256.
fn channel(value: i32) -> (c: u8)
    requires
        0 <= value,
    ensures
        c == (value % 256) as u8,
{
    (value % 256) as u8
}

/// The colour that four tokens spell, each holding one channel.
pub fn read_color(red: &[u8], green: &[u8], blue: &[u8], alpha: &[u8]) -> (color: Option<Color>)
    ensures
        color == match (mid_int(red@), mid_int(green@), mid_int(blue@), mid_int(alpha@)) {
            (Some(r), Some(g), Some(b), Some(a)) => Some(color_of(r, g, b, a)),
            _ => None,
        },
{
    let r: i32 = match parse_mid_int(red) {
        Some(r) => r,
        None => {
            return None;
        },
    };
    let g: i32 = match parse_mid_int(green) {
        Some(g) => g,
        None => {
            return None;
        },
    };
    let b: i32 = match parse_mid_int(blue) {
        Some(b) => b,
        None => {
            return None;
        },
    };
    let a: i32 = match parse_mid_int(alpha) {
        Some(a) => a,
        None => {
            return None;
        },
    };
    Some(Color { r: channel(r), g: channel(g), b: channel(b), a: channel(a) })
}

/// The instruction that starts at token `pos`, and the number of tokens
/// that it takes up; `None` if the tokens there spell no instruction.
pub fn read_instruction(tokens: &[Vec<u8>], pos: usize) -> (found: Option<(Op, usize)>)
    requires
        pos < tokens.len(),
    ensures
        match found {
            Some((op, taken)) => instruction_at(token_views(tokens@), pos as int) == Some(
                (op@, taken as int),
            ) && 0 < taken && pos + taken <= tokens.len(),
            None => instruction_at(token_views(tokens@), pos as int) is None,
        },
{
    let ghost views = token_views(tokens@);
    let left: usize = tokens.len() - pos;
    if is_cut(&tokens[pos]) {
        if left < 4 {
            return None;
        }
        assert(views[pos + 1] == tokens@[pos + 1]@);
        assert(views[pos + 2] == tokens@[pos + 2]@);
        assert(views[pos + 3] == tokens@[pos + 3]@);
        let id: Vec<u8> = match read_id(&tokens[pos + 1]) {
            Some(id) => id,
            None => {
                return None;
            },
        };
        let how: &Vec<u8> = &tokens[pos + 2];
        if how.len() < 2 {
            return None;
        }
        if how[1] == LETTER_X || how[1] == LETTER_Y {
            let coordinate: i32 = match parse_mid_int(tokens[pos + 3].as_slice()) {
                Some(c) => c,
                None => {
                    return None;
                },
            };
            let axis: Axis = if how[1] == LETTER_X {
                Axis::X
            } else {
                Axis::Y
            };
            Some((Op::CutAxis(id, axis, coordinate), 4))
        } else {
            let x: i32 = match parse_mid_int(how.as_slice()) {
                Some(x) => x,
                None => {
                    return None;
                },
            };
            let y: i32 = match parse_mid_int(tokens[pos + 3].as_slice()) {
                Some(y) => y,
                None => {
                    return None;
                },
            };
            Some((Op::CutPoint(id, Point { x, y }), 4))
        }
    } else if is_color(&tokens[pos]) {
        if left < 6 {
            return None;
        }
        assert(views[pos + 1] == tokens@[pos + 1]@);
        assert(views[pos + 2] == tokens@[pos + 2]@);
        assert(views[pos + 3] == tokens@[pos + 3]@);
        assert(views[pos + 4] == tokens@[pos + 4]@);
        assert(views[pos + 5] == tokens@[pos + 5]@);
        let id: Vec<u8> = match read_id(&tokens[pos + 1]) {
            Some(id) => id,
            None => {
                return None;
            },
        };
        let color: Color = match read_color(
            tokens[pos + 2].as_slice(),
            tokens[pos + 3].as_slice(),
            tokens[pos + 4].as_slice(),
            tokens[pos + 5].as_slice(),
        ) {
            Some(color) => color,
            None => {
                return None;
            },
        };
        Some((Op::Color(id, color), 6))
    } else if is_merge(&tokens[pos]) {
        if left < 3 {
            return None;
        }
        assert(views[pos + 1] == tokens@[pos + 1]@);
        assert(views[pos + 2] == tokens@[pos + 2]@);
        let a: Vec<u8> = match read_id(&tokens[pos + 1]) {
            Some(id) => id,
            None => {
                return None;
            },
        };
        let b: Vec<u8> = match read_id(&tokens[pos + 2]) {
            Some(id) => id,
            None => {
                return None;
            },
        };
        Some((Op::Merge(a, b), 3))
    } else {
        None
    }
}

/// The program that the tokens spell, or `None` if they do not spell
/// instructions from the first token to the last.
pub fn parse_submit(tokens: &[Vec<u8>]) -> (parsed: Option<Vec<Op>>)
    ensures
        match parsed {
            Some(ops) => instructions_from(token_views(tokens@), 0) == Some(program(ops@)),
            None => instructions_from(token_views(tokens@), 0) is None,
        },
{
    let ghost views = token_views(tokens@);
    let ghost whole = instructions_from(views, 0);
    let mut res: Vec<Op> = Vec::new();
    let mut pos: usize = 0;
    assert(program(res@) =~= Seq::empty());
    while pos < tokens.len()
        invariant
            pos <= tokens.len(),
            views == token_views(tokens@),
            whole == instructions_from(views, 0),
            whole == match instructions_from(views, pos as int) {
                Some(rest) => Some(program(res@) + rest),
                None => None,
            },
        decreases tokens.len() - pos,
    {
        let (op, taken): (Op, usize) = match read_instruction(tokens, pos) {
            Some(found) => found,
            None => {
                return None;
            },
        };
        let ghost before = res@;
        let ghost view = op@;
        res.push(op);
        pos += taken;
        proof {
            assert(program(res@) =~= program(before).push(view));
            match instructions_from(views, pos as int) {
                Some(rest) => {
                    assert(program(before) + (seq![view] + rest) =~= program(res@) + rest);
                },
                None => {},
            }
        }
    }
    proof {
        assert(program(res@) + Seq::<OpView>::empty() =~= program(res@));
    }
    Some(res)
}

} // verus!
