//! Point clouds in the binary little-endian PLY layout.
//!
//! The file begins with seven lines of text, each ended by a line feed: the
//! magic, the format, the number of vertices, the three properties `x`, `y`
//! and `z`, and the end of the header. Then come twelve bytes for each vertex:
//! three binary32 numbers, low byte first. A point of the cloud holds the
//! first as its `x`, the third as its `y` and the second as its `z`.
use crate::formats::{read_u32, u32_from_le};
use crate::pointcloud::PointCloud;
use crate::scalar::Scalar;
use crate::vector::Vector3;
use vstd::prelude::*;

verus! {

/// `ply` and a line feed: the first line.
pub open spec fn magic_line() -> Seq<u8> {
    seq![
        'p' as u8, 'l' as u8, 'y' as u8, '\n' as u8,
    ]
}

/// The second line: the only format that is read.
pub open spec fn format_line() -> Seq<u8> {
    seq![
        'f' as u8, 'o' as u8, 'r' as u8, 'm' as u8, 'a' as u8, 't' as u8, ' ' as u8, 'b' as u8,
        'i' as u8, 'n' as u8, 'a' as u8, 'r' as u8, 'y' as u8, '_' as u8, 'l' as u8, 'i' as u8,
        't' as u8, 't' as u8, 'l' as u8, 'e' as u8, '_' as u8, 'e' as u8, 'n' as u8, 'd' as u8,
        'i' as u8, 'a' as u8, 'n' as u8, ' ' as u8, '1' as u8, '.' as u8, '0' as u8,
        '\n' as u8,
    ]
}

/// What the third line begins with, before the number of vertices.
pub open spec fn count_prefix() -> Seq<u8> {
    seq![
        'e' as u8, 'l' as u8, 'e' as u8, 'm' as u8, 'e' as u8, 'n' as u8, 't' as u8, ' ' as u8,
        'v' as u8, 'e' as u8, 'r' as u8, 't' as u8, 'e' as u8, 'x' as u8, ' ' as u8,
    ]
}

/// The fourth line.
pub open spec fn property_x_line() -> Seq<u8> {
    seq![
        'p' as u8, 'r' as u8, 'o' as u8, 'p' as u8, 'e' as u8, 'r' as u8, 't' as u8, 'y' as u8,
        ' ' as u8, 'f' as u8, 'l' as u8, 'o' as u8, 'a' as u8, 't' as u8, ' ' as u8, 'x' as u8,
        '\n' as u8,
    ]
}

/// The fifth line.
pub open spec fn property_y_line() -> Seq<u8> {
    seq![
        'p' as u8, 'r' as u8, 'o' as u8, 'p' as u8, 'e' as u8, 'r' as u8, 't' as u8, 'y' as u8,
        ' ' as u8, 'f' as u8, 'l' as u8, 'o' as u8, 'a' as u8, 't' as u8, ' ' as u8, 'y' as u8,
        '\n' as u8,
    ]
}

/// The sixth line.
pub open spec fn property_z_line() -> Seq<u8> {
    seq![
        'p' as u8, 'r' as u8, 'o' as u8, 'p' as u8, 'e' as u8, 'r' as u8, 't' as u8, 'y' as u8,
        ' ' as u8, 'f' as u8, 'l' as u8, 'o' as u8, 'a' as u8, 't' as u8, ' ' as u8, 'z' as u8,
        '\n' as u8,
    ]
}

/// The seventh line, which ends the header.
pub open spec fn end_line() -> Seq<u8> {
    seq![
        'e' as u8, 'n' as u8, 'd' as u8, '_' as u8, 'h' as u8, 'e' as u8, 'a' as u8, 'd' as u8,
        'e' as u8, 'r' as u8, '\n' as u8,
    ]
}

fn magic_line_text() -> (text: [u8; 4])
    ensures
        text@ == magic_line(),
{
    let text: [u8; 4] = [
        'p' as u8, 'l' as u8, 'y' as u8, '\n' as u8,
    ];
    assert(text@ =~= magic_line());
    text
}

fn format_line_text() -> (text: [u8; 32])
    ensures
        text@ == format_line(),
{
    let text: [u8; 32] = [
        'f' as u8, 'o' as u8, 'r' as u8, 'm' as u8, 'a' as u8, 't' as u8, ' ' as u8, 'b' as u8,
        'i' as u8, 'n' as u8, 'a' as u8, 'r' as u8, 'y' as u8, '_' as u8, 'l' as u8, 'i' as u8,
        't' as u8, 't' as u8, 'l' as u8, 'e' as u8, '_' as u8, 'e' as u8, 'n' as u8, 'd' as u8,
        'i' as u8, 'a' as u8, 'n' as u8, ' ' as u8, '1' as u8, '.' as u8, '0' as u8,
        '\n' as u8,
    ];
    assert(text@ =~= format_line());
    text
}

fn count_prefix_text() -> (text: [u8; 15])
    ensures
        text@ == count_prefix(),
{
    let text: [u8; 15] = [
        'e' as u8, 'l' as u8, 'e' as u8, 'm' as u8, 'e' as u8, 'n' as u8, 't' as u8, ' ' as u8,
        'v' as u8, 'e' as u8, 'r' as u8, 't' as u8, 'e' as u8, 'x' as u8, ' ' as u8,
    ];
    assert(text@ =~= count_prefix());
    text
}

fn property_x_line_text() -> (text: [u8; 17])
    ensures
        text@ == property_x_line(),
{
    let text: [u8; 17] = [
        'p' as u8, 'r' as u8, 'o' as u8, 'p' as u8, 'e' as u8, 'r' as u8, 't' as u8, 'y' as u8,
        ' ' as u8, 'f' as u8, 'l' as u8, 'o' as u8, 'a' as u8, 't' as u8, ' ' as u8, 'x' as u8,
        '\n' as u8,
    ];
    assert(text@ =~= property_x_line());
    text
}

fn property_y_line_text() -> (text: [u8; 17])
    ensures
        text@ == property_y_line(),
{
    let text: [u8; 17] = [
        'p' as u8, 'r' as u8, 'o' as u8, 'p' as u8, 'e' as u8, 'r' as u8, 't' as u8, 'y' as u8,
        ' ' as u8, 'f' as u8, 'l' as u8, 'o' as u8, 'a' as u8, 't' as u8, ' ' as u8, 'y' as u8,
        '\n' as u8,
    ];
    assert(text@ =~= property_y_line());
    text
}

fn property_z_line_text() -> (text: [u8; 17])
    ensures
        text@ == property_z_line(),
{
    let text: [u8; 17] = [
        'p' as u8, 'r' as u8, 'o' as u8, 'p' as u8, 'e' as u8, 'r' as u8, 't' as u8, 'y' as u8,
        ' ' as u8, 'f' as u8, 'l' as u8, 'o' as u8, 'a' as u8, 't' as u8, ' ' as u8, 'z' as u8,
        '\n' as u8,
    ];
    assert(text@ =~= property_z_line());
    text
}

fn end_line_text() -> (text: [u8; 11])
    ensures
        text@ == end_line(),
{
    let text: [u8; 11] = [
        'e' as u8, 'n' as u8, 'd' as u8, '_' as u8, 'h' as u8, 'e' as u8, 'a' as u8, 'd' as u8,
        'e' as u8, 'r' as u8, '\n' as u8,
    ];
    assert(text@ =~= end_line());
    text
}

/// Why bytes are not a point cloud in the layout that is read.
#[derive(Clone, Copy, Debug, PartialEq, Eq, Structural)]
pub enum PlyError {
    /// The first line is not the magic.
    BadMagic,
    /// The second line names another format.
    BadFormat,
    /// The third line does not give the number of vertices.
    BadVertexCount,
    /// The fourth, fifth or sixth line is not the property `x`, `y` or `z`.
    BadProperty,
    /// The seventh line does not end the header.
    BadHeaderEnd,
    /// There are fewer than twelve bytes for each vertex counted.
    Truncated,
}

/// The bytes from `at` on begin with `text`.
pub open spec fn found_at(bytes: Seq<u8>, at: int, text: Seq<u8>) -> bool {
    at + text.len() <= bytes.len() && bytes.subrange(at, at + text.len()) == text
}

/// The place of the first line feed at or after `from`, and the length of the
/// bytes where there is none.
pub open spec fn line_end(bytes: Seq<u8>, from: int) -> int
    decreases bytes.len() - from,
{
    if from >= bytes.len() {
        bytes.len() as int
    } else if bytes[from] == '\n' as u8 {
        from
    } else {
        line_end(bytes, from + 1)
    }
}

/// Every byte is a decimal digit.
pub open spec fn is_digits(text: Seq<u8>) -> bool {
    forall|i: int| 0 <= i < text.len() ==> '0' as u8 <= #[trigger] text[i] <= '9' as u8
}

/// The number that decimal digits stand for.
pub open spec fn digits_value(text: Seq<u8>) -> nat
    decreases text.len(),
{
    if text.len() == 0 {
        0
    } else {
        10 * digits_value(text.drop_last()) + (text.last() - '0' as u8) as nat
    }
}

/// The text without the one plus sign that may stand before the digits.
pub open spec fn unsigned_part(text: Seq<u8>) -> Seq<u8> {
    if text.len() > 0 && text[0] == '+' as u8 {
        text.drop_first()
    } else {
        text
    }
}

/// The number of vertices that a text stands for: the text is one or more
/// decimal digits, with or without a plus sign before them, and the number
/// fits a `usize`.
pub open spec fn count_of(text: Seq<u8>) -> Option<usize> {
    let digits = unsigned_part(text);
    if digits.len() > 0 && is_digits(digits) && digits_value(digits) <= usize::MAX {
        Some(digits_value(digits) as usize)
    } else {
        None
    }
}

/// The number in the four bytes from `at` on, as the bits of a binary32
/// number.
pub open spec fn scalar_at(bytes: Seq<u8>, at: int) -> Scalar {
    Scalar { bits: u32_from_le(bytes.subrange(at, at + 4)) }
}

/// The point in the twelve bytes from `at` on: the second number is the
/// point's `z`, the third its `y`.
pub open spec fn point_at(bytes: Seq<u8>, at: int) -> Vector3 {
    Vector3 { x: scalar_at(bytes, at), y: scalar_at(bytes, at + 8), z: scalar_at(bytes, at + 4) }
}

/// The `count` points that the bytes hold from `start` on, in order.
pub open spec fn points_at(bytes: Seq<u8>, start: int, count: nat) -> Seq<Vector3> {
    Seq::new(count, |i: int| point_at(bytes, start + 12 * i))
}

/// A point as a cloud holds it: opaque white.
pub open spec fn white_point(p: Vector3) -> (Vector3, [u8; 4]) {
    (p, [255u8, 255u8, 255u8, 255u8])
}

/// The points of a cloud that is read from the given points: those whose
/// three coordinates are all finite, in order, each opaque white.
pub open spec fn kept(points: Seq<Vector3>) -> Seq<(Vector3, [u8; 4])> {
    points.filter(|p: Vector3| p.is_finite()).map_values(|p: Vector3| white_point(p))
}

/// The length of the header from the line feed of the third line on: that
/// line feed, the three property lines and the last line.
pub open spec fn header_tail_len() -> int {
    (1 + property_x_line().len() + property_y_line().len() + property_z_line().len()
        + end_line().len()) as int
}

/// What bytes stand for as a point cloud.
pub open spec fn parsed(bytes: Seq<u8>) -> Result<Seq<(Vector3, [u8; 4])>, PlyError> {
    let count_from = (magic_line().len() + format_line().len() + count_prefix().len()) as int;
    let end = line_end(bytes, count_from);
    if !found_at(bytes, 0, magic_line()) {
        Err(PlyError::BadMagic)
    } else if !found_at(bytes, magic_line().len() as int, format_line()) {
        Err(PlyError::BadFormat)
    } else if !found_at(bytes, (magic_line().len() + format_line().len()) as int, count_prefix())
        || end >= bytes.len() || count_of(bytes.subrange(count_from, end)) is None {
        Err(PlyError::BadVertexCount)
    } else if !found_at(bytes, end + 1, property_x_line()) || !found_at(
        bytes,
        end + 1 + property_x_line().len(),
        property_y_line(),
    ) || !found_at(
        bytes,
        end + 1 + property_x_line().len() + property_y_line().len(),
        property_z_line(),
    ) {
        Err(PlyError::BadProperty)
    } else if !found_at(bytes, end + header_tail_len() - end_line().len(), end_line()) {
        Err(PlyError::BadHeaderEnd)
    } else if bytes.len() < end + header_tail_len() + 12 * count_of(
        bytes.subrange(count_from, end),
    ).unwrap() {
        Err(PlyError::Truncated)
    } else {
        Ok(
            kept(
                points_at(
                    bytes,
                    end + header_tail_len(),
                    count_of(bytes.subrange(count_from, end)).unwrap() as nat,
                ),
            ),
        )
    }
}

/// Whether the bytes from `at` on begin with `text`.
fn found(bytes: &[u8], at: usize, text: &[u8]) -> (b: bool)
    ensures
        b == found_at(bytes@, at as int, text@),
{
    if text.len() > bytes.len() || at > bytes.len() - text.len() {
        return false;
    }
    let mut i: usize = 0;
    while i < text.len()
        invariant
            i <= text.len(),
            at + text.len() <= bytes.len(),
            forall|j: int| 0 <= j < i ==> bytes[at + j] == text[j],
        decreases text.len() - i,
    {
        if bytes[at + i] != text[i] {
            assert(bytes@.subrange(at as int, at + text.len())[i as int] != text@[i as int]);
            return false;
        }
        i = i + 1;
    }
    assert(bytes@.subrange(at as int, at + text.len()) =~= text@);
    true
}

/// The place of the first line feed at or after `from`.
fn find_line_end(bytes: &[u8], from: usize) -> (end: usize)
    requires
        from <= bytes.len(),
    ensures
        end == line_end(bytes@, from as int),
        from <= end <= bytes.len(),
        end < bytes.len() ==> bytes[end as int] == '\n' as u8,
{
    let mut i: usize = from;
    while i < bytes.len() && bytes[i] != '\n' as u8
        invariant
            from <= i <= bytes.len(),
            line_end(bytes@, from as int) == line_end(bytes@, i as int),
        decreases bytes.len() - i,
    {
        i = i + 1;
    }
    i
}

/// Digits that follow do not lower the number that digits stand for.
proof fn lemma_digits_value_grows(text: Seq<u8>, n: int)
    requires
        0 <= n <= text.len(),
    ensures
        digits_value(text.take(n)) <= digits_value(text),
    decreases text.len() - n,
{
    if n < text.len() {
        lemma_digits_value_grows(text, n + 1);
        assert(text.take(n + 1).drop_last() =~= text.take(n));
    } else {
        assert(text.take(n) =~= text);
    }
}

/// The number of vertices that the bytes from `from` up to `end` stand for.
fn parse_count(bytes: &[u8], from: usize, end: usize) -> (count: Option<usize>)
    requires
        from <= end <= bytes.len(),
    ensures
        count == count_of(bytes@.subrange(from as int, end as int)),
{
    let ghost text = bytes@.subrange(from as int, end as int);
    let start: usize = if from < end && bytes[from] == '+' as u8 {
        from + 1
    } else {
        from
    };
    let ghost digits = bytes@.subrange(start as int, end as int);
    assert(digits =~= unsigned_part(text));
    if start == end {
        return None;
    }
    let mut value: usize = 0;
    let mut i: usize = start;
    while i < end
        invariant
            from <= start <= i <= end <= bytes.len(),
            digits == bytes@.subrange(start as int, end as int),
            digits == unsigned_part(bytes@.subrange(from as int, end as int)),
            is_digits(digits.take(i - start)),
            value == digits_value(digits.take(i - start)),
        decreases end - i,
    {
        let byte: u8 = bytes[i];
        if byte < '0' as u8 || byte > '9' as u8 {
            assert(digits[i - start] == byte);
            return None;
        }
        let digit: u8 = byte - '0' as u8;
        let ghost longer = digits.take(i - start + 1);
        proof {
            assert(longer.drop_last() =~= digits.take(i - start));
            assert(longer.last() == byte);
            lemma_digits_value_grows(digits, i - start + 1);
        }
        let next: u128 = 10 * (value as u128) + digit as u128;
        if next > usize::MAX as u128 {
            return None;
        }
        value = next as usize;
        i = i + 1;
        assert forall|j: int| 0 <= j < longer.len() implies '0' as u8 <= #[trigger] longer[j]
            <= '9' as u8 by {
            if j < longer.len() - 1 {
                assert(longer[j] == digits.take(i - start - 1)[j]);
            }
        }
    }
    assert(digits.take(i - start) =~= digits);
    Some(value)
}

/// One more point after the points read so far.
proof fn lemma_kept_push(points: Seq<Vector3>, p: Vector3)
    ensures
        kept(points.push(p)) == (if p.is_finite() {
            kept(points).push(white_point(p))
        } else {
            kept(points)
        }),
{
    reveal(Seq::filter);
    let finite = |p: Vector3| p.is_finite();
    assert(points.push(p).drop_last() =~= points);
    if p.is_finite() {
        assert(points.push(p).filter(finite) == points.filter(finite).push(p));
        assert(kept(points.push(p)) =~= kept(points).push(white_point(p)));
    }
}

/// Reads a point cloud: the points that the bytes hold, or why the bytes are
/// not a point cloud in the layout that is read. A point with a coordinate
/// that is not finite is left out; every point that is kept is opaque white.
pub fn parse_ply(bytes: &[u8]) -> (out: Result<PointCloud, PlyError>)
    ensures
        out matches Ok(cloud) ==> parsed(bytes@) matches Ok(points) && points == cloud@,
        out matches Err(e) ==> parsed(bytes@) matches Err(why) && why == e,
{
    let magic = magic_line_text();
    let format = format_line_text();
    let prefix = count_prefix_text();
    let property_x = property_x_line_text();
    let property_y = property_y_line_text();
    let property_z = property_z_line_text();
    let last = end_line_text();
    if !found(bytes, 0, magic.as_slice()) {
        return Err(PlyError::BadMagic);
    }
    if !found(bytes, 4, format.as_slice()) {
        return Err(PlyError::BadFormat);
    }
    if !found(bytes, 36, prefix.as_slice()) {
        return Err(PlyError::BadVertexCount);
    }
    let end: usize = find_line_end(bytes, 51);
    if end >= bytes.len() {
        return Err(PlyError::BadVertexCount);
    }
    let count: usize = match parse_count(bytes, 51, end) {
        Some(count) => count,
        None => {
            return Err(PlyError::BadVertexCount);
        },
    };
    if !found(bytes, end + 1, property_x.as_slice()) {
        return Err(PlyError::BadProperty);
    }
    if !found(bytes, end + 18, property_y.as_slice()) {
        return Err(PlyError::BadProperty);
    }
    if !found(bytes, end + 35, property_z.as_slice()) {
        return Err(PlyError::BadProperty);
    }
    if !found(bytes, end + 52, last.as_slice()) {
        return Err(PlyError::BadHeaderEnd);
    }
    let start: usize = end + 63;
    if (bytes.len() as u128) < start as u128 + 12 * (count as u128) {
        return Err(PlyError::Truncated);
    }
    let ghost all = points_at(bytes@, start as int, count as nat);
    let mut points: Vec<(Vector3, [u8; 4])> = Vec::new();
    let mut i: usize = 0;
    assert(all.take(0) =~= Seq::<Vector3>::empty());
    assert(kept(Seq::<Vector3>::empty()) =~= Seq::<(Vector3, [u8; 4])>::empty()) by {
        reveal(Seq::filter);
    }
    while i < count
        invariant
            i <= count,
            start + 12 * count <= bytes.len(),
            all == points_at(bytes@, start as int, count as nat),
            points@ == kept(all.take(i as int)),
        decreases count - i,
    {
        let at: usize = start + 12 * i;
        let point = Vector3 {
            x: Scalar { bits: read_u32(bytes, at) },
            y: Scalar { bits: read_u32(bytes, at + 8) },
            z: Scalar { bits: read_u32(bytes, at + 4) },
        };
        proof {
            assert(point == all[i as int]);
            lemma_kept_push(all.take(i as int), point);
            assert(all.take(i as int).push(point) =~= all.take(i + 1));
        }
        if point.finite() {
            points.push((point, [255u8, 255u8, 255u8, 255u8]));
        }
        i = i + 1;
    }
    assert(all.take(i as int) =~= all);
    Ok(PointCloud::new(points))
}

} // verus!
