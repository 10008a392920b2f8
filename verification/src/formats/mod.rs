//! The byte layouts that voxels are written in and points are read from.
use vstd::prelude::*;
use vstd::string::StringSliceAdditionalSpecFns;

pub mod ply;
pub mod voxels;

verus! {

/// The four bytes of a number, low byte first.
pub open spec fn u32_le(v: u32) -> Seq<u8> {
    seq![
        (v % 256) as u8,
        (v / 0x100 % 256) as u8,
        (v / 0x1_0000 % 256) as u8,
        (v / 0x100_0000 % 256) as u8,
    ]
}

/// The number that four bytes stand for, low byte first.
pub open spec fn u32_from_le(b: Seq<u8>) -> u32 {
    (b[0] + 0x100 * b[1] + 0x1_0000 * b[2] + 0x100_0000 * b[3]) as u32
}

/// Four bytes give back the number that they were made of.
pub proof fn lemma_u32_round_trip(v: u32)
    ensures
        u32_le(v).len() == 4,
        u32_from_le(u32_le(v)) == v,
{
    let b0 = v % 256;
    let r1 = v / 0x100;
    let r2 = v / 0x1_0000;
    let r3 = v / 0x100_0000;
    assert(v == b0 + 0x100 * r1);
    assert(r1 == r1 % 256 + 0x100 * r2);
    assert(r2 == r2 % 256 + 0x100 * r3);
    assert(r3 < 256);
}

/// A number gives back the four bytes that it was made of.
pub proof fn lemma_u32_bytes_round_trip(b: Seq<u8>)
    requires
        b.len() == 4,
    ensures
        u32_le(u32_from_le(b)) == b,
{
    let b0 = b[0] as int;
    let b1 = b[1] as int;
    let b2 = b[2] as int;
    let b3 = b[3] as int;
    let v = b0 + 0x100 * b1 + 0x1_0000 * b2 + 0x100_0000 * b3;
    assert(v % 256 == b0 && v / 0x100 == b1 + 0x100 * b2 + 0x1_0000 * b3);
    assert(v / 0x100 % 256 == b1 && v / 0x1_0000 == b2 + 0x100 * b3);
    assert(v / 0x1_0000 % 256 == b2 && v / 0x100_0000 == b3);
    assert(u32_le(u32_from_le(b)) =~= b);
}

/// Appends the four bytes of a number.
pub(crate) fn push_u32(out: &mut Vec<u8>, v: u32)
    ensures
        final(out)@ == old(out)@ + u32_le(v),
{
    out.push((v % 256) as u8);
    out.push((v / 0x100 % 256) as u8);
    out.push((v / 0x1_0000 % 256) as u8);
    out.push((v / 0x100_0000 % 256) as u8);
    assert(out@ =~= old(out)@ + u32_le(v));
}

/// The number in the four bytes from `at` on.
pub(crate) fn read_u32(bytes: &[u8], at: usize) -> (v: u32)
    requires
        at + 4 <= bytes.len(),
    ensures
        v == u32_from_le(bytes@.subrange(at as int, at + 4)),
{
    bytes[at] as u32 + 0x100 * (bytes[at + 1] as u32) + 0x1_0000 * (bytes[at + 2] as u32)
        + 0x100_0000 * (bytes[at + 3] as u32)
}

/// What an input file holds.
#[derive(Clone, Copy, Debug, PartialEq, Eq, Structural)]
pub enum InputFormat {
    /// A scene of meshes, which goes through the shell scan.
    Scene,
    /// A point cloud.
    PointCloud,
}

/// What a file holds, by the extension of its name: `gltf` and `glb` are
/// scenes, `ply` is a point cloud, and no other extension is known.
pub open spec fn format_of(extension: Seq<u8>) -> Option<InputFormat> {
    if extension == seq!['g' as u8, 'l' as u8, 't' as u8, 'f' as u8] || extension == seq![
        'g' as u8,
        'l' as u8,
        'b' as u8,
    ] {
        Some(InputFormat::Scene)
    } else if extension == seq!['p' as u8, 'l' as u8, 'y' as u8] {
        Some(InputFormat::PointCloud)
    } else {
        None
    }
}

/// What a file holds, by the extension of its name.
pub fn input_format(extension: &str) -> (format: Option<InputFormat>)
    ensures
        format == format_of(extension.spec_bytes()),
{
    let bytes = extension.as_bytes();
    if bytes.len() == 4 && bytes[0] == 'g' as u8 && bytes[1] == 'l' as u8 && bytes[2] == 't' as u8
        && bytes[3] == 'f' as u8 {
        assert(bytes@ =~= seq!['g' as u8, 'l' as u8, 't' as u8, 'f' as u8]);
        Some(InputFormat::Scene)
    } else if bytes.len() == 3 && bytes[0] == 'g' as u8 && bytes[1] == 'l' as u8 && bytes[2]
        == 'b' as u8 {
        assert(bytes@ =~= seq!['g' as u8, 'l' as u8, 'b' as u8]);
        Some(InputFormat::Scene)
    } else if bytes.len() == 3 && bytes[0] == 'p' as u8 && bytes[1] == 'l' as u8 && bytes[2]
        == 'y' as u8 {
        assert(bytes@ =~= seq!['p' as u8, 'l' as u8, 'y' as u8]);
        Some(InputFormat::PointCloud)
    } else {
        None
    }
}

} // verus!
