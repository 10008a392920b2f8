//! The voxel file: eight bytes of magic, the number of voxels in eight bytes,
//! then sixteen bytes for each voxel, which are its three coordinates in four
//! bytes each and the four bytes of its colour, red first. Every number has
//! its low byte first, and a negative coordinate is written in two's
//! complement.
use crate::formats::{
    lemma_u32_bytes_round_trip, lemma_u32_round_trip, push_u32, read_u32, u32_from_le, u32_le,
};
use crate::grid::{GridCoord, Voxel};
use vstd::prelude::*;

verus! {

/// The eight bytes that a voxel file begins with: `VOXELSRS`.
pub open spec fn magic() -> Seq<u8> {
    seq![
        'V' as u8, 'O' as u8, 'X' as u8, 'E' as u8, 'L' as u8, 'S' as u8, 'R' as u8, 'S' as u8,
    ]
}

/// The eight bytes of a number, low byte first.
pub open spec fn u64_le(v: u64) -> Seq<u8> {
    u32_le((v % 0x1_0000_0000) as u32) + u32_le((v / 0x1_0000_0000) as u32)
}

/// The number that eight bytes stand for, low byte first.
pub open spec fn u64_from_le(b: Seq<u8>) -> u64 {
    (u32_from_le(b.subrange(0, 4)) + 0x1_0000_0000 * u32_from_le(b.subrange(4, 8))) as u64
}

/// A signed number as the unsigned number with the same bits.
pub open spec fn bits_of(x: i32) -> u32 {
    if x < 0 {
        (x + 0x1_0000_0000) as u32
    } else {
        x as u32
    }
}

/// The signed number with the bits of an unsigned number.
pub open spec fn signed_of(v: u32) -> i32 {
    if v >= 0x8000_0000 {
        (v - 0x1_0000_0000) as i32
    } else {
        v as i32
    }
}

/// The sixteen bytes of a voxel.
pub open spec fn record(voxel: Voxel) -> Seq<u8> {
    u32_le(bits_of(voxel.0.x)) + u32_le(bits_of(voxel.0.y)) + u32_le(bits_of(voxel.0.z))
        + voxel.1@
}

/// The voxel that sixteen bytes stand for.
pub open spec fn record_from(b: Seq<u8>) -> Voxel {
    (
        GridCoord {
            x: signed_of(u32_from_le(b.subrange(0, 4))),
            y: signed_of(u32_from_le(b.subrange(4, 8))),
            z: signed_of(u32_from_le(b.subrange(8, 12))),
        },
        [b[12], b[13], b[14], b[15]],
    )
}

/// The bytes of the voxels, one record after another.
pub open spec fn records(voxels: Seq<Voxel>) -> Seq<u8> {
    Seq::new(16 * voxels.len(), |i: int| record(voxels[i / 16])[i % 16])
}

/// The bytes of a voxel file that holds the given voxels.
pub open spec fn encoded(voxels: Seq<Voxel>) -> Seq<u8> {
    magic() + u64_le(voxels.len() as u64) + records(voxels)
}

/// The voxels that `count` records stand for.
pub open spec fn records_from(b: Seq<u8>, count: nat) -> Seq<Voxel> {
    Seq::new(count, |i: int| record_from(b.subrange(16 * i, 16 * i + 16)))
}

/// Why bytes are not a voxel file.
#[derive(Clone, Copy, Debug, PartialEq, Eq, Structural)]
pub enum VoxelFileError {
    /// There are fewer than the sixteen bytes of magic and count.
    Truncated,
    /// The first eight bytes are not the magic.
    BadMagic,
    /// The bytes after the count are more or fewer than sixteen for each
    /// voxel counted.
    WrongLength,
}

/// What bytes stand for as a voxel file.
pub open spec fn decoded(bytes: Seq<u8>) -> Result<Seq<Voxel>, VoxelFileError> {
    if bytes.len() < 16 {
        Err(VoxelFileError::Truncated)
    } else if bytes.subrange(0, 8) != magic() {
        Err(VoxelFileError::BadMagic)
    } else if bytes.len() - 16 != 16 * u64_from_le(bytes.subrange(8, 16)) {
        Err(VoxelFileError::WrongLength)
    } else {
        Ok(
            records_from(
                bytes.subrange(16, bytes.len() as int),
                u64_from_le(bytes.subrange(8, 16)) as nat,
            ),
        )
    }
}

/// The unsigned number with the bits of a signed number.
fn bits(x: i32) -> (v: u32)
    ensures
        v == bits_of(x),
{
    if x < 0 {
        (x as i64 + 0x1_0000_0000) as u32
    } else {
        x as u32
    }
}

/// The signed number with the bits of an unsigned number.
fn signed(v: u32) -> (x: i32)
    ensures
        x == signed_of(v),
{
    if v >= 0x8000_0000 {
        (v as i64 - 0x1_0000_0000) as i32
    } else {
        v as i32
    }
}

/// Appends the sixteen bytes of a voxel.
fn push_record(out: &mut Vec<u8>, voxel: &Voxel)
    ensures
        final(out)@ == old(out)@ + record(*voxel),
{
    push_u32(out, bits(voxel.0.x));
    push_u32(out, bits(voxel.0.y));
    push_u32(out, bits(voxel.0.z));
    out.push(voxel.1[0]);
    out.push(voxel.1[1]);
    out.push(voxel.1[2]);
    out.push(voxel.1[3]);
    assert(out@ =~= old(out)@ + record(*voxel));
}

/// One more voxel adds its record to the records before it.
proof fn lemma_records_push(voxels: Seq<Voxel>, voxel: Voxel)
    ensures
        records(voxels.push(voxel)) == records(voxels) + record(voxel),
{
    let longer = voxels.push(voxel);
    assert forall|i: int| 0 <= i < 16 * longer.len() implies records(longer)[i] == (records(voxels)
        + record(voxel))[i] by {
        if i < 16 * voxels.len() {
            assert(longer[i / 16] == voxels[i / 16]);
        } else {
            assert(i / 16 == voxels.len() && i % 16 == i - 16 * voxels.len());
        }
    }
    assert(records(longer) =~= records(voxels) + record(voxel));
}

/// The bytes of a voxel file that holds the given voxels, in their order.
pub fn encode_voxels(voxels: &[Voxel]) -> (bytes: Vec<u8>)
    ensures
        bytes@ == encoded(voxels@),
{
    let mut out: Vec<u8> = Vec::new();
    out.push(0x56u8);
    out.push(0x4fu8);
    out.push(0x58u8);
    out.push(0x45u8);
    out.push(0x4cu8);
    out.push(0x53u8);
    out.push(0x52u8);
    out.push(0x53u8);
    assert(out@ =~= magic());
    let count: u64 = voxels.len() as u64;
    push_u32(&mut out, (count % 0x1_0000_0000) as u32);
    push_u32(&mut out, (count / 0x1_0000_0000) as u32);
    assert(out@ =~= magic() + u64_le(count));
    assert(records(voxels@.take(0)) =~= Seq::<u8>::empty());
    let mut i: usize = 0;
    while i < voxels.len()
        invariant
            i <= voxels.len(),
            count == voxels.len(),
            out@ == magic() + u64_le(count) + records(voxels@.take(i as int)),
        decreases voxels.len() - i,
    {
        let voxel = voxels[i];
        proof {
            lemma_records_push(voxels@.take(i as int), voxel);
            assert(voxels@.take(i as int).push(voxel) =~= voxels@.take(i + 1));
        }
        push_record(&mut out, &voxel);
        assert(out@ =~= magic() + u64_le(count) + records(voxels@.take(i + 1)));
        i = i + 1;
    }
    assert(voxels@.take(i as int) =~= voxels@);
    out
}

/// The voxel in the sixteen bytes from `at` on.
fn read_record(bytes: &[u8], at: usize) -> (voxel: Voxel)
    requires
        at + 16 <= bytes.len(),
    ensures
        voxel == record_from(bytes@.subrange(at as int, at + 16)),
{
    let ghost part = bytes@.subrange(at as int, at + 16);
    assert(part.subrange(0, 4) =~= bytes@.subrange(at as int, at + 4));
    assert(part.subrange(4, 8) =~= bytes@.subrange(at + 4, at + 8));
    assert(part.subrange(8, 12) =~= bytes@.subrange(at + 8, at + 12));
    let color: [u8; 4] = [bytes[at + 12], bytes[at + 13], bytes[at + 14], bytes[at + 15]];
    assert(color =~= record_from(part).1);
    (
        GridCoord {
            x: signed(read_u32(bytes, at)),
            y: signed(read_u32(bytes, at + 4)),
            z: signed(read_u32(bytes, at + 8)),
        },
        color,
    )
}

/// Reads a voxel file: the voxels that it holds, in their order, or why the
/// bytes are not a voxel file.
pub fn decode_voxels(bytes: &[u8]) -> (out: Result<Vec<Voxel>, VoxelFileError>)
    ensures
        out matches Ok(voxels) ==> decoded(bytes@) matches Ok(held) && held == voxels@,
        out matches Err(e) ==> decoded(bytes@) matches Err(why) && why == e,
{
    if bytes.len() < 16 {
        return Err(VoxelFileError::Truncated);
    }
    let magic_found = bytes[0] == 0x56u8 && bytes[1] == 0x4fu8 && bytes[2] == 0x58u8 && bytes[3]
        == 0x45u8 && bytes[4] == 0x4cu8 && bytes[5] == 0x53u8 && bytes[6] == 0x52u8 && bytes[7]
        == 0x53u8;
    proof {
        let head = bytes@.subrange(0, 8);
        assert(head[0] == bytes[0] && head[1] == bytes[1] && head[2] == bytes[2] && head[3]
            == bytes[3]);
        assert(head[4] == bytes[4] && head[5] == bytes[5] && head[6] == bytes[6] && head[7]
            == bytes[7]);
        if magic_found {
            assert(head =~= magic());
        }
    }
    if !magic_found {
        return Err(VoxelFileError::BadMagic);
    }
    let low: u32 = read_u32(bytes, 8);
    let high: u32 = read_u32(bytes, 12);
    let count: u64 = low as u64 + 0x1_0000_0000 * (high as u64);
    proof {
        let field = bytes@.subrange(8, 16);
        assert(field.subrange(0, 4) =~= bytes@.subrange(8, 12));
        assert(field.subrange(4, 8) =~= bytes@.subrange(12, 16));
    }
    if (bytes.len() - 16) as u128 != 16 * (count as u128) {
        return Err(VoxelFileError::WrongLength);
    }
    let ghost body = bytes@.subrange(16, bytes.len() as int);
    let ghost held = records_from(body, count as nat);
    let mut voxels: Vec<Voxel> = Vec::new();
    let mut i: usize = 0;
    while i < count as usize
        invariant
            i <= count,
            bytes.len() - 16 == 16 * count,
            body == bytes@.subrange(16, bytes.len() as int),
            held == records_from(body, count as nat),
            voxels@ == held.take(i as int),
        decreases count - i,
    {
        let voxel = read_record(bytes, 16 + 16 * i);
        assert(body.subrange(16 * i, 16 * i + 16) =~= bytes@.subrange(16 + 16 * i, 32 + 16 * i));
        voxels.push(voxel);
        i = i + 1;
        assert(voxels@ =~= held.take(i as int));
    }
    assert(held.take(i as int) =~= held);
    Ok(voxels)
}

/// The sixteen bytes of a voxel give the voxel back.
pub proof fn lemma_record_round_trip(voxel: Voxel)
    ensures
        record(voxel).len() == 16,
        record_from(record(voxel)) == voxel,
{
    let r = record(voxel);
    assert(r.subrange(0, 4) =~= u32_le(bits_of(voxel.0.x)));
    assert(r.subrange(4, 8) =~= u32_le(bits_of(voxel.0.y)));
    assert(r.subrange(8, 12) =~= u32_le(bits_of(voxel.0.z)));
    lemma_u32_round_trip(bits_of(voxel.0.x));
    lemma_u32_round_trip(bits_of(voxel.0.y));
    lemma_u32_round_trip(bits_of(voxel.0.z));
    assert(r[12] == voxel.1[0] && r[13] == voxel.1[1] && r[14] == voxel.1[2] && r[15]
        == voxel.1[3]);
    assert(record_from(r).1 =~= voxel.1);
}

/// A voxel gives back the sixteen bytes that it was read from.
pub proof fn lemma_record_bytes_round_trip(b: Seq<u8>)
    requires
        b.len() == 16,
    ensures
        record(record_from(b)) == b,
{
    lemma_u32_bytes_round_trip(b.subrange(0, 4));
    lemma_u32_bytes_round_trip(b.subrange(4, 8));
    lemma_u32_bytes_round_trip(b.subrange(8, 12));
    let voxel = record_from(b);
    assert(voxel.1@ =~= b.subrange(12, 16));
    assert(record(voxel) =~= b);
}

/// Eight bytes give back the number that they were made of, and the other way
/// round.
pub proof fn lemma_u64_round_trip(v: u64, b: Seq<u8>)
    requires
        b.len() == 8,
    ensures
        u64_le(v).len() == 8,
        u64_from_le(u64_le(v)) == v,
        u64_le(u64_from_le(b)) == b,
{
    let low = (v % 0x1_0000_0000) as u32;
    let high = (v / 0x1_0000_0000) as u32;
    lemma_u32_round_trip(low);
    lemma_u32_round_trip(high);
    assert(u64_le(v).subrange(0, 4) =~= u32_le(low));
    assert(u64_le(v).subrange(4, 8) =~= u32_le(high));
    lemma_u32_bytes_round_trip(b.subrange(0, 4));
    lemma_u32_bytes_round_trip(b.subrange(4, 8));
    let first = u32_from_le(b.subrange(0, 4));
    let second = u32_from_le(b.subrange(4, 8));
    let w = u64_from_le(b);
    assert(w % 0x1_0000_0000 == first && w / 0x1_0000_0000 == second);
    assert(u64_le(w) =~= b);
}

/// The records of voxels give the voxels back.
pub proof fn lemma_records_round_trip(voxels: Seq<Voxel>)
    ensures
        records(voxels).len() == 16 * voxels.len(),
        records_from(records(voxels), voxels.len()) == voxels,
{
    let b = records(voxels);
    assert forall|i: int| 0 <= i < voxels.len() implies records_from(b, voxels.len())[i]
        == voxels[i] by {
        let part = b.subrange(16 * i, 16 * i + 16);
        assert forall|j: int| 0 <= j < 16 implies part[j] == record(voxels[i])[j] by {
            assert(part[j] == b[16 * i + j]);
            assert((16 * i + j) / 16 == i && (16 * i + j) % 16 == j);
        }
        lemma_record_round_trip(voxels[i]);
        assert(part =~= record(voxels[i]));
    }
    assert(records_from(b, voxels.len()) =~= voxels);
}

/// The voxels that records stand for give the records back.
pub proof fn lemma_records_bytes_round_trip(b: Seq<u8>, count: nat)
    requires
        b.len() == 16 * count,
    ensures
        records(records_from(b, count)) == b,
{
    let voxels = records_from(b, count);
    assert forall|k: int| 0 <= k < b.len() implies records(voxels)[k] == b[k] by {
        let i = k / 16;
        let j = k % 16;
        let part = b.subrange(16 * i, 16 * i + 16);
        lemma_record_bytes_round_trip(part);
        assert(records(voxels)[k] == record(voxels[i])[j]);
        assert(part[j] == b[k]);
    }
    assert(records(voxels) =~= b);
}

/// Round trip: the bytes that `K` voxels are written to are read back as the
/// same `K` voxels, coordinate for coordinate and colour for colour.
pub proof fn lemma_voxel_file_round_trip(voxels: Seq<Voxel>)
    requires
        voxels.len() <= u64::MAX,
    ensures
        decoded(encoded(voxels)) == Ok::<Seq<Voxel>, VoxelFileError>(voxels),
{
    let count = voxels.len() as u64;
    let bytes = encoded(voxels);
    lemma_u64_round_trip(count, u64_le(count));
    lemma_records_round_trip(voxels);
    assert(bytes.len() == 16 + 16 * voxels.len());
    assert(bytes.subrange(0, 8) =~= magic());
    assert(bytes.subrange(8, 16) =~= u64_le(count));
    assert(bytes.subrange(16, bytes.len() as int) =~= records(voxels));
}

/// A voxel file is its first eight bytes, its next eight bytes and the rest.
proof fn lemma_three_parts(bytes: Seq<u8>)
    requires
        bytes.len() >= 16,
    ensures
        bytes.subrange(0, 8) + bytes.subrange(8, 16) + bytes.subrange(16, bytes.len() as int)
            == bytes,
{
    assert(bytes.subrange(0, 8) + bytes.subrange(8, 16) + bytes.subrange(16, bytes.len() as int)
        =~= bytes);
}

/// Bytes that are read as a voxel file are the bytes that the voxels read are
/// written to: no two files hold the same voxels in the same order.
pub proof fn lemma_voxel_file_is_canonical(bytes: Seq<u8>)
    requires
        decoded(bytes) is Ok,
    ensures
        encoded(decoded(bytes).unwrap()) == bytes,
{
    let field = bytes.subrange(8, 16);
    let count = u64_from_le(field);
    let body = bytes.subrange(16, bytes.len() as int);
    let voxels = records_from(body, count as nat);
    assert(decoded(bytes) == Ok::<Seq<Voxel>, VoxelFileError>(voxels));
    assert(voxels.len() == count);
    lemma_u64_round_trip(count, field);
    lemma_records_bytes_round_trip(body, count as nat);
    lemma_three_parts(bytes);
}

} // verus!
