//! Byte-level access to the disk image: bounds-checked reads and writes and
//! the little-endian integers that the on-disk structures are made of.

use vstd::prelude::*;
use vstd::slice::slice_subrange;
use crate::error::FsError;

verus! {

/// The `len` bytes that start at `pos` all lie inside the image.
pub open spec fn in_bounds(image: Seq<u8>, pos: int, len: int) -> bool {
    0 <= pos && 0 <= len && pos + len <= image.len()
}

/// The 16-bit little-endian integer made of two bytes.
pub open spec fn le_u16(b0: u8, b1: u8) -> u16 {
    (b0 as int + b1 as int * 0x100) as u16
}

/// The 32-bit little-endian integer made of four bytes.
pub open spec fn le_u32(b0: u8, b1: u8, b2: u8, b3: u8) -> u32 {
    (b0 as int + b1 as int * 0x100 + b2 as int * 0x1_0000 + b3 as int * 0x100_0000) as u32
}

/// The 16-bit little-endian integer stored at `pos`.
pub open spec fn u16_at(image: Seq<u8>, pos: int) -> u16 {
    le_u16(image[pos], image[pos + 1])
}

/// The 32-bit little-endian integer stored at `pos`.
pub open spec fn u32_at(image: Seq<u8>, pos: int) -> u32 {
    le_u32(image[pos], image[pos + 1], image[pos + 2], image[pos + 3])
}

/// The two bytes that store `v` in little-endian order.
pub open spec fn u16_bytes(v: u16) -> Seq<u8> {
    seq![(v % 0x100) as u8, (v / 0x100) as u8]
}

/// The four bytes that store `v` in little-endian order.
pub open spec fn u32_bytes(v: u32) -> Seq<u8> {
    seq![
        (v % 0x100) as u8,
        (v / 0x100 % 0x100) as u8,
        (v / 0x1_0000 % 0x100) as u8,
        (v / 0x100_0000) as u8,
    ]
}

/// The image after `data` has been written over the bytes that start at
/// `pos`. Bytes outside that range, and the length, stay as they were.
pub open spec fn patched(image: Seq<u8>, pos: int, data: Seq<u8>) -> Seq<u8> {
    Seq::new(
        image.len(),
        |i: int| if pos <= i < pos + data.len() { data[i - pos] } else { image[i] },
    )
}

/// A product of two bounded naturals is bounded by the product of the bounds.
pub proof fn lemma_mul_bound(a: int, b: int, a_max: int, b_max: int)
    by (nonlinear_arith)
    requires
        0 <= a <= a_max,
        0 <= b <= b_max,
    ensures
        0 <= a * b <= a_max * b_max,
{
}

/// Decoding what `u32_bytes` produced gives the value back.
pub proof fn lemma_u32_round_trip(v: u32)
    ensures
        u32_bytes(v).len() == 4,
        u32_at(u32_bytes(v), 0) == v,
{
}

/// Decoding what `u16_bytes` produced gives the value back.
pub proof fn lemma_u16_round_trip(v: u16)
    ensures
        u16_bytes(v).len() == 2,
        u16_at(u16_bytes(v), 0) == v,
{
}

/// Reads `len` bytes at `pos`, or reports an I/O error when the range leaves
/// the image.
pub fn read_slice(image: &[u8], pos: u64, len: usize) -> (r: Result<&[u8], FsError>)
    ensures
        in_bounds(image@, pos as int, len as int) ==> r.is_ok() && r.unwrap()@
            == image@.subrange(pos as int, pos + len),
        !in_bounds(image@, pos as int, len as int) ==> r == Err::<&[u8], FsError>(FsError::Io),
{
    let total = image.len();
    if len > total || pos > (total - len) as u64 {
        return Err(FsError::Io);
    }
    let start = pos as usize;
    Ok(slice_subrange(image, start, start + len))
}

/// Reads the 16-bit little-endian integer at `pos`.
pub fn read_u16(image: &[u8], pos: u64) -> (r: Result<u16, FsError>)
    ensures
        in_bounds(image@, pos as int, 2) ==> r == Ok::<u16, FsError>(u16_at(image@, pos as int)),
        !in_bounds(image@, pos as int, 2) ==> r == Err::<u16, FsError>(FsError::Io),
{
    let total = image.len();
    if total < 2 || pos > (total - 2) as u64 {
        return Err(FsError::Io);
    }
    let i = pos as usize;
    Ok(image[i] as u16 + image[i + 1] as u16 * 0x100)
}

/// Reads the 32-bit little-endian integer at `pos`.
pub fn read_u32(image: &[u8], pos: u64) -> (r: Result<u32, FsError>)
    ensures
        in_bounds(image@, pos as int, 4) ==> r == Ok::<u32, FsError>(u32_at(image@, pos as int)),
        !in_bounds(image@, pos as int, 4) ==> r == Err::<u32, FsError>(FsError::Io),
{
    let total = image.len();
    if total < 4 || pos > (total - 4) as u64 {
        return Err(FsError::Io);
    }
    let i = pos as usize;
    Ok(
        image[i] as u32 + image[i + 1] as u32 * 0x100 + image[i + 2] as u32 * 0x1_0000 + image[i
            + 3] as u32 * 0x100_0000,
    )
}

/// Writes `data` at `pos`. When the range leaves the image nothing is
/// written and an I/O error is reported.
pub fn write_slice(image: &mut Vec<u8>, pos: u64, data: &[u8]) -> (r: Result<(), FsError>)
    ensures
        in_bounds(old(image)@, pos as int, data@.len() as int) ==> r == Ok::<(), FsError>(()) && final(image)@
            == patched(old(image)@, pos as int, data@),
        !in_bounds(old(image)@, pos as int, data@.len() as int) ==> r == Err::<(), FsError>(
            FsError::Io,
        ) && final(image)@ == old(image)@,
{
    let total = image.len();
    let len = data.len();
    if len > total || pos > (total - len) as u64 {
        return Err(FsError::Io);
    }
    let start = pos as usize;
    let mut k: usize = 0;
    while k < len
        invariant
            k <= len,
            len == data@.len(),
            start + len <= total,
            image@.len() == total,
            total == old(image)@.len(),
            forall|i: int|
                0 <= i < total ==> #[trigger] image@[i] == (if start <= i < start + k {
                    data@[i - start]
                } else {
                    old(image)@[i]
                }),
        decreases len - k,
    {
        image[start + k] = data[k];
        k += 1;
    }
    assert(image@ =~= patched(old(image)@, pos as int, data@));
    Ok(())
}

/// Writes `v` as a 32-bit little-endian integer at `pos`.
pub fn write_u32(image: &mut Vec<u8>, pos: u64, v: u32) -> (r: Result<(), FsError>)
    ensures
        in_bounds(old(image)@, pos as int, 4) ==> r == Ok::<(), FsError>(()) && final(image)@ == patched(
            old(image)@,
            pos as int,
            u32_bytes(v),
        ),
        !in_bounds(old(image)@, pos as int, 4) ==> r == Err::<(), FsError>(FsError::Io)
            && final(image)@ == old(image)@,
{
    let bytes: [u8; 4] = [
        (v % 0x100) as u8,
        (v / 0x100 % 0x100) as u8,
        (v / 0x1_0000 % 0x100) as u8,
        (v / 0x100_0000) as u8,
    ];
    assert(bytes@ =~= u32_bytes(v));
    write_slice(image, pos, bytes.as_slice())
}

} // verus!
