use vstd::prelude::*;

use byteorder::ByteOrder;
use vstd::slice::slice_subrange;

verus! {

/// Bytes in the header of a binary model.
pub const HEADER_SIZE: usize = 80;

/// Bytes in one triangle record: a normal and three corners of three
/// `f32` each, then two attribute bytes.
pub const TRIANGLE_SIZE: usize = 50;

/// Why a binary model could not be read.
#[derive(Debug, Clone, Copy, PartialEq, Eq, Structural)]
pub enum StlError {
    /// The header is shorter than 80 bytes; the field is how many there were.
    HeaderBytes(usize),
    /// The triangle count after the header is missing or cut; the field is
    /// how many bytes the file has.
    CountBytes(usize),
    /// Fewer triangle bytes than the count announces: (expected, got).
    TrianglesBytes(u64, u64),
}

/// One corner as the bit patterns of its three `f32` coordinates.
#[derive(Debug, Clone, Copy, PartialEq, Eq, Structural)]
pub struct RawVertex {
    pub x: u32,
    pub y: u32,
    pub z: u32,
}

/// One triangle of a binary model; its normal is dropped.
#[derive(Debug, Clone, Copy, PartialEq, Eq, Structural)]
pub struct RawTriangle {
    pub a: RawVertex,
    pub b: RawVertex,
    pub c: RawVertex,
}

/// The little-endian `u32` that starts at `off`.
pub open spec fn le_u32(b: Seq<u8>, off: int) -> u32 {
    (b[off] as int + 256 * b[off + 1] as int + 65536 * b[off + 2] as int + 16777216 * b[off
        + 3] as int) as u32
}

pub open spec fn raw_vertex_at(b: Seq<u8>, off: int) -> RawVertex {
    RawVertex { x: le_u32(b, off), y: le_u32(b, off + 4), z: le_u32(b, off + 8) }
}

/// Triangle `k` of the file `b`: its record starts after the header and
/// the count, and its corners after the 12 bytes of the normal.
pub open spec fn raw_triangle_at(b: Seq<u8>, k: int) -> RawTriangle {
    let off = 84 + 50 * k + 12;
    RawTriangle {
        a: raw_vertex_at(b, off),
        b: raw_vertex_at(b, off + 12),
        c: raw_vertex_at(b, off + 24),
    }
}

/// The triangle count announced after the header.
pub open spec fn announced_count(b: Seq<u8>) -> u32 {
    le_u32(b, 80)
}

/// Relies on byteorder's `LittleEndian::read_u32`: the first four bytes of
/// `buf` as a little-endian integer (it panics on fewer than four).
#[verifier::external_body]
fn read_le_u32(buf: &[u8]) -> (r: u32)
    requires
        buf@.len() >= 4,
    ensures
        r == le_u32(buf@, 0),
{
    byteorder::LittleEndian::read_u32(buf)
}

fn read_u32_at(bytes: &[u8], off: usize) -> (r: u32)
    requires
        off + 4 <= bytes@.len() <= usize::MAX,
    ensures
        r == le_u32(bytes@, off as int),
{
    let part = slice_subrange(bytes, off, off + 4);
    read_le_u32(part)
}

fn read_vertex(bytes: &[u8], off: usize) -> (r: RawVertex)
    requires
        off + 12 <= bytes@.len() <= usize::MAX,
    ensures
        r == raw_vertex_at(bytes@, off as int),
{
    RawVertex {
        x: read_u32_at(bytes, off),
        y: read_u32_at(bytes, off + 4),
        z: read_u32_at(bytes, off + 8),
    }
}

fn read_triangle(bytes: &[u8], k: usize) -> (r: RawTriangle)
    requires
        84 + 50 * (k + 1) <= bytes@.len() <= usize::MAX,
    ensures
        r == raw_triangle_at(bytes@, k as int),
{
    assert(84 + 50 * k + 50 == 84 + 50 * (k + 1)) by (nonlinear_arith);
    assert(84 + 50 * k + 50 == 84 + 50 * (k + 1)) by (nonlinear_arith);
    let off = 84 + 50 * k + 12;
    RawTriangle {
        a: read_vertex(bytes, off),
        b: read_vertex(bytes, off + 12),
        c: read_vertex(bytes, off + 24),
    }
}

/// Reads a binary model: an 80-byte header, a little-endian triangle count
/// and that many 50-byte records. Bytes after the last record are ignored.
pub fn load(bytes: &[u8]) -> (r: Result<Vec<RawTriangle>, StlError>)
    ensures
        bytes@.len() < 80 ==> r == Err::<Vec<RawTriangle>, StlError>(
            StlError::HeaderBytes(bytes@.len() as usize),
        ),
        80 <= bytes@.len() < 84 ==> r == Err::<Vec<RawTriangle>, StlError>(
            StlError::CountBytes(bytes@.len() as usize),
        ),
        bytes@.len() >= 84 && bytes@.len() - 84 < 50 * announced_count(bytes@) ==> r
            == Err::<Vec<RawTriangle>, StlError>(
            StlError::TrianglesBytes(
                (50 * announced_count(bytes@)) as u64,
                (bytes@.len() - 84) as u64,
            ),
        ),
        bytes@.len() >= 84 && bytes@.len() - 84 >= 50 * announced_count(bytes@) ==> (r matches Ok(
            ts,
        ) && ts@.len() == announced_count(bytes@) && forall|k: int|
            0 <= k < ts@.len() ==> #[trigger] ts@[k] == raw_triangle_at(bytes@, k)),
{
    let len = bytes.len();
    if len < HEADER_SIZE {
        return Err(StlError::HeaderBytes(len));
    }
    if len < 84 {
        return Err(StlError::CountBytes(len));
    }
    let count = read_u32_at(bytes, 80);
    let expected: u64 = 50 * (count as u64);
    let got: u64 = (len - 84) as u64;
    if got < expected {
        return Err(StlError::TrianglesBytes(expected, got));
    }
    let n = count as usize;
    let mut out: Vec<RawTriangle> = Vec::new();
    let mut k: usize = 0;
    while k < n
        invariant
            n == announced_count(bytes@),
            len == bytes@.len(),
            len - 84 >= 50 * n,
            k <= n,
            out@.len() == k,
            forall|j: int| 0 <= j < k ==> #[trigger] out@[j] == raw_triangle_at(bytes@, j),
        decreases n - k,
    {
        assert(84 + 50 * (k + 1) <= bytes@.len()) by (nonlinear_arith)
            requires
                k < n,
                bytes@.len() - 84 >= 50 * n,
        ;
        let t = read_triangle(bytes, k);
        out.push(t);
        k = k + 1;
    }
    Ok(out)
}

} // verus!
