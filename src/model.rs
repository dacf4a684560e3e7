use vstd::prelude::*;

use crate::ascii_stl;
use crate::binary_stl;

verus! {

/// The kind of model file, told from its first bytes.
#[derive(Clone, Copy, Debug, PartialEq, Eq, Structural)]
pub enum FileType {
    Unknown,
    AsciiStl,
    BinaryStl,
}

/// The six bytes that open an ASCII model: `solid ` with a trailing space.
pub open spec fn ascii_magic() -> Seq<u8> {
    seq![115u8, 111u8, 108u8, 105u8, 100u8, 32u8]
}

/// What `identify` answers for a file that starts with `head`.
pub open spec fn file_type_of(head: Seq<u8>) -> FileType {
    if head.len() < 6 {
        FileType::Unknown
    } else if head.subrange(0, 6) == ascii_magic() {
        FileType::AsciiStl
    } else {
        FileType::BinaryStl
    }
}

/// Tells the format of a model from its first bytes: fewer than six is
/// unknown, `solid ` is ASCII, anything else is binary.
pub fn identify(head: &[u8]) -> (r: FileType)
    ensures
        r == file_type_of(head@),
{
    if head.len() < 6 {
        return FileType::Unknown;
    }
    let magic: [u8; 6] = [115u8, 111u8, 108u8, 105u8, 100u8, 32u8];
    let mut i: usize = 0;
    while i < 6
        invariant
            head@.len() >= 6,
            i <= 6,
            magic@ == ascii_magic(),
            forall|j: int| 0 <= j < i ==> head@[j] == ascii_magic()[j],
        decreases 6 - i,
    {
        if head[i] != magic[i] {
            assert(head@.subrange(0, 6)[i as int] != ascii_magic()[i as int]);
            return FileType::BinaryStl;
        }
        i = i + 1;
    }
    assert(head@.subrange(0, 6) =~= ascii_magic());
    FileType::AsciiStl
}

/// Why a model could not be loaded or indexed.
#[derive(Debug)]
pub enum ModelError {
    AsciiParse(ascii_stl::StlError),
    BinaryParse(binary_stl::StlError),
    /// Triangle `face` has an edge of length zero between corners `a` and `b`.
    DegenerateEdge(usize, usize, usize),
    Unknown,
}

/// The lines of a text, split at line feeds; `cur` is the line read so far.
/// A final line feed ends the last line and starts none.
pub open spec fn lines_from(b: Seq<u8>, cur: Seq<u8>) -> Seq<Seq<u8>>
    decreases b.len(),
{
    if b.len() == 0 {
        if cur.len() == 0 {
            Seq::empty()
        } else {
            seq![cur]
        }
    } else if b[0] == 10 {
        seq![cur] + lines_from(b.drop_first(), Seq::empty())
    } else {
        lines_from(b.drop_first(), cur.push(b[0]))
    }
}

pub open spec fn lines_of(b: Seq<u8>) -> Seq<Seq<u8>> {
    lines_from(b, Seq::empty())
}

/// Splits a text into its lines, without their line feeds.
pub fn split_lines(bytes: &[u8]) -> (r: Vec<Vec<u8>>)
    ensures
        ascii_stl::lines_view(r@) == lines_of(bytes@),
{
    let mut out: Vec<Vec<u8>> = Vec::new();
    let mut cur: Vec<u8> = Vec::new();
    let n = bytes.len();
    let mut i: usize = 0;
    assert(bytes@.skip(0) =~= bytes@);
    assert(ascii_stl::lines_view(out@) + lines_of(bytes@) =~= lines_of(bytes@));
    while i < n
        invariant
            n == bytes@.len(),
            i <= n,
            ascii_stl::lines_view(out@) + lines_from(bytes@.skip(i as int), cur@) == lines_of(
                bytes@,
            ),
        decreases n - i,
    {
        let c = bytes[i];
        let ghost rest = bytes@.skip(i as int);
        assert(rest[0] == c);
        assert(rest.drop_first() =~= bytes@.skip(i + 1));
        let ghost old_cur = cur@;
        let ghost old_out = ascii_stl::lines_view(out@);
        if c == 10 {
            out.push(cur);
            cur = Vec::new();
            assert(ascii_stl::lines_view(out@) =~= old_out.push(old_cur));
            assert(cur@ =~= Seq::<u8>::empty());
            assert(old_out.push(old_cur) + lines_from(bytes@.skip(i + 1), Seq::empty()) =~= old_out
                + (seq![old_cur] + lines_from(bytes@.skip(i + 1), Seq::empty())));
        } else {
            cur.push(c);
            assert(lines_from(rest, old_cur) == lines_from(bytes@.skip(i + 1), cur@));
        }
        i = i + 1;
    }
    if cur.len() > 0 {
        let ghost before = ascii_stl::lines_view(out@);
        let ghost cv = cur@;
        out.push(cur);
        assert(ascii_stl::lines_view(out@) =~= before.push(cv));
        assert(before.push(cv) =~= before + seq![cv]);
    } else {
        assert(ascii_stl::lines_view(out@) + Seq::<Seq<u8>>::empty() =~= ascii_stl::lines_view(
            out@,
        ));
    }
    out
}

/// The triangles of a model, as the file gave them.
pub enum FreeSurface {
    /// From an ASCII model: coordinates as decimal text.
    Text(Vec<ascii_stl::TextTriangle>),
    /// From a binary model: coordinates as `f32` bit patterns.
    Raw(Vec<binary_stl::RawTriangle>),
}

/// Whether a binary model of these bytes is complete.
pub open spec fn binary_complete(b: Seq<u8>) -> bool {
    b.len() >= 84 && b.len() - 84 >= 50 * binary_stl::announced_count(b)
}

/// Reads the triangles of a model of the given kind.
pub fn load_triangles(kind: FileType, bytes: &[u8]) -> (r: Result<FreeSurface, ModelError>)
    ensures
        kind == FileType::Unknown ==> r matches Err(ModelError::Unknown),
        kind == FileType::AsciiStl ==> match ascii_stl::parse_lines(lines_of(bytes@)) {
            Ok(ts) => (r matches Ok(FreeSurface::Text(v)) && ascii_stl::triangles_view(v@) == ts),
            Err(e) => (r matches Err(ModelError::AsciiParse(e2)) && e2 == e),
        },
        kind == FileType::BinaryStl ==> (r is Ok <==> binary_complete(bytes@)),
        kind == FileType::BinaryStl && binary_complete(bytes@) ==> (r matches Ok(
            FreeSurface::Raw(ts),
        ) && ts@.len() == binary_stl::announced_count(bytes@) && forall|k: int|
            0 <= k < ts@.len() ==> #[trigger] ts@[k] == binary_stl::raw_triangle_at(bytes@, k)),
{
    match kind {
        FileType::Unknown => Err(ModelError::Unknown),
        FileType::AsciiStl => {
            let lines = split_lines(bytes);
            match ascii_stl::load(&lines) {
                Ok(ts) => Ok(FreeSurface::Text(ts)),
                Err(e) => Err(ModelError::AsciiParse(e)),
            }
        },
        FileType::BinaryStl => match binary_stl::load(bytes) {
            Ok(ts) => Ok(FreeSurface::Raw(ts)),
            Err(e) => Err(ModelError::BinaryParse(e)),
        },
    }
}

} // verus!
