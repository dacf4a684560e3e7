use narsil::ascii_stl::{self, check_decimal, serialize, StlError as AsciiError};
use narsil::binary_stl::{self, RawTriangle, RawVertex, StlError as BinaryError};
use narsil::model::{identify, load_triangles, split_lines, FileType, FreeSurface, ModelError};

fn lines(text: &str) -> Vec<Vec<u8>> {
    text.lines().map(|l| l.as_bytes().to_vec()).collect()
}

fn tokens(t: &ascii_stl::TextTriangle) -> Vec<String> {
    [&t.a, &t.b, &t.c]
        .iter()
        .flat_map(|v| [&v.x, &v.y, &v.z])
        .map(|b| String::from_utf8(b.clone()).unwrap())
        .collect()
}

const TETRA: &str = "solid tetra
  facet normal 0 0 -1
    outer loop
      vertex 0 0 0
      vertex 1 0 0
      vertex 0 1 0
    endloop
  endfacet
  facet normal -1 0 0
    outer loop
      vertex 0 0 0
      vertex 0 1 0
      vertex 0 0 1.0e0
    endloop
  endfacet
endsolid tetra";

#[test]
fn identify_tells_formats_apart() {
    assert_eq!(identify(b"solid cube"), FileType::AsciiStl);
    assert_eq!(identify(b"solid "), FileType::AsciiStl);
    assert_eq!(identify(b"solidX1234"), FileType::BinaryStl);
    assert_eq!(identify(&[0u8; 84]), FileType::BinaryStl);
    assert_eq!(identify(b"solid"), FileType::Unknown);
    assert_eq!(identify(b""), FileType::Unknown);
}

fn binary_model(count: u32, records: &[[u32; 12]]) -> Vec<u8> {
    let mut b = vec![7u8; 80];
    b.extend_from_slice(&count.to_le_bytes());
    for r in records {
        for v in r {
            b.extend_from_slice(&v.to_le_bytes());
        }
        b.extend_from_slice(&[0, 0]);
    }
    b
}

#[test]
fn binary_reads_corners_and_skips_normal() {
    let rec = [9, 9, 9, 0x04030201, 2, 3, 4, 5, 6, 7, 8, 0x3f800000];
    let b = binary_model(1, &[rec]);
    let ts = binary_stl::load(&b).unwrap();
    assert_eq!(ts.len(), 1);
    assert_eq!(
        ts[0],
        RawTriangle {
            a: RawVertex { x: 0x04030201, y: 2, z: 3 },
            b: RawVertex { x: 4, y: 5, z: 6 },
            c: RawVertex { x: 7, y: 8, z: 0x3f800000 },
        }
    );
    assert_eq!(f32::from_bits(ts[0].c.z), 1.0f32);
}

#[test]
fn binary_ignores_trailing_bytes() {
    let mut b = binary_model(0, &[]);
    b.extend_from_slice(&[1, 2, 3]);
    assert_eq!(binary_stl::load(&b).unwrap().len(), 0);
}

#[test]
fn binary_short_header() {
    assert_eq!(binary_stl::load(&[0u8; 79]), Err(BinaryError::HeaderBytes(79)));
    assert_eq!(binary_stl::load(&[]), Err(BinaryError::HeaderBytes(0)));
}

#[test]
fn binary_missing_count() {
    assert_eq!(binary_stl::load(&[0u8; 82]), Err(BinaryError::CountBytes(82)));
}

#[test]
fn binary_short_triangles() {
    let rec = [0u32; 12];
    let mut b = binary_model(2, &[rec]);
    b.extend_from_slice(&[0u8; 10]);
    assert_eq!(binary_stl::load(&b), Err(BinaryError::TrianglesBytes(100, 60)));
}

#[test]
fn ascii_reads_triangles() {
    let ts = ascii_stl::load(&lines(TETRA)).unwrap();
    assert_eq!(ts.len(), 2);
    assert_eq!(tokens(&ts[0]), vec!["0", "0", "0", "1", "0", "0", "0", "1", "0"]);
    assert_eq!(tokens(&ts[1])[8], "1.0e0");
}

#[test]
fn ascii_accepts_tabs_and_carriage_returns() {
    let text = "solid t\r\nfacet normal 0 0 1\r\n\touter\tloop\r\nvertex 1 2 3\r\nvertex -1 +2 .5\r\nvertex 1e3 2E 3\r\nendloop\r\nendfacet\r\nendsolid t\r\n";
    // `2E` is not a number: only a lower-case exponent is.
    assert_eq!(ascii_stl::load(&lines(text)).err(), Some(AsciiError::Float(6)));
}

#[test]
fn ascii_errors_name_their_line() {
    assert_eq!(ascii_stl::load(&lines("facet normal 0 0 0")).err(), Some(AsciiError::Solid(1)));
    assert_eq!(ascii_stl::load(&lines("solid a\nouter loop")).err(), Some(AsciiError::Facet(2)));
    assert_eq!(
        ascii_stl::load(&lines("solid a\nfacet normal 0 0 0\nvertex 1 2 3")).err(),
        Some(AsciiError::Loop(3))
    );
    assert_eq!(
        ascii_stl::load(&lines("solid a\nfacet normal 0 0 0\nouter loop\nendfacet")).err(),
        Some(AsciiError::Vertex(4))
    );
    assert_eq!(
        ascii_stl::load(&lines(
            "solid a\nfacet normal 0 0 0\nouter loop\nvertex 0 0 0\nvertex 1 0 0\nendloop"
        ))
        .err(),
        Some(AsciiError::Triangle(2, 6))
    );
    assert_eq!(
        ascii_stl::load(&lines("solid a\nfacet normal 0 0 0\nouter loop\nvertex 0 x 0")).err(),
        Some(AsciiError::Float(4))
    );
}

#[test]
fn ascii_empty_and_blank() {
    assert_eq!(ascii_stl::load(&lines("")).unwrap().len(), 0);
    assert_eq!(ascii_stl::load(&lines("solid a\n\nendsolid a")).err(), Some(AsciiError::Facet(2)));
}

#[test]
fn decimal_grammar() {
    for ok in ["0", "1.5", "-2", "+3.", ".5", "-.5e-3", "1e10", "12.34e+5"] {
        assert!(check_decimal(&ok.as_bytes().to_vec()), "{}", ok);
    }
    for bad in ["", ".", "-", "e5", "1e", "1e+", "--1", "1.2.3", "1e5e5", "nan", "1 "] {
        assert!(!check_decimal(&bad.as_bytes().to_vec()), "{}", bad);
    }
}

#[test]
fn round_trip_parse_serialize_parse() {
    let first = ascii_stl::load(&lines(TETRA)).unwrap();
    let written = serialize(&first);
    assert_eq!(written.len(), 2 + 7 * 2);
    assert_eq!(written[0], b"solid narsil".to_vec());
    assert_eq!(written[3], b"vertex 0 0 0".to_vec());
    let second = ascii_stl::load(&written).unwrap();
    assert_eq!(second.len(), first.len());
    for (a, b) in first.iter().zip(second.iter()) {
        assert_eq!(tokens(a), tokens(b));
    }
}

#[test]
fn split_lines_like_a_reader() {
    assert_eq!(split_lines(b"a\nb\n"), vec![b"a".to_vec(), b"b".to_vec()]);
    assert_eq!(split_lines(b"a\n\nb"), vec![b"a".to_vec(), vec![], b"b".to_vec()]);
    assert_eq!(split_lines(b"\n"), vec![Vec::<u8>::new()]);
    assert_eq!(split_lines(b""), Vec::<Vec<u8>>::new());
}

#[test]
fn load_triangles_dispatches() {
    assert!(matches!(load_triangles(FileType::Unknown, b"anything"), Err(ModelError::Unknown)));
    match load_triangles(FileType::AsciiStl, TETRA.as_bytes()) {
        Ok(FreeSurface::Text(ts)) => assert_eq!(ts.len(), 2),
        _ => panic!("expected text triangles"),
    }
    assert!(matches!(
        load_triangles(FileType::AsciiStl, b"endsolid"),
        Err(ModelError::AsciiParse(AsciiError::Solid(1)))
    ));
    assert!(matches!(
        load_triangles(FileType::BinaryStl, &[0u8; 10]),
        Err(ModelError::BinaryParse(BinaryError::HeaderBytes(10)))
    ));
    match load_triangles(FileType::BinaryStl, &binary_model(1, &[[0; 12]])) {
        Ok(FreeSurface::Raw(ts)) => assert_eq!(ts.len(), 1),
        _ => panic!("expected raw triangles"),
    }
}
