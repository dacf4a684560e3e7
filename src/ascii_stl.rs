use vstd::prelude::*;

verus! {

/// Why an ASCII model could not be read. Each field that names a line is its
/// number, counting from one.
#[derive(Debug, Clone, Copy, PartialEq, Eq, Structural)]
pub enum StlError {
    /// Expected `solid`.
    Solid(usize),
    /// Expected `facet normal` or `endsolid`.
    Facet(usize),
    /// Expected `outer loop` or `endfacet`.
    Loop(usize),
    /// Expected `vertex` or `endloop`.
    Vertex(usize),
    /// A loop closed with this many corners instead of three: (count, line).
    Triangle(usize, usize),
    /// A coordinate on this line is not a number.
    Float(usize),
}

/// One corner, each coordinate kept as the decimal text it was written in.
#[derive(Debug, Clone)]
pub struct TextVertex {
    pub x: Vec<u8>,
    pub y: Vec<u8>,
    pub z: Vec<u8>,
}

/// One triangle of an ASCII model; its normal is dropped.
#[derive(Debug, Clone)]
pub struct TextTriangle {
    pub a: TextVertex,
    pub b: TextVertex,
    pub c: TextVertex,
}

impl View for TextVertex {
    type V = (Seq<u8>, Seq<u8>, Seq<u8>);

    open spec fn view(&self) -> Self::V {
        (self.x@, self.y@, self.z@)
    }
}

impl View for TextTriangle {
    type V = ((Seq<u8>, Seq<u8>, Seq<u8>), (Seq<u8>, Seq<u8>, Seq<u8>), (Seq<u8>, Seq<u8>, Seq<u8>));

    open spec fn view(&self) -> Self::V {
        (self.a@, self.b@, self.c@)
    }
}

pub type VertexText = (Seq<u8>, Seq<u8>, Seq<u8>);

pub type TriangleText = (VertexText, VertexText, VertexText);

// ---------------------------------------------------------------- words

pub open spec fn is_ws(c: u8) -> bool {
    c == 32 || c == 9 || c == 13
}

/// The words of `s`, where `cur` is the part of a word already read.
pub open spec fn words_from(s: Seq<u8>, cur: Seq<u8>) -> Seq<Seq<u8>>
    decreases s.len(),
{
    if s.len() == 0 {
        if cur.len() == 0 {
            Seq::empty()
        } else {
            seq![cur]
        }
    } else if is_ws(s[0]) {
        if cur.len() == 0 {
            words_from(s.drop_first(), Seq::empty())
        } else {
            seq![cur] + words_from(s.drop_first(), Seq::empty())
        }
    } else {
        words_from(s.drop_first(), cur.push(s[0]))
    }
}

/// The maximal runs of non-blank bytes of a line, in order.
pub open spec fn words(s: Seq<u8>) -> Seq<Seq<u8>> {
    words_from(s, Seq::empty())
}

pub open spec fn words_view(w: Seq<Vec<u8>>) -> Seq<Seq<u8>> {
    w.map_values(|v: Vec<u8>| v@)
}

fn split_words(line: &Vec<u8>) -> (r: Vec<Vec<u8>>)
    ensures
        words_view(r@) == words(line@),
{
    let mut out: Vec<Vec<u8>> = Vec::new();
    let mut cur: Vec<u8> = Vec::new();
    let n = line.len();
    let mut i: usize = 0;
    assert(line@.skip(0) =~= line@);
    assert(words_view(out@) + words(line@) =~= words(line@));
    while i < n
        invariant
            n == line@.len(),
            i <= n,
            words_view(out@) + words_from(line@.skip(i as int), cur@) == words(line@),
        decreases n - i,
    {
        let c = line[i];
        let ghost rest = line@.skip(i as int);
        assert(rest[0] == c);
        assert(rest.drop_first() =~= line@.skip(i + 1));
        let ghost old_cur = cur@;
        let ghost old_out = words_view(out@);
        if c == 32 || c == 9 || c == 13 {
            if cur.len() > 0 {
                let ghost before = words_view(out@);
                let ghost cv = cur@;
                out.push(cur);
                cur = Vec::new();
                assert(words_view(out@) =~= before.push(cv));
                assert(before.push(cv) + words_from(line@.skip(i + 1), Seq::empty()) =~= before + (
                seq![cv] + words_from(line@.skip(i + 1), Seq::empty())));
            } else {
                assert(old_cur =~= Seq::<u8>::empty());
            }
            assert(cur@ =~= Seq::<u8>::empty());
            assert(words_view(out@) + words_from(line@.skip(i + 1), cur@) == old_out
                + words_from(rest, old_cur));
        } else {
            cur.push(c);
            assert(words_from(rest, old_cur) == words_from(line@.skip(i + 1), cur@));
        }
        i = i + 1;
    }
    if cur.len() > 0 {
        let ghost before = words_view(out@);
        let ghost cv = cur@;
        out.push(cur);
        assert(words_view(out@) =~= before.push(cv));
        assert(before.push(cv) =~= before + seq![cv]);
    } else {
        assert(words_view(out@) + Seq::<Seq<u8>>::empty() =~= words_view(out@));
    }
    out
}

// ---------------------------------------------------------------- numbers

pub open spec fn is_digit(c: u8) -> bool {
    48 <= c <= 57
}

pub open spec fn is_sign(c: u8) -> bool {
    c == 43 || c == 45
}

/// The end of the run of digits that starts at `i`.
pub open spec fn digits_end(t: Seq<u8>, i: int) -> int
    decreases t.len() - i,
{
    if 0 <= i < t.len() && is_digit(t[i]) {
        digits_end(t, i + 1)
    } else {
        i
    }
}

/// An exponent that starts at `d`: an optional sign and one digit or more,
/// up to the end.
pub open spec fn exponent_at(t: Seq<u8>, d: int) -> bool {
    let e0 = if d < t.len() && is_sign(t[d]) {
        d + 1
    } else {
        d
    };
    digits_end(t, e0) > e0 && digits_end(t, e0) == t.len()
}

/// A decimal number: an optional sign, digits with an optional fraction
/// (one digit at least in all), and an optional exponent `e[+-]digits`.
pub open spec fn is_decimal(t: Seq<u8>) -> bool {
    let a: int = if t.len() > 0 && is_sign(t[0]) {
        1
    } else {
        0
    };
    let b = digits_end(t, a);
    let has_dot = b < t.len() && t[b] == 46;
    let c = if has_dot {
        digits_end(t, b + 1)
    } else {
        b
    };
    let mant = (b - a) + (if has_dot {
        c - (b + 1)
    } else {
        0
    });
    mant > 0 && (c == t.len() || (t[c] == 101 && exponent_at(t, c + 1)))
}

proof fn lemma_digits_end_bounds(t: Seq<u8>, i: int)
    requires
        0 <= i,
    ensures
        i <= digits_end(t, i),
        i <= t.len() ==> digits_end(t, i) <= t.len(),
    decreases t.len() - i,
{
    if 0 <= i < t.len() && is_digit(t[i]) {
        lemma_digits_end_bounds(t, i + 1);
    }
}

fn digits_end_exec(t: &Vec<u8>, i: usize) -> (r: usize)
    requires
        i <= t@.len(),
    ensures
        r == digits_end(t@, i as int),
        i <= r <= t@.len(),
{
    let mut j = i;
    while j < t.len() && t[j] >= 48 && t[j] <= 57
        invariant
            i <= j <= t@.len(),
            digits_end(t@, i as int) == digits_end(t@, j as int),
        decreases t@.len() - j,
    {
        j = j + 1;
    }
    j
}

/// Tells whether a token is a decimal number in the sense of `is_decimal`.
pub fn check_decimal(t: &Vec<u8>) -> (r: bool)
    ensures
        r == is_decimal(t@),
{
    let n = t.len();
    let a: usize = if n > 0 && (t[0] == 43 || t[0] == 45) {
        1
    } else {
        0
    };
    let b = digits_end_exec(t, a);
    let has_dot = b < n && t[b] == 46;
    let c = if has_dot {
        digits_end_exec(t, b + 1)
    } else {
        b
    };
    let mant: usize = (b - a) + (if has_dot {
        c - (b + 1)
    } else {
        0
    });
    if mant == 0 {
        return false;
    }
    if c == n {
        return true;
    }
    if t[c] != 101 {
        return false;
    }
    let d = c + 1;
    let e0 = if d < n && (t[d] == 43 || t[d] == 45) {
        d + 1
    } else {
        d
    };
    let e = digits_end_exec(t, e0);
    e > e0 && e == n
}

// ---------------------------------------------------------------- lines

pub open spec fn kw_solid() -> Seq<u8> {
    seq![115u8, 111, 108, 105, 100]
}

pub open spec fn kw_facet() -> Seq<u8> {
    seq![102u8, 97, 99, 101, 116]
}

pub open spec fn kw_normal() -> Seq<u8> {
    seq![110u8, 111, 114, 109, 97, 108]
}

pub open spec fn kw_outer() -> Seq<u8> {
    seq![111u8, 117, 116, 101, 114]
}

pub open spec fn kw_loop() -> Seq<u8> {
    seq![108u8, 111, 111, 112]
}

pub open spec fn kw_vertex() -> Seq<u8> {
    seq![118u8, 101, 114, 116, 101, 120]
}

pub open spec fn kw_endloop() -> Seq<u8> {
    seq![101u8, 110, 100, 108, 111, 111, 112]
}

pub open spec fn kw_endfacet() -> Seq<u8> {
    seq![101u8, 110, 100, 102, 97, 99, 101, 116]
}

pub open spec fn kw_endsolid() -> Seq<u8> {
    seq![101u8, 110, 100, 115, 111, 108, 105, 100]
}

/// What a line says, told from its words.
#[derive(Debug, Clone, Copy, PartialEq, Eq, Structural)]
pub enum LineKind {
    Solid,
    Facet,
    OuterLoop,
    Vertex,
    EndLoop,
    EndFacet,
    EndSolid,
    Other,
}

pub open spec fn kind_of(w: Seq<Seq<u8>>) -> LineKind {
    if w.len() >= 1 && w[0] == kw_solid() {
        LineKind::Solid
    } else if w.len() == 5 && w[0] == kw_facet() && w[1] == kw_normal() {
        LineKind::Facet
    } else if w.len() == 2 && w[0] == kw_outer() && w[1] == kw_loop() {
        LineKind::OuterLoop
    } else if w.len() == 4 && w[0] == kw_vertex() {
        LineKind::Vertex
    } else if w.len() == 1 && w[0] == kw_endloop() {
        LineKind::EndLoop
    } else if w.len() == 1 && w[0] == kw_endfacet() {
        LineKind::EndFacet
    } else if w.len() >= 1 && w[0] == kw_endsolid() {
        LineKind::EndSolid
    } else {
        LineKind::Other
    }
}

fn same_bytes(a: &Vec<u8>, b: &[u8]) -> (r: bool)
    ensures
        r == (a@ == b@),
{
    if a.len() != b.len() {
        return false;
    }
    let mut i: usize = 0;
    while i < a.len()
        invariant
            a@.len() == b@.len(),
            i <= a@.len(),
            forall|j: int| 0 <= j < i ==> a@[j] == b@[j],
        decreases a@.len() - i,
    {
        if a[i] != b[i] {
            return false;
        }
        i = i + 1;
    }
    assert(a@ =~= b@);
    true
}

fn classify(w: &Vec<Vec<u8>>) -> (r: LineKind)
    ensures
        r == kind_of(words_view(w@)),
{
    let ghost wv = words_view(w@);
    let n = w.len();
    assert(wv.len() == n);
    if n == 0 {
        return LineKind::Other;
    }
    assert(wv[0] == w@[0]@);
    let solid: [u8; 5] = [115, 111, 108, 105, 100];
    assert(solid@ =~= kw_solid());
    if same_bytes(&w[0], &solid) {
        return LineKind::Solid;
    }
    if n == 5 {
        assert(wv[1] == w@[1]@);
        let facet: [u8; 5] = [102, 97, 99, 101, 116];
        let normal: [u8; 6] = [110, 111, 114, 109, 97, 108];
        assert(facet@ =~= kw_facet());
        assert(normal@ =~= kw_normal());
        if same_bytes(&w[0], &facet) && same_bytes(&w[1], &normal) {
            return LineKind::Facet;
        }
    }
    if n == 2 {
        assert(wv[1] == w@[1]@);
        let outer: [u8; 5] = [111, 117, 116, 101, 114];
        let lp: [u8; 4] = [108, 111, 111, 112];
        assert(outer@ =~= kw_outer());
        assert(lp@ =~= kw_loop());
        if same_bytes(&w[0], &outer) && same_bytes(&w[1], &lp) {
            return LineKind::OuterLoop;
        }
    }
    if n == 4 {
        let vertex: [u8; 6] = [118, 101, 114, 116, 101, 120];
        assert(vertex@ =~= kw_vertex());
        if same_bytes(&w[0], &vertex) {
            return LineKind::Vertex;
        }
    }
    if n == 1 {
        let endloop: [u8; 7] = [101, 110, 100, 108, 111, 111, 112];
        let endfacet: [u8; 8] = [101, 110, 100, 102, 97, 99, 101, 116];
        assert(endloop@ =~= kw_endloop());
        assert(endfacet@ =~= kw_endfacet());
        if same_bytes(&w[0], &endloop) {
            return LineKind::EndLoop;
        }
        if same_bytes(&w[0], &endfacet) {
            return LineKind::EndFacet;
        }
    }
    let endsolid: [u8; 8] = [101, 110, 100, 115, 111, 108, 105, 100];
    assert(endsolid@ =~= kw_endsolid());
    if same_bytes(&w[0], &endsolid) {
        return LineKind::EndSolid;
    }
    LineKind::Other
}

// ---------------------------------------------------------------- machine

/// Where the parser stands between two lines.
#[derive(Debug, Clone, Copy, PartialEq, Eq, Structural)]
pub enum ParseState {
    Top,
    Solid,
    Facet,
    Loop,
}

/// One line (`w` its words, `line` its number) moves the parser from `st`
/// with corners `acc` and triangles `out`, or fails.
pub open spec fn step(
    w: Seq<Seq<u8>>,
    line: usize,
    st: ParseState,
    acc: Seq<VertexText>,
    out: Seq<TriangleText>,
) -> Result<(ParseState, Seq<VertexText>, Seq<TriangleText>), StlError> {
    let k = kind_of(w);
    match st {
        ParseState::Top => if k == LineKind::Solid {
            Ok((ParseState::Solid, acc, out))
        } else {
            Err(StlError::Solid(line))
        },
        ParseState::Solid => if k == LineKind::Facet {
            Ok((ParseState::Facet, acc, out))
        } else if k == LineKind::EndSolid {
            Ok((ParseState::Top, acc, out))
        } else {
            Err(StlError::Facet(line))
        },
        ParseState::Facet => if k == LineKind::OuterLoop {
            Ok((ParseState::Loop, Seq::empty(), out))
        } else if k == LineKind::EndFacet {
            Ok((ParseState::Solid, acc, out))
        } else {
            Err(StlError::Loop(line))
        },
        ParseState::Loop => if k == LineKind::Vertex {
            if is_decimal(w[1]) && is_decimal(w[2]) && is_decimal(w[3]) {
                Ok((ParseState::Loop, acc.push((w[1], w[2], w[3])), out))
            } else {
                Err(StlError::Float(line))
            }
        } else if k == LineKind::EndLoop {
            if acc.len() != 3 {
                Err(StlError::Triangle(acc.len() as usize, line))
            } else {
                Ok((ParseState::Facet, Seq::empty(), out.push((acc[0], acc[1], acc[2]))))
            }
        } else {
            Err(StlError::Vertex(line))
        },
    }
}

/// Runs the parser over `lines`, the first of which has number `n + 1`.
pub open spec fn run(
    lines: Seq<Seq<u8>>,
    n: nat,
    st: ParseState,
    acc: Seq<VertexText>,
    out: Seq<TriangleText>,
) -> Result<Seq<TriangleText>, StlError>
    decreases lines.len(),
{
    if lines.len() == 0 {
        Ok(out)
    } else {
        match step(words(lines[0]), (n + 1) as usize, st, acc, out) {
            Err(e) => Err(e),
            Ok((st2, acc2, out2)) => run(lines.drop_first(), n + 1, st2, acc2, out2),
        }
    }
}

/// What an ASCII model of these lines holds, or why it is refused.
pub open spec fn parse_lines(lines: Seq<Seq<u8>>) -> Result<Seq<TriangleText>, StlError> {
    run(lines, 0, ParseState::Top, Seq::empty(), Seq::empty())
}

pub open spec fn lines_view(lines: Seq<Vec<u8>>) -> Seq<Seq<u8>> {
    lines.map_values(|l: Vec<u8>| l@)
}

pub open spec fn triangles_view(ts: Seq<TextTriangle>) -> Seq<TriangleText> {
    ts.map_values(|t: TextTriangle| t@)
}

pub open spec fn vertices_view(vs: Seq<TextVertex>) -> Seq<VertexText> {
    vs.map_values(|v: TextVertex| v@)
}

pub open spec fn result_view(r: Result<Vec<TextTriangle>, StlError>) -> Result<
    Seq<TriangleText>,
    StlError,
> {
    match r {
        Ok(ts) => Ok(triangles_view(ts@)),
        Err(e) => Err(e),
    }
}

/// Reads an ASCII model, given as its lines without their line ends.
pub fn load(lines: &Vec<Vec<u8>>) -> (r: Result<Vec<TextTriangle>, StlError>)
    ensures
        result_view(r) == parse_lines(lines_view(lines@)),
{
    let ghost all = lines_view(lines@);
    let mut st = ParseState::Top;
    let mut acc: Vec<TextVertex> = Vec::new();
    let mut out: Vec<TextTriangle> = Vec::new();
    let n = lines.len();
    let mut i: usize = 0;
    assert(all.skip(0) =~= all);
    assert(vertices_view(acc@) =~= Seq::<VertexText>::empty());
    assert(triangles_view(out@) =~= Seq::<TriangleText>::empty());
    while i < n
        invariant
            n == lines@.len(),
            all == lines_view(lines@),
            i <= n,
            parse_lines(all) == run(
                all.skip(i as int),
                i as nat,
                st,
                vertices_view(acc@),
                triangles_view(out@),
            ),
        decreases n - i,
    {
        let ghost rest = all.skip(i as int);
        assert(rest[0] == lines@[i as int]@);
        assert(rest.drop_first() =~= all.skip(i + 1));
        let mut w = split_words(&lines[i]);
        let kind = classify(&w);
        let line = i + 1;
        let ghost wv = words_view(w@);
        match st {
            ParseState::Top => {
                if kind == LineKind::Solid {
                    st = ParseState::Solid;
                } else {
                    return Err(StlError::Solid(line));
                }
            },
            ParseState::Solid => {
                if kind == LineKind::Facet {
                    st = ParseState::Facet;
                } else if kind == LineKind::EndSolid {
                    st = ParseState::Top;
                } else {
                    return Err(StlError::Facet(line));
                }
            },
            ParseState::Facet => {
                if kind == LineKind::OuterLoop {
                    st = ParseState::Loop;
                    acc = Vec::new();
                    assert(vertices_view(acc@) =~= Seq::<VertexText>::empty());
                } else if kind == LineKind::EndFacet {
                    st = ParseState::Solid;
                } else {
                    return Err(StlError::Loop(line));
                }
            },
            ParseState::Loop => {
                if kind == LineKind::Vertex {
                    assert(wv[1] == w@[1]@ && wv[2] == w@[2]@ && wv[3] == w@[3]@);
                    let ok = check_decimal(&w[1]) && check_decimal(&w[2]) && check_decimal(&w[3]);
                    if !ok {
                        return Err(StlError::Float(line));
                    }
                    let z = w.pop().unwrap();
                    let y = w.pop().unwrap();
                    let x = w.pop().unwrap();
                    let v = TextVertex { x, y, z };
                    let ghost before = vertices_view(acc@);
                    acc.push(v);
                    assert(vertices_view(acc@) =~= before.push((wv[1], wv[2], wv[3])));
                } else if kind == LineKind::EndLoop {
                    if acc.len() != 3 {
                        return Err(StlError::Triangle(acc.len(), line));
                    }
                    let ghost av = vertices_view(acc@);
                    let c = acc.pop().unwrap();
                    let b = acc.pop().unwrap();
                    let a = acc.pop().unwrap();
                    let t = TextTriangle { a, b, c };
                    let ghost before = triangles_view(out@);
                    out.push(t);
                    assert(triangles_view(out@) =~= before.push((av[0], av[1], av[2])));
                    assert(vertices_view(acc@) =~= Seq::<VertexText>::empty());
                    st = ParseState::Facet;
                } else {
                    return Err(StlError::Vertex(line));
                }
            },
        }
        i = i + 1;
    }
    assert(all.skip(n as int) =~= Seq::<Seq<u8>>::empty());
    Ok(out)
}

// ---------------------------------------------------------------- writing

/// Words joined by single spaces.
pub open spec fn join_words(ws: Seq<Seq<u8>>) -> Seq<u8>
    decreases ws.len(),
{
    if ws.len() == 0 {
        Seq::empty()
    } else if ws.len() == 1 {
        ws[0]
    } else {
        ws[0] + seq![32u8] + join_words(ws.drop_first())
    }
}

pub open spec fn kw_zero() -> Seq<u8> {
    seq![48u8]
}

/// The name written after `solid` and `endsolid`.
pub open spec fn kw_name() -> Seq<u8> {
    seq![110u8, 97, 114, 115, 105, 108]
}

pub open spec fn solid_line() -> Seq<u8> {
    join_words(seq![kw_solid(), kw_name()])
}

pub open spec fn endsolid_line() -> Seq<u8> {
    join_words(seq![kw_endsolid(), kw_name()])
}

pub open spec fn facet_line() -> Seq<u8> {
    join_words(seq![kw_facet(), kw_normal(), kw_zero(), kw_zero(), kw_zero()])
}

pub open spec fn outer_line() -> Seq<u8> {
    join_words(seq![kw_outer(), kw_loop()])
}

pub open spec fn vertex_line(v: VertexText) -> Seq<u8> {
    join_words(seq![kw_vertex(), v.0, v.1, v.2])
}

/// The seven lines that write one triangle.
pub open spec fn triangle_lines(t: TriangleText) -> Seq<Seq<u8>> {
    seq![
        facet_line(),
        outer_line(),
        vertex_line(t.0),
        vertex_line(t.1),
        vertex_line(t.2),
        kw_endloop(),
        kw_endfacet(),
    ]
}

pub open spec fn body_lines(ts: Seq<TriangleText>) -> Seq<Seq<u8>>
    decreases ts.len(),
{
    if ts.len() == 0 {
        Seq::empty()
    } else {
        triangle_lines(ts[0]) + body_lines(ts.drop_first())
    }
}

/// The lines of an ASCII model of the triangles `ts`, all normals zero.
pub open spec fn serialized(ts: Seq<TriangleText>) -> Seq<Seq<u8>> {
    seq![solid_line()] + body_lines(ts) + seq![endsolid_line()]
}

fn push_bytes(dst: &mut Vec<u8>, src: &[u8])
    ensures
        final(dst)@ == old(dst)@ + src@,
{
    let mut i: usize = 0;
    while i < src.len()
        invariant
            i <= src@.len(),
            dst@ == old(dst)@ + src@.subrange(0, i as int),
        decreases src@.len() - i,
    {
        dst.push(src[i]);
        i = i + 1;
        assert(dst@ =~= old(dst)@ + src@.subrange(0, i as int));
    }
    assert(src@.subrange(0, src@.len() as int) =~= src@);
}

proof fn lemma_join_cons(ws: Seq<Seq<u8>>)
    requires
        ws.len() >= 2,
    ensures
        join_words(ws) == ws[0] + seq![32u8] + join_words(ws.drop_first()),
{
}

proof fn lemma_join_one(w: Seq<u8>)
    ensures
        join_words(seq![w]) == w,
{
}

proof fn lemma_join_two(a: Seq<u8>, b: Seq<u8>)
    ensures
        join_words(seq![a, b]) == a + seq![32u8] + b,
{
    lemma_join_cons(seq![a, b]);
    assert(seq![a, b].drop_first() =~= seq![b]);
    lemma_join_one(b);
}

proof fn lemma_join_three(a: Seq<u8>, b: Seq<u8>, c: Seq<u8>)
    ensures
        join_words(seq![a, b, c]) == a + seq![32u8] + b + seq![32u8] + c,
{
    lemma_join_cons(seq![a, b, c]);
    assert(seq![a, b, c].drop_first() =~= seq![b, c]);
    lemma_join_two(b, c);
    assert(a + seq![32u8] + (b + seq![32u8] + c) =~= a + seq![32u8] + b + seq![32u8] + c);
}

proof fn lemma_join_four(a: Seq<u8>, b: Seq<u8>, c: Seq<u8>, d: Seq<u8>)
    ensures
        join_words(seq![a, b, c, d]) == a + seq![32u8] + b + seq![32u8] + c + seq![32u8] + d,
{
    lemma_join_cons(seq![a, b, c, d]);
    assert(seq![a, b, c, d].drop_first() =~= seq![b, c, d]);
    lemma_join_three(b, c, d);
    assert(a + seq![32u8] + (b + seq![32u8] + c + seq![32u8] + d) =~= a + seq![32u8] + b
        + seq![32u8] + c + seq![32u8] + d);
}

proof fn lemma_join_five(a: Seq<u8>, b: Seq<u8>, c: Seq<u8>, d: Seq<u8>, e: Seq<u8>)
    ensures
        join_words(seq![a, b, c, d, e]) == a + seq![32u8] + b + seq![32u8] + c + seq![32u8] + d
            + seq![32u8] + e,
{
    lemma_join_cons(seq![a, b, c, d, e]);
    assert(seq![a, b, c, d, e].drop_first() =~= seq![b, c, d, e]);
    lemma_join_four(b, c, d, e);
    assert(a + seq![32u8] + (b + seq![32u8] + c + seq![32u8] + d + seq![32u8] + e) =~= a
        + seq![32u8] + b + seq![32u8] + c + seq![32u8] + d + seq![32u8] + e);
}

fn vertex_line_exec(v: &TextVertex) -> (r: Vec<u8>)
    ensures
        r@ == vertex_line(v@),
{
    let mut line: Vec<u8> = vec![118, 101, 114, 116, 101, 120, 32];
    push_bytes(&mut line, v.x.as_slice());
    line.push(32);
    push_bytes(&mut line, v.y.as_slice());
    line.push(32);
    push_bytes(&mut line, v.z.as_slice());
    proof {
        lemma_join_four(kw_vertex(), v.x@, v.y@, v.z@);
        assert(line@ =~= kw_vertex() + seq![32u8] + v.x@ + seq![32u8] + v.y@ + seq![32u8] + v.z@);
    }
    line
}

proof fn lemma_body_push(ts: Seq<TriangleText>, k: int)
    requires
        0 <= k < ts.len(),
    ensures
        body_lines(ts.take(k + 1)) == body_lines(ts.take(k)) + triangle_lines(ts[k]),
    decreases k,
{
    if k == 0 {
        assert(ts.take(1).drop_first() =~= Seq::<TriangleText>::empty());
        assert(ts.take(0) =~= Seq::<TriangleText>::empty());
        assert(ts.take(1)[0] == ts[0]);
        assert(body_lines(ts.take(1).drop_first()) =~= Seq::<Seq<u8>>::empty());
        assert(body_lines(ts.take(1)) =~= triangle_lines(ts[0]));
        assert(body_lines(ts.take(0)) + triangle_lines(ts[0]) =~= triangle_lines(ts[0]));
    } else {
        let tail = ts.drop_first();
        lemma_body_push(tail, k - 1);
        assert(ts.take(k + 1).drop_first() =~= tail.take(k));
        assert(ts.take(k).drop_first() =~= tail.take(k - 1));
        assert(body_lines(ts.take(k + 1)) =~= triangle_lines(ts[0]) + body_lines(tail.take(k)));
        assert(body_lines(ts.take(k)) =~= triangle_lines(ts[0]) + body_lines(tail.take(k - 1)));
    }
}

/// Writes triangles as the lines of an ASCII model, with zero normals.
pub fn serialize(ts: &Vec<TextTriangle>) -> (r: Vec<Vec<u8>>)
    ensures
        lines_view(r@) == serialized(triangles_view(ts@)),
{
    let ghost tv = triangles_view(ts@);
    let solid: Vec<u8> = vec![115, 111, 108, 105, 100, 32, 110, 97, 114, 115, 105, 108];
    proof {
        lemma_join_two(kw_solid(), kw_name());
        assert(solid@ =~= solid_line());
        lemma_join_five(kw_facet(), kw_normal(), kw_zero(), kw_zero(), kw_zero());
        lemma_join_two(kw_outer(), kw_loop());
        lemma_join_two(kw_endsolid(), kw_name());
    }
    let mut out: Vec<Vec<u8>> = Vec::new();
    out.push(solid);
    assert(lines_view(out@) =~= seq![solid_line()] + body_lines(tv.take(0)));
    let mut k: usize = 0;
    while k < ts.len()
        invariant
            tv == triangles_view(ts@),
            k <= ts@.len(),
            lines_view(out@) == seq![solid_line()] + body_lines(tv.take(k as int)),
        decreases ts@.len() - k,
    {
        let t = &ts[k];
        let ghost before = lines_view(out@);
        proof {
            lemma_join_five(kw_facet(), kw_normal(), kw_zero(), kw_zero(), kw_zero());
            lemma_join_two(kw_outer(), kw_loop());
        }
        let facet: Vec<u8> = vec![102, 97, 99, 101, 116, 32, 110, 111, 114, 109, 97, 108, 32, 48, 32, 48, 32, 48];
        assert(facet@ =~= facet_line());
        let outer: Vec<u8> = vec![111, 117, 116, 101, 114, 32, 108, 111, 111, 112];
        assert(outer@ =~= outer_line());
        let endloop: Vec<u8> = vec![101, 110, 100, 108, 111, 111, 112];
        assert(endloop@ =~= kw_endloop());
        let endfacet: Vec<u8> = vec![101, 110, 100, 102, 97, 99, 101, 116];
        assert(endfacet@ =~= kw_endfacet());
        out.push(facet);
        out.push(outer);
        out.push(vertex_line_exec(&t.a));
        out.push(vertex_line_exec(&t.b));
        out.push(vertex_line_exec(&t.c));
        out.push(endloop);
        out.push(endfacet);
        proof {
            lemma_body_push(tv, k as int);
            assert(tv[k as int] == t@);
            assert(lines_view(out@) =~= before + triangle_lines(tv[k as int]));
            assert(seq![solid_line()] + body_lines(tv.take(k + 1)) =~= before + triangle_lines(
                tv[k as int],
            ));
        }
        k = k + 1;
    }
    let endsolid: Vec<u8> = vec![101, 110, 100, 115, 111, 108, 105, 100, 32, 110, 97, 114, 115, 105, 108];
    assert(endsolid@ =~= endsolid_line());
    let ghost before = lines_view(out@);
    out.push(endsolid);
    assert(tv.take(ts@.len() as int) =~= tv);
    assert(lines_view(out@) =~= before.push(endsolid_line()));
    out
}

// ---------------------------------------------------------------- round trip

/// A word: not empty, no blank in it.
pub open spec fn clean_word(t: Seq<u8>) -> bool {
    t.len() > 0 && forall|i: int| 0 <= i < t.len() ==> !is_ws(#[trigger] t[i])
}

pub open spec fn good_token(t: Seq<u8>) -> bool {
    clean_word(t) && is_decimal(t)
}

pub open spec fn good_vertex(v: VertexText) -> bool {
    good_token(v.0) && good_token(v.1) && good_token(v.2)
}

pub open spec fn good_triangle(t: TriangleText) -> bool {
    good_vertex(t.0) && good_vertex(t.1) && good_vertex(t.2)
}

proof fn lemma_word_tail(t: Seq<u8>, rest: Seq<u8>, cur: Seq<u8>)
    requires
        forall|i: int| 0 <= i < t.len() ==> !is_ws(#[trigger] t[i]),
    ensures
        words_from(t + rest, cur) == words_from(rest, cur + t),
    decreases t.len(),
{
    if t.len() == 0 {
        assert(t + rest =~= rest);
        assert(cur + t =~= cur);
    } else {
        assert((t + rest)[0] == t[0]);
        assert((t + rest).drop_first() =~= t.drop_first() + rest);
        lemma_word_tail(t.drop_first(), rest, cur.push(t[0]));
        assert(cur.push(t[0]) + t.drop_first() =~= cur + t);
    }
}

proof fn lemma_words_join(ws: Seq<Seq<u8>>, cur: Seq<u8>)
    requires
        ws.len() >= 1,
        forall|j: int| 0 <= j < ws.len() ==> clean_word(#[trigger] ws[j]),
    ensures
        words_from(join_words(ws), cur) == seq![cur + ws[0]] + ws.drop_first(),
    decreases ws.len(),
{
    assert(clean_word(ws[0]));
    if ws.len() == 1 {
        lemma_word_tail(ws[0], Seq::empty(), cur);
        assert(ws[0] + Seq::<u8>::empty() =~= ws[0]);
        assert(ws.drop_first() =~= Seq::<Seq<u8>>::empty());
        assert(seq![cur + ws[0]] + ws.drop_first() =~= seq![cur + ws[0]]);
    } else {
        let tail = ws.drop_first();
        let rest = seq![32u8] + join_words(tail);
        assert(join_words(ws) =~= ws[0] + rest);
        lemma_word_tail(ws[0], rest, cur);
        assert(rest[0] == 32u8);
        assert(rest.drop_first() =~= join_words(tail));
        assert forall|j: int| 0 <= j < tail.len() implies clean_word(#[trigger] tail[j]) by {
            assert(tail[j] == ws[j + 1]);
        }
        lemma_words_join(tail, Seq::empty());
        assert(Seq::<u8>::empty() + tail[0] =~= tail[0]);
        assert(seq![tail[0]] + tail.drop_first() =~= tail);
    }
}

proof fn lemma_words_of_join(ws: Seq<Seq<u8>>)
    requires
        ws.len() >= 1,
        forall|j: int| 0 <= j < ws.len() ==> clean_word(#[trigger] ws[j]),
    ensures
        words(join_words(ws)) == ws,
{
    lemma_words_join(ws, Seq::empty());
    assert(Seq::<u8>::empty() + ws[0] =~= ws[0]);
    assert(seq![ws[0]] + ws.drop_first() =~= ws);
}

proof fn lemma_words_clean(s: Seq<u8>, cur: Seq<u8>)
    requires
        forall|i: int| 0 <= i < cur.len() ==> !is_ws(#[trigger] cur[i]),
    ensures
        forall|j: int|
            0 <= j < words_from(s, cur).len() ==> clean_word(#[trigger] words_from(s, cur)[j]),
    decreases s.len(),
{
    if s.len() == 0 {
        if cur.len() > 0 {
            assert(words_from(s, cur) =~= seq![cur]);
            assert(clean_word(cur));
        }
    } else if is_ws(s[0]) {
        lemma_words_clean(s.drop_first(), Seq::empty());
        let tail = words_from(s.drop_first(), Seq::empty());
        if cur.len() > 0 {
            assert(words_from(s, cur) =~= seq![cur] + tail);
            assert(clean_word(cur));
            assert forall|j: int| 0 <= j < words_from(s, cur).len() implies clean_word(
                #[trigger] words_from(s, cur)[j],
            ) by {
                if j > 0 {
                    assert(words_from(s, cur)[j] == tail[j - 1]);
                }
            }
        } else {
            assert(words_from(s, cur) == tail);
        }
    } else {
        let c2 = cur.push(s[0]);
        assert forall|i: int| 0 <= i < c2.len() implies !is_ws(#[trigger] c2[i]) by {
            if i < cur.len() {
                assert(c2[i] == cur[i]);
            }
        }
        lemma_words_clean(s.drop_first(), c2);
        assert(words_from(s, cur) == words_from(s.drop_first(), c2));
    }
}

proof fn lemma_keywords()
    ensures
        clean_word(kw_solid()),
        clean_word(kw_facet()),
        clean_word(kw_normal()),
        clean_word(kw_outer()),
        clean_word(kw_loop()),
        clean_word(kw_vertex()),
        clean_word(kw_endloop()),
        clean_word(kw_endfacet()),
        clean_word(kw_endsolid()),
        clean_word(kw_zero()),
        clean_word(kw_name()),
        kw_facet() != kw_solid(),
        kw_outer() != kw_solid(),
        kw_vertex() != kw_solid(),
        kw_endloop() != kw_solid(),
        kw_endfacet() != kw_solid(),
        kw_endsolid() != kw_solid(),
        kw_endfacet() != kw_endloop(),
        kw_endsolid() != kw_outer(),
{
    assert(kw_facet()[0] != kw_solid()[0]);
    assert(kw_outer()[0] != kw_solid()[0]);
    assert(kw_vertex()[0] != kw_solid()[0]);
    assert(kw_endloop()[0] != kw_solid()[0]);
    assert(kw_endfacet()[0] != kw_solid()[0]);
    assert(kw_endsolid()[0] != kw_solid()[0]);
    assert(kw_endfacet()[3] != kw_endloop()[3]);
    assert(kw_endsolid()[0] != kw_outer()[0]);
}

proof fn lemma_run_cons(
    l: Seq<u8>,
    rest: Seq<Seq<u8>>,
    n: nat,
    st: ParseState,
    acc: Seq<VertexText>,
    out: Seq<TriangleText>,
)
    ensures
        run(seq![l] + rest, n, st, acc, out) == match step(words(l), (n + 1) as usize, st, acc, out) {
            Err(e) => Err(e),
            Ok((st2, acc2, out2)) => run(rest, n + 1, st2, acc2, out2),
        },
{
    assert((seq![l] + rest)[0] == l);
    assert((seq![l] + rest).drop_first() =~= rest);
}

proof fn lemma_triangle_lines(
    t: TriangleText,
    rest: Seq<Seq<u8>>,
    n: nat,
    acc: Seq<VertexText>,
    out: Seq<TriangleText>,
)
    requires
        good_triangle(t),
    ensures
        run(triangle_lines(t) + rest, n, ParseState::Solid, acc, out) == run(
            rest,
            n + 7,
            ParseState::Solid,
            Seq::empty(),
            out.push(t),
        ),
{
    lemma_keywords();
    let ws_facet = seq![kw_facet(), kw_normal(), kw_zero(), kw_zero(), kw_zero()];
    let ws_outer = seq![kw_outer(), kw_loop()];
    let ws_a = seq![kw_vertex(), t.0.0, t.0.1, t.0.2];
    let ws_b = seq![kw_vertex(), t.1.0, t.1.1, t.1.2];
    let ws_c = seq![kw_vertex(), t.2.0, t.2.1, t.2.2];
    lemma_words_of_join(ws_facet);
    lemma_words_of_join(ws_outer);
    lemma_words_of_join(ws_a);
    lemma_words_of_join(ws_b);
    lemma_words_of_join(ws_c);
    lemma_words_of_join(seq![kw_endloop()]);
    lemma_words_of_join(seq![kw_endfacet()]);
    lemma_join_one(kw_endloop());
    lemma_join_one(kw_endfacet());
    let r6 = seq![kw_endfacet()] + rest;
    let r5 = seq![kw_endloop()] + r6;
    let r4 = seq![vertex_line(t.2)] + r5;
    let r3 = seq![vertex_line(t.1)] + r4;
    let r2 = seq![vertex_line(t.0)] + r3;
    let r1 = seq![outer_line()] + r2;
    let r0 = seq![facet_line()] + r1;
    assert(triangle_lines(t) + rest =~= r0);
    let a1 = Seq::<VertexText>::empty().push(t.0);
    let a2 = a1.push(t.1);
    let a3 = a2.push(t.2);
    lemma_run_cons(facet_line(), r1, n, ParseState::Solid, acc, out);
    lemma_run_cons(outer_line(), r2, n + 1, ParseState::Facet, acc, out);
    lemma_run_cons(vertex_line(t.0), r3, n + 2, ParseState::Loop, Seq::empty(), out);
    lemma_run_cons(vertex_line(t.1), r4, n + 3, ParseState::Loop, a1, out);
    lemma_run_cons(vertex_line(t.2), r5, n + 4, ParseState::Loop, a2, out);
    lemma_run_cons(kw_endloop(), r6, n + 5, ParseState::Loop, a3, out);
    assert((a3[0], a3[1], a3[2]) == t);
    lemma_run_cons(kw_endfacet(), rest, n + 6, ParseState::Facet, Seq::empty(), out.push(t));
}

proof fn lemma_body_lines(
    ts: Seq<TriangleText>,
    rest: Seq<Seq<u8>>,
    n: nat,
    out: Seq<TriangleText>,
)
    requires
        forall|k: int| 0 <= k < ts.len() ==> good_triangle(#[trigger] ts[k]),
    ensures
        run(body_lines(ts) + rest, n, ParseState::Solid, Seq::empty(), out) == run(
            rest,
            n + 7 * ts.len(),
            ParseState::Solid,
            Seq::empty(),
            out + ts,
        ),
    decreases ts.len(),
{
    if ts.len() == 0 {
        assert(body_lines(ts) + rest =~= rest);
        assert(out + ts =~= out);
    } else {
        let tail = ts.drop_first();
        assert(good_triangle(ts[0]));
        assert(body_lines(ts) + rest =~= triangle_lines(ts[0]) + (body_lines(tail) + rest));
        lemma_triangle_lines(ts[0], body_lines(tail) + rest, n, Seq::empty(), out);
        assert forall|k: int| 0 <= k < tail.len() implies good_triangle(#[trigger] tail[k]) by {
            assert(tail[k] == ts[k + 1]);
        }
        lemma_body_lines(tail, rest, n + 7, out.push(ts[0]));
        assert(out.push(ts[0]) + tail =~= out + ts);
        assert(n + 7 + 7 * tail.len() == n + 7 * ts.len());
    }
}

proof fn lemma_parse_serialized(ts: Seq<TriangleText>)
    requires
        forall|k: int| 0 <= k < ts.len() ==> good_triangle(#[trigger] ts[k]),
    ensures
        parse_lines(serialized(ts)) == Ok::<Seq<TriangleText>, StlError>(ts),
{
    lemma_keywords();
    lemma_words_of_join(seq![kw_solid(), kw_name()]);
    lemma_words_of_join(seq![kw_endsolid(), kw_name()]);
    let tail = seq![endsolid_line()];
    assert(serialized(ts) =~= seq![solid_line()] + (body_lines(ts) + tail));
    lemma_run_cons(solid_line(), body_lines(ts) + tail, 0, ParseState::Top, Seq::empty(), Seq::empty());
    lemma_body_lines(ts, tail, 1, Seq::empty());
    assert(Seq::<TriangleText>::empty() + ts =~= ts);
    assert(tail =~= seq![endsolid_line()] + Seq::<Seq<u8>>::empty());
    lemma_run_cons(
        endsolid_line(),
        Seq::empty(),
        1 + 7 * ts.len(),
        ParseState::Solid,
        Seq::empty(),
        ts,
    );
}

proof fn lemma_run_good(
    lines: Seq<Seq<u8>>,
    n: nat,
    st: ParseState,
    acc: Seq<VertexText>,
    out: Seq<TriangleText>,
)
    requires
        forall|k: int| 0 <= k < acc.len() ==> good_vertex(#[trigger] acc[k]),
        forall|k: int| 0 <= k < out.len() ==> good_triangle(#[trigger] out[k]),
        run(lines, n, st, acc, out) is Ok,
    ensures
        forall|k: int|
            0 <= k < run(lines, n, st, acc, out)->Ok_0.len() ==> good_triangle(
                #[trigger] run(lines, n, st, acc, out)->Ok_0[k],
            ),
    decreases lines.len(),
{
    if lines.len() > 0 {
        let w = words(lines[0]);
        lemma_words_clean(lines[0], Seq::empty());
        let r = step(w, (n + 1) as usize, st, acc, out);
        assert(r is Ok);
        let (st2, acc2, out2) = r->Ok_0;
        if st == ParseState::Loop && kind_of(w) == LineKind::Vertex {
            assert(clean_word(w[1]) && clean_word(w[2]) && clean_word(w[3]));
            assert forall|k: int| 0 <= k < acc2.len() implies good_vertex(#[trigger] acc2[k]) by {
                if k < acc.len() {
                    assert(acc2[k] == acc[k]);
                }
            }
        }
        if st == ParseState::Loop && kind_of(w) == LineKind::EndLoop {
            assert(good_vertex(acc[0]) && good_vertex(acc[1]) && good_vertex(acc[2]));
            assert forall|k: int| 0 <= k < out2.len() implies good_triangle(#[trigger] out2[k]) by {
                if k < out.len() {
                    assert(out2[k] == out[k]);
                }
            }
        }
        lemma_run_good(lines.drop_first(), n + 1, st2, acc2, out2);
    }
}

/// Parsing, writing what was parsed and parsing that again gives the same
/// triangles, token for token.
pub proof fn lemma_round_trip(lines: Seq<Seq<u8>>)
    requires
        parse_lines(lines) is Ok,
    ensures
        parse_lines(serialized(parse_lines(lines)->Ok_0)) == parse_lines(lines),
{
    lemma_run_good(lines, 0, ParseState::Top, Seq::empty(), Seq::empty());
    lemma_parse_serialized(parse_lines(lines)->Ok_0);
}

} // verus!
