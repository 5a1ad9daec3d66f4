//! Reading Wavefront OBJ text: vertices, vertex normals, faces (fanned out
//! into triangles) and named groups.
use vstd::prelude::*;
use crate::fixed::{floor_div, floor_div_i128, ONE};
use crate::tuple::Tuple;
use crate::bounding_box::{bounds_of, lemma_bounds_of_holds, max_int, BoundingBox};
use crate::coordinate::{coordinate_value, float_word, parse_coordinate};
use crate::text::{
    is_ws, words_from, lines, trim_chars, words, chars_of, decimal, decimal_chars, lines_of, numeral_value, parse_usize,
    string_from_chars, trim, views, words_of,
};
use std::num::ParseIntError;

verus! {

/// The pieces of `s` between the `'/'` separators (as `split('/')` yields
/// them: always at least one, empty pieces included).
pub open spec fn slash_pieces_from(s: Seq<char>, cur: Seq<char>, acc: Seq<Seq<char>>) -> Seq<
    Seq<char>,
>
    decreases s.len(),
{
    if s.len() == 0 {
        acc.push(cur)
    } else if s[0] == '/' {
        slash_pieces_from(s.drop_first(), Seq::empty(), acc.push(cur))
    } else {
        slash_pieces_from(s.drop_first(), cur.push(s[0]), acc)
    }
}

pub open spec fn slash_pieces(s: Seq<char>) -> Seq<Seq<char>> {
    slash_pieces_from(s, Seq::empty(), Seq::empty())
}

/// An index of a face element: empty, or a numeral that fits a `usize`.
pub open spec fn piece_ok(p: Seq<char>) -> bool {
    p.len() == 0 || (numeral_value(p) matches Some(v) && v <= usize::MAX)
}

/// The index a face element gives, if it is not empty.
pub open spec fn piece_index(p: Seq<char>) -> Option<int> {
    if p.len() == 0 {
        None
    } else {
        numeral_value(p)
    }
}

/// The vertex, texture and normal indices of one vertex of a face,
/// written `v`, `v/t`, `v//n` or `v/t/n`.
#[derive(Clone, Copy, Debug, PartialEq, Eq)]
pub struct FaceParseResults {
    pub vertex: usize,
    pub texture: Option<usize>,
    pub normal: Option<usize>,
}

/// Why OBJ text could not be read.
#[derive(Debug)]
pub enum ParseError {
    /// A vertex or normal coordinate is not a number as `f32` parsing
    /// reads numbers (the word is kept).
    ParseFloatError(String),
    /// A vertex or normal coordinate is a number (or `inf` or `nan`) that
    /// the fixed-point scalars cannot hold: not finite, or of magnitude
    /// 2^30 or more (the word is kept).
    CoordinateOutOfRange(String),
    /// A face index is not an unsigned integer.
    ParseIntError(ParseIntError),
    MalformedVertex(String),
    MalformedFace(String),
    MalformedNormal(String),
    MalformedGroupDeclaration(String),
    UnexpectedSymbol(String),
}

impl From<ParseIntError> for ParseError {
    fn from(err: ParseIntError) -> (e: ParseError) {
        ParseError::ParseIntError(err)
    }
}

impl vstd::std_specs::convert::FromSpecImpl<ParseIntError> for ParseError {
    open spec fn obeys_from_spec() -> bool {
        true
    }

    open spec fn from_spec(v: ParseIntError) -> ParseError {
        ParseError::ParseIntError(v)
    }
}

/// What reading one vertex of a face gives: an element that is not an
/// index, a missing vertex index, or the indices.
pub enum FaceOutcome {
    NotAnIndex,
    MissingVertex,
    Face(FaceParseResults),
}

/// The index in the `k`-th element of a face vertex, if it is there and not
/// empty.
pub open spec fn element_index(ps: Seq<Seq<char>>, k: int) -> Option<usize> {
    if k < ps.len() && ps[k].len() > 0 {
        Some(numeral_value(ps[k])->0 as usize)
    } else {
        None
    }
}

/// Reading one vertex of a face, written `v`, `v/t`, `v//n` or `v/t/n`:
/// every element must be empty or an unsigned integer that fits a `usize`,
/// and the vertex index must be there. Elements after the third are read
/// and then dropped.
pub open spec fn face_outcome(s: Seq<char>) -> FaceOutcome {
    let ps = slash_pieces(s);
    if exists|i: int| 0 <= i < ps.len() && !piece_ok(#[trigger] ps[i]) {
        FaceOutcome::NotAnIndex
    } else if ps[0].len() == 0 {
        FaceOutcome::MissingVertex
    } else {
        FaceOutcome::Face(
            FaceParseResults {
                vertex: numeral_value(ps[0])->0 as usize,
                texture: element_index(ps, 1),
                normal: element_index(ps, 2),
            },
        )
    }
}

/// Whether a result of `parse_face` is what `face_outcome` says.
pub open spec fn face_result_matches(r: Result<FaceParseResults, ParseError>, o: FaceOutcome) -> bool {
    match o {
        FaceOutcome::NotAnIndex => r matches Err(ParseError::ParseIntError(_)),
        FaceOutcome::MissingVertex => r matches Err(ParseError::MalformedFace(m)) && m@
            == "Missing vertex index"@,
        FaceOutcome::Face(f) => r matches Ok(g) && g == f,
    }
}

/// Reads one vertex of a face (see `face_outcome`).
pub fn parse_face(face_string: &[char]) -> (r: Result<FaceParseResults, ParseError>)
    ensures
        face_result_matches(r, face_outcome(face_string@)),
{
    // cut at the slashes
    let mut pieces: Vec<Vec<char>> = Vec::new();
    let mut cur: Vec<char> = Vec::new();
    let mut i: usize = 0;
    assert(face_string@.skip(0) == face_string@);
    assert(views(pieces@) =~= Seq::<Seq<char>>::empty());
    while i < face_string.len()
        invariant
            i <= face_string.len(),
            slash_pieces_from(face_string@.skip(i as int), cur@, views(pieces@)) == slash_pieces(
                face_string@,
            ),
        decreases face_string.len() - i,
    {
        let c = face_string[i];
        assert(face_string@.skip(i as int).drop_first() == face_string@.skip(i + 1));
        if c == '/' {
            let ghost before = pieces@;
            let done = cur;
            pieces.push(done);
            cur = Vec::new();
            assert(views(pieces@) =~= views(before).push(done@));
        } else {
            cur.push(c);
        }
        i = i + 1;
    }
    let ghost before = pieces@;
    let ghost last = cur@;
    pieces.push(cur);
    assert(views(pieces@) =~= views(before).push(last));
    let ghost ps = views(pieces@);
    assert(ps == slash_pieces(face_string@));
    // read every element
    let mut indices: Vec<Option<usize>> = Vec::new();
    let mut k: usize = 0;
    while k < pieces.len()
        invariant
            k <= pieces.len(),
            ps == views(pieces@),
            ps == slash_pieces(face_string@),
            indices@.len() == k,
            forall|j: int| 0 <= j < k ==> piece_ok(#[trigger] ps[j]),
            forall|j: int|
                0 <= j < k ==> (#[trigger] indices@[j] matches Some(v) ==> piece_index(ps[j])
                    == Some(v as int)) && (indices@[j] is None ==> ps[j].len() == 0),
        decreases pieces.len() - k,
    {
        assert(ps[k as int] == pieces[k as int]@);
        if pieces[k].len() == 0 {
            indices.push(None);
        } else {
            let text = string_from_chars(pieces[k].as_slice());
            match parse_usize(text.as_str()) {
                Ok(v) => {
                    indices.push(Some(v));
                },
                Err(e) => {
                    assert(!piece_ok(ps[k as int]));
                    return Err(ParseError::ParseIntError(e));
                },
            }
        }
        k = k + 1;
    }
    assert(ps[0] == pieces[0]@);
    match indices[0] {
        Some(vertex) => {
            let texture = if indices.len() > 1 {
                indices[1]
            } else {
                None
            };
            let normal = if indices.len() > 2 {
                indices[2]
            } else {
                None
            };
            Ok(FaceParseResults { vertex, texture, normal })
        },
        None => Err(ParseError::MalformedFace("Missing vertex index".to_string())),
    }
}

/// A triangle read from a face: flat, or smooth with a normal at each
/// corner.
#[derive(Clone, Copy, Debug, PartialEq, Eq, Structural)]
pub enum ObjTriangle {
    Flat { p1: Tuple, p2: Tuple, p3: Tuple },
    Smooth { p1: Tuple, p2: Tuple, p3: Tuple, n1: Tuple, n2: Tuple, n3: Tuple },
}

/// The `k`-th triangle of the fan over a face: its corners are the first
/// vertex and the vertices `k` and `k + 1`. The triangles are smooth when
/// the first vertex of the face names a normal; the normals are then looked
/// up by the vertex indices.
pub open spec fn fan_triangle(
    vs: Seq<Tuple>,
    ns: Seq<Tuple>,
    fs: Seq<FaceParseResults>,
    k: int,
) -> ObjTriangle {
    let a = fs[0].vertex as int;
    let b = fs[k].vertex as int;
    let c = fs[k + 1].vertex as int;
    if fs[0].normal is Some {
        ObjTriangle::Smooth { p1: vs[a], p2: vs[b], p3: vs[c], n1: ns[a], n2: ns[b], n3: ns[c] }
    } else {
        ObjTriangle::Flat { p1: vs[a], p2: vs[b], p3: vs[c] }
    }
}

/// The fan of triangles over a convex face.
pub open spec fn fan_spec(vs: Seq<Tuple>, ns: Seq<Tuple>, fs: Seq<FaceParseResults>) -> Seq<
    ObjTriangle,
> {
    Seq::new((fs.len() - 2) as nat, |i: int| fan_triangle(vs, ns, fs, i + 1))
}

/// Whether every index of the face names a vertex (and, for a smooth face,
/// a normal).
pub open spec fn fan_in_range(vs_len: int, ns_len: int, fs: Seq<FaceParseResults>) -> bool {
    forall|j: int|
        0 <= j < fs.len() ==> (#[trigger] fs[j]).vertex < vs_len && (fs[0].normal is Some
            ==> fs[j].vertex < ns_len)
}

/// Cuts a convex face into a fan of triangles (see `fan_spec`).
pub fn fan_triangulation(
    all_vertices: &[Tuple],
    all_normals: &[Tuple],
    face_specs: &[FaceParseResults],
) -> (triangles: Vec<ObjTriangle>)
    requires
        face_specs.len() > 2,
        fan_in_range(all_vertices.len() as int, all_normals.len() as int, face_specs@),
    ensures
        triangles@ == fan_spec(all_vertices@, all_normals@, face_specs@),
{
    let mut triangles: Vec<ObjTriangle> = Vec::new();
    let using_smooth_triangles = face_specs[0].normal.is_some();
    let ghost fs = face_specs@;
    assert(fs[0].vertex < all_vertices.len());
    let mut index: usize = 1;
    while index < face_specs.len() - 1
        invariant
            1 <= index <= face_specs.len() - 1,
            face_specs.len() > 2,
            fs == face_specs@,
            using_smooth_triangles == fs[0].normal is Some,
            fan_in_range(all_vertices.len() as int, all_normals.len() as int, fs),
            triangles@.len() == index - 1,
            forall|i: int|
                0 <= i < index - 1 ==> #[trigger] triangles@[i] == fan_triangle(
                    all_vertices@,
                    all_normals@,
                    fs,
                    i + 1,
                ),
        decreases face_specs.len() - index,
    {
        assert(fs[0].vertex < all_vertices.len());
        assert(fs[index as int].vertex < all_vertices.len());
        assert(fs[index + 1].vertex < all_vertices.len());
        let a = face_specs[0].vertex;
        let b = face_specs[index].vertex;
        let c = face_specs[index + 1].vertex;
        let v1 = all_vertices[a];
        let v2 = all_vertices[b];
        let v3 = all_vertices[c];
        let tri = if using_smooth_triangles {
            let n1 = all_normals[a];
            let n2 = all_normals[b];
            let n3 = all_normals[c];
            ObjTriangle::Smooth { p1: v1, p2: v2, p3: v3, n1, n2, n3 }
        } else {
            ObjTriangle::Flat { p1: v1, p2: v2, p3: v3 }
        };
        triangles.push(tri);
        index = index + 1;
    }
    assert(triangles@ =~= fan_spec(all_vertices@, all_normals@, fs));
    triangles
}

/// The widest extent of a box along the three axes.
pub open spec fn widest_span(b: BoundingBox) -> int {
    max_int(b.max.x - b.min.x, max_int(b.max.y - b.min.y, b.max.z - b.min.z))
}

/// A coordinate `v` from `[lo, hi]` moved so that the middle of the range
/// goes to zero and scaled so that a range of width `w` spans `[-1, 1]`,
/// rounded down: `(v - (lo + hi) / 2) / (w / 2)`.
pub open spec fn normalized_coord(v: int, lo: int, hi: int, w: int) -> int {
    floor_div((2 * v - lo - hi) * ONE, w)
}

/// A vertex normalized within the box `b` (its `w` is kept).
pub open spec fn normalized_vertex(v: Tuple, b: BoundingBox) -> Tuple {
    let w = widest_span(b);
    Tuple {
        x: normalized_coord(v.x as int, b.min.x as int, b.max.x as int, w) as i64,
        y: normalized_coord(v.y as int, b.min.y as int, b.max.y as int, w) as i64,
        z: normalized_coord(v.z as int, b.min.z as int, b.max.z as int, w) as i64,
        w: v.w,
    }
}

/// The vertices after normalization: every vertex but the first (a
/// placeholder) is moved and scaled so that the vertices are centered at
/// the origin and their widest extent spans `[-1, 1]`. When there is no
/// vertex besides the placeholder, or all of them lie in one point, nothing
/// changes.
pub open spec fn normalized_spec(vs: Seq<Tuple>) -> Seq<Tuple> {
    let b = bounds_of(vs.skip(1));
    if vs.len() <= 1 || widest_span(b) <= 0 {
        vs
    } else {
        Seq::new(
            vs.len(),
            |i: int|
                if i == 0 {
                    vs[0]
                } else {
                    normalized_vertex(vs[i], b)
                },
        )
    }
}

/// A coordinate within `[lo, hi]`, normalized by a width at least
/// `hi - lo`, lies in `[-1, 1]`.
proof fn lemma_normalized_range(v: int, lo: int, hi: int, w: int)
    requires
        lo <= v <= hi,
        hi - lo <= w,
        w > 0,
    ensures
        -ONE <= normalized_coord(v, lo, hi, w) <= ONE,
{
    let n = 2 * v - lo - hi;
    assert(-w <= n <= w);
    assert(-w * ONE <= n * ONE <= w * ONE) by (nonlinear_arith)
        requires
            -w <= n <= w,
            w > 0,
    ;
    vstd::arithmetic::div_mod::lemma_div_is_ordered(n * ONE, w * ONE, w);
    vstd::arithmetic::div_mod::lemma_div_is_ordered(-w * ONE, n * ONE, w);
    vstd::arithmetic::div_mod::lemma_div_multiples_vanish(ONE as int, w);
    vstd::arithmetic::div_mod::lemma_div_multiples_vanish(-(ONE as int), w);
    assert(w * ONE == w * (ONE as int)) by (nonlinear_arith);
    assert(-w * ONE == w * (-(ONE as int))) by (nonlinear_arith);
}

/// Normalizes one coordinate (see `normalized_coord`).
fn normalize_coord(v: i64, lo: i64, hi: i64, w: i128) -> (r: i64)
    requires
        lo <= v <= hi,
        hi - lo <= w,
        w > 0,
    ensures
        r == normalized_coord(v as int, lo as int, hi as int, w as int),
{
    let n = 2 * (v as i128) - (lo as i128) - (hi as i128);
    proof {
        assert(-w <= n <= w);
        assert(-0x2_0000_0000_0000_0000 * 0x1_0000_0000 <= n * ONE <= 0x2_0000_0000_0000_0000
            * 0x1_0000_0000) by (nonlinear_arith)
            requires
                -0x2_0000_0000_0000_0000 <= n <= 0x2_0000_0000_0000_0000,
        ;
        lemma_normalized_range(v as int, lo as int, hi as int, w as int);
    }
    let q = floor_div_i128(n * (ONE as i128), w);
    q as i64
}

/// Moves and scales the vertices after the placeholder at index 0 so that
/// their minimum and maximum coordinates are -1 and 1 along their widest
/// axis and they are centered at the origin (see `normalized_spec`).
pub fn normalize_vertices(vertices: &mut Vec<Tuple>)
    requires
        old(vertices).len() >= 1,
    ensures
        final(vertices)@ == normalized_spec(old(vertices)@),
{
    let ghost vs = vertices@;
    let mut bounds = BoundingBox::empty();
    let mut k: usize = 1;
    assert(vs.subrange(1, 1) =~= Seq::<Tuple>::empty());
    while k < vertices.len()
        invariant
            1 <= k <= vertices.len(),
            vertices@ == vs,
            bounds == bounds_of(vs.subrange(1, k as int)),
        decreases vertices.len() - k,
    {
        bounds.add_point(vertices[k]);
        assert(vs.subrange(1, k + 1).drop_last() =~= vs.subrange(1, k as int));
        k = k + 1;
    }
    assert(vs.subrange(1, vs.len() as int) =~= vs.skip(1));
    let wx = (bounds.max.x as i128) - (bounds.min.x as i128);
    let wy = (bounds.max.y as i128) - (bounds.min.y as i128);
    let wz = (bounds.max.z as i128) - (bounds.min.z as i128);
    let mut w = wx;
    if wy > w {
        w = wy;
    }
    if wz > w {
        w = wz;
    }
    if vertices.len() <= 1 || w <= 0 {
        assert(w == widest_span(bounds));
        return ;
    }
    assert(w == widest_span(bounds));
    let mut i: usize = 1;
    while i < vertices.len()
        invariant
            1 <= i <= vertices.len(),
            vertices.len() == vs.len(),
            vs.len() > 1,
            bounds == bounds_of(vs.skip(1)),
            w == widest_span(bounds),
            w > 0,
            vertices@[0] == vs[0],
            forall|j: int| 1 <= j < i ==> #[trigger] vertices@[j] == normalized_vertex(vs[j], bounds),
            forall|j: int| i <= j < vs.len() ==> #[trigger] vertices@[j] == vs[j],
        decreases vertices.len() - i,
    {
        let v = vertices[i];
        proof {
            assert(vs.skip(1)[i - 1] == vs[i as int]);
            lemma_bounds_of_holds(vs.skip(1), i - 1);
        }
        let nv = Tuple {
            x: normalize_coord(v.x, bounds.min.x, bounds.max.x, w),
            y: normalize_coord(v.y, bounds.min.y, bounds.max.y, w),
            z: normalize_coord(v.z, bounds.min.z, bounds.max.z, w),
            w: v.w,
        };
        vertices.set(i, nv);
        i = i + 1;
    }
    assert(vertices@ =~= normalized_spec(vs));
}

/// A named group of triangles.
#[derive(Debug)]
pub struct ObjGroup {
    pub name: String,
    pub triangles: Vec<ObjTriangle>,
}

/// The names and triangles of a list of groups.
pub open spec fn groups_view(gs: Seq<ObjGroup>) -> Seq<(Seq<char>, Seq<ObjTriangle>)> {
    Seq::new(gs.len(), |i: int| (gs[i].name@, gs[i].triangles@))
}

/// What reading OBJ text gives.
pub struct ObjParseResults {
    /// The number of lines read.
    pub num_ignored_lines: usize,
    /// The vertices, after a placeholder at index 0 (OBJ counts from 1).
    pub vertices: Vec<Tuple>,
    /// The vertex normals, after a placeholder at index 0.
    pub normals: Vec<Tuple>,
    /// The groups in the order in which they were first declared; faces
    /// before any group declaration go to the group named by the empty
    /// string. `None` once they have been taken.
    pub groups: Option<Vec<ObjGroup>>,
}

/// Whether `i` is the first index of a group named `name`.
pub open spec fn first_named(gs: Seq<(Seq<char>, Seq<ObjTriangle>)>, name: Seq<char>, i: int) -> bool {
    &&& 0 <= i < gs.len()
    &&& gs[i].0 == name
    &&& forall|j: int| 0 <= j < i ==> (#[trigger] gs[j]).0 != name
}

proof fn lemma_first_named_unique(
    gs: Seq<(Seq<char>, Seq<ObjTriangle>)>,
    name: Seq<char>,
    i: int,
    j: int,
)
    requires
        first_named(gs, name, i),
        first_named(gs, name, j),
    ensures
        i == j,
{
    if i < j {
        assert(gs[i].0 != name);
    } else if j < i {
        assert(gs[j].0 != name);
    }
}

/// Declaring the group `name`: a group of that name is replaced by an empty
/// one, or an empty group is added at the end. Also gives the group's index.
pub open spec fn declare_group(gs: Seq<(Seq<char>, Seq<ObjTriangle>)>, name: Seq<char>) -> (
    Seq<(Seq<char>, Seq<ObjTriangle>)>,
    int,
) {
    if exists|i: int| first_named(gs, name, i) {
        let i = choose|i: int| first_named(gs, name, i);
        (gs.update(i, (name, Seq::empty())), i)
    } else {
        (gs.push((name, Seq::empty())), gs.len() as int)
    }
}

/// The state of a reading of OBJ text after some of its lines.
pub struct ObjModel {
    pub lines: nat,
    pub vertices: Seq<Tuple>,
    pub normals: Seq<Tuple>,
    pub groups: Seq<(Seq<char>, Seq<ObjTriangle>)>,
    pub current: Option<int>,
    pub normalized: bool,
}

/// Why reading OBJ text fails.
pub enum ObjFailure {
    NotANumber(Seq<char>),
    OutOfRange(Seq<char>),
    NotAnIndex,
    MalformedVertex(Seq<char>),
    MalformedFace(Seq<char>),
    MalformedNormal(Seq<char>),
    MalformedGroupDeclaration(Seq<char>),
    UnexpectedSymbol(Seq<char>),
}

/// The outcome of reading a line, or lines: a face names a vertex or normal
/// that is not there, and reading is refused; a failure; or the new state.
pub enum ObjStep {
    Refused,
    Failed(ObjFailure),
    Read(ObjModel),
}

/// The coordinates in `ws` (`None` for a number that is out of range or
/// not finite), or the first word that is no number.
pub open spec fn read_coords(ws: Seq<Seq<char>>) -> Result<Seq<Option<int>>, Seq<char>>
    decreases ws.len(),
{
    if ws.len() == 0 {
        Ok(Seq::empty())
    } else {
        match read_coords(ws.drop_last()) {
            Err(w) => Err(w),
            Ok(cs) => if float_word(ws.last()) {
                Ok(cs.push(coordinate_value(ws.last())))
            } else {
                Err(ws.last())
            },
        }
    }
}

proof fn lemma_read_coords_len(ws: Seq<Seq<char>>)
    ensures
        read_coords(ws) matches Ok(cs) ==> cs.len() == ws.len(),
    decreases ws.len(),
{
    if ws.len() > 0 {
        lemma_read_coords_len(ws.drop_last());
    }
}

/// Of three coordinates read from the words `ws`, the word of the first
/// one that is out of range or not finite.
pub open spec fn first_unrepresentable(cs: Seq<Option<int>>, ws: Seq<Seq<char>>) -> Option<Seq<char>> {
    if cs[0] is None {
        Some(ws[0])
    } else if cs[1] is None {
        Some(ws[1])
    } else if cs[2] is None {
        Some(ws[2])
    } else {
        None
    }
}

/// The face vertices in `ws`, or what is wrong with the first one that
/// cannot be read.
pub open spec fn read_faces(ws: Seq<Seq<char>>) -> Result<Seq<FaceParseResults>, FaceOutcome>
    decreases ws.len(),
{
    if ws.len() == 0 {
        Ok(Seq::empty())
    } else {
        match read_faces(ws.drop_last()) {
            Err(e) => Err(e),
            Ok(fs) => match face_outcome(ws.last()) {
                FaceOutcome::Face(f) => Ok(fs.push(f)),
                e => Err(e),
            },
        }
    }
}

pub open spec fn order_message(index: nat) -> Seq<char> {
    "Found vertex at line "@ + decimal(index)
        + "; vertices must all be specified before any faces are specified (so that they may be normalized before any faces are created)"@
}

pub open spec fn count_message(prefix: Seq<char>, index: nat, found: nat) -> Seq<char> {
    prefix + decimal(index) + "; expected 3, found "@ + decimal(found)
}

pub open spec fn vertex_prefix() -> Seq<char> {
    "Wrong number of coordinates in vertex at line "@
}

pub open spec fn normal_prefix() -> Seq<char> {
    "Wrong number of coordinates in normal vector at line "@
}

pub open spec fn face_prefix() -> Seq<char> {
    "Not enough vertices to form a face at line "@
}

pub open spec fn group_message(index: nat) -> Seq<char> {
    "Missing group name on line "@ + decimal(index)
}

/// The point or vector with the three coordinates `cs`.
pub open spec fn tuple_of(cs: Seq<Option<int>>, w: int) -> Tuple {
    Tuple { x: cs[0]->0 as i64, y: cs[1]->0 as i64, z: cs[2]->0 as i64, w: w as i64 }
}

/// Reading the line `line` (its index is `index`, counted from 0) in state
/// `m`. The first word says what the line holds: `v` a vertex, `vn` a
/// normal, `f` a face, `g` a group; other lines are skipped. Vertices must
/// all come before the first face, where they are normalized. The faces
/// are fanned out into triangles that go to the current group (the group
/// named by the empty string until a group is declared).
pub open spec fn obj_line(m: ObjModel, index: nat, line: Seq<char>) -> ObjStep {
    let ws = words_of(trim(line));
    let next = ObjModel { lines: m.lines + 1, ..m };
    if ws.len() == 0 {
        ObjStep::Read(next)
    } else if ws[0] == seq!['v'] {
        if m.normalized {
            ObjStep::Failed(ObjFailure::UnexpectedSymbol(order_message(index)))
        } else {
            match read_coords(ws.skip(1)) {
                Err(w) => ObjStep::Failed(ObjFailure::NotANumber(w)),
                Ok(cs) => if cs.len() != 3 {
                    ObjStep::Failed(
                        ObjFailure::MalformedVertex(count_message(vertex_prefix(), index, cs.len())),
                    )
                } else if let Some(w) = first_unrepresentable(cs, ws.skip(1)) {
                    ObjStep::Failed(ObjFailure::OutOfRange(w))
                } else {
                    ObjStep::Read(ObjModel { vertices: m.vertices.push(tuple_of(cs, ONE as int)), ..next })
                },
            }
        }
    } else if ws[0] == seq!['v', 'n'] {
        match read_coords(ws.skip(1)) {
            Err(w) => ObjStep::Failed(ObjFailure::NotANumber(w)),
            Ok(cs) => if cs.len() != 3 {
                ObjStep::Failed(
                    ObjFailure::MalformedNormal(count_message(normal_prefix(), index, cs.len())),
                )
            } else if let Some(w) = first_unrepresentable(cs, ws.skip(1)) {
                ObjStep::Failed(ObjFailure::OutOfRange(w))
            } else {
                ObjStep::Read(ObjModel { normals: m.normals.push(tuple_of(cs, 0)), ..next })
            },
        }
    } else if ws[0] == seq!['f'] {
        face_line_step(m, index, ws)
    } else if ws[0] == seq!['g'] {
        if ws.len() < 2 {
            ObjStep::Failed(ObjFailure::MalformedGroupDeclaration(group_message(index)))
        } else {
            let (gs, c) = declare_group(m.groups, ws[1]);
            ObjStep::Read(ObjModel { groups: gs, current: Some(c), ..next })
        }
    } else {
        ObjStep::Read(next)
    }
}

/// Reading a face line whose words are `ws`: the vertices are normalized
/// first if no face came before; the face's vertices are read and fanned
/// out into triangles, which go to the current group.
pub open spec fn face_line_step(m: ObjModel, index: nat, ws: Seq<Seq<char>>) -> ObjStep {
    let vs = m.vertices_after_face();
    let next = ObjModel { lines: m.lines + 1, ..m };
    match read_faces(ws.skip(1)) {
        Err(FaceOutcome::MissingVertex) => ObjStep::Failed(
            ObjFailure::MalformedFace("Missing vertex index"@),
        ),
        Err(_) => ObjStep::Failed(ObjFailure::NotAnIndex),
        Ok(fs) => if fs.len() < 3 {
            ObjStep::Failed(ObjFailure::MalformedFace(count_message(face_prefix(), index, fs.len())))
        } else if !fan_in_range(vs.len() as int, m.normals.len() as int, fs) {
            ObjStep::Refused
        } else {
            let (gs, c) = match m.current {
                Some(c) => (m.groups, c),
                None => declare_group(m.groups, Seq::empty()),
            };
            ObjStep::Read(
                ObjModel {
                    vertices: vs,
                    groups: gs.update(c, (gs[c].0, gs[c].1 + fan_spec(vs, m.normals, fs))),
                    current: Some(c),
                    normalized: true,
                    ..next
                },
            )
        },
    }
}

/// The state before the first line: a placeholder vertex and normal.
pub open spec fn initial_model() -> ObjModel {
    ObjModel {
        lines: 0,
        vertices: seq![Tuple { x: 0, y: 0, z: 0, w: ONE as i64 }],
        normals: seq![Tuple { x: 0, y: 0, z: 0, w: ONE as i64 }],
        groups: Seq::empty(),
        current: None,
        normalized: false,
    }
}

/// Reading the lines `ls` one after the other; the first failure stops it.
pub open spec fn obj_run(ls: Seq<Seq<char>>) -> ObjStep
    decreases ls.len(),
{
    if ls.len() == 0 {
        ObjStep::Read(initial_model())
    } else {
        match obj_run(ls.drop_last()) {
            ObjStep::Read(m) => obj_line(m, (ls.len() - 1) as nat, ls.last()),
            other => other,
        }
    }
}

/// Reading OBJ text: its lines in turn; the vertices are normalized at the
/// end when no face came to do it.
pub open spec fn obj_outcome(text: Seq<char>) -> ObjStep {
    match obj_run(lines_of(text)) {
        ObjStep::Read(m) => ObjStep::Read(
            if m.normalized {
                m
            } else {
                ObjModel { vertices: normalized_spec(m.vertices), ..m }
            },
        ),
        other => other,
    }
}

/// Whether the error `e` is the failure `f`.
pub open spec fn error_matches(e: ParseError, f: ObjFailure) -> bool {
    match f {
        ObjFailure::NotANumber(w) => e matches ParseError::ParseFloatError(s) && s@ == w,
        ObjFailure::OutOfRange(w) => e matches ParseError::CoordinateOutOfRange(s) && s@ == w,
        ObjFailure::NotAnIndex => e is ParseIntError,
        ObjFailure::MalformedVertex(t) => e matches ParseError::MalformedVertex(s) && s@ == t,
        ObjFailure::MalformedFace(t) => e matches ParseError::MalformedFace(s) && s@ == t,
        ObjFailure::MalformedNormal(t) => e matches ParseError::MalformedNormal(s) && s@ == t,
        ObjFailure::MalformedGroupDeclaration(t) => e matches ParseError::MalformedGroupDeclaration(
            s,
        ) && s@ == t,
        ObjFailure::UnexpectedSymbol(t) => e matches ParseError::UnexpectedSymbol(s) && s@ == t,
    }
}

proof fn lemma_coords_prefix_err(ws: Seq<Seq<char>>, n: int)
    requires
        0 <= n <= ws.len(),
        read_coords(ws.take(n)) is Err,
    ensures
        read_coords(ws) == read_coords(ws.take(n)),
    decreases ws.len() - n,
{
    if n < ws.len() {
        assert(ws.take(n + 1).drop_last() =~= ws.take(n));
        lemma_coords_prefix_err(ws, n + 1);
    } else {
        assert(ws.take(n) =~= ws);
    }
}

proof fn lemma_faces_prefix_err(ws: Seq<Seq<char>>, n: int)
    requires
        0 <= n <= ws.len(),
        read_faces(ws.take(n)) is Err,
    ensures
        read_faces(ws) == read_faces(ws.take(n)),
    decreases ws.len() - n,
{
    if n < ws.len() {
        assert(ws.take(n + 1).drop_last() =~= ws.take(n));
        lemma_faces_prefix_err(ws, n + 1);
    } else {
        assert(ws.take(n) =~= ws);
    }
}

/// Whether the coordinates read by `read_coordinates` are the ones that
/// `read_coords` gives.
pub open spec fn coords_match(v: Seq<Option<i64>>, cs: Seq<Option<int>>) -> bool {
    &&& v.len() == cs.len()
    &&& forall|i: int|
        0 <= i < cs.len() ==> match #[trigger] cs[i] {
            Some(x) => v[i] == Some(x as i64) && i64::MIN <= x <= i64::MAX,
            None => v[i] is None,
        }
}

/// Reads the coordinates in the words after the first one.
fn read_coordinates(ws: &Vec<Vec<char>>) -> (r: Result<Vec<Option<i64>>, Vec<char>>)
    requires
        ws.len() >= 1,
    ensures
        match read_coords(views(ws@).skip(1)) {
            Ok(cs) => r matches Ok(v) && coords_match(v@, cs),
            Err(w) => r matches Err(x) && x@ == w,
        },
{
    let ghost rest = views(ws@).skip(1);
    let mut vals: Vec<Option<i64>> = Vec::new();
    let mut k: usize = 1;
    assert(rest.take(0) =~= Seq::<Seq<char>>::empty());
    while k < ws.len()
        invariant
            1 <= k <= ws.len(),
            rest == views(ws@).skip(1),
            rest.len() == ws.len() - 1,
            read_coords(rest.take(k - 1)) matches Ok(cs) && coords_match(vals@, cs),
        decreases ws.len() - k,
    {
        assert(rest.take(k as int).drop_last() =~= rest.take(k - 1));
        assert(rest.take(k as int).last() == ws@[k as int]@);
        let ghost cs = read_coords(rest.take(k - 1))->Ok_0;
        match parse_coordinate(ws[k].as_slice()) {
            Some(c) => {
                vals.push(c);
                proof {
                    let ncs = cs.push(coordinate_value(ws@[k as int]@));
                    assert(read_coords(rest.take(k as int)) == Ok::<Seq<Option<int>>, Seq<char>>(ncs));
                    assert forall|i: int| 0 <= i < ncs.len() implies match #[trigger] ncs[i] {
                        Some(x) => vals@[i] == Some(x as i64) && i64::MIN <= x <= i64::MAX,
                        None => vals@[i] is None,
                    } by {
                        if i < cs.len() {
                            assert(ncs[i] == cs[i]);
                        } else {
                            crate::coordinate::lemma_coordinate_value_fits(ws@[k as int]@);
                        }
                    }
                }
            },
            None => {
                proof {
                    lemma_coords_prefix_err(rest, k as int);
                }
                let w = ws[k].clone();
                return Err(w);
            },
        }
        k = k + 1;
    }
    assert(rest.take(ws.len() - 1) =~= rest);
    Ok(vals)
}

/// Reads the face vertices in the words after the first one.
fn read_face_specs(ws: &Vec<Vec<char>>) -> (r: Result<Vec<FaceParseResults>, ParseError>)
    requires
        ws.len() >= 1,
    ensures
        match read_faces(views(ws@).skip(1)) {
            Ok(fs) => r matches Ok(v) && v@ == fs,
            Err(FaceOutcome::MissingVertex) => r matches Err(ParseError::MalformedFace(m)) && m@
                == "Missing vertex index"@,
            Err(_) => r matches Err(ParseError::ParseIntError(_)),
        },
{
    let ghost rest = views(ws@).skip(1);
    let mut specs: Vec<FaceParseResults> = Vec::new();
    let mut k: usize = 1;
    assert(rest.take(0) =~= Seq::<Seq<char>>::empty());
    while k < ws.len()
        invariant
            1 <= k <= ws.len(),
            rest == views(ws@).skip(1),
            rest.len() == ws.len() - 1,
            read_faces(rest.take(k - 1)) == Ok::<Seq<FaceParseResults>, FaceOutcome>(specs@),
        decreases ws.len() - k,
    {
        assert(rest.take(k as int).drop_last() =~= rest.take(k - 1));
        assert(rest.take(k as int).last() == ws@[k as int]@);
        match parse_face(ws[k].as_slice()) {
            Ok(f) => {
                specs.push(f);
            },
            Err(e) => {
                proof {
                    lemma_faces_prefix_err(rest, k as int);
                }
                return Err(e);
            },
        }
        k = k + 1;
    }
    assert(rest.take(ws.len() - 1) =~= rest);
    Ok(specs)
}

/// `prefix`, the line index, `"; expected 3, found "` and the count.
fn count_msg(prefix: &str, index: usize, found: usize) -> (s: String)
    ensures
        s@ == count_message(prefix@, index as nat, found as nat),
{
    let mut m = chars_of(prefix);
    let mut d = decimal_chars(index as u64);
    m.append(&mut d);
    let mut mid = chars_of("; expected 3, found ");
    m.append(&mut mid);
    let mut f = decimal_chars(found as u64);
    m.append(&mut f);
    string_from_chars(m.as_slice())
}

/// `prefix` followed by the line index and `suffix`.
fn index_msg(prefix: &str, index: usize, suffix: &str) -> (s: String)
    ensures
        s@ == prefix@ + decimal(index as nat) + suffix@,
{
    let mut m = chars_of(prefix);
    let mut d = decimal_chars(index as u64);
    m.append(&mut d);
    let mut t = chars_of(suffix);
    m.append(&mut t);
    string_from_chars(m.as_slice())
}

/// `prefix` followed by the line index.
fn prefix_msg(prefix: &str, index: usize) -> (s: String)
    ensures
        s@ == prefix@ + decimal(index as nat),
{
    let mut m = chars_of(prefix);
    let mut d = decimal_chars(index as u64);
    m.append(&mut d);
    string_from_chars(m.as_slice())
}

/// Declares the group `name` (see `declare_group`) and gives its index.
fn declare_group_exec(groups: &mut Vec<ObjGroup>, name: String) -> (c: usize)
    ensures
        (groups_view(final(groups)@), c as int) == declare_group(groups_view(old(groups)@), name@),
        c < final(groups).len(),
{
    let ghost gv = groups_view(groups@);
    let mut j: usize = 0;
    while j < groups.len()
        invariant
            j <= groups.len(),
            gv == groups_view(groups@),
            groups@ == old(groups)@,
            forall|k: int| 0 <= k < j ==> (#[trigger] gv[k]).0 != name@,
        decreases groups.len() - j,
    {
        assert(gv[j as int].0 == groups@[j as int].name@);
        if groups[j].name == name {
            let ghost nm = name@;
            proof {
                assert(first_named(gv, nm, j as int));
                let i = choose|i: int| first_named(gv, nm, i);
                lemma_first_named_unique(gv, nm, i, j as int);
                assert(declare_group(gv, nm) == (gv.update(j as int, (nm, Seq::<ObjTriangle>::empty())), j as int));
            }
            groups.set(j, ObjGroup { name, triangles: Vec::new() });
            assert(groups_view(groups@) =~= gv.update(j as int, (nm, Seq::empty())));
            return j;
        }
        j = j + 1;
    }
    assert(!exists|i: int| first_named(gv, name@, i));
    let c = groups.len();
    groups.push(ObjGroup { name, triangles: Vec::new() });
    assert(groups_view(groups@) =~= gv.push((name@, Seq::empty())));
    c
}

/// Whether every index of the face names a vertex (and a normal, for a
/// smooth face).
fn fan_indices_ok(vs: &Vec<Tuple>, ns: &Vec<Tuple>, fs: &Vec<FaceParseResults>) -> (b: bool)
    requires
        fs.len() > 0,
    ensures
        b == fan_in_range(vs.len() as int, ns.len() as int, fs@),
{
    let smooth = fs[0].normal.is_some();
    let mut j: usize = 0;
    while j < fs.len()
        invariant
            j <= fs.len(),
            fs.len() > 0,
            smooth == fs@[0].normal is Some,
            forall|k: int|
                0 <= k < j ==> (#[trigger] fs@[k]).vertex < vs.len() && (smooth ==> fs@[k].vertex
                    < ns.len()),
        decreases fs.len() - j,
    {
        if fs[j].vertex >= vs.len() || (smooth && fs[j].vertex >= ns.len()) {
            assert(!(fs@[j as int].vertex < vs.len() && (smooth ==> fs@[j as int].vertex < ns.len())));
            return false;
        }
        j = j + 1;
    }
    true
}

/// The state of a reading of OBJ text.
struct ObjReader {
    vertices: Vec<Tuple>,
    normals: Vec<Tuple>,
    groups: Vec<ObjGroup>,
    current: Option<usize>,
    normalized: bool,
    lines: usize,
}

impl ObjReader {
    spec fn model(&self) -> ObjModel {
        ObjModel {
            lines: self.lines as nat,
            vertices: self.vertices@,
            normals: self.normals@,
            groups: groups_view(self.groups@),
            current: match self.current {
                Some(c) => Some(c as int),
                None => None,
            },
            normalized: self.normalized,
        }
    }

    spec fn wf(&self) -> bool {
        &&& self.vertices.len() >= 1
        &&& self.current matches Some(c) ==> c < self.groups.len()
    }

    /// Reads one line (see `obj_line`).
    fn read_line(&mut self, index: usize, line: &Vec<char>) -> (r: Option<Option<ParseError>>)
        requires
            old(self).wf(),
            old(self).lines == index,
            index < usize::MAX,
        ensures
            step_matches(
                r,
                final(self).model(),
                final(self).wf(),
                obj_line(old(self).model(), index as nat, line@),
            ),
    {
        let ghost m = self.model();
        let t = trim_chars(line.as_slice());
        let ws = words(t.as_slice());
        let ghost wv = views(ws@);
        assert(wv == words_of(trim(line@)));
        if ws.len() == 0 {
            self.lines = index + 1;
            return Some(None);
        }
        assert(wv[0] == ws@[0]@);
        assert(views(ws@).skip(1) == wv.skip(1));
        if ws[0].len() == 1 && ws[0][0] == 'v' {
            assert(wv[0] =~= seq!['v']);
            if self.normalized {
                let msg = index_msg(
                    "Found vertex at line ",
                    index,
                    "; vertices must all be specified before any faces are specified (so that they may be normalized before any faces are created)",
                );
                return Some(Some(ParseError::UnexpectedSymbol(msg)));
            }
            match read_coordinates(&ws) {
                Err(w) => {
                    return Some(Some(ParseError::ParseFloatError(string_from_chars(w.as_slice()))));
                },
                Ok(cs) => {
                    if cs.len() != 3 {
                        let msg = count_msg(
                            "Wrong number of coordinates in vertex at line ",
                            index,
                            cs.len(),
                        );
                        return Some(Some(ParseError::MalformedVertex(msg)));
                    }
                    assert(read_coords(wv.skip(1)) is Ok);
                    proof {
                        lemma_read_coords_len(wv.skip(1));
                    }
                    let ghost scs = read_coords(wv.skip(1))->Ok_0;
                    assert(scs.len() == 3);
                    assert(wv.skip(1).len() == 3);
                    assert(wv.skip(1)[0] == ws@[1]@ && wv.skip(1)[1] == ws@[2]@ && wv.skip(1)[2] == ws@[3]@);
                    assert(scs[0] is Some <==> cs@[0] is Some);
                    assert(scs[1] is Some <==> cs@[1] is Some);
                    assert(scs[2] is Some <==> cs@[2] is Some);
                    match (cs[0], cs[1], cs[2]) {
                        (Some(x), Some(y), Some(z)) => {
                            self.vertices.push(Tuple::point(x, y, z));
                        },
                        _ => {
                            let k: usize = if cs[0].is_none() {
                                1
                            } else if cs[1].is_none() {
                                2
                            } else {
                                3
                            };
                            let word = string_from_chars(ws[k].as_slice());
                            return Some(Some(ParseError::CoordinateOutOfRange(word)));
                        },
                    }
                    self.lines = index + 1;
                    return Some(None);
                },
            }
        }
        if ws[0].len() == 2 && ws[0][0] == 'v' && ws[0][1] == 'n' {
            assert(wv[0] =~= seq!['v', 'n']);
            match read_coordinates(&ws) {
                Err(w) => {
                    return Some(Some(ParseError::ParseFloatError(string_from_chars(w.as_slice()))));
                },
                Ok(cs) => {
                    if cs.len() != 3 {
                        let msg = count_msg(
                            "Wrong number of coordinates in normal vector at line ",
                            index,
                            cs.len(),
                        );
                        return Some(Some(ParseError::MalformedNormal(msg)));
                    }
                    assert(read_coords(wv.skip(1)) is Ok);
                    proof {
                        lemma_read_coords_len(wv.skip(1));
                    }
                    let ghost scs = read_coords(wv.skip(1))->Ok_0;
                    assert(scs.len() == 3);
                    assert(wv.skip(1).len() == 3);
                    assert(wv.skip(1)[0] == ws@[1]@ && wv.skip(1)[1] == ws@[2]@ && wv.skip(1)[2] == ws@[3]@);
                    assert(scs[0] is Some <==> cs@[0] is Some);
                    assert(scs[1] is Some <==> cs@[1] is Some);
                    assert(scs[2] is Some <==> cs@[2] is Some);
                    match (cs[0], cs[1], cs[2]) {
                        (Some(x), Some(y), Some(z)) => {
                            self.normals.push(Tuple::vector(x, y, z));
                        },
                        _ => {
                            let k: usize = if cs[0].is_none() {
                                1
                            } else if cs[1].is_none() {
                                2
                            } else {
                                3
                            };
                            let word = string_from_chars(ws[k].as_slice());
                            return Some(Some(ParseError::CoordinateOutOfRange(word)));
                        },
                    }
                    self.lines = index + 1;
                    return Some(None);
                },
            }
        }
        if ws[0].len() == 1 && ws[0][0] == 'f' {
            assert(wv[0] =~= seq!['f']);
            assert(wv[0] != seq!['v']);
            assert(wv[0] != seq!['v', 'n']);
            return self.read_face_line(index, &ws);
        }
        if ws[0].len() == 1 && ws[0][0] == 'g' {
            assert(wv[0] =~= seq!['g']);
            assert(wv[0] != seq!['v']);
            assert(wv[0] != seq!['v', 'n']);
            assert(wv[0] != seq!['f']);
            if ws.len() < 2 {
                let msg = prefix_msg("Missing group name on line ", index);
                return Some(Some(ParseError::MalformedGroupDeclaration(msg)));
            }
            assert(wv[1] == ws@[1]@);
            let name = string_from_chars(ws[1].as_slice());
            let c = declare_group_exec(&mut self.groups, name);
            self.current = Some(c);
            self.lines = index + 1;
            return Some(None);
        }
        assert(wv[0] != seq!['v']);
        assert(wv[0] != seq!['v', 'n']);
        assert(wv[0] != seq!['f']);
        assert(wv[0] != seq!['g']);
        self.lines = index + 1;
        Some(None)
    }

    /// Reads a face line whose words are `ws`.
    fn read_face_line(&mut self, index: usize, ws: &Vec<Vec<char>>) -> (r: Option<
        Option<ParseError>,
    >)
        requires
            old(self).wf(),
            old(self).lines == index,
            index < usize::MAX,
            ws.len() >= 1,
        ensures
            step_matches(
                r,
                final(self).model(),
                final(self).wf(),
                face_line_step(old(self).model(), index as nat, views(ws@)),
            ),
    {
        let ghost m = self.model();
        if !self.normalized {
            normalize_vertices(&mut self.vertices);
            self.normalized = true;
        }
        let specs = match read_face_specs(ws) {
            Ok(v) => v,
            Err(e) => {
                return Some(Some(e));
            },
        };
        if specs.len() < 3 {
            let msg = count_msg("Not enough vertices to form a face at line ", index, specs.len());
            return Some(Some(ParseError::MalformedFace(msg)));
        }
        if !fan_indices_ok(&self.vertices, &self.normals, &specs) {
            return None;
        }
        let c = match self.current {
            Some(c) => c,
            None => declare_group_exec(&mut self.groups, String::new()),
        };
        let ghost gv = groups_view(self.groups@);
        let mut tris = fan_triangulation(
            self.vertices.as_slice(),
            self.normals.as_slice(),
            specs.as_slice(),
        );
        let mut g = ObjGroup { name: String::new(), triangles: Vec::new() };
        self.groups.set_and_swap(c, &mut g);
        g.triangles.append(&mut tris);
        self.groups.set(c, g);
        assert(groups_view(self.groups@) =~= gv.update(
            c as int,
            (gv[c as int].0, gv[c as int].1 + fan_spec(m.vertices_after_face(), m.normals, specs@)),
        ));
        self.current = Some(c);
        self.lines = index + 1;
        Some(None)
    }
}

/// Whether what `read_line` did agrees with the step the model takes.
pub open spec fn step_matches(r: Option<Option<ParseError>>, m: ObjModel, wf: bool, step: ObjStep) -> bool {
    match step {
        ObjStep::Refused => r is None,
        ObjStep::Failed(f) => r matches Some(Some(e)) && error_matches(e, f),
        ObjStep::Read(n) => r matches Some(None) && m == n && wf,
    }
}

impl ObjModel {
    /// The vertices once a face has been read: normalized.
    pub open spec fn vertices_after_face(self) -> Seq<Tuple> {
        if self.normalized {
            self.vertices
        } else {
            normalized_spec(self.vertices)
        }
    }
}

proof fn lemma_run_prefix_stops(ls: Seq<Seq<char>>, n: int)
    requires
        0 <= n <= ls.len(),
        !(obj_run(ls.take(n)) is Read),
    ensures
        obj_run(ls) == obj_run(ls.take(n)),
    decreases ls.len() - n,
{
    if n < ls.len() {
        assert(ls.take(n + 1).drop_last() =~= ls.take(n));
        lemma_run_prefix_stops(ls, n + 1);
    } else {
        assert(ls.take(n) =~= ls);
    }
}

/// Whether `res` holds what the model `m` says.
pub open spec fn results_match(res: ObjParseResults, m: ObjModel) -> bool {
    &&& res.num_ignored_lines == m.lines
    &&& res.vertices@ == m.vertices
    &&& res.normals@ == m.normals
    &&& res.groups matches Some(g) && groups_view(g@) == m.groups
}

/// Whether a result of `parse_obj` is what `obj_outcome` says.
pub open spec fn obj_result_matches(r: Result<ObjParseResults, ParseError>, o: ObjStep) -> bool {
    match o {
        ObjStep::Refused => false,
        ObjStep::Failed(f) => r matches Err(e) && error_matches(e, f),
        ObjStep::Read(m) => r matches Ok(res) && results_match(res, m),
    }
}

fn read_obj(text: &Vec<char>) -> (r: Option<Result<ObjParseResults, ParseError>>)
    ensures
        r is None <==> obj_outcome(text@) is Refused,
        r matches Some(res) ==> obj_result_matches(res, obj_outcome(text@)),
{
    let ls = lines(text);
    let ghost lv = views(ls@);
    let mut rd = ObjReader {
        vertices: vec![Tuple::point(0, 0, 0)],
        normals: vec![Tuple::point(0, 0, 0)],
        groups: Vec::new(),
        current: None,
        normalized: false,
        lines: 0,
    };
    assert(rd.model().vertices =~= initial_model().vertices);
    assert(rd.model().normals =~= initial_model().normals);
    assert(rd.model().groups =~= initial_model().groups);
    assert(lv.take(0) =~= Seq::<Seq<char>>::empty());
    let mut i: usize = 0;
    while i < ls.len()
        invariant
            i <= ls.len(),
            lv == views(ls@),
            lv == lines_of(text@),
            rd.wf(),
            rd.lines == i,
            obj_run(lv.take(i as int)) == ObjStep::Read(rd.model()),
        decreases ls.len() - i,
    {
        assert(lv.take(i + 1).drop_last() =~= lv.take(i as int));
        assert(lv.take(i + 1).last() == ls@[i as int]@);
        match rd.read_line(i, &ls[i]) {
            None => {
                proof {
                    lemma_run_prefix_stops(lv, i + 1);
                }
                return None;
            },
            Some(Some(e)) => {
                proof {
                    lemma_run_prefix_stops(lv, i + 1);
                }
                return Some(Err(e));
            },
            Some(None) => {},
        }
        i = i + 1;
    }
    assert(lv.take(ls.len() as int) =~= lv);
    if !rd.normalized {
        normalize_vertices(&mut rd.vertices);
    }
    Some(
        Ok(
            ObjParseResults {
                num_ignored_lines: rd.lines,
                vertices: rd.vertices,
                normals: rd.normals,
                groups: Some(rd.groups),
            },
        ),
    )
}

/// Reads Wavefront OBJ text (see `obj_outcome`): vertices (`v x y z`),
/// vertex normals (`vn x y z`), faces (`f` and three or more vertex
/// indices, each of which may name a texture and a normal after `/`), and
/// group declarations (`g name`); other lines are skipped. The vertices are
/// normalized once all of them are read, and the faces are fanned out into
/// triangles.
pub fn parse_obj(text: &str) -> (r: Result<ObjParseResults, ParseError>)
    requires
        !(obj_outcome(text@) is Refused),
    ensures
        obj_result_matches(r, obj_outcome(text@)),
{
    let chars = chars_of(text);
    match read_obj(&chars) {
        Some(r) => r,
        None => {
            proof {
                assert(false);
            }
            Err(ParseError::UnexpectedSymbol(String::new()))
        },
    }
}

/// Whether `parse_obj` refuses the text: a face names a vertex, or a
/// normal, that is not there.
pub fn obj_is_refused(text: &str) -> (b: bool)
    ensures
        b == (obj_outcome(text@) is Refused),
{
    let chars = chars_of(text);
    read_obj(&chars).is_none()
}

/// A group whose name no earlier group has is the group that a name
/// selects.
proof fn lemma_group_found(gs: Seq<ObjGroup>, name: Seq<char>, j: int)
    requires
        0 <= j < gs.len(),
        gs[j].name@ == name,
        forall|k: int| 0 <= k < j ==> (#[trigger] groups_view(gs)[k]).0 != name,
    ensures
        exists|i: int| first_named(groups_view(gs), name, i),
        gs[choose|i: int| first_named(groups_view(gs), name, i)] == gs[j],
{
    let gv = groups_view(gs);
    assert(gv[j].0 == name);
    assert(first_named(gv, name, j));
    let i = choose|i: int| first_named(gv, name, i);
    lemma_first_named_unique(gv, name, i, j);
}

impl ObjParseResults {
    /// The group named `name` (the first one, should two share it), if
    /// the groups are there and one has that name.
    pub open spec fn group_spec(&self, name: Seq<char>) -> Option<ObjGroup> {
        match self.groups {
            None => None,
            Some(gs) => if exists|i: int| first_named(groups_view(gs@), name, i) {
                Some(gs@[choose|i: int| first_named(groups_view(gs@), name, i)])
            } else {
                None
            },
        }
    }

    /// The group named `group_name` (see `group_spec`).
    #[verifier::spinoff_prover]
    pub fn get_group(&self, group_name: &str) -> (r: Option<&ObjGroup>)
        ensures
            r is Some == self.group_spec(group_name@) is Some,
            r matches Some(g) ==> *g == self.group_spec(group_name@)->0,
    {
        match &self.groups {
            None => None,
            Some(gs) => {
                let ghost gv = groups_view(gs@);
                let target = group_name.to_string();
                let mut j: usize = 0;
                while j < gs.len()
                    invariant
                        j <= gs.len(),
                        self.groups == Some(*gs),
                        target@ == group_name@,
                        gv == groups_view(gs@),
                        forall|k: int| 0 <= k < j ==> (#[trigger] gv[k]).0 != group_name@,
                    decreases gs.len() - j,
                {
                    assert(gv[j as int].0 == gs@[j as int].name@);
                    let same = gs[j].name == target;
                    if same {
                        assert(gs@[j as int].name@ == group_name@);
                        proof {
                            lemma_group_found(gs@, group_name@, j as int);
                        }
                        assert(self.group_spec(group_name@) == Some(gs@[j as int]));
                        return Some(&gs[j]);
                    }
                    j = j + 1;
                }
                None
            },
        }
    }

    /// The group of the faces that come before any group declaration.
    pub fn get_default_group(&self) -> (r: Option<&ObjGroup>)
        ensures
            r is Some == self.group_spec(Seq::empty()) is Some,
            r matches Some(g) ==> *g == self.group_spec(Seq::empty())->0,
    {
        let name = String::new();
        self.get_group(name.as_str())
    }

    /// Takes all the groups out, in the order in which they were first
    /// declared; afterwards there are none.
    pub fn take_all_as_group(&mut self) -> (r: Option<Vec<ObjGroup>>)
        ensures
            r == old(self).groups,
            final(self).groups is None,
            final(self).num_ignored_lines == old(self).num_ignored_lines,
            final(self).vertices == old(self).vertices,
            final(self).normals == old(self).normals,
    {
        let mut taken: Option<Vec<ObjGroup>> = None;
        std::mem::swap(&mut taken, &mut self.groups);
        taken
    }
}

/// Whether the corners of `t` are among the vertices `vs` and, for a
/// smooth triangle, its normals among `ns`.
pub open spec fn triangle_from(t: ObjTriangle, vs: Seq<Tuple>, ns: Seq<Tuple>) -> bool {
    match t {
        ObjTriangle::Flat { p1, p2, p3 } => vs.contains(p1) && vs.contains(p2) && vs.contains(p3),
        ObjTriangle::Smooth { p1, p2, p3, n1, n2, n3 } => vs.contains(p1) && vs.contains(p2)
            && vs.contains(p3) && ns.contains(n1) && ns.contains(n2) && ns.contains(n3),
    }
}

/// Whether no two groups share a name.
pub open spec fn names_distinct(gs: Seq<(Seq<char>, Seq<ObjTriangle>)>) -> bool {
    forall|i: int, j: int| 0 <= i < j < gs.len() ==> (#[trigger] gs[i]).0 != (#[trigger] gs[j]).0
}

/// What holds of every state a reading goes through.
pub open spec fn model_inv(m: ObjModel) -> bool {
    &&& names_distinct(m.groups)
    &&& (m.current matches Some(c) ==> 0 <= c < m.groups.len())
    &&& (!m.normalized ==> forall|g: int| 0 <= g < m.groups.len() ==> (#[trigger] m.groups[g]).1.len()
        == 0)
    &&& forall|g: int, k: int|
        0 <= g < m.groups.len() && 0 <= k < m.groups[g].1.len() ==> triangle_from(
            #[trigger] m.groups[g].1[k],
            m.vertices,
            m.normals,
        )
}

proof fn lemma_first_named_exists(gs: Seq<(Seq<char>, Seq<ObjTriangle>)>, name: Seq<char>, j: int)
    requires
        0 <= j < gs.len(),
        gs[j].0 == name,
    ensures
        exists|i: int| first_named(gs, name, i),
    decreases j,
{
    if forall|k: int| 0 <= k < j ==> (#[trigger] gs[k]).0 != name {
        assert(first_named(gs, name, j));
    } else {
        let k = choose|k: int| 0 <= k < j && (#[trigger] gs[k]).0 == name;
        assert(0 <= k < j && gs[k].0 == name);
        lemma_first_named_exists(gs, name, k);
    }
}

proof fn lemma_declare_group_inv(gs: Seq<(Seq<char>, Seq<ObjTriangle>)>, name: Seq<char>)
    requires
        names_distinct(gs),
    ensures
        names_distinct(declare_group(gs, name).0),
        0 <= declare_group(gs, name).1 < declare_group(gs, name).0.len(),
        declare_group(gs, name).0.len() >= gs.len(),
        declare_group(gs, name).0[declare_group(gs, name).1] == (name, Seq::<ObjTriangle>::empty()),
        forall|g: int|
            0 <= g < gs.len() && g != declare_group(gs, name).1 ==> #[trigger] declare_group(
                gs,
                name,
            ).0[g] == gs[g],
{
    if exists|i: int| first_named(gs, name, i) {
    } else {
        assert forall|j: int| 0 <= j < gs.len() implies (#[trigger] gs[j]).0 != name by {
            if gs[j].0 == name {
                lemma_first_named_exists(gs, name, j);
            }
        }
        let ngs = gs.push((name, Seq::<ObjTriangle>::empty()));
        assert forall|i: int, j: int| 0 <= i < j < ngs.len() implies (#[trigger] ngs[i]).0 != (
        #[trigger] ngs[j]).0 by {
            if j == gs.len() {
                assert(ngs[i] == gs[i]);
            } else {
                assert(ngs[i] == gs[i] && ngs[j] == gs[j]);
            }
        }
    }
}

proof fn lemma_fan_from(vs: Seq<Tuple>, ns: Seq<Tuple>, fs: Seq<FaceParseResults>, k: int)
    requires
        fs.len() > 2,
        fan_in_range(vs.len() as int, ns.len() as int, fs),
        0 <= k < fs.len() - 2,
    ensures
        triangle_from(fan_spec(vs, ns, fs)[k], vs, ns),
{
    let a = fs[0].vertex as int;
    let b = fs[k + 1].vertex as int;
    let c = fs[k + 2].vertex as int;
    assert(fs[0].vertex < vs.len());
    assert(fs[k + 1].vertex < vs.len());
    assert(fs[k + 2].vertex < vs.len());
    assert(vs.contains(vs[a]));
    assert(vs.contains(vs[b]));
    assert(vs.contains(vs[c]));
    if fs[0].normal is Some {
        assert(ns.contains(ns[a]));
        assert(ns.contains(ns[b]));
        assert(ns.contains(ns[c]));
    }
}

proof fn lemma_face_step_inv(m: ObjModel, index: nat, ws: Seq<Seq<char>>)
    requires
        model_inv(m),
    ensures
        face_line_step(m, index, ws) matches ObjStep::Read(n) ==> model_inv(n) && n.lines == m.lines
            + 1,
{
    let vs = m.vertices_after_face();
    match read_faces(ws.skip(1)) {
        Ok(fs) => {
            if fs.len() >= 3 && fan_in_range(vs.len() as int, m.normals.len() as int, fs) {
                let (gs, c) = match m.current {
                    Some(c) => (m.groups, c),
                    None => declare_group(m.groups, Seq::empty()),
                };
                if m.current is None {
                    lemma_declare_group_inv(m.groups, Seq::empty());
                }
                let fan = fan_spec(vs, m.normals, fs);
                let ngs = gs.update(c, (gs[c].0, gs[c].1 + fan));
                assert(0 <= c < gs.len());
                assert forall|g: int, k: int|
                    0 <= g < ngs.len() && 0 <= k < ngs[g].1.len() implies triangle_from(
                    #[trigger] ngs[g].1[k],
                    vs,
                    m.normals,
                ) by {
                    if g == c && k >= gs[c].1.len() {
                        lemma_fan_from(vs, m.normals, fs, k - gs[c].1.len());
                        assert(ngs[g].1[k] == fan[k - gs[c].1.len()]);
                    } else {
                        assert(ngs[g].1[k] == gs[g].1[k]);
                        if m.current is None && g == c {
                            assert(gs[c].1.len() == 0);
                        }
                        if m.current is None && g != c && g >= m.groups.len() {
                            assert(false);
                        }
                        if !m.normalized {
                            assert(gs[g].1.len() == 0) by {
                                if g < m.groups.len() {
                                    assert(m.groups[g].1.len() == 0);
                                }
                            }
                        } else {
                            assert(vs == m.vertices);
                            assert(g < m.groups.len());
                            assert(gs[g] == m.groups[g]);
                            assert(triangle_from(m.groups[g].1[k], m.vertices, m.normals));
                        }
                    }
                }
                assert forall|i: int, j: int| 0 <= i < j < ngs.len() implies (#[trigger] ngs[i]).0
                    != (#[trigger] ngs[j]).0 by {
                    assert(gs[i].0 != gs[j].0);
                }
            }
        },
        Err(_) => {},
    }
}

proof fn lemma_line_inv(m: ObjModel, index: nat, line: Seq<char>)
    requires
        model_inv(m),
    ensures
        obj_line(m, index, line) matches ObjStep::Read(n) ==> model_inv(n) && n.lines == m.lines + 1,
{
    let ws = words_of(trim(line));
    if ws.len() == 0 {
    } else if ws[0] == seq!['v'] {
        if !m.normalized {
            match read_coords(ws.skip(1)) {
                Ok(cs) => {
                    if cs.len() == 3 {
                        let nv = m.vertices.push(tuple_of(cs, ONE as int));
                        assert forall|g: int, k: int|
                            0 <= g < m.groups.len() && 0 <= k < m.groups[g].1.len() implies triangle_from(
                            #[trigger] m.groups[g].1[k],
                            nv,
                            m.normals,
                        ) by {
                            assert(m.groups[g].1.len() == 0);
                        }
                    }
                },
                Err(_) => {},
            }
        }
    } else if ws[0] == seq!['v', 'n'] {
        match read_coords(ws.skip(1)) {
            Ok(cs) => {
                if cs.len() == 3 {
                    let nn = m.normals.push(tuple_of(cs, 0));
                    assert forall|g: int, k: int|
                        0 <= g < m.groups.len() && 0 <= k < m.groups[g].1.len() implies triangle_from(
                        #[trigger] m.groups[g].1[k],
                        m.vertices,
                        nn,
                    ) by {
                        let t = m.groups[g].1[k];
                        assert(triangle_from(t, m.vertices, m.normals));
                        match t {
                            ObjTriangle::Smooth { p1, p2, p3, n1, n2, n3 } => {
                                let a = choose|a: int| 0 <= a < m.normals.len() && m.normals[a] == n1;
                                let b = choose|b: int| 0 <= b < m.normals.len() && m.normals[b] == n2;
                                let c = choose|c: int| 0 <= c < m.normals.len() && m.normals[c] == n3;
                                assert(nn[a] == n1 && nn[b] == n2 && nn[c] == n3);
                            },
                            _ => {},
                        }
                    }
                }
            },
            Err(_) => {},
        }
    } else if ws[0] == seq!['f'] {
        lemma_face_step_inv(m, index, ws);
    } else if ws[0] == seq!['g'] {
        if ws.len() >= 2 {
            lemma_declare_group_inv(m.groups, ws[1]);
            let (gs, c) = declare_group(m.groups, ws[1]);
            assert forall|g: int, k: int|
                0 <= g < gs.len() && 0 <= k < gs[g].1.len() implies triangle_from(
                #[trigger] gs[g].1[k],
                m.vertices,
                m.normals,
            ) by {
                if g != c && g < m.groups.len() {
                    assert(gs[g] == m.groups[g]);
                }
                if g != c && g >= m.groups.len() {
                    assert(false);
                }
            }
            if !m.normalized {
                assert forall|g: int| 0 <= g < gs.len() implies (#[trigger] gs[g]).1.len() == 0 by {
                    if g != c {
                        assert(g < m.groups.len());
                        assert(gs[g] == m.groups[g]);
                    }
                }
            }
        }
    }
}

proof fn lemma_run_inv(ls: Seq<Seq<char>>)
    ensures
        obj_run(ls) matches ObjStep::Read(m) ==> model_inv(m) && m.lines == ls.len(),
    decreases ls.len(),
{
    if ls.len() > 0 {
        lemma_run_inv(ls.drop_last());
        match obj_run(ls.drop_last()) {
            ObjStep::Read(m) => {
                lemma_line_inv(m, (ls.len() - 1) as nat, ls.last());
            },
            _ => {},
        }
    }
}

/// Reading OBJ text that succeeds counts every line, gives groups with
/// distinct names, and gives triangles whose corners are among the
/// vertices read (and whose normals, for smooth ones, are among the
/// normals read).
pub proof fn lemma_obj_groups_and_triangles(text: Seq<char>)
    ensures
        obj_outcome(text) matches ObjStep::Read(m) ==> {
            &&& m.lines == lines_of(text).len()
            &&& names_distinct(m.groups)
            &&& forall|g: int, k: int|
                0 <= g < m.groups.len() && 0 <= k < m.groups[g].1.len() ==> triangle_from(
                    #[trigger] m.groups[g].1[k],
                    m.vertices,
                    m.normals,
                )
        },
{
    lemma_run_inv(lines_of(text));
    match obj_run(lines_of(text)) {
        ObjStep::Read(m) => {
            if !m.normalized {
                assert forall|g: int, k: int|
                    0 <= g < m.groups.len() && 0 <= k < m.groups[g].1.len() implies triangle_from(
                    #[trigger] m.groups[g].1[k],
                    normalized_spec(m.vertices),
                    m.normals,
                ) by {
                    assert(m.groups[g].1.len() == 0);
                }
            }
        },
        _ => {},
    }
}

/// The first word of a line, if it has one.
pub open spec fn line_head(line: Seq<char>) -> Option<Seq<char>> {
    let ws = words_of(trim(line));
    if ws.len() > 0 {
        Some(ws[0])
    } else {
        None
    }
}

pub open spec fn is_face_line(line: Seq<char>) -> bool {
    line_head(line) == Some(seq!['f'])
}

pub open spec fn is_group_line(line: Seq<char>) -> bool {
    line_head(line) == Some(seq!['g'])
}

/// Whether some face line comes before every group line.
pub open spec fn face_before_groups(ls: Seq<Seq<char>>) -> bool {
    exists|k: int|
        0 <= k < ls.len() && #[trigger] is_face_line(ls[k]) && forall|j: int|
            0 <= j < k ==> !is_group_line(ls[j])
}

/// Whether no line is a face line or a group line.
pub open spec fn no_face_or_group(ls: Seq<Seq<char>>) -> bool {
    forall|j: int| 0 <= j < ls.len() ==> !is_face_line(#[trigger] ls[j]) && !is_group_line(ls[j])
}

pub open spec fn has_group(gs: Seq<(Seq<char>, Seq<ObjTriangle>)>, name: Seq<char>) -> bool {
    exists|i: int| first_named(gs, name, i)
}

proof fn lemma_words_nonempty(s: Seq<char>, cur: Seq<char>, acc: Seq<Seq<char>>)
    requires
        forall|i: int| 0 <= i < acc.len() ==> (#[trigger] acc[i]).len() > 0,
    ensures
        forall|i: int|
            0 <= i < words_from(s, cur, acc).len() ==> (#[trigger] words_from(s, cur, acc)[i]).len()
                > 0,
    decreases s.len(),
{
    if s.len() == 0 {
        if cur.len() > 0 {
            assert forall|i: int| 0 <= i < acc.push(cur).len() implies (#[trigger] acc.push(cur)[i]).len() > 0 by {
                if i < acc.len() {
                    assert(acc.push(cur)[i] == acc[i]);
                }
            }
        }
    } else {
        if is_ws(s[0]) {
            let nacc = if cur.len() > 0 {
                acc.push(cur)
            } else {
                acc
            };
            assert forall|i: int| 0 <= i < nacc.len() implies (#[trigger] nacc[i]).len() > 0 by {
                if i < acc.len() {
                    assert(nacc[i] == acc[i]);
                }
            }
            lemma_words_nonempty(s.drop_first(), Seq::empty(), nacc);
            assert(words_from(s, cur, acc) == words_from(s.drop_first(), Seq::empty(), nacc));
        } else {
            lemma_words_nonempty(s.drop_first(), cur.push(s[0]), acc);
            assert(words_from(s, cur, acc) == words_from(s.drop_first(), cur.push(s[0]), acc));
        }
    }
}

/// Groups with the same names in the same places have the same names.
proof fn lemma_same_names(
    a: Seq<(Seq<char>, Seq<ObjTriangle>)>,
    b: Seq<(Seq<char>, Seq<ObjTriangle>)>,
    name: Seq<char>,
)
    requires
        a.len() == b.len(),
        forall|i: int| 0 <= i < a.len() ==> (#[trigger] a[i]).0 == b[i].0,
    ensures
        has_group(a, name) == has_group(b, name),
{
    if has_group(a, name) {
        let i = choose|i: int| first_named(a, name, i);
        assert forall|j: int| 0 <= j < i implies (#[trigger] b[j]).0 != name by {
            assert(a[j].0 != name);
        }
        assert(first_named(b, name, i));
    }
    if has_group(b, name) {
        let i = choose|i: int| first_named(b, name, i);
        assert forall|j: int| 0 <= j < i implies (#[trigger] a[j]).0 != name by {
            assert(b[j].0 != name);
        }
        assert(first_named(a, name, i));
    }
}

/// Declaring a group keeps whether there is a group of another name, and
/// there is a group of the declared name afterwards.
proof fn lemma_declare_keeps(gs: Seq<(Seq<char>, Seq<ObjTriangle>)>, name: Seq<char>, other: Seq<char>)
    ensures
        name != other ==> has_group(declare_group(gs, name).0, other) == has_group(gs, other),
        has_group(declare_group(gs, name).0, name),
        0 <= declare_group(gs, name).1 < declare_group(gs, name).0.len(),
        forall|i: int| 0 <= i < gs.len() ==> (#[trigger] declare_group(gs, name).0[i]).0 == gs[i].0,
{
    let ng = declare_group(gs, name).0;
    if exists|i: int| first_named(gs, name, i) {
        let i = choose|i: int| first_named(gs, name, i);
        lemma_same_names(gs, ng, other);
        lemma_same_names(gs, ng, name);
    } else {
        assert(first_named(ng, name, gs.len() as int)) by {
            assert forall|j: int| 0 <= j < gs.len() implies (#[trigger] ng[j]).0 != name by {
                assert(ng[j] == gs[j]);
                if gs[j].0 == name {
                    lemma_first_named_exists(gs, name, j);
                }
            }
        }
        if name != other {
            if has_group(gs, other) {
                let i = choose|i: int| first_named(gs, other, i);
                assert forall|j: int| 0 <= j < i implies (#[trigger] ng[j]).0 != other by {
                    assert(ng[j] == gs[j]);
                }
                assert(first_named(ng, other, i));
            }
            if has_group(ng, other) {
                let i = choose|i: int| first_named(ng, other, i);
                assert(i < gs.len());
                assert forall|j: int| 0 <= j < i implies (#[trigger] gs[j]).0 != other by {
                    assert(ng[j] == gs[j]);
                }
                assert(first_named(gs, other, i));
            }
        }
    }
}

proof fn lemma_run_default(ls: Seq<Seq<char>>)
    ensures
        obj_run(ls) matches ObjStep::Read(m) ==> {
            &&& (m.current is None <==> no_face_or_group(ls))
            &&& (m.current matches Some(c) ==> 0 <= c < m.groups.len())
            &&& (has_group(m.groups, Seq::empty()) <==> face_before_groups(ls))
        },
    decreases ls.len(),
{
    if ls.len() == 0 {
        let m = initial_model();
        assert(!has_group(m.groups, Seq::empty()));
    } else {
        let prev = ls.drop_last();
        lemma_run_default(prev);
        if let ObjStep::Read(m0) = obj_run(prev) {
            let line = ls.last();
            let index = (ls.len() - 1) as nat;
            let ws = words_of(trim(line));
            assert forall|j: int| 0 <= j < prev.len() implies #[trigger] prev[j] == ls[j] by {}
            if let ObjStep::Read(m) = obj_line(m0, index, line) {
                let e: Seq<char> = Seq::empty();
                if ws.len() > 0 && ws[0] == seq!['f'] {
                    assert(is_face_line(line));
                    assert(is_face_line(ls[ls.len() - 1]));
                    assert(ws[0] != seq!['v']) by {
                        assert(ws[0][0] == 'f');
                    }
                    assert(ws[0] != seq!['v', 'n']) by {
                        assert(ws[0].len() == 1);
                    }
                    assert(obj_line(m0, index, line) == face_line_step(m0, index, ws));
                    let fs = read_faces(ws.skip(1))->Ok_0;
                    let vs = m0.vertices_after_face();
                    let (gs, c) = match m0.current {
                        Some(c) => (m0.groups, c),
                        None => declare_group(m0.groups, e),
                    };
                    lemma_declare_keeps(m0.groups, e, e);
                    assert(0 <= c < gs.len());
                    assert(m.groups == gs.update(c, (gs[c].0, gs[c].1 + fan_spec(vs, m0.normals, fs))));
                    assert(m.current == Some(c));
                    assert forall|i: int| 0 <= i < gs.len() implies (#[trigger] gs[i]).0 == m.groups[i].0 by {}
                    lemma_same_names(gs, m.groups, e);
                    match m0.current {
                        None => {
                            assert forall|j: int| 0 <= j < ls.len() - 1 implies !is_group_line(
                                #[trigger] ls[j],
                            ) by {
                                assert(prev[j] == ls[j]);
                            }
                            assert(face_before_groups(ls));
                        },
                        Some(c0) => {
                            if face_before_groups(ls) {
                                let k = choose|k: int|
                                    0 <= k < ls.len() && #[trigger] is_face_line(ls[k]) && forall|
                                        j: int,
                                    | 0 <= j < k ==> !is_group_line(ls[j]);
                                if k < prev.len() {
                                    assert(prev[k] == ls[k]);
                                    assert(face_before_groups(prev));
                                } else {
                                    // no group line before this face, so an earlier face
                                    assert(!no_face_or_group(prev));
                                    let j = choose|j: int|
                                        0 <= j < prev.len() && !(!is_face_line(#[trigger] prev[j])
                                            && !is_group_line(prev[j]));
                                    assert(prev[j] == ls[j]);
                                    assert(is_face_line(prev[j]));
                                    assert(face_before_groups(prev));
                                }
                            }
                            if face_before_groups(prev) {
                                let k = choose|k: int|
                                    0 <= k < prev.len() && #[trigger] is_face_line(prev[k]) && forall|
                                        j: int,
                                    | 0 <= j < k ==> !is_group_line(prev[j]);
                                assert(prev[k] == ls[k]);
                                assert(is_face_line(ls[k]));
                                assert forall|j: int| 0 <= j < k implies !is_group_line(ls[j]) by {
                                    assert(prev[j] == ls[j]);
                                }
                                assert(face_before_groups(ls));
                            }
                        },
                    }
                    assert(!no_face_or_group(ls)) by {
                        assert(is_face_line(ls[ls.len() - 1]));
                    }
                } else if ws.len() > 0 && ws[0] == seq!['g'] {
                    assert(is_group_line(ls[ls.len() - 1]));
                    assert(ws[0] != seq!['v'] && ws[0] != seq!['f']) by {
                        assert(ws[0][0] == 'g');
                    }
                    assert(ws[0] != seq!['v', 'n']) by {
                        assert(ws[0].len() == 1);
                    }
                    lemma_words_nonempty(trim(line), Seq::empty(), Seq::empty());
                    assert(ws[1].len() > 0);
                    assert(ws[1] != e);
                    lemma_declare_keeps(m0.groups, ws[1], e);
                    assert(m.groups == declare_group(m0.groups, ws[1]).0);
                    lemma_fbg_last_not_face(ls);
                    assert(!no_face_or_group(ls)) by {
                        assert(is_group_line(ls[ls.len() - 1]));
                    }
                } else {
                    assert(!is_face_line(ls[ls.len() - 1]) && !is_group_line(ls[ls.len() - 1]));
                    assert(m.groups == m0.groups);
                    assert(m.current == m0.current);
                    lemma_fbg_last_not_face(ls);
                    if no_face_or_group(prev) {
                        assert forall|j: int| 0 <= j < ls.len() implies !is_face_line(
                            #[trigger] ls[j],
                        ) && !is_group_line(ls[j]) by {
                            if j < prev.len() {
                                assert(prev[j] == ls[j]);
                            }
                        }
                    }
                    if no_face_or_group(ls) {
                        assert forall|j: int| 0 <= j < prev.len() implies !is_face_line(
                            #[trigger] prev[j],
                        ) && !is_group_line(prev[j]) by {
                            assert(prev[j] == ls[j]);
                        }
                    }
                }
            }
        }
    }
}

/// When the last line is no face line, some face line comes before every
/// group line exactly when that is so without the last line.
proof fn lemma_fbg_last_not_face(ls: Seq<Seq<char>>)
    requires
        ls.len() > 0,
        !is_face_line(ls[ls.len() - 1]),
    ensures
        face_before_groups(ls) == face_before_groups(ls.drop_last()),
{
    let prev = ls.drop_last();
    if face_before_groups(ls) {
        let k = choose|k: int|
            0 <= k < ls.len() && #[trigger] is_face_line(ls[k]) && forall|j: int|
                0 <= j < k ==> !is_group_line(ls[j]);
        assert(k < prev.len());
        assert(prev[k] == ls[k]);
        assert forall|j: int| 0 <= j < k implies !is_group_line(prev[j]) by {
            assert(prev[j] == ls[j]);
        }
        assert(is_face_line(prev[k]));
    }
    if face_before_groups(prev) {
        let k = choose|k: int|
            0 <= k < prev.len() && #[trigger] is_face_line(prev[k]) && forall|j: int|
                0 <= j < k ==> !is_group_line(prev[j]);
        assert(prev[k] == ls[k]);
        assert forall|j: int| 0 <= j < k implies !is_group_line(ls[j]) by {
            assert(prev[j] == ls[j]);
        }
        assert(is_face_line(ls[k]));
    }
}

/// The name in the last group line of `ls`, or the empty name when there
/// is none.
pub open spec fn last_group_name(ls: Seq<Seq<char>>) -> Seq<char>
    decreases ls.len(),
{
    if ls.len() == 0 {
        Seq::empty()
    } else if is_group_line(ls.last()) && words_of(trim(ls.last())).len() >= 2 {
        words_of(trim(ls.last()))[1]
    } else {
        last_group_name(ls.drop_last())
    }
}

/// Faces go to the group named by the last group line before them, or to
/// the default group (named by the empty string) before any group line:
/// after the lines of OBJ text read so far, the group that the next face
/// goes to (`face_line_step` appends its triangles there) is the group of
/// that name.
pub proof fn lemma_current_group(ls: Seq<Seq<char>>)
    ensures
        obj_run(ls) matches ObjStep::Read(m) ==> (m.current matches Some(c) ==> 0 <= c
            < m.groups.len() && m.groups[c].0 == last_group_name(ls)),
    decreases ls.len(),
{
    if ls.len() > 0 {
        let prev = ls.drop_last();
        lemma_current_group(prev);
        lemma_run_default(prev);
        if let ObjStep::Read(m0) = obj_run(prev) {
            let line = ls.last();
            let index = (ls.len() - 1) as nat;
            let ws = words_of(trim(line));
            let e: Seq<char> = Seq::empty();
            if let ObjStep::Read(m) = obj_line(m0, index, line) {
                if ws.len() > 0 && ws[0] == seq!['f'] {
                    assert(ws[0] != seq!['v']) by {
                        assert(ws[0][0] == 'f');
                    }
                    assert(ws[0] != seq!['v', 'n']) by {
                        assert(ws[0].len() == 1);
                    }
                    assert(!is_group_line(line)) by {
                        assert(ws[0][0] == 'f');
                    }
                    assert(last_group_name(ls) == last_group_name(prev));
                    assert(obj_line(m0, index, line) == face_line_step(m0, index, ws));
                    let fs = read_faces(ws.skip(1))->Ok_0;
                    let vs = m0.vertices_after_face();
                    let (gs, c) = match m0.current {
                        Some(c) => (m0.groups, c),
                        None => declare_group(m0.groups, e),
                    };
                    lemma_declare_keeps(m0.groups, e, e);
                    if m0.current is None {
                        lemma_no_group_line_name(prev);
                        lemma_declared_name(m0.groups, e);
                    }
                    assert(0 <= c < gs.len());
                    assert(gs[c].0 == last_group_name(prev));
                    assert(m.groups == gs.update(c, (gs[c].0, gs[c].1 + fan_spec(vs, m0.normals, fs))));
                } else if ws.len() > 0 && ws[0] == seq!['g'] {
                    assert(ws[0] != seq!['v'] && ws[0] != seq!['f']) by {
                        assert(ws[0][0] == 'g');
                    }
                    assert(ws[0] != seq!['v', 'n']) by {
                        assert(ws[0].len() == 1);
                    }
                    assert(is_group_line(line));
                    assert(last_group_name(ls) == ws[1]);
                    lemma_declare_keeps(m0.groups, ws[1], e);
                    lemma_declared_name(m0.groups, ws[1]);
                } else {
                    assert(!is_group_line(line));
                    assert(last_group_name(ls) == last_group_name(prev));
                    assert(m.groups == m0.groups);
                    assert(m.current == m0.current);
                }
            }
        }
    }
}

/// Without group lines, the last group name is the empty name.
proof fn lemma_no_group_line_name(ls: Seq<Seq<char>>)
    requires
        no_face_or_group(ls),
    ensures
        last_group_name(ls) == Seq::<char>::empty(),
    decreases ls.len(),
{
    if ls.len() > 0 {
        let prev = ls.drop_last();
        assert(!is_group_line(ls[ls.len() - 1]));
        assert forall|j: int| 0 <= j < prev.len() implies !is_face_line(#[trigger] prev[j])
            && !is_group_line(prev[j]) by {
            assert(prev[j] == ls[j]);
        }
        lemma_no_group_line_name(prev);
    }
}

/// The group that declaring a name points at has that name.
proof fn lemma_declared_name(gs: Seq<(Seq<char>, Seq<ObjTriangle>)>, name: Seq<char>)
    ensures
        declare_group(gs, name).0[declare_group(gs, name).1].0 == name,
{
    if exists|i: int| first_named(gs, name, i) {
        let i = choose|i: int| first_named(gs, name, i);
        assert(declare_group(gs, name).1 == i);
    }
}

/// The faces that come before any group line go to the group named by the
/// empty string (the default group): reading OBJ text that succeeds gives
/// that group exactly when some face line comes before every group line.
pub proof fn lemma_default_group(text: Seq<char>)
    ensures
        obj_outcome(text) matches ObjStep::Read(m) ==> (has_group(m.groups, Seq::empty())
            <==> face_before_groups(lines_of(text))),
{
    lemma_run_default(lines_of(text));
}

/// Whether each coordinate of `t` lies in `[-1, 1]`.
pub open spec fn in_unit_cube(t: Tuple) -> bool {
    &&& -ONE <= t.x <= ONE
    &&& -ONE <= t.y <= ONE
    &&& -ONE <= t.z <= ONE
}

proof fn lemma_bounds_attained(vs: Seq<Tuple>)
    requires
        vs.len() > 0,
    ensures
        exists|i: int| 0 <= i < vs.len() && (#[trigger] vs[i]).x == bounds_of(vs).min.x,
        exists|i: int| 0 <= i < vs.len() && (#[trigger] vs[i]).x == bounds_of(vs).max.x,
        exists|i: int| 0 <= i < vs.len() && (#[trigger] vs[i]).y == bounds_of(vs).min.y,
        exists|i: int| 0 <= i < vs.len() && (#[trigger] vs[i]).y == bounds_of(vs).max.y,
        exists|i: int| 0 <= i < vs.len() && (#[trigger] vs[i]).z == bounds_of(vs).min.z,
        exists|i: int| 0 <= i < vs.len() && (#[trigger] vs[i]).z == bounds_of(vs).max.z,
    decreases vs.len(),
{
    let l = vs.len() - 1;
    let d = vs.drop_last();
    let p = vs[l];
    assert(vs.last() == p);
    let b = bounds_of(vs);
    if vs.len() == 1 {
        assert(d.len() == 0);
        assert(bounds_of(d) == BoundingBox::empty_spec());
        assert(b.min.x == p.x && b.max.x == p.x && b.min.y == p.y && b.max.y == p.y && b.min.z
            == p.z && b.max.z == p.z);
        assert(vs[0] == p);
    } else {
        lemma_bounds_attained(d);
        let pb = bounds_of(d);
        assert(b == pb.add_point_spec(p));
        let i1 = choose|i: int| 0 <= i < d.len() && (#[trigger] d[i]).x == pb.min.x;
        let i2 = choose|i: int| 0 <= i < d.len() && (#[trigger] d[i]).x == pb.max.x;
        let i3 = choose|i: int| 0 <= i < d.len() && (#[trigger] d[i]).y == pb.min.y;
        let i4 = choose|i: int| 0 <= i < d.len() && (#[trigger] d[i]).y == pb.max.y;
        let i5 = choose|i: int| 0 <= i < d.len() && (#[trigger] d[i]).z == pb.min.z;
        let i6 = choose|i: int| 0 <= i < d.len() && (#[trigger] d[i]).z == pb.max.z;
        assert(vs[i1] == d[i1] && vs[i2] == d[i2] && vs[i3] == d[i3] && vs[i4] == d[i4] && vs[i5]
            == d[i5] && vs[i6] == d[i6]);
        if p.x <= pb.min.x {
            assert(vs[l].x == b.min.x);
        } else {
            assert(vs[i1].x == b.min.x);
        }
        if p.x >= pb.max.x {
            assert(vs[l].x == b.max.x);
        } else {
            assert(vs[i2].x == b.max.x);
        }
        if p.y <= pb.min.y {
            assert(vs[l].y == b.min.y);
        } else {
            assert(vs[i3].y == b.min.y);
        }
        if p.y >= pb.max.y {
            assert(vs[l].y == b.max.y);
        } else {
            assert(vs[i4].y == b.max.y);
        }
        if p.z <= pb.min.z {
            assert(vs[l].z == b.min.z);
        } else {
            assert(vs[i5].z == b.min.z);
        }
        if p.z >= pb.max.z {
            assert(vs[l].z == b.max.z);
        } else {
            assert(vs[i6].z == b.max.z);
        }
    }
}

/// Along an axis where the range is as wide as the widest one, the ends of
/// the range go to -1 and 1.
proof fn lemma_normalized_ends(lo: int, hi: int, w: int)
    requires
        hi - lo == w,
        w > 0,
    ensures
        normalized_coord(lo, lo, hi, w) == -ONE,
        normalized_coord(hi, lo, hi, w) == ONE,
{
    vstd::arithmetic::div_mod::lemma_div_multiples_vanish(ONE as int, w);
    vstd::arithmetic::div_mod::lemma_div_multiples_vanish(-(ONE as int), w);
    assert((2 * lo - lo - hi) * ONE == w * (-(ONE as int))) by (nonlinear_arith)
        requires
            hi - lo == w,
    ;
    assert((2 * hi - lo - hi) * ONE == w * (ONE as int)) by (nonlinear_arith)
        requires
            hi - lo == w,
    ;
}

/// Normalizing the vertices (when they do not all lie in one point) puts
/// every vertex but the placeholder in the cube `[-1, 1]^3`, and along the
/// axis where they spread widest it puts some vertex at -1 and some at 1.
pub proof fn lemma_normalized_unit_cube(vs: Seq<Tuple>)
    requires
        vs.len() > 1,
        widest_span(bounds_of(vs.skip(1))) > 0,
    ensures
        forall|i: int| 1 <= i < vs.len() ==> in_unit_cube(#[trigger] normalized_spec(vs)[i]),
        ({
            let b = bounds_of(vs.skip(1));
            let n = normalized_spec(vs);
            &&& b.max.x - b.min.x == widest_span(b) ==> exists|i: int, j: int|
                1 <= i < vs.len() && 1 <= j < vs.len() && (#[trigger] n[i]).x == -ONE && (
                #[trigger] n[j]).x == ONE
            &&& b.max.y - b.min.y == widest_span(b) ==> exists|i: int, j: int|
                1 <= i < vs.len() && 1 <= j < vs.len() && (#[trigger] n[i]).y == -ONE && (
                #[trigger] n[j]).y == ONE
            &&& b.max.z - b.min.z == widest_span(b) ==> exists|i: int, j: int|
                1 <= i < vs.len() && 1 <= j < vs.len() && (#[trigger] n[i]).z == -ONE && (
                #[trigger] n[j]).z == ONE
        }),
{
    let rest = vs.skip(1);
    let b = bounds_of(rest);
    let w = widest_span(b);
    let n = normalized_spec(vs);
    assert forall|i: int| 1 <= i < vs.len() implies in_unit_cube(#[trigger] n[i]) by {
        assert(rest[i - 1] == vs[i]);
        lemma_bounds_of_holds(rest, i - 1);
        lemma_normalized_range(vs[i].x as int, b.min.x as int, b.max.x as int, w);
        lemma_normalized_range(vs[i].y as int, b.min.y as int, b.max.y as int, w);
        lemma_normalized_range(vs[i].z as int, b.min.z as int, b.max.z as int, w);
    }
    lemma_bounds_attained(rest);
    if b.max.x - b.min.x == w {
        let a = choose|i: int| 0 <= i < rest.len() && (#[trigger] rest[i]).x == b.min.x;
        let c = choose|i: int| 0 <= i < rest.len() && (#[trigger] rest[i]).x == b.max.x;
        lemma_normalized_ends(b.min.x as int, b.max.x as int, w);
        assert(n[a + 1].x == -ONE && n[c + 1].x == ONE);
    }
    if b.max.y - b.min.y == w {
        let a = choose|i: int| 0 <= i < rest.len() && (#[trigger] rest[i]).y == b.min.y;
        let c = choose|i: int| 0 <= i < rest.len() && (#[trigger] rest[i]).y == b.max.y;
        lemma_normalized_ends(b.min.y as int, b.max.y as int, w);
        assert(n[a + 1].y == -ONE && n[c + 1].y == ONE);
    }
    if b.max.z - b.min.z == w {
        let a = choose|i: int| 0 <= i < rest.len() && (#[trigger] rest[i]).z == b.min.z;
        let c = choose|i: int| 0 <= i < rest.len() && (#[trigger] rest[i]).z == b.max.z;
        lemma_normalized_ends(b.min.z as int, b.max.z as int, w);
        assert(n[a + 1].z == -ONE && n[c + 1].z == ONE);
    }
}

} // verus!
