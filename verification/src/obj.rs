//! Triangle meshes from text.
//!
//! The text is read line by line. A line whose first token is `v` gives a
//! vertex by three coordinates; one whose first token is `f` gives a face by
//! three or four vertex numbers, counted from 1 among the vertices given so
//! far, each optionally followed by `/` and more, which is not read. A face
//! of four corners becomes two triangles. Every other line is passed over.
//! The first line that is at fault ends the reading.

use crate::mesh::{rectangle, rectangle_triangles};
use crate::number::{float_literal, index_value, is_float_literal, parse_index};
use crate::text::{chars_of, lines_of, split_lines, split_tokens, texts, tokens_of};
use vstd::prelude::*;

verus! {

/// What can be wrong with a line.
#[derive(Clone, Copy, PartialEq, Eq, Structural, Debug)]
pub enum ObjFault {
    /// A coordinate of a vertex is no literal of a number.
    Coordinate,
    /// A vertex has fewer or more than three coordinates.
    CoordinateCount,
    /// A corner of a face does not begin with the literal of an index.
    Index,
    /// A corner of a face names a vertex that has not been given.
    MissingVertex,
    /// A face has fewer than three or more than four corners.
    CornerCount,
}

impl ObjFault {
    /// The fault in words.
    pub fn message(&self) -> (r: &'static str)
        ensures
            r@ == (match self {
                ObjFault::Coordinate => "cannot parse coordinate"@,
                ObjFault::CoordinateCount => "unexpected coordinate count"@,
                ObjFault::Index => "cannot parse vertex index"@,
                ObjFault::MissingVertex => "cannot find vertex at index"@,
                ObjFault::CornerCount => "unexpected vertex count"@,
            }),
    {
        match self {
            ObjFault::Coordinate => "cannot parse coordinate",
            ObjFault::CoordinateCount => "unexpected coordinate count",
            ObjFault::Index => "cannot parse vertex index",
            ObjFault::MissingVertex => "cannot find vertex at index",
            ObjFault::CornerCount => "unexpected vertex count",
        }
    }
}

/// A fault and the line that has it, counted from 1.
#[derive(Clone, Copy, PartialEq, Eq, Structural, Debug)]
pub struct ObjError {
    pub line: usize,
    pub fault: ObjFault,
}

/// A vertex as the text gives it: the literals of its three coordinates.
#[derive(Clone, PartialEq, Eq, Debug)]
pub struct Vertex {
    pub x: Vec<char>,
    pub y: Vec<char>,
    pub z: Vec<char>,
}

/// The three coordinate literals of a vertex, as sequences.
pub struct VertexText {
    pub x: Seq<char>,
    pub y: Seq<char>,
    pub z: Seq<char>,
}

impl View for Vertex {
    type V = VertexText;

    open spec fn view(&self) -> VertexText {
        VertexText { x: self.x@, y: self.y@, z: self.z@ }
    }
}

/// A mesh as read: its vertices, and its triangles as triples of positions
/// in `vertices`.
#[derive(Clone, PartialEq, Eq, Debug)]
pub struct ObjMesh {
    pub vertices: Vec<Vertex>,
    pub triangles: Vec<[usize; 3]>,
}

/// What an [`ObjMesh`] holds.
pub struct ObjModel {
    pub vertices: Seq<VertexText>,
    pub triangles: Seq<[usize; 3]>,
}

impl ObjModel {
    /// Every coordinate is the literal of a number, and every corner of a
    /// triangle is the position of a vertex.
    pub open spec fn sound(self) -> bool {
        &&& forall|i: int|
            0 <= i < self.vertices.len() ==> {
                &&& is_float_literal((#[trigger] self.vertices[i]).x)
                &&& is_float_literal(self.vertices[i].y)
                &&& is_float_literal(self.vertices[i].z)
            }
        &&& forall|t: int, k: int|
            0 <= t < self.triangles.len() && 0 <= k < 3 ==> (#[trigger] self.triangles[t][k])
                < self.vertices.len()
    }
}

impl View for ObjMesh {
    type V = ObjModel;

    open spec fn view(&self) -> ObjModel {
        ObjModel {
            vertices: Seq::new(self.vertices@.len(), |i: int| self.vertices@[i]@),
            triangles: self.triangles@,
        }
    }
}

/// What a line says.
pub enum Item {
    /// Nothing that is read.
    Skip,
    /// One more vertex.
    Vertex(VertexText),
    /// One more face, as its triangles.
    Face(Seq<[usize; 3]>),
    /// Something that cannot be read.
    Fault(ObjFault),
}

/// Where the field that starts at `from` ends: at the first `/` from there
/// on, or at the end of `s`.
pub open spec fn field_end(s: Seq<char>, from: int) -> int
    decreases s.len() - from,
{
    if from < 0 || from >= s.len() || s[from] == '/' {
        from
    } else {
        field_end(s, from + 1)
    }
}

/// The vertex that a corner of a face names, where `known` vertices have
/// been given: the first field of the token is read as an index from 1.
pub open spec fn corner(token: Seq<char>, known: nat) -> Result<usize, ObjFault> {
    match index_value(token.take(field_end(token, 0))) {
        None => Err(ObjFault::Index),
        Some(number) => if 1 <= number <= known {
            Ok((number - 1) as usize)
        } else {
            Err(ObjFault::MissingVertex)
        },
    }
}

/// The vertices that the corners of a face name, or the fault of the first
/// corner that has one.
pub open spec fn corners(tokens: Seq<Seq<char>>, known: nat) -> Result<Seq<usize>, ObjFault>
    decreases tokens.len(),
{
    if tokens.len() == 0 {
        Ok(Seq::empty())
    } else {
        match corners(tokens.drop_last(), known) {
            Err(fault) => Err(fault),
            Ok(before) => match corner(tokens.last(), known) {
                Err(fault) => Err(fault),
                Ok(vertex) => Ok(before.push(vertex)),
            },
        }
    }
}

/// What a face with the corners `tokens` says: one triangle for three
/// corners, two for four.
pub open spec fn read_face(tokens: Seq<Seq<char>>, known: nat) -> Item {
    match corners(tokens, known) {
        Err(fault) => Item::Fault(fault),
        Ok(c) => if c.len() == 3 {
            Item::Face(seq![[c[0], c[1], c[2]]])
        } else if c.len() == 4 {
            Item::Face(rectangle_triangles([c[0], c[1], c[2], c[3]]))
        } else {
            Item::Fault(ObjFault::CornerCount)
        },
    }
}

/// What a vertex with the coordinates `tokens` says.
pub open spec fn read_vertex(tokens: Seq<Seq<char>>) -> Item {
    if exists|i: int| 0 <= i < tokens.len() && !is_float_literal(#[trigger] tokens[i]) {
        Item::Fault(ObjFault::Coordinate)
    } else if tokens.len() != 3 {
        Item::Fault(ObjFault::CoordinateCount)
    } else {
        Item::Vertex(VertexText { x: tokens[0], y: tokens[1], z: tokens[2] })
    }
}

/// What a line says, where `known` vertices have been given.
pub open spec fn read_line(line: Seq<char>, known: nat) -> Item {
    let tokens = split_tokens(line);
    if tokens.len() == 0 {
        Item::Skip
    } else if tokens[0] == seq!['v'] {
        read_vertex(tokens.skip(1))
    } else if tokens[0] == seq!['f'] {
        read_face(tokens.skip(1), known)
    } else {
        Item::Skip
    }
}

/// The mesh that the first `n` of `lines` give, or the first fault among
/// them with the number of its line.
pub open spec fn read_lines(lines: Seq<Seq<char>>, n: nat) -> Result<ObjModel, ObjError>
    decreases n,
{
    if n == 0 || n > lines.len() {
        Ok(ObjModel { vertices: Seq::empty(), triangles: Seq::empty() })
    } else {
        match read_lines(lines, (n - 1) as nat) {
            Err(error) => Err(error),
            Ok(mesh) => match read_line(lines[n - 1], mesh.vertices.len()) {
                Item::Skip => Ok(mesh),
                Item::Vertex(vertex) => Ok(
                    ObjModel { vertices: mesh.vertices.push(vertex), triangles: mesh.triangles },
                ),
                Item::Face(triangles) => Ok(
                    ObjModel { vertices: mesh.vertices, triangles: mesh.triangles + triangles },
                ),
                Item::Fault(fault) => Err(ObjError { line: n as usize, fault }),
            },
        }
    }
}

/// The mesh that a text gives, or its first fault.
pub open spec fn read_obj(text: Seq<char>) -> Result<ObjModel, ObjError> {
    read_lines(split_lines(text), split_lines(text).len())
}

/// A fault among the first corners of a face is the fault of the face.
proof fn lemma_corner_faults_stay(tokens: Seq<Seq<char>>, known: nat, n: int)
    requires
        0 <= n <= tokens.len(),
        corners(tokens.take(n), known) is Err,
    ensures
        corners(tokens, known) == corners(tokens.take(n), known),
    decreases tokens.len() - n,
{
    if n < tokens.len() {
        assert(tokens.take(n + 1).drop_last() =~= tokens.take(n));
        lemma_corner_faults_stay(tokens, known, n + 1);
    } else {
        assert(tokens.take(n) =~= tokens);
    }
}

/// What is read without fault is sound.
pub proof fn lemma_read_lines_is_sound(lines: Seq<Seq<char>>, n: nat)
    requires
        n <= usize::MAX,
    ensures
        read_lines(lines, n) matches Ok(mesh) ==> mesh.sound(),
        read_lines(lines, n) matches Err(error) ==> 1 <= error.line <= n,
    decreases n,
{
    if n == 0 || n > lines.len() {
    } else {
        lemma_read_lines_is_sound(lines, (n - 1) as nat);
        if let Ok(mesh) = read_lines(lines, (n - 1) as nat) {
            let known = mesh.vertices.len();
            let tokens = split_tokens(lines[n - 1]);
            match read_line(lines[n - 1], known) {
                Item::Vertex(vertex) => {
                    let args = tokens.skip(1);
                    assert(is_float_literal(args[0]));
                    assert(is_float_literal(args[1]));
                    assert(is_float_literal(args[2]));
                },
                Item::Face(triangles) => {
                    let args = tokens.skip(1);
                    lemma_corners_are_known(args, known);
                    let c = corners(args, known)->Ok_0;
                    let all = mesh.triangles + triangles;
                    assert forall|t: int, k: int|
                        0 <= t < all.len() && 0 <= k < 3 implies (#[trigger] all[t][k])
                        < known by {
                        if t < mesh.triangles.len() {
                            assert(all[t] == mesh.triangles[t]);
                        } else {
                            assert(all[t] == triangles[t - mesh.triangles.len()]);
                        }
                    }
                },
                _ => {},
            }
        }
    }
}

/// The corners of a face name vertices that have been given.
proof fn lemma_corners_are_known(tokens: Seq<Seq<char>>, known: nat)
    ensures
        corners(tokens, known) matches Ok(c) ==> c.len() == tokens.len() && forall|i: int|
            0 <= i < c.len() ==> (#[trigger] c[i]) < known,
    decreases tokens.len(),
{
    if tokens.len() > 0 {
        lemma_corners_are_known(tokens.drop_last(), known);
    }
}

/// The end of the field of `s` that starts at `from`.
fn skip_field(s: &Vec<char>, from: usize) -> (r: usize)
    requires
        from <= s@.len(),
    ensures
        r == field_end(s@, from as int),
        from <= r <= s@.len(),
{
    let mut i: usize = from;
    while i < s.len() && s[i] != '/'
        invariant
            from <= i <= s@.len(),
            field_end(s@, from as int) == field_end(s@, i as int),
        decreases s@.len() - i,
    {
        i = i + 1;
    }
    i
}

/// Reads one corner of a face.
fn read_corner(token: &Vec<char>, known: usize) -> (r: Result<usize, ObjFault>)
    ensures
        r == corner(token@, known as nat),
{
    let end = skip_field(token, 0);
    match parse_index(token, end) {
        None => Err(ObjFault::Index),
        Some(number) => {
            if 1 <= number && number <= known {
                Ok(number - 1)
            } else {
                Err(ObjFault::MissingVertex)
            }
        },
    }
}

/// Reads the corners of a face from the tokens behind the first.
fn read_corners(tokens: &Vec<Vec<char>>, known: usize) -> (r: Result<Vec<usize>, ObjFault>)
    requires
        tokens@.len() >= 1,
    ensures
        match r {
            Ok(c) => corners(texts(tokens@).skip(1), known as nat) == Ok::<Seq<usize>, ObjFault>(
                c@,
            ),
            Err(fault) => corners(texts(tokens@).skip(1), known as nat) == Err::<
                Seq<usize>,
                ObjFault,
            >(fault),
        },
{
    let ghost args = texts(tokens@).skip(1);
    let mut out: Vec<usize> = Vec::new();
    let mut i: usize = 1;
    proof {
        assert(args.take(0) =~= Seq::<Seq<char>>::empty());
    }
    while i < tokens.len()
        invariant
            1 <= i <= tokens@.len(),
            args == texts(tokens@).skip(1),
            corners(args.take(i - 1), known as nat) == Ok::<Seq<usize>, ObjFault>(out@),
        decreases tokens@.len() - i,
    {
        proof {
            assert(args.take(i as int).drop_last() =~= args.take(i - 1));
            assert(args.take(i as int).last() == tokens@[i as int]@);
        }
        match read_corner(&tokens[i], known) {
            Err(fault) => {
                proof {
                    lemma_corner_faults_stay(args, known as nat, i as int);
                }
                return Err(fault);
            },
            Ok(vertex) => {
                out.push(vertex);
            },
        }
        i = i + 1;
    }
    proof {
        assert(args.take(i - 1) =~= args);
    }
    Ok(out)
}

/// Whether every token behind the first is the literal of a number.
fn all_coordinates(tokens: &Vec<Vec<char>>) -> (r: bool)
    requires
        tokens@.len() >= 1,
    ensures
        r == !exists|i: int|
            0 <= i < texts(tokens@).skip(1).len() && !is_float_literal(
                #[trigger] texts(tokens@).skip(1)[i],
            ),
{
    let ghost args = texts(tokens@).skip(1);
    let mut i: usize = 1;
    while i < tokens.len()
        invariant
            1 <= i <= tokens@.len(),
            args == texts(tokens@).skip(1),
            forall|k: int| 0 <= k < i - 1 ==> is_float_literal(#[trigger] args[k]),
        decreases tokens@.len() - i,
    {
        if !float_literal(&tokens[i]) {
            proof {
                assert(!is_float_literal(args[i - 1]));
            }
            return false;
        }
        i = i + 1;
    }
    true
}

/// Takes in one line: adds to `mesh` what the line says, or tells its fault.
fn take_line(line: &Vec<char>, mesh: &mut ObjMesh) -> (r: Result<(), ObjFault>)
    ensures
        match read_line(line@, old(mesh)@.vertices.len()) {
            Item::Skip => r is Ok && final(mesh)@ == old(mesh)@,
            Item::Vertex(vertex) => r is Ok && final(mesh)@ == (ObjModel {
                vertices: old(mesh)@.vertices.push(vertex),
                triangles: old(mesh)@.triangles,
            }),
            Item::Face(triangles) => r is Ok && final(mesh)@ == (ObjModel {
                vertices: old(mesh)@.vertices,
                triangles: old(mesh)@.triangles + triangles,
            }),
            Item::Fault(fault) => r == Err::<(), ObjFault>(fault),
        },
{
    let mut tokens = tokens_of(line);
    let ghost words = texts(tokens@);
    if tokens.len() == 0 {
        return Ok(());
    }
    let ghost args = words.skip(1);
    let tag = &tokens[0];
    if tag.len() == 1 && tag[0] == 'v' {
        proof {
            assert(words[0] =~= seq!['v']);
        }
        if !all_coordinates(&tokens) {
            return Err(ObjFault::Coordinate);
        }
        if tokens.len() != 4 {
            return Err(ObjFault::CoordinateCount);
        }
        let ghost before = mesh@;
        let z = tokens.pop().unwrap();
        let y = tokens.pop().unwrap();
        let x = tokens.pop().unwrap();
        let vertex = Vertex { x, y, z };
        proof {
            assert(vertex@ == (VertexText { x: args[0], y: args[1], z: args[2] }));
        }
        mesh.vertices.push(vertex);
        proof {
            assert(mesh@.vertices =~= before.vertices.push(vertex@));
        }
        Ok(())
    } else if tag.len() == 1 && tag[0] == 'f' {
        proof {
            assert(words[0] =~= seq!['f']);
            assert(seq!['f'][0] != seq!['v'][0]);
        }
        let ghost before = mesh@;
        match read_corners(&tokens, mesh.vertices.len()) {
            Err(fault) => Err(fault),
            Ok(c) => {
                if c.len() == 3 {
                    mesh.triangles.push([c[0], c[1], c[2]]);
                    proof {
                        assert(mesh@.triangles =~= before.triangles + seq![[c@[0], c@[1], c@[2]]]);
                        assert(mesh@.vertices =~= before.vertices);
                    }
                    Ok(())
                } else if c.len() == 4 {
                    let pair = rectangle([c[0], c[1], c[2], c[3]]);
                    mesh.triangles.push(pair[0]);
                    mesh.triangles.push(pair[1]);
                    proof {
                        assert(mesh@.triangles =~= before.triangles + rectangle_triangles(
                            [c@[0], c@[1], c@[2], c@[3]],
                        ));
                        assert(mesh@.vertices =~= before.vertices);
                    }
                    Ok(())
                } else {
                    Err(ObjFault::CornerCount)
                }
            },
        }
    } else {
        proof {
            if words[0] == seq!['v'] {
                assert(words[0].len() == 1 && words[0][0] == 'v');
            }
            if words[0] == seq!['f'] {
                assert(words[0].len() == 1 && words[0][0] == 'f');
            }
        }
        Ok(())
    }
}

/// Reads a mesh from the text of a file.
///
/// The result is the mesh that the lines give between them, or the first
/// fault with the number of its line. A mesh that is returned is sound: its
/// coordinates are literals of numbers, and the corners of its triangles are
/// positions of its vertices.
pub fn load_obj(text: &str) -> (r: Result<ObjMesh, ObjError>)
    ensures
        match r {
            Ok(mesh) => read_obj(text@) == Ok::<ObjModel, ObjError>(mesh@) && mesh@.sound(),
            Err(error) => read_obj(text@) == Err::<ObjModel, ObjError>(error),
        },
{
    let chars = chars_of(text);
    let lines = lines_of(&chars);
    let ghost all = split_lines(text@);
    let mut mesh = ObjMesh { vertices: Vec::new(), triangles: Vec::new() };
    let mut i: usize = 0;
    proof {
        assert(mesh@.vertices =~= Seq::<VertexText>::empty());
    }
    while i < lines.len()
        invariant
            i <= lines@.len(),
            all == texts(lines@),
            all == split_lines(text@),
            read_lines(all, i as nat) == Ok::<ObjModel, ObjError>(mesh@),
        decreases lines@.len() - i,
    {
        match take_line(&lines[i], &mut mesh) {
            Err(fault) => {
                proof {
                    lemma_faults_stay(all, (i + 1) as nat, all.len());
                }
                return Err(ObjError { line: i + 1, fault });
            },
            Ok(()) => {},
        }
        i = i + 1;
    }
    proof {
        lemma_read_lines_is_sound(all, all.len());
    }
    Ok(mesh)
}

/// A fault among the first lines is the fault of the text.
proof fn lemma_faults_stay(lines: Seq<Seq<char>>, n: nat, m: nat)
    requires
        n <= m <= lines.len(),
        read_lines(lines, n) is Err,
    ensures
        read_lines(lines, m) == read_lines(lines, n),
    decreases m - n,
{
    if n < m {
        lemma_faults_stay(lines, n, (m - 1) as nat);
    }
}

} // verus!
