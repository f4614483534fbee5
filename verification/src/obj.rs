//! Reading a triangle mesh from Wavefront OBJ text.
//!
//! A line that starts with `v` and a space defines a vertex by three real
//! numbers; the vertices are numbered from 1 in the order of their lines. A
//! line that starts with `f` and a space defines a triangle by three
//! references to vertices; of a reference only what stands before its first
//! `/` counts. Every other line is passed over. The numbers of a vertex are
//! handed on as the text writes them, checked to be decimal reals.
use vstd::prelude::*;
use crate::number::{reads_as_number, index_of, is_number, read_index};
use crate::text::{contents, copy_bytes, lines, split, split_bytes, split_lines};

verus! {

pub const SPACE: u8 = 32;

pub const SLASH: u8 = 47;

/// The letter that marks a vertex line.
pub const VERTEX_MARK: u8 = 118;

/// The letter that marks a face line.
pub const FACE_MARK: u8 = 102;

/// Why a text is no mesh.
#[derive(Clone, Copy, Debug, PartialEq, Eq)]
pub enum LoadError {
    /// A face line names fewer than three vertices, or a vertex that a face
    /// refers to has fewer than three coordinates.
    MissingField,
    /// A reference in a face line is no vertex index.
    BadReference,
    /// A reference in a face line is an index that no vertex has.
    UnknownVertex,
    /// A coordinate of a vertex that a face refers to is no real number.
    BadNumber,
}

/// A vertex as the text gives it: three real numbers in decimal notation.
#[derive(Debug)]
pub struct Position {
    pub x: Vec<u8>,
    pub y: Vec<u8>,
    pub z: Vec<u8>,
}

/// A triangle of the mesh: its three vertices in the order of the face line.
#[derive(Debug)]
pub struct Face {
    pub a: Position,
    pub b: Position,
    pub c: Position,
}

/// The text of a [`Position`].
pub struct PositionText {
    pub x: Seq<u8>,
    pub y: Seq<u8>,
    pub z: Seq<u8>,
}

/// The text of a [`Face`].
pub struct FaceText {
    pub a: PositionText,
    pub b: PositionText,
    pub c: PositionText,
}

impl View for Position {
    type V = PositionText;

    open spec fn view(&self) -> PositionText {
        PositionText { x: self.x@, y: self.y@, z: self.z@ }
    }
}

impl View for Face {
    type V = FaceText;

    open spec fn view(&self) -> FaceText {
        FaceText { a: self.a@, b: self.b@, c: self.c@ }
    }
}

/// The texts of a list of faces.
pub open spec fn face_texts(faces: Seq<Face>) -> Seq<FaceText> {
    faces.map_values(|face: Face| face@)
}

/// Whether `line` starts with the letter `mark` and a space.
pub open spec fn has_mark(line: Seq<u8>, mark: u8) -> bool {
    line.len() >= 2 && line[0] == mark && line[1] == SPACE
}

/// The lines among `ls` that start with `mark` and a space, in order.
pub open spec fn marked(ls: Seq<Seq<u8>>, mark: u8) -> Seq<Seq<u8>>
    decreases ls.len(),
{
    if ls.len() == 0 {
        Seq::empty()
    } else if has_mark(ls.last(), mark) {
        marked(ls.drop_last(), mark).push(ls.last())
    } else {
        marked(ls.drop_last(), mark)
    }
}

/// The rows that stand at the given places of `rows`, in the order of the
/// places.
pub open spec fn picked(rows: Seq<Vec<u8>>, places: Seq<usize>) -> Seq<Seq<u8>> {
    Seq::new(places.len(), |k: int| rows[places[k] as int]@)
}

/// The vertex that a vertex line defines: the three fields after the mark,
/// each a real number.
pub open spec fn position(line: Seq<u8>) -> Result<PositionText, LoadError> {
    let fields = split(line, SPACE);
    if fields.len() < 4 {
        Err(LoadError::MissingField)
    } else if !is_number(fields[1]) || !is_number(fields[2]) || !is_number(fields[3]) {
        Err(LoadError::BadNumber)
    } else {
        Ok(PositionText { x: fields[1], y: fields[2], z: fields[3] })
    }
}

/// The vertex that one reference of a face line names among the vertex
/// lines `vertices`.
pub open spec fn corner(field: Seq<u8>, vertices: Seq<Seq<u8>>) -> Result<PositionText, LoadError> {
    match index_of(split(field, SLASH)[0]) {
        None => Err(LoadError::BadReference),
        Some(k) => if 1 <= k <= vertices.len() {
            position(vertices[k - 1])
        } else {
            Err(LoadError::UnknownVertex)
        },
    }
}

/// The triangle that a face line defines: the vertices that its first three
/// references name. Of several faults the first in reading order counts.
pub open spec fn face(line: Seq<u8>, vertices: Seq<Seq<u8>>) -> Result<FaceText, LoadError> {
    let fields = split(line, SPACE);
    if fields.len() < 4 {
        Err(LoadError::MissingField)
    } else {
        match corner(fields[1], vertices) {
            Err(e) => Err(e),
            Ok(a) => match corner(fields[2], vertices) {
                Err(e) => Err(e),
                Ok(b) => match corner(fields[3], vertices) {
                    Err(e) => Err(e),
                    Ok(c) => Ok(FaceText { a, b, c }),
                },
            },
        }
    }
}

/// The triangles that the face lines `ls` define, in order, or the fault of
/// the first line that has one.
pub open spec fn faces(ls: Seq<Seq<u8>>, vertices: Seq<Seq<u8>>) -> Result<Seq<FaceText>, LoadError>
    decreases ls.len(),
{
    if ls.len() == 0 {
        Ok(Seq::empty())
    } else {
        match faces(ls.drop_last(), vertices) {
            Err(e) => Err(e),
            Ok(before) => match face(ls.last(), vertices) {
                Err(e) => Err(e),
                Ok(f) => Ok(before.push(f)),
            },
        }
    }
}

/// The mesh that a text describes.
pub open spec fn mesh_of(text: Seq<u8>) -> Result<Seq<FaceText>, LoadError> {
    faces(marked(lines(text), FACE_MARK), marked(lines(text), VERTEX_MARK))
}

/// A fault stays the result however many lines follow.
pub proof fn lemma_fault_stays(ls: Seq<Seq<u8>>, more: Seq<Seq<u8>>, vertices: Seq<Seq<u8>>)
    requires
        faces(ls, vertices) is Err,
    ensures
        faces(ls + more, vertices) == faces(ls, vertices),
    decreases more.len(),
{
    if more.len() == 0 {
        assert(ls + more =~= ls);
    } else {
        lemma_fault_stays(ls, more.drop_last(), vertices);
        assert((ls + more).drop_last() =~= ls + more.drop_last());
    }
}

/// Marked lines of a text in two parts are those of the parts, joined.
pub proof fn lemma_marked_add(ls: Seq<Seq<u8>>, more: Seq<Seq<u8>>, mark: u8)
    ensures
        marked(ls + more, mark) == marked(ls, mark) + marked(more, mark),
    decreases more.len(),
{
    if more.len() == 0 {
        assert(ls + more =~= ls);
        assert(marked(ls, mark) + marked(more, mark) =~= marked(ls, mark));
    } else {
        lemma_marked_add(ls, more.drop_last(), mark);
        assert((ls + more).drop_last() =~= ls + more.drop_last());
        assert((ls + more).last() == more.last());
        if has_mark(more.last(), mark) {
            assert(marked(ls, mark) + marked(more.drop_last(), mark).push(more.last()) =~= (marked(
                ls,
                mark,
            ) + marked(more.drop_last(), mark)).push(more.last()));
        }
    }
}

/// Whether `line` starts with the letter `mark` and a space.
pub fn starts_with_mark(line: &[u8], mark: u8) -> (yes: bool)
    ensures
        yes == has_mark(line@, mark),
{
    line.len() >= 2 && line[0] == mark && line[1] == SPACE
}

/// Reads the vertex that a vertex line defines.
pub fn read_position(line: &[u8]) -> (read: Result<Position, LoadError>)
    ensures
        match read {
            Ok(p) => position(line@) == Ok::<PositionText, LoadError>(p@),
            Err(e) => position(line@) == Err::<PositionText, LoadError>(e),
        },
{
    let fields = split_bytes(line, SPACE);
    if fields.len() < 4 {
        return Err(LoadError::MissingField);
    }
    assert(contents(fields@)[1] == fields@[1]@);
    assert(contents(fields@)[2] == fields@[2]@);
    assert(contents(fields@)[3] == fields@[3]@);
    if !reads_as_number(fields[1].as_slice()) || !reads_as_number(fields[2].as_slice()) || !reads_as_number(
        fields[3].as_slice(),
    ) {
        return Err(LoadError::BadNumber);
    }
    Ok(
        Position {
            x: copy_bytes(fields[1].as_slice()),
            y: copy_bytes(fields[2].as_slice()),
            z: copy_bytes(fields[3].as_slice()),
        },
    )
}

/// Reads the vertex that one reference of a face line names, among the
/// vertex lines that stand at the places `vertex_rows` of `rows`.
fn read_corner(field: &[u8], rows: &Vec<Vec<u8>>, vertex_rows: &Vec<usize>) -> (read: Result<
    Position,
    LoadError,
>)
    requires
        forall|k: int| 0 <= k < vertex_rows@.len() ==> vertex_rows@[k] < rows@.len(),
    ensures
        match read {
            Ok(p) => corner(field@, picked(rows@, vertex_rows@)) == Ok::<PositionText, LoadError>(
                p@,
            ),
            Err(e) => corner(field@, picked(rows@, vertex_rows@)) == Err::<
                PositionText,
                LoadError,
            >(e),
        },
{
    let parts = split_bytes(field, SLASH);
    proof {
        crate::text::lemma_split_nonempty(field@, SLASH);
    }
    assert(contents(parts@)[0] == parts@[0]@);
    match read_index(parts[0].as_slice(), vertex_rows.len()) {
        Err(_) => Err(LoadError::BadReference),
        Ok(None) => Err(LoadError::UnknownVertex),
        Ok(Some(k)) => read_position(rows[vertex_rows[k - 1]].as_slice()),
    }
}

/// Reads the triangle that a face line defines.
fn read_face(line: &[u8], rows: &Vec<Vec<u8>>, vertex_rows: &Vec<usize>) -> (read: Result<
    Face,
    LoadError,
>)
    requires
        forall|k: int| 0 <= k < vertex_rows@.len() ==> vertex_rows@[k] < rows@.len(),
    ensures
        match read {
            Ok(f) => face(line@, picked(rows@, vertex_rows@)) == Ok::<FaceText, LoadError>(f@),
            Err(e) => face(line@, picked(rows@, vertex_rows@)) == Err::<FaceText, LoadError>(e),
        },
{
    let fields = split_bytes(line, SPACE);
    if fields.len() < 4 {
        return Err(LoadError::MissingField);
    }
    assert(contents(fields@)[1] == fields@[1]@);
    assert(contents(fields@)[2] == fields@[2]@);
    assert(contents(fields@)[3] == fields@[3]@);
    let a = match read_corner(fields[1].as_slice(), rows, vertex_rows) {
        Ok(p) => p,
        Err(e) => {
            return Err(e);
        },
    };
    let b = match read_corner(fields[2].as_slice(), rows, vertex_rows) {
        Ok(p) => p,
        Err(e) => {
            return Err(e);
        },
    };
    let c = match read_corner(fields[3].as_slice(), rows, vertex_rows) {
        Ok(p) => p,
        Err(e) => {
            return Err(e);
        },
    };
    Ok(Face { a, b, c })
}

/// Reads the mesh that an OBJ text describes: one face for each face line,
/// in order, or the fault of the first face line that has one.
pub fn load_obj(text: &[u8]) -> (loaded: Result<Vec<Face>, LoadError>)
    ensures
        match loaded {
            Ok(mesh) => mesh_of(text@) == Ok::<Seq<FaceText>, LoadError>(face_texts(mesh@)),
            Err(e) => mesh_of(text@) == Err::<Seq<FaceText>, LoadError>(e),
        },
{
    let rows = split_lines(text);
    let ghost ls = lines(text@);
    let mut vertex_rows: Vec<usize> = Vec::new();
    let mut i: usize = 0;
    assert(ls.take(0) =~= Seq::<Seq<u8>>::empty());
    while i < rows.len()
        invariant
            i <= rows@.len(),
            ls == contents(rows@),
            forall|k: int| 0 <= k < vertex_rows@.len() ==> vertex_rows@[k] < rows@.len(),
            picked(rows@, vertex_rows@) == marked(ls.take(i as int), VERTEX_MARK),
        decreases rows@.len() - i,
    {
        assert(ls.take(i + 1).drop_last() =~= ls.take(i as int));
        assert(ls[i as int] == rows@[i as int]@);
        let ghost before = picked(rows@, vertex_rows@);
        if starts_with_mark(rows[i].as_slice(), VERTEX_MARK) {
            vertex_rows.push(i);
            assert(picked(rows@, vertex_rows@) =~= before.push(ls[i as int]));
        }
        i += 1;
    }
    assert(ls.take(rows@.len() as int) =~= ls);
    let ghost vertices = marked(ls, VERTEX_MARK);
    let mut mesh: Vec<Face> = Vec::new();
    let mut j: usize = 0;
    assert(face_texts(mesh@) =~= Seq::<FaceText>::empty());
    while j < rows.len()
        invariant
            j <= rows@.len(),
            ls == contents(rows@),
            forall|k: int| 0 <= k < vertex_rows@.len() ==> vertex_rows@[k] < rows@.len(),
            picked(rows@, vertex_rows@) == vertices,
            vertices == marked(ls, VERTEX_MARK),
            ls == lines(text@),
            faces(marked(ls.take(j as int), FACE_MARK), vertices) == Ok::<Seq<FaceText>, LoadError>(
                face_texts(mesh@),
            ),
        decreases rows@.len() - j,
    {
        assert(ls.take(j + 1).drop_last() =~= ls.take(j as int));
        assert(ls[j as int] == rows@[j as int]@);
        let ghost read = marked(ls.take(j + 1), FACE_MARK);
        if starts_with_mark(rows[j].as_slice(), FACE_MARK) {
            assert(read.drop_last() =~= marked(ls.take(j as int), FACE_MARK));
            assert(read.last() == ls[j as int]);
            match read_face(rows[j].as_slice(), &rows, &vertex_rows) {
                Ok(f) => {
                    let ghost before = face_texts(mesh@);
                    mesh.push(f);
                    assert(face_texts(mesh@) =~= before.push(f@));
                },
                Err(e) => {
                    proof {
                        let done = ls.take(j + 1);
                        let more = ls.skip(j + 1);
                        assert(done + more =~= ls);
                        lemma_marked_add(done, more, FACE_MARK);
                        lemma_fault_stays(
                            marked(done, FACE_MARK),
                            marked(more, FACE_MARK),
                            vertices,
                        );
                    }
                    return Err(e);
                },
            }
        }
        j += 1;
    }
    assert(ls.take(rows@.len() as int) =~= ls);
    Ok(mesh)
}

} // verus!
