//! Putting a surface together from the vertices and faces of a file.
//!
//! A vertex is three coordinates that the library does not look into, and
//! a face is a list of indices of vertices. A vertex or a face of another
//! make, as a file may hold them, is given as `None`.

use vstd::prelude::*;

verus! {

/// Three values of one type: the coordinates of a point, or the corners
/// of a triangle.
#[derive(Clone, Copy, Debug, PartialEq, Eq)]
pub struct Triple<T>(pub T, pub T, pub T);

/// Why a surface cannot be put together.
#[derive(Clone, Copy, Debug, PartialEq, Eq, Structural)]
pub enum MeshError {
    /// The face at `face` has fewer than three indices, or one of its first
    /// three indices is the index of no vertex.
    Index { face: usize },
    /// A corner of the face at `face` is the vertex at `vertex`, which has
    /// not three coordinates.
    Broken { face: usize, vertex: usize },
}

/// Corner `i` of the face at `at`, which has the indices `ixs`.
pub open spec fn corner_spec<T>(
    ixs: Seq<i32>,
    i: int,
    vertices: Seq<Option<Triple<T>>>,
    at: int,
) -> Result<Triple<T>, MeshError> {
    if i >= ixs.len() || ixs[i] < 0 || ixs[i] >= vertices.len() {
        Err(MeshError::Index { face: at as usize })
    } else {
        match vertices[ixs[i] as int] {
            Some(v) => Ok(v),
            None => Err(MeshError::Broken { face: at as usize, vertex: ixs[i] as usize }),
        }
    }
}

/// The triangle of the face at `at`, which has the indices `ixs`: its
/// first three corners, or what is wrong with the first of them that is
/// wrong.
pub open spec fn face_spec<T>(ixs: Seq<i32>, vertices: Seq<Option<Triple<T>>>, at: int) -> Result<
    Triple<Triple<T>>,
    MeshError,
> {
    match corner_spec(ixs, 0, vertices, at) {
        Err(e) => Err(e),
        Ok(a) => match corner_spec(ixs, 1, vertices, at) {
            Err(e) => Err(e),
            Ok(b) => match corner_spec(ixs, 2, vertices, at) {
                Err(e) => Err(e),
                Ok(c) => Ok(Triple(a, b, c)),
            },
        },
    }
}

/// The triangles of the faces, in their order, or what is wrong with the
/// first face that is wrong. A face without a list of indices is passed
/// over.
pub open spec fn mesh_spec<T>(faces: Seq<Option<Seq<i32>>>, vertices: Seq<Option<Triple<T>>>) -> Result<
    Seq<Triple<Triple<T>>>,
    MeshError,
>
    decreases faces.len(),
{
    if faces.len() == 0 {
        Ok(Seq::empty())
    } else {
        match mesh_spec(faces.drop_last(), vertices) {
            Err(e) => Err(e),
            Ok(mesh) => match faces.last() {
                None => Ok(mesh),
                Some(ixs) => match face_spec(ixs, vertices, faces.len() - 1) {
                    Err(e) => Err(e),
                    Ok(t) => Ok(mesh.push(t)),
                },
            },
        }
    }
}

/// The index lists of a sequence of faces.
pub open spec fn index_lists(faces: Seq<Option<Vec<i32>>>) -> Seq<Option<Seq<i32>>> {
    Seq::new(
        faces.len(),
        |i: int|
            match faces[i] {
                Some(ixs) => Some(ixs@),
                None => None,
            },
    )
}

fn corner<T: Copy>(ixs: &Vec<i32>, i: usize, vertices: &Vec<Option<Triple<T>>>, at: usize) -> (r:
    Result<Triple<T>, MeshError>)
    ensures
        r == corner_spec(ixs@, i as int, vertices@, at as int),
{
    if i >= ixs.len() {
        return Err(MeshError::Index { face: at });
    }
    let ix: i32 = ixs[i];
    if ix < 0 || ix as usize >= vertices.len() {
        return Err(MeshError::Index { face: at });
    }
    match vertices[ix as usize] {
        Some(v) => Ok(v),
        None => Err(MeshError::Broken { face: at, vertex: ix as usize }),
    }
}

fn face<T: Copy>(ixs: &Vec<i32>, vertices: &Vec<Option<Triple<T>>>, at: usize) -> (r: Result<
    Triple<Triple<T>>,
    MeshError,
>)
    ensures
        r == face_spec(ixs@, vertices@, at as int),
{
    let a = match corner(ixs, 0, vertices, at) {
        Ok(v) => v,
        Err(e) => { return Err(e); },
    };
    let b = match corner(ixs, 1, vertices, at) {
        Ok(v) => v,
        Err(e) => { return Err(e); },
    };
    let c = match corner(ixs, 2, vertices, at) {
        Ok(v) => v,
        Err(e) => { return Err(e); },
    };
    Ok(Triple(a, b, c))
}

/// Puts the triangles of a surface together: for every face with a list
/// of indices, in the order of the faces, the vertices at its first three
/// indices.
pub fn assemble<T: Copy>(faces: &Vec<Option<Vec<i32>>>, vertices: &Vec<Option<Triple<T>>>) -> (r: Result<
    Vec<Triple<Triple<T>>>,
    MeshError,
>)
    ensures
        match r {
            Ok(mesh) => mesh_spec(index_lists(faces@), vertices@) == Ok::<_, MeshError>(mesh@),
            Err(e) => mesh_spec(index_lists(faces@), vertices@) == Err::<Seq<Triple<Triple<T>>>, _>(e),
        },
{
    let mut mesh: Vec<Triple<Triple<T>>> = Vec::new();
    let mut i: usize = 0;
    while i < faces.len()
        invariant
            i <= faces.len(),
            mesh_spec(index_lists(faces@).take(i as int), vertices@) == Ok::<_, MeshError>(mesh@),
        decreases faces.len() - i,
    {
        proof {
            let cur = index_lists(faces@).take(i + 1);
            assert(cur.drop_last() =~= index_lists(faces@).take(i as int));
            assert(cur.len() - 1 == i);
        }
        match &faces[i] {
            Some(ixs) => {
                match face(ixs, vertices, i) {
                    Ok(t) => {
                        mesh.push(t);
                    },
                    Err(e) => {
                        proof {
                            lemma_error_stays(index_lists(faces@), vertices@, i + 1, e);
                        }
                        return Err(e);
                    },
                }
            },
            None => {},
        }
        i += 1;
    }
    proof {
        assert(index_lists(faces@).take(i as int) == index_lists(faces@));
    }
    Ok(mesh)
}

/// What is wrong with the first faces is wrong with all of them.
proof fn lemma_error_stays<T>(
    faces: Seq<Option<Seq<i32>>>,
    vertices: Seq<Option<Triple<T>>>,
    n: int,
    e: MeshError,
)
    requires
        0 <= n <= faces.len(),
        mesh_spec(faces.take(n), vertices) == Err::<Seq<Triple<Triple<T>>>, _>(e),
    ensures
        mesh_spec(faces, vertices) == Err::<Seq<Triple<Triple<T>>>, _>(e),
    decreases faces.len() - n,
{
    if n < faces.len() {
        assert(faces.take(n + 1).drop_last() =~= faces.take(n));
        lemma_error_stays(faces, vertices, n + 1, e);
    } else {
        assert(faces.take(n) == faces);
    }
}

} // verus!
