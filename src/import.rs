//! The mesh importer: a Wavefront OBJ triangle mesh, read into vertex and
//! normal records and triangles that index them.
//!
//! Coordinates stay as the text that wrote them; the caller reads them as
//! numbers. Everything else is checked here: the file's extension, the shape
//! of each record, the face indices, and that every face is a triangle.

use crate::text::{copy_bytes, index_value, parse_index, pieces, split_on, split_tokens, tokens, views};
use vstd::prelude::*;
use vstd::string::StringSliceAdditionalSpecFns;

verus! {

/// Why a mesh or material file could not be imported.
#[derive(Debug, Clone)]
pub enum ImportError {
    /// The path does not end in `.obj`.
    IncorrectExtension,
    /// The file could not be read; the message says why.
    FileError(String),
    /// A face has more than three corners.
    UnexpectedPolygon,
    /// The record on this line (counted from 1) is incomplete, or names a
    /// vertex or normal that does not exist.
    Malformed(usize),
}

/// The bytes of `.obj`.
pub open spec fn obj_suffix() -> Seq<u8> {
    seq![46u8, 111u8, 98u8, 106u8]
}

/// `path` names a Wavefront OBJ file.
pub open spec fn spec_has_obj_extension(path: Seq<u8>) -> bool {
    path.len() >= 4 && path.subrange(path.len() - 4, path.len() as int) == obj_suffix()
}

/// Whether `path` ends in `.obj`.
pub fn has_obj_extension(path: &str) -> (r: bool)
    ensures
        r == spec_has_obj_extension(path.spec_bytes()),
{
    let b = path.as_bytes();
    let n = b.len();
    if n < 4 {
        return false;
    }
    let r = b[n - 4] == 46 && b[n - 3] == 111 && b[n - 2] == 98 && b[n - 1] == 106;
    proof {
        let tail = b@.subrange(n - 4, n as int);
        if r {
            assert(tail =~= obj_suffix());
        } else {
            assert(tail[0] != 46 || tail[1] != 111 || tail[2] != 98 || tail[3] != 106);
        }
    }
    r
}

/// The path of the material library beside the OBJ file `path`: its last
/// three bytes replaced by `mtl`.
pub fn material_library_path(path: &str) -> (r: Vec<u8>)
    requires
        path.spec_bytes().len() >= 3,
    ensures
        r@ == path.spec_bytes().subrange(0, path.spec_bytes().len() - 3) + seq![109u8, 116u8, 108u8],
{
    let b = path.as_bytes();
    let n = b.len();
    let mut r: Vec<u8> = Vec::new();
    let mut i: usize = 0;
    while i < n - 3
        invariant
            n == b@.len(),
            n >= 3,
            i <= n - 3,
            r@ == b@.subrange(0, i as int),
        decreases n - 3 - i,
    {
        r.push(b[i]);
        proof {
            assert(b@.subrange(0, i + 1) =~= b@.subrange(0, i as int).push(b@[i as int]));
        }
        i = i + 1;
    }
    r.push(109);
    r.push(116);
    r.push(108);
    proof {
        assert(r@ =~= b@.subrange(0, n - 3) + seq![109u8, 116u8, 108u8]);
    }
    r
}

/// Three coordinates as written in the file, and the line they stand on.
#[derive(Debug, Clone)]
pub struct Coords {
    pub x: Vec<u8>,
    pub y: Vec<u8>,
    pub z: Vec<u8>,
    pub line: usize,
}

pub struct CoordsView {
    pub x: Seq<u8>,
    pub y: Seq<u8>,
    pub z: Seq<u8>,
    pub line: usize,
}

impl View for Coords {
    type V = CoordsView;

    open spec fn view(&self) -> CoordsView {
        CoordsView { x: self.x@, y: self.y@, z: self.z@, line: self.line }
    }
}

/// A triangle: for each corner, the position of its vertex and of its normal
/// in the mesh's lists (counted from 0), and the material in use.
#[derive(Debug)]
pub struct ObjFace {
    pub vertices: (usize, usize, usize),
    pub normals: (usize, usize, usize),
    pub material: Option<Vec<u8>>,
}

pub struct ObjFaceView {
    pub vertices: (usize, usize, usize),
    pub normals: (usize, usize, usize),
    pub material: Option<Seq<u8>>,
}

pub open spec fn opt_view(o: Option<Vec<u8>>) -> Option<Seq<u8>> {
    match o {
        Some(v) => Some(v@),
        None => None,
    }
}

impl View for ObjFace {
    type V = ObjFaceView;

    open spec fn view(&self) -> ObjFaceView {
        ObjFaceView { vertices: self.vertices, normals: self.normals, material: opt_view(self.material) }
    }
}

/// The vertex positions, vertex normals and triangles of a mesh, in file order.
#[derive(Debug)]
pub struct ObjMesh {
    pub vertices: Vec<Coords>,
    pub normals: Vec<Coords>,
    pub faces: Vec<ObjFace>,
}

pub struct ObjMeshView {
    pub vertices: Seq<CoordsView>,
    pub normals: Seq<CoordsView>,
    pub faces: Seq<ObjFaceView>,
}

impl View for ObjMesh {
    type V = ObjMeshView;

    open spec fn view(&self) -> ObjMeshView {
        ObjMeshView {
            vertices: self.vertices@.map_values(|c: Coords| c@),
            normals: self.normals@.map_values(|c: Coords| c@),
            faces: self.faces@.map_values(|f: ObjFace| f@),
        }
    }
}

/// What has been read of an OBJ file: the mesh so far and the material in use.
pub struct ObjRead {
    pub mesh: ObjMeshView,
    pub material: Option<Seq<u8>>,
}

pub open spec fn empty_read() -> ObjRead {
    ObjRead { mesh: ObjMeshView { vertices: seq![], normals: seq![], faces: seq![] }, material: None }
}

/// The vertex and normal numbers of a face corner `v/t/n` (`t` may be
/// empty): fields one and three, each an unsigned decimal.
pub open spec fn corner_value(tok: Seq<u8>) -> Option<(usize, usize)> {
    let f = pieces(tok, 47);
    if f.len() >= 3 {
        match (index_value(f[0]), index_value(f[2])) {
            (Some(v), Some(n)) => Some((v, n)),
            _ => None,
        }
    } else {
        None
    }
}

/// The corner `tok` as positions in lists of `nv` vertices and `nn`
/// normals, or `None` where it is malformed or names one that is not there.
pub open spec fn corner_in(tok: Seq<u8>, nv: nat, nn: nat) -> Option<(usize, usize)> {
    match corner_value(tok) {
        Some((v, n)) => if 1 <= v <= nv && 1 <= n <= nn {
            Some(((v - 1) as usize, (n - 1) as usize))
        } else {
            None
        },
        None => None,
    }
}

pub open spec fn coords_of(toks: Seq<Seq<u8>>, line: usize) -> CoordsView {
    CoordsView { x: toks[1], y: toks[2], z: toks[3], line }
}

/// A face record `f a b c`: three corners that name existing vertices and
/// normals, then nothing but a comment.
pub open spec fn face_step(st: ObjRead, toks: Seq<Seq<u8>>, line: usize) -> Result<ObjRead, ImportError> {
    let nv = st.mesh.vertices.len();
    let nn = st.mesh.normals.len();
    if toks.len() < 4 {
        Err(ImportError::Malformed(line))
    } else {
        match (corner_in(toks[1], nv, nn), corner_in(toks[2], nv, nn), corner_in(toks[3], nv, nn)) {
            (Some(a), Some(b), Some(c)) => if toks.len() > 4 && toks[4][0] != 35 {
                Err(ImportError::UnexpectedPolygon)
            } else {
                Ok(
                    ObjRead {
                        mesh: ObjMeshView {
                            vertices: st.mesh.vertices,
                            normals: st.mesh.normals,
                            faces: st.mesh.faces.push(
                                ObjFaceView {
                                    vertices: (a.0, b.0, c.0),
                                    normals: (a.1, b.1, c.1),
                                    material: st.material,
                                },
                            ),
                        },
                        material: st.material,
                    },
                )
            },
            _ => Err(ImportError::Malformed(line)),
        }
    }
}

/// Reading one line, split into its tokens, numbered `line`.
pub open spec fn obj_step(st: ObjRead, toks: Seq<Seq<u8>>, line: usize) -> Result<ObjRead, ImportError> {
    if toks.len() == 0 {
        Ok(st)
    } else if toks[0] == seq![118u8] || toks[0] == seq![118u8, 110u8] {
        if toks.len() < 4 {
            Err(ImportError::Malformed(line))
        } else if toks[0] == seq![118u8] {
            Ok(
                ObjRead {
                    mesh: ObjMeshView {
                        vertices: st.mesh.vertices.push(coords_of(toks, line)),
                        normals: st.mesh.normals,
                        faces: st.mesh.faces,
                    },
                    material: st.material,
                },
            )
        } else {
            Ok(
                ObjRead {
                    mesh: ObjMeshView {
                        vertices: st.mesh.vertices,
                        normals: st.mesh.normals.push(coords_of(toks, line)),
                        faces: st.mesh.faces,
                    },
                    material: st.material,
                },
            )
        }
    } else if toks[0] == seq![102u8] {
        face_step(st, toks, line)
    } else if toks[0] == seq![117u8, 115u8, 101u8, 109u8, 116u8, 108u8] {
        if toks.len() < 2 {
            Err(ImportError::Malformed(line))
        } else {
            Ok(ObjRead { mesh: st.mesh, material: Some(toks[1]) })
        }
    } else {
        Ok(st)
    }
}

/// Reading the lines `lines` in order; line `k` (from 0) is numbered `k + 1`.
/// Records other than `v`, `vn`, `f` and `usemtl` are passed over.
pub open spec fn obj_read(lines: Seq<Seq<u8>>) -> Result<ObjRead, ImportError>
    decreases lines.len(),
{
    if lines.len() == 0 {
        Ok(empty_read())
    } else {
        match obj_read(lines.drop_last()) {
            Ok(st) => obj_step(st, tokens(lines.last()), lines.len() as usize),
            Err(e) => Err(e),
        }
    }
}

proof fn lemma_obj_read_error_stays(lines: Seq<Seq<u8>>, k: int)
    requires
        0 <= k <= lines.len(),
        obj_read(lines.subrange(0, k)) is Err,
    ensures
        obj_read(lines) == obj_read(lines.subrange(0, k)),
    decreases lines.len() - k,
{
    if k < lines.len() {
        assert(lines.subrange(0, k + 1).drop_last() =~= lines.subrange(0, k));
        lemma_obj_read_error_stays(lines, k + 1);
    } else {
        assert(lines.subrange(0, k) =~= lines);
    }
}

fn read_corner(tok: &Vec<u8>, nv: usize, nn: usize) -> (r: Option<(usize, usize)>)
    ensures
        r == corner_in(tok@, nv as nat, nn as nat),
{
    let fields = split_on(tok.as_slice(), 47);
    proof {
        assert(views(fields@).len() == fields@.len());
    }
    if fields.len() < 3 {
        return None;
    }
    proof {
        assert(views(fields@)[0] == fields@[0]@);
        assert(views(fields@)[2] == fields@[2]@);
    }
    let v = parse_index(fields[0].as_slice());
    let n = parse_index(fields[2].as_slice());
    match (v, n) {
        (Some(v), Some(n)) => if 1 <= v && v <= nv && 1 <= n && n <= nn {
            Some((v - 1, n - 1))
        } else {
            None
        },
        _ => None,
    }
}

fn coords_from(toks: &Vec<Vec<u8>>, line: usize) -> (r: Coords)
    requires
        toks@.len() >= 4,
    ensures
        r@ == coords_of(views(toks@), line),
{
    Coords {
        x: copy_bytes(toks[1].as_slice()),
        y: copy_bytes(toks[2].as_slice()),
        z: copy_bytes(toks[3].as_slice()),
        line,
    }
}

/// The exec form of `obj_step`, on a mesh and a material in use.
fn read_line(
    mesh: &mut ObjMesh,
    material: &mut Option<Vec<u8>>,
    toks: &Vec<Vec<u8>>,
    line: usize,
) -> (r: Result<(), ImportError>)
    requires
        forall|k: int| 0 <= k < toks@.len() ==> (#[trigger] toks@[k])@.len() > 0,
    ensures
        match obj_step(ObjRead { mesh: old(mesh)@, material: opt_view(*old(material)) }, views(toks@), line) {
            Ok(st) => r is Ok && final(mesh)@ == st.mesh && opt_view(*final(material)) == st.material,
            Err(e) => r == Err::<(), ImportError>(e),
        },
{
    let ghost t = views(toks@);
    proof {
        assert(t.len() == toks@.len());
        assert(forall|k: int| 0 <= k < toks@.len() ==> t[k] == (#[trigger] toks@[k])@);
    }
    if toks.len() == 0 {
        return Ok(());
    }
    let head = &toks[0];
    let is_v = head.len() == 1 && head[0] == 118;
    let is_vn = head.len() == 2 && head[0] == 118 && head[1] == 110;
    let is_f = head.len() == 1 && head[0] == 102;
    let is_use = head.len() == 6 && head[0] == 117 && head[1] == 115 && head[2] == 101 && head[3] == 109
        && head[4] == 116 && head[5] == 108;
    proof {
        assert(is_v <==> t[0] == seq![118u8]) by {
            if t[0] == seq![118u8] {
                assert(t[0][0] == 118);
            }
            if is_v {
                assert(t[0] =~= seq![118u8]);
            }
        }
        assert(is_vn <==> t[0] == seq![118u8, 110u8]) by {
            if t[0] == seq![118u8, 110u8] {
                assert(t[0][0] == 118 && t[0][1] == 110);
            }
            if is_vn {
                assert(t[0] =~= seq![118u8, 110u8]);
            }
        }
        assert(is_f <==> t[0] == seq![102u8]) by {
            if t[0] == seq![102u8] {
                assert(t[0][0] == 102);
            }
            if is_f {
                assert(t[0] =~= seq![102u8]);
            }
        }
        let u = seq![117u8, 115u8, 101u8, 109u8, 116u8, 108u8];
        assert(is_use <==> t[0] == u) by {
            if t[0] == u {
                assert(t[0][0] == 117 && t[0][1] == 115 && t[0][2] == 101 && t[0][3] == 109);
                assert(t[0][4] == 116 && t[0][5] == 108);
            }
            if is_use {
                assert(t[0] =~= u);
            }
        }
    }
    if is_v || is_vn {
        if toks.len() < 4 {
            return Err(ImportError::Malformed(line));
        }
        let c = coords_from(toks, line);
        if is_v {
            mesh.vertices.push(c);
            proof {
                assert(mesh.vertices@.map_values(|c: Coords| c@) =~= old(mesh).vertices@.map_values(
                    |c: Coords| c@,
                ).push(c@));
            }
        } else {
            mesh.normals.push(c);
            proof {
                assert(mesh.normals@.map_values(|c: Coords| c@) =~= old(mesh).normals@.map_values(
                    |c: Coords| c@,
                ).push(c@));
            }
        }
        Ok(())
    } else if is_f {
        if toks.len() < 4 {
            return Err(ImportError::Malformed(line));
        }
        let nv = mesh.vertices.len();
        let nn = mesh.normals.len();
        let a = read_corner(&toks[1], nv, nn);
        let b = read_corner(&toks[2], nv, nn);
        let c = read_corner(&toks[3], nv, nn);
        match (a, b, c) {
            (Some(a), Some(b), Some(c)) => {
                if toks.len() > 4 && toks[4][0] != 35 {
                    return Err(ImportError::UnexpectedPolygon);
                }
                let m = match material {
                    Some(name) => Some(copy_bytes(name.as_slice())),
                    None => None,
                };
                let face = ObjFace { vertices: (a.0, b.0, c.0), normals: (a.1, b.1, c.1), material: m };
                mesh.faces.push(face);
                proof {
                    assert(mesh.faces@.map_values(|f: ObjFace| f@) =~= old(mesh).faces@.map_values(
                        |f: ObjFace| f@,
                    ).push(face@));
                }
                Ok(())
            },
            _ => Err(ImportError::Malformed(line)),
        }
    } else if is_use {
        if toks.len() < 2 {
            return Err(ImportError::Malformed(line));
        }
        *material = Some(copy_bytes(toks[1].as_slice()));
        Ok(())
    } else {
        Ok(())
    }
}

/// Reads the text of an OBJ file: its `v` and `vn` records, and its `f`
/// records as triangles that carry the material of the last `usemtl`.
/// The first record that cannot be read decides the error.
pub fn parse_obj(text: &[u8]) -> (r: Result<ObjMesh, ImportError>)
    ensures
        match obj_read(pieces(text@, 10)) {
            Ok(st) => r is Ok && r->Ok_0@ == st.mesh,
            Err(e) => r == Err::<ObjMesh, ImportError>(e),
        },
{
    let lines = split_on(text, 10);
    let ghost all = pieces(text@, 10);
    let mut mesh = ObjMesh { vertices: Vec::new(), normals: Vec::new(), faces: Vec::new() };
    let mut material: Option<Vec<u8>> = None;
    proof {
        assert(mesh@.vertices =~= seq![]);
        assert(mesh@.normals =~= seq![]);
        assert(mesh@.faces =~= seq![]);
        assert(all.subrange(0, 0) =~= seq![]);
    }
    let mut k: usize = 0;
    while k < lines.len()
        invariant
            k <= lines@.len(),
            views(lines@) == all,
            all == pieces(text@, 10),
            obj_read(all.subrange(0, k as int)) == Ok::<ObjRead, ImportError>(
                ObjRead { mesh: mesh@, material: opt_view(material) },
            ),
        decreases lines@.len() - k,
    {
        let toks = split_tokens(lines[k].as_slice());
        proof {
            assert(all[k as int] == lines@[k as int]@);
            assert(all.subrange(0, k + 1).drop_last() =~= all.subrange(0, k as int));
            assert(all.subrange(0, k + 1).last() == all[k as int]);
        }
        match read_line(&mut mesh, &mut material, &toks, k + 1) {
            Ok(()) => {},
            Err(e) => {
                proof {
                    assert(obj_read(all.subrange(0, k + 1)) == Err::<ObjRead, ImportError>(e));
                    lemma_obj_read_error_stays(all, k + 1);
                    assert(obj_read(all) == Err::<ObjRead, ImportError>(e));
                }
                return Err(e);
            },
        }
        k = k + 1;
    }
    proof {
        assert(all.subrange(0, k as int) =~= all);
    }
    Ok(mesh)
}

} // verus!
