use graphics_lib::import::{has_obj_extension, material_library_path, parse_obj, ImportError};
use graphics_lib::text::{parse_index, split_on, split_tokens};

const CUBE_CORNER: &str = "# a corner\n\
o Corner\n\
v 0.0 0.0 0.0\n\
v 1.0 0.0 0.0\n\
v 0.0 1.0 0.0\n\
vn 0.0 0.0 1.0\n\
vt 0.5 0.5\n\
usemtl Red\n\
f 1//1 2//1 3//1\n\
f 3/1/1 2/1/1 1/1/1 # back side\n";

#[test]
fn obj_extension_is_checked() {
    assert!(has_obj_extension("models/chair.obj"));
    assert!(has_obj_extension(".obj"));
    assert!(!has_obj_extension("models/chair.mtl"));
    assert!(!has_obj_extension("obj"));
    assert!(!has_obj_extension(""));
    assert!(!has_obj_extension("chair.OBJ"));
}

#[test]
fn material_library_sits_beside_the_mesh() {
    assert_eq!(material_library_path("models/chair.obj"), b"models/chair.mtl".to_vec());
    assert_eq!(material_library_path("abc"), b"mtl".to_vec());
}

#[test]
fn tokens_split_on_ascii_whitespace() {
    let t = split_tokens(b"  f\t1//1  2//2\r\n");
    assert_eq!(t, vec![b"f".to_vec(), b"1//1".to_vec(), b"2//2".to_vec()]);
    assert!(split_tokens(b"   ").is_empty());
    assert!(split_tokens(b"").is_empty());
}

#[test]
fn split_keeps_empty_pieces() {
    assert_eq!(split_on(b"1//3", b'/'), vec![b"1".to_vec(), Vec::new(), b"3".to_vec()]);
    assert_eq!(split_on(b"a\n", b'\n'), vec![b"a".to_vec(), Vec::new()]);
    assert_eq!(split_on(b"", b'\n'), vec![Vec::<u8>::new()]);
}

#[test]
fn indices_read_as_unsigned_decimals() {
    assert_eq!(parse_index(b"42"), Some(42));
    assert_eq!(parse_index(b"+7"), Some(7));
    assert_eq!(parse_index(b"0"), Some(0));
    assert_eq!(parse_index(b""), None);
    assert_eq!(parse_index(b"+"), None);
    assert_eq!(parse_index(b"-1"), None);
    assert_eq!(parse_index(b"4a"), None);
    assert_eq!(parse_index(b"18446744073709551615"), Some(usize::MAX));
    assert_eq!(parse_index(b"18446744073709551616"), None);
}

#[test]
fn mesh_records_are_read_in_order() {
    let mesh = parse_obj(CUBE_CORNER.as_bytes()).unwrap();
    assert_eq!(mesh.vertices.len(), 3);
    assert_eq!(mesh.normals.len(), 1);
    assert_eq!(mesh.vertices[1].x, b"1.0".to_vec());
    assert_eq!(mesh.vertices[1].line, 4);
    assert_eq!(mesh.normals[0].z, b"1.0".to_vec());
    assert_eq!(mesh.faces.len(), 2);
    assert_eq!(mesh.faces[0].vertices, (0, 1, 2));
    assert_eq!(mesh.faces[0].normals, (0, 0, 0));
    assert_eq!(mesh.faces[1].vertices, (2, 1, 0));
    assert_eq!(mesh.faces[0].material, Some(b"Red".to_vec()));
}

#[test]
fn faces_before_usemtl_have_no_material() {
    let text = "v 0 0 0\nv 1 0 0\nv 0 1 0\nvn 0 0 1\nf 1//1 2//1 3//1\nusemtl Blue\nf 1//1 3//1 2//1";
    let mesh = parse_obj(text.as_bytes()).unwrap();
    assert_eq!(mesh.faces[0].material, None);
    assert_eq!(mesh.faces[1].material, Some(b"Blue".to_vec()));
}

#[test]
fn empty_file_is_an_empty_mesh() {
    let mesh = parse_obj(b"").unwrap();
    assert!(mesh.vertices.is_empty() && mesh.normals.is_empty() && mesh.faces.is_empty());
}

#[test]
fn quad_face_is_rejected() {
    let text = "v 0 0 0\nv 1 0 0\nv 0 1 0\nv 1 1 0\nvn 0 0 1\nf 1//1 2//1 4//1 3//1\n";
    assert!(matches!(parse_obj(text.as_bytes()), Err(ImportError::UnexpectedPolygon)));
}

#[test]
fn face_naming_a_missing_vertex_is_malformed() {
    let text = "v 0 0 0\nv 1 0 0\nvn 0 0 1\nf 1//1 2//1 3//1\n";
    assert!(matches!(parse_obj(text.as_bytes()), Err(ImportError::Malformed(4))));
    let zero = "v 0 0 0\nvn 0 0 1\nf 0//1 1//1 1//1\n";
    assert!(matches!(parse_obj(zero.as_bytes()), Err(ImportError::Malformed(3))));
}

#[test]
fn face_without_normals_is_malformed() {
    let text = "v 0 0 0\nv 1 0 0\nv 0 1 0\nf 1 2 3\n";
    assert!(matches!(parse_obj(text.as_bytes()), Err(ImportError::Malformed(4))));
}

#[test]
fn short_vertex_record_is_malformed() {
    assert!(matches!(parse_obj(b"v 1 2\n"), Err(ImportError::Malformed(1))));
    assert!(matches!(parse_obj(b"\n\nvn 1\n"), Err(ImportError::Malformed(3))));
    assert!(matches!(parse_obj(b"usemtl\n"), Err(ImportError::Malformed(1))));
}

#[test]
fn first_error_decides() {
    let text = "v 1 2\nf 1//1 2//1 3//1 4//1\n";
    assert!(matches!(parse_obj(text.as_bytes()), Err(ImportError::Malformed(1))));
}
