use tinyrenderer::model::{ObjLine, obj_line_kind, parse_face_vert_indice};

#[test]
fn test_parse_face() {
    let test = "f 644/2833/644 653/674/653 673/673/673";
    let ret = parse_face_vert_indice(test).unwrap();
    for (i, vert) in ret.iter().enumerate() {
        println!("  vertex {}: v={}, vt={}, vn={}", i, vert[0], vert[1], vert[2]);
    }

    assert_eq!(ret, vec![[644, 2833, 644], [653, 674, 653], [673, 673, 673],]);
}

#[test]
fn face_optional_parts() {
    assert_eq!(parse_face_vert_indice("f 1 2 3").unwrap(), vec![[1, 0, 0], [2, 0, 0], [3, 0, 0]]);
    assert_eq!(parse_face_vert_indice("f 1//3 4/5").unwrap(), vec![[1, 0, 3], [4, 5, 0]]);
    assert_eq!(parse_face_vert_indice("f +5/x/7").unwrap(), vec![[5, 0, 7]]);
    assert_eq!(parse_face_vert_indice("f   7/8/9   \t 1/2/3 ").unwrap(), vec![[7, 8, 9], [1, 2, 3]]);
    assert_eq!(parse_face_vert_indice("f ").unwrap(), Vec::<[u32; 3]>::new());
}

#[test]
fn face_errors() {
    assert_eq!(parse_face_vert_indice("v 1 2 3").unwrap_err(), "invalid face data");
    assert_eq!(parse_face_vert_indice("f").unwrap_err(), "invalid face data");
    assert_eq!(
        parse_face_vert_indice("f 1/1/1 a/1/1").unwrap_err(),
        "parse vertex index: invalid digit found in string"
    );
    assert_eq!(
        parse_face_vert_indice("f /1/1").unwrap_err(),
        "parse vertex index: cannot parse integer from empty string"
    );
    assert_eq!(
        parse_face_vert_indice("f 4294967296").unwrap_err(),
        "parse vertex index: number too large to fit in target type"
    );
}

#[test]
fn obj_line_kinds() {
    assert_eq!(obj_line_kind("v 0.11526 -0.700717 0.0677257"), ObjLine::Vertex);
    assert_eq!(obj_line_kind("vt 0.5 0.5 0"), ObjLine::TexCoord);
    assert_eq!(obj_line_kind("vn 0 0 1"), ObjLine::Normal);
    assert_eq!(obj_line_kind("f 1/1/1 2/2/2 3/3/3"), ObjLine::Face);
    assert_eq!(obj_line_kind("f "), ObjLine::Face);
    assert_eq!(obj_line_kind("g head"), ObjLine::Other);
    assert_eq!(obj_line_kind("vp 1 2"), ObjLine::Other);
    assert_eq!(obj_line_kind("v"), ObjLine::Other);
    assert_eq!(obj_line_kind("vertex 1 2 3"), ObjLine::Other);
    assert_eq!(obj_line_kind("# comment"), ObjLine::Other);
    assert_eq!(obj_line_kind(""), ObjLine::Other);
}
