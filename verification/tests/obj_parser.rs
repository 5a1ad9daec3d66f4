use ray_tracer_challenge::obj_parser::{
    fan_triangulation, normalize_vertices, obj_is_refused, parse_face, parse_obj,
    FaceParseResults, ObjTriangle, ParseError,
};
use ray_tracer_challenge::coordinate::parse_coordinate;
use ray_tracer_challenge::tuple::Tuple;

const ONE: f64 = 4294967296.0;

fn fx(v: f64) -> i64 {
    (v * ONE).round() as i64
}

fn point(x: f64, y: f64, z: f64) -> Tuple {
    Tuple::point(fx(x), fx(y), fx(z))
}

fn vector(x: f64, y: f64, z: f64) -> Tuple {
    Tuple::vector(fx(x), fx(y), fx(z))
}

fn chars(s: &str) -> Vec<char> {
    s.chars().collect()
}

fn flat(t: &ObjTriangle) -> (Tuple, Tuple, Tuple) {
    match t {
        ObjTriangle::Flat { p1, p2, p3 } => (*p1, *p2, *p3),
        ObjTriangle::Smooth { .. } => panic!("expected a flat triangle"),
    }
}

#[test]
fn ignoring_unrecognized_files() {
    let text = "There was a young lady named Bright
            who traveled much faster than light.
            She set out one day
            in a relative way,
            and came back the previous night.";
    let results = parse_obj(text).unwrap();

    assert_eq!(results.num_ignored_lines, 5);
}

#[test]
fn vertex_records() {
    let text = "v -1 1 0
        v -1.0000 0.5000 0.0000
        v 1 0 0
        v 1 -1 0";
    let results = parse_obj(text).unwrap();

    assert_eq!(results.vertices.len(), 5);
    assert_eq!(results.vertices[1], point(-1.0, 1.0, 0.0));
    assert_eq!(results.vertices[2], point(-1.0, 0.5, 0.0));
    assert_eq!(results.vertices[3], point(1.0, 0.0, 0.0));
    assert_eq!(results.vertices[4], point(1.0, -1.0, 0.0));
}

#[test]
fn vertices_are_normalized() {
    let text = "v -50 10 20
        v 30 -40 0
        v 10 -20 50
        v -10 30 10";
    let results = parse_obj(text).unwrap();

    assert_eq!(results.vertices.len(), 5);
    assert_eq!(results.vertices[1], point(-1., 0.375, -0.125));
    assert_eq!(results.vertices[2], point(1., -0.875, -0.625));
    assert_eq!(results.vertices[3], point(0.5, -0.375, 0.625));
    assert_eq!(results.vertices[4], point(0., 0.875, -0.375));
}

#[test]
fn triangle_faces() {
    let text = "
        v -1 1 0
        v -1 0 0
        v 1 0 0
        v 1 1 0

        f 1 2 3
        f 1 3 4
        ";
    let results = parse_obj(text).unwrap();

    let g_children = &results.get_default_group().unwrap().triangles;
    let t1 = flat(&g_children[0]);
    let t2 = flat(&g_children[1]);

    assert_eq!(t1.0, results.vertices[1]);
    assert_eq!(t1.1, results.vertices[2]);
    assert_eq!(t1.2, results.vertices[3]);

    assert_eq!(t2.0, results.vertices[1]);
    assert_eq!(t2.1, results.vertices[3]);
    assert_eq!(t2.2, results.vertices[4]);
}

#[test]
fn triangulating_polygons() {
    let text = "
        v -1 1 0
        v -1 0 0
        v 1 0 0
        v 1 1 0
        v 0 1 1

        f 1 2 3 4 5
        ";

    let results = parse_obj(text).unwrap();
    let g_children = &results.get_default_group().unwrap().triangles;
    let t1 = flat(&g_children[0]);
    let t2 = flat(&g_children[1]);
    let t3 = flat(&g_children[2]);

    assert_eq!(t1.0, results.vertices[1]);
    assert_eq!(t1.1, results.vertices[2]);
    assert_eq!(t1.2, results.vertices[3]);

    assert_eq!(t2.0, results.vertices[1]);
    assert_eq!(t2.1, results.vertices[3]);
    assert_eq!(t2.2, results.vertices[4]);

    assert_eq!(t3.0, results.vertices[1]);
    assert_eq!(t3.1, results.vertices[4]);
    assert_eq!(t3.2, results.vertices[5]);
}

const TRIANGLES_OBJ: &str = "v -1 1 0
v -1 0 0
v 1 0 0
v 1 1 0

g FirstGroup
f 1 2 3
g SecondGroup
f 1 3 4
";

#[test]
fn triangles_in_groups() {
    let results = parse_obj(TRIANGLES_OBJ).unwrap();
    let g1 = results.get_group("FirstGroup").unwrap();
    let t1 = flat(&g1.triangles[0]);
    let g2 = results.get_group("SecondGroup").unwrap();
    let t2 = flat(&g2.triangles[0]);

    assert_eq!(t1.0, results.vertices[1]);
    assert_eq!(t1.1, results.vertices[2]);
    assert_eq!(t1.2, results.vertices[3]);

    assert_eq!(t2.0, results.vertices[1]);
    assert_eq!(t2.1, results.vertices[3]);
    assert_eq!(t2.2, results.vertices[4]);
}

#[test]
fn converting_obj_file_to_group() {
    let mut results = parse_obj(TRIANGLES_OBJ).unwrap();
    let first_vertex = results.vertices[1];

    let child_groups = results.take_all_as_group().unwrap();
    assert!(results.groups.is_none());
    assert_eq!(child_groups.len(), 2);
    assert_eq!(child_groups[0].name, "FirstGroup");
    assert_eq!(child_groups[1].name, "SecondGroup");

    let t1 = flat(&child_groups[0].triangles[0]);
    let t2 = flat(&child_groups[1].triangles[0]);
    assert_eq!(t1.0, first_vertex);
    assert_eq!(t2.0, first_vertex);
    assert_eq!(first_vertex, point(-1.0, 0.5, 0.0));
}

#[test]
fn vertex_normal_records() {
    let text = "vn 0 0 1
            vn 0.707 0 -0.707
            vn 1 2 3";
    let results = parse_obj(text).unwrap();
    assert_eq!(results.normals.len(), 4);
    assert_eq!(results.normals[1], vector(0.0, 0.0, 1.0));
    assert_eq!(results.normals[2], vector(0.707, 0.0, -0.707));
    assert_eq!(results.normals[3], vector(1.0, 2.0, 3.0));
}

#[test]
fn faces_with_normals() {
    let text = "
            v 0 1 0
            v -1 0 0
            v 1 0 0

            vn -1 0 0
            vn 1 0 0
            vn 0 1 0

            f 1//3 2//1 3//2
            f 1/0/3 2/102/1 3/14/2";
    let results = parse_obj(text).unwrap();
    let g = results.get_default_group().unwrap();
    let g_children = &g.triangles;
    assert_eq!(g_children.len(), 2);
    for (name, triangle) in [("t1", &g_children[0]), ("t2", &g_children[1])] {
        match triangle {
            ObjTriangle::Smooth { p1, p2, p3, n1, n2, n3 } => {
                assert_eq!(*p1, results.vertices[1], "{}", name);
                assert_eq!(*p2, results.vertices[2], "{}", name);
                assert_eq!(*p3, results.vertices[3], "{}", name);
                assert_eq!(*n1, results.normals[1], "{}", name);
                assert_eq!(*n2, results.normals[2], "{}", name);
                assert_eq!(*n3, results.normals[3], "{}", name);
            }
            ObjTriangle::Flat { .. } => panic!("expected a smooth triangle: {}", name),
        }
    }
}

#[test]
fn obj_parse_face_forms() {
    let f = parse_face(&chars("7")).unwrap();
    assert_eq!(f, FaceParseResults { vertex: 7, texture: None, normal: None });
    let f = parse_face(&chars("7/2")).unwrap();
    assert_eq!(f, FaceParseResults { vertex: 7, texture: Some(2), normal: None });
    let f = parse_face(&chars("7//3")).unwrap();
    assert_eq!(f, FaceParseResults { vertex: 7, texture: None, normal: Some(3) });
    let f = parse_face(&chars("7/2/3/9")).unwrap();
    assert_eq!(f, FaceParseResults { vertex: 7, texture: Some(2), normal: Some(3) });
    match parse_face(&chars("/2/3")) {
        Err(ParseError::MalformedFace(m)) => assert_eq!(m, "Missing vertex index"),
        other => panic!("unexpected {:?}", other),
    }
    assert!(matches!(parse_face(&chars("x/2")), Err(ParseError::ParseIntError(_))));
    assert!(matches!(parse_face(&chars("1/2/z")), Err(ParseError::ParseIntError(_))));
}

#[test]
fn obj_parse_coordinate_values() {
    assert_eq!(parse_coordinate(&chars("1")), Some(Some(fx(1.0))));
    assert_eq!(parse_coordinate(&chars("-0.5")), Some(Some(fx(-0.5))));
    assert_eq!(parse_coordinate(&chars("+2.25")), Some(Some(fx(2.25))));
    assert_eq!(parse_coordinate(&chars(".5")), Some(Some(fx(0.5))));
    assert_eq!(parse_coordinate(&chars("3.")), Some(Some(fx(3.0))));
    assert_eq!(parse_coordinate(&chars("0.1")), Some(Some(429496730)));
    assert_eq!(parse_coordinate(&chars("")), None);
    assert_eq!(parse_coordinate(&chars(".")), None);
    assert_eq!(parse_coordinate(&chars("1.2.3")), None);
    assert_eq!(parse_coordinate(&chars("abc")), None);
}

#[test]
fn obj_parse_coordinate_exponents() {
    assert_eq!(parse_coordinate(&chars("1e3")), Some(Some(fx(1000.0))));
    assert_eq!(parse_coordinate(&chars("2.5E-1")), Some(Some(fx(0.25))));
    assert_eq!(parse_coordinate(&chars("-1.5e+2")), Some(Some(fx(-150.0))));
    assert_eq!(parse_coordinate(&chars("1.e1")), Some(Some(fx(10.0))));
    assert_eq!(parse_coordinate(&chars(".5e0")), Some(Some(fx(0.5))));
    assert_eq!(parse_coordinate(&chars("1000e-3")), Some(Some(fx(1.0))));
    assert_eq!(parse_coordinate(&chars("5e-11")), Some(Some(0)));
    assert_eq!(parse_coordinate(&chars("1e-999999999999999999999999")), Some(Some(0)));
    assert_eq!(parse_coordinate(&chars("0e999999999999999999999999")), Some(Some(0)));
    // long digit strings are read exactly
    assert_eq!(
        parse_coordinate(&chars("0.1000000000000000000000000000000000000000000000001")),
        Some(Some(429496730))
    );
    assert_eq!(parse_coordinate(&chars("00000000000000000000000000000000000012.5")), Some(Some(fx(12.5))));
    assert_eq!(parse_coordinate(&chars("1e")), None);
    assert_eq!(parse_coordinate(&chars("1e+")), None);
    assert_eq!(parse_coordinate(&chars("e5")), None);
    assert_eq!(parse_coordinate(&chars("1e5e3")), None);
}

#[test]
fn obj_parse_coordinates_out_of_range() {
    assert_eq!(parse_coordinate(&chars("inf")), Some(None));
    assert_eq!(parse_coordinate(&chars("-Infinity")), Some(None));
    assert_eq!(parse_coordinate(&chars("NaN")), Some(None));
    assert_eq!(parse_coordinate(&chars("1e10")), Some(None));
    assert_eq!(parse_coordinate(&chars("1e999999999999999999999999")), Some(None));
    assert_eq!(parse_coordinate(&chars("1073741824")), Some(None));
    assert_eq!(parse_coordinate(&chars("1073741823.5")), Some(Some(fx(1073741823.5))));
    assert_eq!(parse_coordinate(&chars("infin")), None);
}

#[test]
fn obj_vertex_counts_come_before_range() {
    // two numbers where three are needed: the count is wrong
    match parse_obj("v 1e3 2") {
        Err(ParseError::MalformedVertex(m)) => assert_eq!(
            m,
            "Wrong number of coordinates in vertex at line 0; expected 3, found 2"
        ),
        other => panic!("unexpected {:?}", other.err()),
    }
    match parse_obj("vn inf 2") {
        Err(ParseError::MalformedNormal(_)) => {}
        other => panic!("unexpected {:?}", other.err()),
    }
    // three numbers, one that cannot be held
    match parse_obj("v 0 1e40 0") {
        Err(ParseError::CoordinateOutOfRange(w)) => assert_eq!(w, "1e40"),
        other => panic!("unexpected {:?}", other.err()),
    }
    match parse_obj("vn 0 0 nan") {
        Err(ParseError::CoordinateOutOfRange(w)) => assert_eq!(w, "nan"),
        other => panic!("unexpected {:?}", other.err()),
    }
    // a word that is no number comes first
    match parse_obj("v inf x 0") {
        Err(ParseError::ParseFloatError(w)) => assert_eq!(w, "x"),
        other => panic!("unexpected {:?}", other.err()),
    }
    let r = parse_obj("vn 1e1 -2.5E-1 0").unwrap();
    assert_eq!(r.normals[1], vector(10.0, -0.25, 0.0));
}

#[test]
fn obj_errors() {
    match parse_obj("v 1 2") {
        Err(ParseError::MalformedVertex(m)) => assert_eq!(
            m,
            "Wrong number of coordinates in vertex at line 0; expected 3, found 2"
        ),
        other => panic!("unexpected {:?}", other.err()),
    }
    match parse_obj("\nvn 1 2 3 4") {
        Err(ParseError::MalformedNormal(m)) => assert_eq!(
            m,
            "Wrong number of coordinates in normal vector at line 1; expected 3, found 4"
        ),
        other => panic!("unexpected {:?}", other.err()),
    }
    match parse_obj("v 0 0 0\nv 1 0 0\nf 1 2") {
        Err(ParseError::MalformedFace(m)) => assert_eq!(
            m,
            "Not enough vertices to form a face at line 2; expected 3, found 2"
        ),
        other => panic!("unexpected {:?}", other.err()),
    }
    match parse_obj("v 0 0 0\nv 1 0 0\nv 0 1 0\nf 1 2 3\nv 1 1 1") {
        Err(ParseError::UnexpectedSymbol(m)) => assert_eq!(
            m,
            "Found vertex at line 4; vertices must all be specified before any faces are specified (so that they may be normalized before any faces are created)"
        ),
        other => panic!("unexpected {:?}", other.err()),
    }
    match parse_obj("g") {
        Err(ParseError::MalformedGroupDeclaration(m)) => {
            assert_eq!(m, "Missing group name on line 0")
        }
        other => panic!("unexpected {:?}", other.err()),
    }
    match parse_obj("v 1 x 2") {
        Err(ParseError::ParseFloatError(w)) => assert_eq!(w, "x"),
        other => panic!("unexpected {:?}", other.err()),
    }
    assert!(matches!(parse_obj("v 0 0 0\nf 1 1 y"), Err(ParseError::ParseIntError(_))));
    match parse_obj("v 0 0 0\nf 1 /2 1") {
        Err(ParseError::MalformedFace(m)) => assert_eq!(m, "Missing vertex index"),
        other => panic!("unexpected {:?}", other.err()),
    }
}

#[test]
fn obj_refused_indices() {
    assert!(obj_is_refused("v 0 0 0\nv 1 0 0\nv 0 1 0\nf 1 2 4"));
    assert!(obj_is_refused("v 0 0 0\nv 1 0 0\nv 0 1 0\nf 1//1 2//1 3//1"));
    assert!(!obj_is_refused("v 0 0 0\nv 1 0 0\nv 0 1 0\nf 1 2 3"));
    assert!(!obj_is_refused("no faces here"));
}

#[test]
fn obj_regrouping_replaces_group() {
    let text = "v 0 0 0\nv 1 0 0\nv 0 1 0\ng A\nf 1 2 3\ng B\nf 1 2 3\ng A\n";
    let results = parse_obj(text).unwrap();
    let groups = results.groups.as_ref().unwrap();
    assert_eq!(groups.len(), 2);
    assert_eq!(groups[0].name, "A");
    assert!(groups[0].triangles.is_empty());
    assert_eq!(groups[1].triangles.len(), 1);
    assert!(results.get_group("C").is_none());
    assert!(results.get_default_group().is_none());
}

#[test]
fn obj_fan_triangulation_smooth_uses_vertex_indices() {
    let vs = vec![point(0.0, 0.0, 0.0), point(1.0, 0.0, 0.0), point(0.0, 1.0, 0.0), point(1.0, 1.0, 0.0)];
    let ns = vec![vector(0.0, 0.0, 0.0), vector(1.0, 0.0, 0.0), vector(0.0, 1.0, 0.0), vector(0.0, 0.0, 1.0)];
    let fs = vec![
        FaceParseResults { vertex: 1, texture: None, normal: Some(3) },
        FaceParseResults { vertex: 2, texture: None, normal: Some(3) },
        FaceParseResults { vertex: 3, texture: None, normal: Some(3) },
    ];
    let tris = fan_triangulation(&vs, &ns, &fs);
    assert_eq!(
        tris,
        vec![ObjTriangle::Smooth { p1: vs[1], p2: vs[2], p3: vs[3], n1: ns[1], n2: ns[2], n3: ns[3] }]
    );
}

#[test]
fn obj_normalize_keeps_single_point() {
    let mut vs = vec![point(0.0, 0.0, 0.0), point(2.0, 3.0, 4.0), point(2.0, 3.0, 4.0)];
    let before = vs.clone();
    normalize_vertices(&mut vs);
    assert_eq!(vs, before);
    let mut vs = vec![point(0.0, 0.0, 0.0), point(-2.0, 0.0, 0.0), point(2.0, 1.0, 0.0)];
    normalize_vertices(&mut vs);
    assert_eq!(vs[0], point(0.0, 0.0, 0.0));
    assert_eq!(vs[1], point(-1.0, -0.25, 0.0));
    assert_eq!(vs[2], point(1.0, 0.25, 0.0));
}

#[test]
fn obj_default_group_only_for_faces_before_groups() {
    let vertices = "v -1 1 0\nv -1 0 0\nv 1 0 0\nv 1 1 0\n";
    // a face before any group line: the default group holds it
    let r = parse_obj(&format!("{}f 1 2 3\ng A\nf 1 3 4\n", vertices)).unwrap();
    assert_eq!(r.get_default_group().unwrap().triangles.len(), 1);
    assert_eq!(r.get_group("A").unwrap().triangles.len(), 1);
    // every face after a group line: no default group
    let r = parse_obj(&format!("{}g A\nf 1 2 3\ng B\nf 1 3 4\n", vertices)).unwrap();
    assert!(r.get_default_group().is_none());
    assert_eq!(r.get_group("A").unwrap().triangles.len(), 1);
    assert_eq!(r.get_group("B").unwrap().triangles.len(), 1);
    // faces go to the group of the last group line before them
    let r = parse_obj(&format!("{}g A\ng B\nf 1 2 3\nf 1 3 4\n", vertices)).unwrap();
    assert_eq!(r.get_group("A").unwrap().triangles.len(), 0);
    assert_eq!(r.get_group("B").unwrap().triangles.len(), 2);
}
