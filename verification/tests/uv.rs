use ray_tracer_challenge::tuple::Tuple;
use ray_tracer_challenge::canvas::Canvas;
use ray_tracer_challenge::color::Color;
use ray_tracer_challenge::constants::{black, blue, brown, cyan, green, purple, red, white, yellow};
use ray_tracer_challenge::uv::{
    cube_map_uv, cube_uv_back, cube_uv_down, cube_uv_front, cube_uv_left, cube_uv_right,
    cube_uv_up, face_from_point, AlignCheck, Face, PlanarMap, UVCheckers, UVImage,
};

const ONE: f64 = 4294967296.0;

fn fx(v: f64) -> i64 {
    (v * ONE).round() as i64
}

fn point(x: f64, y: f64, z: f64) -> Tuple {
    Tuple::point(fx(x), fx(y), fx(z))
}

fn uv(u: f64, v: f64) -> (i64, i64) {
    (fx(u), fx(v))
}

#[test]
fn identifying_face_of_cube_from_point() {
    let test_data = vec![
        ("1", point(-1.0, 0.5, -0.25), Face::Left),
        ("2", point(1.1, -0.75, 0.8), Face::Right),
        ("3", point(0.1, 0.6, 0.9), Face::Front),
        ("4", point(-0.7, 0.0, -2.0), Face::Back),
        ("5", point(0.5, 1.0, 0.9), Face::Up),
        ("6", point(-0.2, -1.3, 1.1), Face::Down),
    ];
    for (name, p, expected_face) in test_data {
        let face = face_from_point(p);
        assert_eq!(face, expected_face, "Case {}", name);
    }
}

#[test]
fn uv_mapping_the_front_face_of_a_cube() {
    let test_data = vec![
        ("1", point(-0.5, 0.5, 1.0), 0.25, 0.75),
        ("2", point(0.5, -0.5, 1.0), 0.75, 0.25),
    ];
    for (name, p, expected_u, expected_v) in test_data {
        assert_eq!(cube_uv_front(p), uv(expected_u, expected_v), "Case {}", name);
    }
}

#[test]
fn uv_mapping_the_back_face_of_a_cube() {
    let test_data = vec![
        ("1", point(0.5, 0.5, -1.0), 0.25, 0.75),
        ("2", point(-0.5, -0.5, -1.0), 0.75, 0.25),
    ];
    for (name, p, expected_u, expected_v) in test_data {
        assert_eq!(cube_uv_back(p), uv(expected_u, expected_v), "Case {}", name);
    }
}

#[test]
fn uv_mapping_the_left_face_of_a_cube() {
    let test_data = vec![
        ("1", point(-1.0, 0.5, -0.5), 0.25, 0.75),
        ("2", point(-1.0, -0.5, 0.5), 0.75, 0.25),
    ];
    for (name, p, expected_u, expected_v) in test_data {
        assert_eq!(cube_uv_left(p), uv(expected_u, expected_v), "Case {}", name);
    }
}

#[test]
fn uv_mapping_the_right_face_of_a_cube() {
    let test_data = vec![
        ("1", point(1.0, 0.5, 0.5), 0.25, 0.75),
        ("2", point(1.0, -0.5, -0.5), 0.75, 0.25),
    ];
    for (name, p, expected_u, expected_v) in test_data {
        assert_eq!(cube_uv_right(p), uv(expected_u, expected_v), "Case {}", name);
    }
}

#[test]
fn uv_mapping_the_upper_face_of_a_cube() {
    let test_data = vec![
        ("1", point(-0.5, 1.0, -0.5), 0.25, 0.75),
        ("2", point(0.5, 1.0, 0.5), 0.75, 0.25),
    ];
    for (name, p, expected_u, expected_v) in test_data {
        assert_eq!(cube_uv_up(p), uv(expected_u, expected_v), "Case {}", name);
    }
}

#[test]
fn uv_mapping_the_lower_face_of_a_cube() {
    let test_data = vec![
        ("1", point(-0.5, -1.0, 0.5), 0.25, 0.75),
        ("2", point(0.5, -1.0, -0.5), 0.75, 0.25),
    ];
    for (name, p, expected_u, expected_v) in test_data {
        assert_eq!(cube_uv_down(p), uv(expected_u, expected_v), "Case {}", name);
    }
}

#[test]
fn using_planar_mapping_on_3d_point() {
    let test_data = vec![
        ("1", point(0.25, 0.0, 0.5), 0.25, 0.5),
        ("2", point(0.25, 0.0, -0.25), 0.25, 0.75),
        ("3", point(0.25, 0.5, -0.25), 0.25, 0.75),
        ("4", point(1.25, 0.0, 0.5), 0.25, 0.5),
        ("5", point(0.25, 0.0, -1.75), 0.25, 0.25),
        ("6", point(1.0, 0.0, -1.0), 0.0, 0.0),
        ("7", point(0.0, 0.0, 0.0), 0.0, 0.0),
    ];
    for (name, p, expected_u, expected_v) in test_data {
        assert_eq!(PlanarMap.point_to_uv(p), uv(expected_u, expected_v), "Case {}", name);
    }
}

#[test]
fn face_index_follows_declaration_order() {
    let faces = [Face::Front, Face::Back, Face::Left, Face::Right, Face::Up, Face::Down];
    for (i, f) in faces.iter().enumerate() {
        assert_eq!(f.index(), i);
    }
}

#[test]
fn ties_between_axes_go_to_x_then_y() {
    assert_eq!(face_from_point(point(1.0, 1.0, 1.0)), Face::Right);
    assert_eq!(face_from_point(point(0.0, -1.0, -1.0)), Face::Down);
}

fn color(r: f64, g: f64, b: f64) -> Color {
    Color::new(fx(r), fx(g), fx(b))
}

fn check_uv_checkers_pattern() {
    let p = UVCheckers::new(fx(2.), fx(2.), black(), white());
    let test_data = vec![
        ("1", 0.0, 0.0, black()),
        ("2", 0.5, 0.0, white()),
        ("3", 0.0, 0.5, white()),
        ("4", 0.5, 0.5, black()),
        ("5", 1.0, 1.0, black()),
    ];
    for (name, u, v, expected_color) in test_data {
        assert_eq!(p.color_at(fx(u), fx(v)), expected_color, "Case {}", name);
    }
}

#[test]
fn uv_checkers_pattern() {
    check_uv_checkers_pattern();
}

#[test]
fn uv_uv_checkers_pattern() {
    check_uv_checkers_pattern();
}

#[test]
fn pattern_creation() {
    check_uv_checkers_pattern();
}

#[test]
fn layout_of_align_check_pattern() {
    let main = color(1.0, 1.0, 1.0);
    let ul = color(1.0, 0.0, 0.0);
    let ur = color(1.0, 1.0, 0.0);
    let bl = color(0.0, 1.0, 0.0);
    let br = color(0.0, 1.0, 1.0);
    let align_check = AlignCheck::new(main, ul, ur, bl, br);
    let test_data = vec![
        ("1", 0.5, 0.5, main),
        ("2", 0.1, 0.9, ul),
        ("3", 0.9, 0.9, ur),
        ("4", 0.1, 0.1, bl),
        ("5", 0.9, 0.1, br),
    ];
    for (name, u, v, expected_color) in test_data {
        let c = align_check.color_at(fx(u), fx(v));
        assert_eq!(c, expected_color, "Case {}", name);
    }
}

fn align_check_cube_color(p: Tuple) -> Color {
    let left = AlignCheck::new(yellow(), cyan(), red(), blue(), brown());
    let front = AlignCheck::new(cyan(), red(), yellow(), brown(), green());
    let right = AlignCheck::new(red(), yellow(), purple(), green(), white());
    let back = AlignCheck::new(green(), purple(), cyan(), white(), blue());
    let up = AlignCheck::new(brown(), cyan(), purple(), red(), yellow());
    let down = AlignCheck::new(purple(), brown(), green(), blue(), white());
    let faces = [front, back, left, right, up, down];
    let (face, (u, v)) = cube_map_uv(p);
    faces[face.index()].color_at(u, v)
}

#[test]
fn finding_colors_on_mapped_cube() {
    let test_data = vec![
        ("L1", point(-1., 0., 0.), yellow()),
        ("L2", point(-1., 0.9, -0.9), cyan()),
        ("L3", point(-1., 0.9, 0.9), red()),
        ("L4", point(-1., -0.9, -0.9), blue()),
        ("L5", point(-1., -0.9, 0.9), brown()),
        ("F1", point(0., 0., 1.), cyan()),
        ("F2", point(-0.9, 0.9, 1.), red()),
        ("F3", point(0.9, 0.9, 1.), yellow()),
        ("F4", point(-0.9, -0.9, 1.), brown()),
        ("F5", point(0.9, -0.9, 1.), green()),
        ("R1", point(1., 0., 0.), red()),
        ("R2", point(1., 0.9, 0.9), yellow()),
        ("R3", point(1., 0.9, -0.9), purple()),
        ("R4", point(1., -0.9, 0.9), green()),
        ("R5", point(1., -0.9, -0.9), white()),
        ("B1", point(0., 0., -1.), green()),
        ("B2", point(0.9, 0.9, -1.), purple()),
        ("B3", point(-0.9, 0.9, -1.), cyan()),
        ("B4", point(0.9, -0.9, -1.), white()),
        ("B5", point(-0.9, -0.9, -1.), blue()),
        ("U1", point(0., 1., 0.), brown()),
        ("U2", point(-0.9, 1., -0.9), cyan()),
        ("U3", point(0.9, 1., -0.9), purple()),
        ("U4", point(-0.9, 1., 0.9), red()),
        ("U5", point(0.9, 1., 0.9), yellow()),
        ("D1", point(0., -1., 0.), purple()),
        ("D2", point(-0.9, -1., 0.9), brown()),
        ("D3", point(0.9, -1., 0.9), green()),
        ("D4", point(-0.9, -1., -0.9), blue()),
        ("D5", point(0.9, -1., -0.9), white()),
    ];

    for (name, p, expected_color) in test_data {
        assert_eq!(align_check_cube_color(p), expected_color, "Case {}", name);
    }
}

#[test]
fn uv_mapping_an_image() {
    // the ten rows of the image, each pixel a gray level from 0 to 9 tenths
    let mut canvas = Canvas::new(10, 10);
    for y in 0..10 {
        for x in 0..10 {
            let level = ((x + y) % 10) as f64 / 10.0;
            canvas.write_pixel(x, y, color(level, level, level));
        }
    }
    let pattern = UVImage::new(canvas);

    let test_data = vec![
        ("1", 0., 0., color(0.9, 0.9, 0.9)),
        ("2", 0.3, 0., color(0.2, 0.2, 0.2)),
        ("3", 0.6, 0.3, color(0.1, 0.1, 0.1)),
        ("4", 1., 1., color(0.9, 0.9, 0.9)),
    ];
    for (name, u, v, expected_color) in test_data {
        let c = pattern.color_at(fx(u), fx(v));
        assert_eq!(c, expected_color, "Case {}", name);
    }
}

#[test]
fn uv_checkers_default_and_negative_cells() {
    let p = UVCheckers::default();
    assert_eq!(p.color_at(fx(0.5), fx(0.5)), white());
    assert_eq!(p.color_at(fx(-0.5), fx(0.5)), black());
    assert_eq!(p.color_at(fx(-0.5), fx(-0.5)), white());
}

#[test]
fn align_check_default_corners() {
    let a = AlignCheck::default();
    assert_eq!(a.color_at(fx(0.1), fx(0.9)), red());
    assert_eq!(a.color_at(fx(0.9), fx(0.9)), yellow());
    assert_eq!(a.color_at(fx(0.1), fx(0.1)), green());
    assert_eq!(a.color_at(fx(0.9), fx(0.1)), cyan());
    assert_eq!(a.color_at(fx(0.5), fx(0.1)), white());
}

#[test]
fn face_of_the_most_negative_coordinate() {
    assert_eq!(face_from_point(Tuple::point(i64::MIN, 0, 0)), Face::Left);
    assert_eq!(face_from_point(Tuple::point(0, 0, i64::MIN)), Face::Back);
}

#[test]
fn mirrored_points_select_opposite_faces() {
    // ties between axes are decided the same way on both sides
    assert_eq!(face_from_point(point(1.0, 1.0, 0.0)), Face::Right);
    assert_eq!(face_from_point(point(-1.0, -1.0, 0.0)), Face::Left);
    assert_eq!(face_from_point(point(0.2, -0.7, 0.7)), Face::Down);
    assert_eq!(face_from_point(point(-0.2, 0.7, -0.7)), Face::Up);
}
