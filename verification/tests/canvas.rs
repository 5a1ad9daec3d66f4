use ray_tracer_challenge::canvas::{canvas_from_ppm, ppm_is_refused, Canvas, ParseError};
use ray_tracer_challenge::color::Color;

const ONE: f64 = 4294967296.0;

fn fx(v: f64) -> i64 {
    (v * ONE).round() as i64
}

fn color(r: f64, g: f64, b: f64) -> Color {
    Color::new(fx(r), fx(g), fx(b))
}

fn close(a: Color, b: Color) -> bool {
    let eps = f32::EPSILON as f64;
    [(a.r, b.r), (a.g, b.g), (a.b, b.b)]
        .iter()
        .all(|(p, q)| ((*p as f64 - *q as f64) / ONE).abs() <= eps)
}

#[test]
fn test_height_and_width() {
    let c = Canvas::new(15, 10);
    assert_eq!(c.width, 15);
    assert_eq!(c.height, 10);
}

#[test]
fn test_write_and_read_pixels() {
    let mut canvas = Canvas::new(10, 5);
    let c = color(0.1, 0.2, 0.3);
    canvas.write_pixel(7, 4, c);
    assert_eq!(canvas.pixel_at(7, 4), c);
}

#[test]
fn test_ppm_header() {
    let c = Canvas::new(20, 5);
    let ppm = c.to_ppm();
    let mut lines = ppm.lines();
    assert_eq!(lines.next().unwrap(), "P3");
    assert_eq!(lines.next().unwrap(), "20 5");
    assert_eq!(lines.next().unwrap(), "255");
}

#[test]
fn test_ppm_pixel_data() {
    let mut c = Canvas::new(5, 3);
    c.write_pixel(0, 0, color(1.5, 0.0, 0.0));
    c.write_pixel(2, 1, color(0.0, 0.5, 0.0));
    c.write_pixel(4, 2, color(-0.5, 0.0, 1.0));

    let ppm = c.to_ppm();
    let mut lines = ppm.lines();
    lines.next();
    lines.next();
    lines.next();
    assert_eq!(lines.next().unwrap(), "255 0 0 0 0 0 0 0 0 0 0 0 0 0 0");
    assert_eq!(lines.next().unwrap(), "0 0 0 0 0 0 0 127 0 0 0 0 0 0 0");
    assert_eq!(lines.next().unwrap(), "0 0 0 0 0 0 0 0 0 0 0 0 0 0 255");
}

#[test]
fn test_splitting_long_ppm_lines() {
    let mut canvas = Canvas::new(10, 2);
    let c = color(1.0, 0.8, 0.6);
    for row in 0..canvas.height {
        for column in 0..canvas.width {
            canvas.write_pixel(column, row, c);
        }
    }
    let ppm = canvas.to_ppm();
    let mut lines = ppm.lines();
    lines.next();
    lines.next();
    lines.next();
    assert_eq!(
        lines.next().unwrap(),
        "255 204 153 255 204 153 255 204 153 255 204 153 255 204 153 255 204"
    );
    assert_eq!(
        lines.next().unwrap(),
        "153 255 204 153 255 204 153 255 204 153 255 204 153"
    );
    assert_eq!(
        lines.next().unwrap(),
        "255 204 153 255 204 153 255 204 153 255 204 153 255 204 153 255 204"
    );
    assert_eq!(
        lines.next().unwrap(),
        "153 255 204 153 255 204 153 255 204 153 255 204 153"
    );
}

#[test]
fn ppm_ends_with_a_newline() {
    let c = Canvas::new(5, 3);
    assert!(c.to_ppm().ends_with('\n'));
}

#[test]
fn reading_file_with_wrong_magic_number() {
    let ppm = "P32
        1 1
        255
        0 0 0";
    let result = canvas_from_ppm(ppm);
    match result {
        Err(ParseError::IncorrectFormat(msg)) => assert!(msg.contains("Incorrect magic number")),
        _ => assert!(false, "Should return IncorrectFormat error"),
    }
}

#[test]
fn reading_ppm_returns_canvas_with_correct_size() {
    let ppm = "P3
        10 2
        255
        0 0 0  0 0 0  0 0 0  0 0 0  0 0 0
        0 0 0  0 0 0  0 0 0  0 0 0  0 0 0
        0 0 0  0 0 0  0 0 0  0 0 0  0 0 0
        0 0 0  0 0 0  0 0 0  0 0 0  0 0 0
        ";
    let canvas = canvas_from_ppm(ppm).unwrap();
    assert_eq!(canvas.width, 10);
    assert_eq!(canvas.height, 2);
}

#[test]
fn reading_pixel_data_from_ppm_file() {
    let ppm = "P3
        4 3
        255
        255 127 0  0 127 255  127 255 0  255 255 255
        0 0 0  255 0 0  0 255 0  0 0 255
        255 255 0  0 255 255  255 0 255  127 127 127";
    let canvas = canvas_from_ppm(ppm).unwrap();

    let test_data = vec![
        ("1", 0, 0, color(1.0, 0.49803922, 0.0)),
        ("2", 1, 0, color(0.0, 0.49803922, 1.0)),
        ("3", 2, 0, color(0.49803922, 1.0, 0.0)),
        ("4", 3, 0, color(1.0, 1.0, 1.0)),
        ("5", 0, 1, color(0.0, 0.0, 0.0)),
        ("6", 1, 1, color(1.0, 0.0, 0.0)),
        ("7", 2, 1, color(0.0, 1.0, 0.0)),
        ("8", 3, 1, color(0.0, 0.0, 1.0)),
        ("9", 0, 2, color(1.0, 1.0, 0.0)),
        ("10", 1, 2, color(0.0, 1.0, 1.0)),
        ("11", 2, 2, color(1.0, 0.0, 1.0)),
        ("12", 3, 2, color(0.49803922, 0.49803922, 0.49803922)),
    ];
    for (name, x, y, expected_color) in test_data {
        assert!(close(canvas.pixel_at(x, y), expected_color), "Case {}", name);
    }
}

#[test]
fn ppm_parsing_ignores_comment_lines() {
    let ppm = "P3
        # this is a comment
        2 1
        # this, too
        255
        # another comment
        255 255 255
        # oh, no, comments in the pixel data!
        255 0 255
        ";
    let canvas = canvas_from_ppm(ppm).unwrap();
    assert_eq!(canvas.pixel_at(0, 0), color(1.0, 1.0, 1.0));
    assert_eq!(canvas.pixel_at(1, 0), color(1.0, 0.0, 1.0));
}

#[test]
fn ppm_parsing_allows_rgb_triplet_to_span_lines() {
    let ppm = "P3
        1 1
        255
        51
        153
        204
        ";
    let canvas = canvas_from_ppm(ppm).unwrap();
    assert_eq!(canvas.pixel_at(0, 0), color(0.2, 0.6, 0.8));
}

#[test]
fn ppm_parsing_skips_empty_lines() {
    let ppm = "
        P3

        1 1

        255

        51

        153
        204
        ";
    let canvas = canvas_from_ppm(ppm).unwrap();
    assert_eq!(canvas.pixel_at(0, 0), color(0.2, 0.6, 0.8));
}

#[test]
fn ppm_errors_name_their_cause() {
    match canvas_from_ppm("P3\n1\n255\n") {
        Err(ParseError::MalformedDimensionHeader(m)) => {
            assert_eq!(m, "Expected width and height at line 2; found 1")
        }
        _ => panic!("expected a dimension error"),
    }
    match canvas_from_ppm("P3\n1 1\n256\n") {
        Err(ParseError::IncorrectFormat(m)) => {
            assert_eq!(m, "Incorrect scale at line 3: only 255 supported, found 256")
        }
        _ => panic!("expected a scale error"),
    }
    assert!(matches!(canvas_from_ppm("P3\n1 x\n255\n"), Err(ParseError::ParseIntError(_))));
    assert!(matches!(canvas_from_ppm("P3\n1 1\n255\n0 300 0\n"), Err(ParseError::ParseIntError(_))));
}

#[test]
fn short_or_overfull_ppm_is_refused() {
    assert!(ppm_is_refused(""));
    assert!(ppm_is_refused("P3\n1 1\n"));
    assert!(ppm_is_refused("P3\n1 1\n255\n0 0 0 0 0 0\n"));
    assert!(!ppm_is_refused("P3\n1 1\n255\n0 0 0\n"));
    assert!(!ppm_is_refused("P4\n"));
}

#[test]
fn writing_past_the_edge_by_more_than_one_is_ignored() {
    let mut c = Canvas::new(2, 2);
    c.write_pixel(5, 0, color(1.0, 1.0, 1.0));
    assert_eq!(c.pixel_at(1, 0), color(0.0, 0.0, 0.0));
}

#[test]
fn written_canvas_reads_back() {
    let mut c = Canvas::new(3, 2);
    c.write_pixel(1, 1, color(1.0, 0.0, 1.0));
    let back = canvas_from_ppm(&c.to_ppm()).unwrap();
    assert_eq!(back.pixel_at(1, 1), color(1.0, 0.0, 1.0));
    assert_eq!(back.pixel_at(0, 0), color(0.0, 0.0, 0.0));
}

#[test]
fn ppm_round_trip_quantizes_each_channel() {
    let mut c = Canvas::new(25, 3);
    for y in 0..3usize {
        for x in 0..25usize {
            let f = (x + 25 * y) as f64 / 80.0;
            c.write_pixel(x, y, color(f - 0.2, 1.3 - f, 0.5));
        }
    }
    let back = canvas_from_ppm(&c.to_ppm()).unwrap();
    assert_eq!(back.dimensions(), (25, 3));
    // the value written: the channel scaled to [0, 255], rounded down, clamped
    let q = |v: i64| (((v as i128) * 255).div_euclid(1i128 << 32)).clamp(0, 255);
    // read back as q / 255, to the nearest raw unit (halves up)
    let read = |q: i128| (2 * q * (1i128 << 32) + 255).div_euclid(510) as i64;
    for y in 0..3usize {
        for x in 0..25usize {
            let p = c.pixel_at(x, y);
            let b = back.pixel_at(x, y);
            assert_eq!(b, Color::new(read(q(p.r)), read(q(p.g)), read(q(p.b))));
        }
    }
    assert_eq!(back.pixel_at(0, 0).r, 0);
    assert_eq!(back.pixel_at(0, 0).g, 1i64 << 32);
}
