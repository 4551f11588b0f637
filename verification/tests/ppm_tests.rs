use rtow::ppm::{decimal, pixel_line, ppm_header, ppm_header_quoted};

fn text(bytes: Vec<u8>) -> String {
    String::from_utf8(bytes).unwrap()
}

#[test]
fn output_ppm() {
    // Image
    let w: i32 = 256;
    let h: i32 = 256;

    // Render: the header as `println!("P3\n{}' '{}\n255\n", w, h)` prints it
    assert_eq!(text(ppm_header_quoted(w, h)), "P3\n256' '256\n255\n\n");
}

#[test]
fn header_with_space_separator() {
    assert_eq!(text(ppm_header(400, 225)), "P3\n400 225\n255\n\n");
    assert_eq!(text(ppm_header(1200, 675)), format!("P3\n{} {}\n255\n\n", 1200, 675));
}

#[test]
fn pixel_lines_match_format() {
    assert_eq!(text(pixel_line(255, 0, 63)), "255 0 63\n");
    for (r, g, b) in [(0, 0, 0), (12, 255, 7), (-3, 100, 999), (i32::MIN, i32::MAX, -1)] {
        assert_eq!(text(pixel_line(r, g, b)), format!("{} {} {}\n", r, g, b));
    }
}

#[test]
fn decimal_matches_display() {
    for n in [0i64, 7, 10, 99, 100, 255, 1234567890, -1, -10, -255, i64::MAX, i64::MIN] {
        assert_eq!(text(decimal(n)), n.to_string());
    }
}
