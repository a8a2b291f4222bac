use path_tracer::ppm::{
    encode, header, pixel_line, write_decimal, write_pixel, Rgb, MAX_CHANNEL, NEWLINE, SPACE,
};

fn decimal(n: usize) -> Vec<u8> {
    let mut out = Vec::new();
    write_decimal(&mut out, n);
    out
}

#[test]
fn separators_are_space_and_line_feed() {
    assert_eq!(SPACE, b' ');
    assert_eq!(NEWLINE, b'\n');
    assert_eq!(MAX_CHANNEL, 255);
}

#[test]
fn decimal_of_single_digits() {
    assert_eq!(decimal(0), b"0".to_vec());
    assert_eq!(decimal(7), b"7".to_vec());
    assert_eq!(decimal(9), b"9".to_vec());
}

#[test]
fn decimal_of_longer_numbers() {
    assert_eq!(decimal(10), b"10".to_vec());
    assert_eq!(decimal(255), b"255".to_vec());
    assert_eq!(decimal(1200), b"1200".to_vec());
    assert_eq!(decimal(1000000), b"1000000".to_vec());
}

#[test]
fn decimal_matches_the_standard_formatting() {
    for n in [0usize, 1, 9, 10, 11, 99, 100, 101, 255, 256, 999, 1000, 65535, usize::MAX] {
        assert_eq!(decimal(n), format!("{}", n).into_bytes());
    }
}

#[test]
fn decimal_appends_to_what_is_there() {
    let mut out = b"width ".to_vec();
    write_decimal(&mut out, 42);
    assert_eq!(out, b"width 42".to_vec());
}

#[test]
fn header_of_the_default_image() {
    assert_eq!(header(1200, 800), b"P3\n1200 800\n255\n".to_vec());
}

#[test]
fn header_of_a_tiny_image() {
    assert_eq!(header(3, 2), b"P3\n3 2\n255\n".to_vec());
    assert_eq!(header(0, 0), b"P3\n0 0\n255\n".to_vec());
}

#[test]
fn pixel_line_holds_three_channels() {
    assert_eq!(pixel_line(Rgb { red: 255, green: 0, blue: 128 }), b"255 0 128\n".to_vec());
    assert_eq!(pixel_line(Rgb { red: 0, green: 0, blue: 0 }), b"0 0 0\n".to_vec());
    assert_eq!(pixel_line(Rgb { red: 9, green: 10, blue: 99 }), b"9 10 99\n".to_vec());
}

#[test]
fn write_pixel_appends_a_line() {
    let mut out = b"1 2 3\n".to_vec();
    write_pixel(&mut out, Rgb { red: 4, green: 5, blue: 6 });
    assert_eq!(out, b"1 2 3\n4 5 6\n".to_vec());
}

#[test]
fn encode_writes_header_and_lines() {
    let pixels = vec![
        Rgb { red: 255, green: 255, blue: 255 },
        Rgb { red: 127, green: 178, blue: 255 },
        Rgb { red: 0, green: 0, blue: 0 },
        Rgb { red: 1, green: 20, blue: 30 },
    ];
    let expected = b"P3\n2 2\n255\n255 255 255\n127 178 255\n0 0 0\n1 20 30\n".to_vec();
    assert_eq!(encode(2, 2, &pixels), expected);
}

#[test]
fn encode_of_no_pixels_is_the_header() {
    assert_eq!(encode(0, 0, &Vec::new()), header(0, 0));
}

#[test]
fn encode_is_header_followed_by_pixel_lines() {
    let pixels: Vec<Rgb> = (0..=255u8)
        .map(|v| Rgb { red: v, green: 255 - v, blue: v / 2 })
        .collect();
    let mut expected = header(16, 16);
    for p in &pixels {
        expected.extend(pixel_line(*p));
    }
    assert_eq!(encode(16, 16, &pixels), expected);
}

#[test]
fn an_image_is_three_lines_of_header_and_one_line_for_each_pixel() {
    for count in [0usize, 1, 6, 100] {
        let pixels: Vec<Rgb> =
            (0..count).map(|i| Rgb { red: i as u8, green: 10, blue: 200 }).collect();
        let text = encode(count, 1, &pixels);
        assert_eq!(text.iter().filter(|byte| **byte == NEWLINE).count(), 3 + count);
        assert_eq!(text.last(), Some(&NEWLINE));
    }
}
