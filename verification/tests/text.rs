use captur::annotations::{AnnotationDocument, AnnotationItem, AnnotationPoint};
use captur::frame::BgraFrame;
use captur::text::{is_control_char, is_whitespace_char, padded_decimal, signed_decimal_string, trimmed};

#[test]
fn character_classes_match_the_standard_library() {
    for code in 0..=0x10ffff_u32 {
        if let Some(c) = char::from_u32(code) {
            assert_eq!(is_whitespace_char(c), c.is_whitespace(), "white space {code:#x}");
            assert_eq!(is_control_char(c), c.is_control(), "control {code:#x}");
        }
    }
}

#[test]
fn numbers_are_written_in_decimal() {
    assert_eq!(padded_decimal(7, 3), "007");
    assert_eq!(padded_decimal(1970, 4), "1970");
    assert_eq!(padded_decimal(123_456, 2), "123456");
    assert_eq!(padded_decimal(0, 0), "0");
    assert_eq!(signed_decimal_string(-42), "-42");
    assert_eq!(signed_decimal_string(i64::MIN), i64::MIN.to_string());
    assert_eq!(signed_decimal_string(0), "0");
    assert_eq!(trimmed("\u{3000} wide \u{a0}"), "wide");
}

#[test]
fn text_is_drawn_with_the_five_by_seven_glyphs() {
    let width = 24_u32;
    let height = 12_u32;
    let stride = width as usize * 4;
    let source = BgraFrame { origin_x: 0, origin_y: 0, width, height, stride, pixels: vec![0; stride * height as usize] };
    let mut document = AnnotationDocument::new();
    document.add(AnnotationItem::Text { position: AnnotationPoint::new(1, 2), text: "Ab".to_string(), size: 12 });
    let rendered = document.render(&source, &vec![None]);
    for y in 0..height as i32 {
        for x in 0..width as i32 {
            let mut lit = false;
            for (index, byte) in "Ab".bytes().enumerate() {
                for row in 0..7_i32 {
                    for column in 0..5_i32 {
                        let bit = ((byte.rotate_left(row as u32) >> column) & 1) != 0;
                        let left = 1 + index as i32 * 6 + column;
                        let top = 2 + row;
                        if bit && x == left && y == top {
                            lit = true;
                        }
                    }
                }
            }
            let offset = y as usize * stride + x as usize * 4;
            let expected: [u8; 4] = if lit { [255, 255, 255, 255] } else { [0, 0, 0, 255] };
            assert_eq!(&rendered.pixels[offset..offset + 4], &expected, "pixel ({x}, {y})");
        }
    }
}
