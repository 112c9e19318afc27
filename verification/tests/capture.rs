use captur::canvas::ring_offsets;
use captur::compose::{
    clipboard_bitmap, check_copied_rows, compose_outputs, desktop_bounds, make_opaque_bytes, virtual_desktop_size, OutputCapture, RowCopy,
};
use captur::frame::{copy_or_rotate, BgraFrame, Rotation};
use captur::region::{PixelPoint, PixelRect};

#[test]
fn crops_negative_origin_frame() {
    let pixels: Vec<u8> = (0_u8..32).collect();
    let frame = BgraFrame { origin_x: -2, origin_y: -1, width: 4, height: 2, stride: 16, pixels };
    let cropped = frame.crop(PixelRect { left: -1, top: -1, right: 1, bottom: 1 }).unwrap();
    assert_eq!((cropped.width, cropped.height, cropped.stride), (2, 2, 8));
    assert_eq!(&*cropped.pixels, &[4, 5, 6, 7, 8, 9, 10, 11, 20, 21, 22, 23, 24, 25, 26, 27]);
}

#[test]
fn crop_outside_the_frame_is_an_error() {
    let frame = BgraFrame { origin_x: 0, origin_y: 0, width: 2, height: 2, stride: 8, pixels: vec![0; 16] };
    let error = frame.crop(PixelRect { left: 5, top: 5, right: 9, bottom: 9 }).unwrap_err();
    assert_eq!(error, "selection is empty");
}

#[test]
fn rectangles_from_points_are_normalized() {
    let r = PixelRect::from_points(PixelPoint { x: 10, y: -3 }, PixelPoint { x: -4, y: 7 });
    assert_eq!(r, PixelRect { left: -4, top: -3, right: 10, bottom: 7 });
    assert_eq!((r.width(), r.height()), (14, 10));
    assert!(!r.is_empty());
    assert!(PixelRect { left: 3, top: 0, right: 3, bottom: 9 }.is_empty());
    let clamped = r.clamp_to(PixelRect { left: 0, top: 0, right: 5, bottom: 5 });
    assert_eq!(clamped, PixelRect { left: 0, top: 0, right: 5, bottom: 5 });
}

#[test]
fn bounds_cover_the_frame() {
    let frame = BgraFrame { origin_x: -20, origin_y: 5, width: 30, height: 10, stride: 120, pixels: vec![0; 1200] };
    assert_eq!(frame.bounds(), PixelRect { left: -20, top: 5, right: 10, bottom: 15 });
}

#[test]
fn rotation_by_ninety_degrees_maps_columns_to_rows() {
    // A 2 by 1 source: pixel 0 is [1,1,1,1], pixel 1 is [2,2,2,2].
    let source = vec![1, 1, 1, 1, 2, 2, 2, 2];
    let mut destination = vec![0_u8; 8];
    copy_or_rotate(&source, 8, 2, 1, &mut destination, 4, 1, 2, Rotation::Rotate90);
    // Destination (0, y) shows source (y, sh - 1 - 0) = (y, 0).
    assert_eq!(destination, vec![1, 1, 1, 1, 2, 2, 2, 2]);
    let mut flipped = vec![0_u8; 8];
    copy_or_rotate(&source, 8, 2, 1, &mut flipped, 8, 2, 1, Rotation::Rotate180);
    assert_eq!(flipped, vec![2, 2, 2, 2, 1, 1, 1, 1]);
    let mut same = vec![9_u8; 8];
    copy_or_rotate(&source, 8, 2, 1, &mut same, 8, 2, 1, Rotation::Identity);
    assert_eq!(same, source);
}

#[test]
fn tight_bgra_drops_row_padding_and_rgba_swaps_channels() {
    let frame = BgraFrame {
        origin_x: 0,
        origin_y: 0,
        width: 1,
        height: 2,
        stride: 8,
        pixels: vec![1, 2, 3, 4, 99, 99, 99, 99, 5, 6, 7, 8, 99, 99, 99, 99],
    };
    assert_eq!(frame.tight_bgra(), vec![1, 2, 3, 4, 5, 6, 7, 8]);
    assert_eq!(frame.rgba_pixels(), vec![3, 2, 1, 255, 7, 6, 5, 255]);
}

#[test]
fn desktop_bounds_span_every_output() {
    let rects = vec![
        PixelRect { left: 0, top: 0, right: 1920, bottom: 1080 },
        PixelRect { left: -1280, top: 200, right: 0, bottom: 1224 },
    ];
    assert_eq!(desktop_bounds(&rects), PixelRect { left: -1280, top: 0, right: 1920, bottom: 1224 });
    assert_eq!(
        desktop_bounds(&Vec::new()),
        PixelRect { left: i32::MAX, top: i32::MAX, right: i32::MIN, bottom: i32::MIN }
    );
}

#[test]
fn outputs_are_stitched_at_their_desktop_positions() {
    let left = OutputCapture {
        rect: PixelRect { left: -1, top: 0, right: 0, bottom: 1 },
        width: 1,
        height: 1,
        stride: 4,
        pixels: vec![1, 2, 3, 4],
    };
    let right = OutputCapture {
        rect: PixelRect { left: 0, top: 1, right: 1, bottom: 2 },
        width: 1,
        height: 1,
        stride: 8,
        pixels: vec![5, 6, 7, 8, 0, 0, 0, 0],
    };
    let bounds = desktop_bounds(&vec![left.rect, right.rect]);
    let frame = compose_outputs(bounds, &vec![left, right]);
    assert_eq!((frame.origin_x, frame.origin_y, frame.width, frame.height, frame.stride), (-1, 0, 2, 2, 8));
    assert_eq!(frame.pixels, vec![1, 2, 3, 4, 0, 0, 0, 0, 0, 0, 0, 0, 5, 6, 7, 8]);
}

#[test]
fn later_outputs_cover_earlier_ones() {
    let first = OutputCapture { rect: PixelRect { left: 0, top: 0, right: 1, bottom: 1 }, width: 1, height: 1, stride: 4, pixels: vec![1; 4] };
    let second = OutputCapture { rect: PixelRect { left: 0, top: 0, right: 1, bottom: 1 }, width: 1, height: 1, stride: 4, pixels: vec![2; 4] };
    let frame = compose_outputs(PixelRect { left: 0, top: 0, right: 1, bottom: 1 }, &vec![first, second]);
    assert_eq!(frame.pixels, vec![2; 4]);
}

#[test]
fn virtual_desktop_dimensions_are_checked() {
    assert_eq!(virtual_desktop_size(3, 2), Ok((3, 2, 12, 24)));
    assert_eq!(
        virtual_desktop_size(-5, 10).unwrap_err(),
        "Windows reported invalid virtual desktop dimensions -5 x 10"
    );
    assert_eq!(virtual_desktop_size(0, 0).unwrap_err(), "Windows reported invalid virtual desktop dimensions 0 x 0");
}

#[test]
fn copied_rows_are_checked() {
    assert_eq!(check_copied_rows(10, 10), RowCopy::Complete);
    assert_eq!(check_copied_rows(0, 10), RowCopy::Failed);
    assert_eq!(check_copied_rows(4, 10), RowCopy::Partial("GetDIBits copied 4 of 10 rows".to_string()));
}

#[test]
fn captured_pixels_become_opaque() {
    let mut pixels = vec![1, 2, 3, 0, 4, 5, 6, 7, 8];
    make_opaque_bytes(&mut pixels);
    assert_eq!(pixels, vec![1, 2, 3, 255, 4, 5, 6, 255, 8]);
}

#[test]
fn marker_ring_is_the_rounded_circle_of_radius_13() {
    let mut expected: Vec<(i32, i32)> = Vec::new();
    for angle in 0..360 {
        let radians = (angle as f32).to_radians();
        let point = ((radians.cos() * 13.0).round() as i32, (radians.sin() * 13.0).round() as i32);
        if !expected.contains(&point) {
            expected.push(point);
        }
    }
    let mut table = ring_offsets();
    table.sort();
    expected.sort();
    assert_eq!(table, expected);
}

#[test]
fn clipboard_bitmaps_are_top_down_and_tightly_packed() {
    let frame = BgraFrame {
        origin_x: 5,
        origin_y: 5,
        width: 1,
        height: 2,
        stride: 8,
        pixels: vec![1, 2, 3, 4, 0, 0, 0, 0, 5, 6, 7, 8, 0, 0, 0, 0],
    };
    let bitmap = clipboard_bitmap(&frame);
    assert_eq!((bitmap.width, bitmap.height, bitmap.image_size), (1, -2, 8));
    assert_eq!(bitmap.pixels, vec![1, 2, 3, 4, 5, 6, 7, 8]);
}
