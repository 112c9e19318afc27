use captur::annotations::{AnnotationDocument, AnnotationItem, AnnotationPoint, AnnotationTool, ArrowHead};
use captur::canvas::{RED, YELLOW};
use captur::frame::BgraFrame;
use captur::region::{PixelPoint, PixelRect};
use captur::workspace::{
    annotation_command, annotation_for_click, tool_for_key, AnnotationCommand, annotation_for_drag, selection_label, selection_preview, status_tone, track_selection, SelectionDrag, StatusTone,
};

fn frame(width: u32, height: u32) -> BgraFrame {
    let stride = width as usize * 4;
    BgraFrame { origin_x: 0, origin_y: 0, width, height, stride, pixels: vec![10_u8; stride * height as usize] }
}

fn pixel(frame: &BgraFrame, x: usize, y: usize) -> [u8; 4] {
    let offset = y * frame.stride + x * 4;
    frame.pixels[offset..offset + 4].try_into().unwrap()
}

/// The head of an arrow, computed in floating point as the drawing
/// workspace does.
fn arrow_head(start: AnnotationPoint, end: AnnotationPoint, thickness: u32) -> Option<ArrowHead> {
    let thickness = thickness.max(2) as i32;
    let dx = (end.x - start.x) as f32;
    let dy = (end.y - start.y) as f32;
    let length = (dx * dx + dy * dy).sqrt();
    if length <= 0.0 {
        return None;
    }
    let ux = dx / length;
    let uy = dy / length;
    let head = (thickness as f32 * 3.5).max(12.0).min(length * 0.65);
    let wing = head * 0.55;
    let base_x = end.x as f32 - ux * head;
    let base_y = end.y as f32 - uy * head;
    Some(ArrowHead {
        left: AnnotationPoint::new((base_x - uy * wing).round() as i32, (base_y + ux * wing).round() as i32),
        right: AnnotationPoint::new((base_x + uy * wing).round() as i32, (base_y - ux * wing).round() as i32),
    })
}

fn heads(document: &AnnotationDocument) -> Vec<Option<ArrowHead>> {
    document
        .items
        .iter()
        .map(|item| match item {
            AnnotationItem::Arrow { start, end, thickness } => arrow_head(*start, *end, *thickness),
            _ => None,
        })
        .collect()
}

#[test]
fn undo_preserves_sequential_marker_numbers() {
    let mut document = AnnotationDocument::new();
    assert_eq!(document.add_marker(AnnotationPoint::new(4, 4)), 1);
    assert_eq!(document.add_marker(AnnotationPoint::new(8, 8)), 2);
    assert!(matches!(document.undo(), Some(AnnotationItem::Marker { number: 2, .. })));
    assert_eq!(document.add_marker(AnnotationPoint::new(12, 12)), 3);
    document.clear();
    assert_eq!(document.add_marker(AnnotationPoint::new(4, 4)), 1);
}

#[test]
fn primitives_mutate_representative_pixels_and_keep_source_unchanged() {
    let source = frame(40, 30);
    let mut document = AnnotationDocument::new();
    document.add(AnnotationItem::Rectangle {
        start: AnnotationPoint::new(2, 2),
        end: AnnotationPoint::new(20, 15),
        thickness: 3,
    });
    document.add(AnnotationItem::Highlight { start: AnnotationPoint::new(24, 3), end: AnnotationPoint::new(35, 12) });
    document.add(AnnotationItem::Arrow { start: AnnotationPoint::new(3, 24), end: AnnotationPoint::new(20, 24), thickness: 5 });
    let rendered = document.render(&source, &heads(&document));

    assert_eq!(pixel(&source, 2, 2), [10, 10, 10, 10]);
    assert_eq!(pixel(&rendered, 2, 2), RED);
    assert_ne!(pixel(&rendered, 28, 7), pixel(&source, 28, 7));
    assert_eq!(pixel(&rendered, 10, 24), RED);
    assert!(rendered.pixels.chunks(4).all(|pixel| pixel[3] == 255));
}

#[test]
fn redaction_replaces_each_block_with_its_average() {
    let mut source = frame(4, 4);
    source.pixels[0..4].copy_from_slice(&[0, 0, 0, 7]);
    source.pixels[4..8].copy_from_slice(&[100, 100, 100, 7]);
    source.pixels[16..20].copy_from_slice(&[200, 200, 200, 7]);
    source.pixels[20..24].copy_from_slice(&[100, 100, 100, 7]);
    let mut document = AnnotationDocument::new();
    document.add(AnnotationItem::Redact { start: AnnotationPoint::new(0, 0), end: AnnotationPoint::new(1, 1), block_size: 2 });
    let rendered = document.render(&source, &heads(&document));
    assert_eq!(pixel(&rendered, 0, 0), [100, 100, 100, 255]);
    assert_eq!(pixel(&rendered, 1, 1), [100, 100, 100, 255]);
}

#[test]
fn adding_a_marker_numbers_it_and_other_items_get_zero() {
    let mut document = AnnotationDocument::new();
    assert_eq!(document.add(AnnotationItem::Highlight { start: AnnotationPoint::new(0, 0), end: AnnotationPoint::new(1, 1) }), 0);
    assert_eq!(document.add_item(AnnotationItem::Marker { center: AnnotationPoint::new(3, 3), number: 77 }), 1);
    assert!(matches!(document.items.last(), Some(AnnotationItem::Marker { number: 1, .. })));
    assert_eq!(document.add_marker(AnnotationPoint::new(5, 5)), 2);
    assert_eq!(document.items.len(), 3);
}

#[test]
fn undo_on_an_empty_document_gives_nothing() {
    let mut document = AnnotationDocument::new();
    assert!(document.undo().is_none());
    assert_eq!(document.add_marker(AnnotationPoint::new(1, 1)), 1);
}

#[test]
fn highlight_blends_yellow_over_the_source() {
    let source = frame(8, 8);
    let mut document = AnnotationDocument::new();
    document.add(AnnotationItem::Highlight { start: AnnotationPoint::new(5, 5), end: AnnotationPoint::new(1, 1) });
    let rendered = document.render(&source, &heads(&document));
    let inside = pixel(&rendered, 3, 3);
    // 96/255 of yellow over the source byte 10, rounded.
    let mix = |c: u8| ((c as u32 * 96 + 10 * (255 - 96) + 127) / 255) as u8;
    assert_eq!(inside, [mix(YELLOW[0]), mix(YELLOW[1]), mix(YELLOW[2]), 255]);
    assert_eq!(pixel(&rendered, 7, 7), [10, 10, 10, 255]);
}

#[test]
fn apply_leaves_a_short_buffer_alone() {
    let mut short = BgraFrame { origin_x: 0, origin_y: 0, width: 4, height: 4, stride: 16, pixels: vec![1_u8; 10] };
    let mut document = AnnotationDocument::new();
    document.add_marker(AnnotationPoint::new(1, 1));
    let heads = heads(&document);
    document.apply(&mut short, &heads);
    assert_eq!(short.pixels, vec![1_u8; 10]);
}

#[test]
fn drags_make_the_tools_annotations() {
    let a = AnnotationPoint::new(1, 2);
    let b = AnnotationPoint::new(7, 9);
    assert_eq!(annotation_for_drag(AnnotationTool::Arrow, a, b), Some(AnnotationItem::Arrow { start: a, end: b, thickness: 4 }));
    assert_eq!(annotation_for_drag(AnnotationTool::Rectangle, a, b), Some(AnnotationItem::Rectangle { start: a, end: b, thickness: 4 }));
    assert_eq!(annotation_for_drag(AnnotationTool::Highlight, a, b), Some(AnnotationItem::Highlight { start: a, end: b }));
    assert_eq!(annotation_for_drag(AnnotationTool::Redact, a, b), Some(AnnotationItem::Redact { start: a, end: b, block_size: 12 }));
    assert_eq!(annotation_for_drag(AnnotationTool::Text, a, b), None);
    assert_eq!(annotation_for_drag(AnnotationTool::Marker, a, b), None);
    assert_eq!(annotation_for_drag(AnnotationTool::Arrow, a, a), None);
}

#[test]
fn status_messages_get_their_tone() {
    assert_eq!(status_tone("PDF export FAILED: disk full"), StatusTone::Danger);
    assert_eq!(status_tone("Could not open the clipboard"), StatusTone::Danger);
    assert_eq!(status_tone("Exporting PDF…"), StatusTone::Accent);
    assert_eq!(status_tone("Capture cancelled"), StatusTone::Warning);
    assert_eq!(status_tone("No previous region"), StatusTone::Warning);
    assert_eq!(status_tone("Copied 1920 × 1080"), StatusTone::Success);
    assert_eq!(status_tone("Ready"), StatusTone::Success);
    assert_eq!(status_tone("Idle"), StatusTone::Neutral);
    assert_eq!(status_tone(""), StatusTone::Neutral);
    // The first matching class wins.
    assert_eq!(status_tone("saving failed"), StatusTone::Danger);
}

#[test]
fn a_drag_on_the_overlay_selects_a_clamped_region() {
    let bounds = PixelRect { left: -100, top: 0, right: 100, bottom: 50 };
    let at = |x: i32, y: i32| Some(PixelPoint { x, y });
    let drag = SelectionDrag::default();
    let (drag, done) = track_selection(drag, at(-150, 10), true, bounds);
    assert_eq!(done, None);
    assert_eq!(drag, SelectionDrag { start: at(-150, 10), end: at(-150, 10), pointer_down: true });
    let (drag, done) = track_selection(drag, at(20, 80), true, bounds);
    assert_eq!(done, None);
    assert_eq!(selection_preview(drag, bounds), Some(PixelRect { left: -100, top: 10, right: 20, bottom: 50 }));
    let (drag, done) = track_selection(drag, None, false, bounds);
    assert_eq!(done, Some(PixelRect { left: -100, top: 10, right: 20, bottom: 50 }));
    assert!(!drag.pointer_down);
    assert_eq!(selection_label(done.unwrap()), "120 × 40");
}

#[test]
fn a_click_without_a_drag_selects_nothing() {
    let bounds = PixelRect { left: 0, top: 0, right: 100, bottom: 100 };
    let p = Some(PixelPoint { x: 5, y: 5 });
    let (drag, _) = track_selection(SelectionDrag::default(), p, true, bounds);
    let (_, done) = track_selection(drag, Some(PixelPoint { x: 6, y: 9 }), false, bounds);
    assert_eq!(done, None);
    assert_eq!(selection_preview(SelectionDrag::default(), bounds), None);
}

#[test]
fn thickness_beyond_i32_wraps_as_it_is_read() {
    let source = frame(30, 30);
    let mut document = AnnotationDocument::new();
    // Read as i32 this thickness is -1: the rectangle's edges are empty.
    document.add(AnnotationItem::Rectangle { start: AnnotationPoint::new(2, 2), end: AnnotationPoint::new(20, 20), thickness: u32::MAX });
    let rendered = document.render(&source, &heads(&document));
    assert!(rendered.pixels.chunks(4).all(|pixel| pixel == [10, 10, 10, 255]));

    // An arrow whose thickness wraps to a negative number has no shaft.
    let mut arrow = AnnotationDocument::new();
    arrow.add(AnnotationItem::Arrow { start: AnnotationPoint::new(1, 15), end: AnnotationPoint::new(28, 15), thickness: u32::MAX });
    let head = Some(ArrowHead { left: AnnotationPoint::new(26, 13), right: AnnotationPoint::new(26, 17) });
    let drawn = arrow.render(&source, &vec![head]);
    assert_eq!(pixel(&drawn, 5, 15), [10, 10, 10, 255]);
    assert_eq!(pixel(&drawn, 27, 15), RED);
}

#[test]
fn annotation_keys_pick_tools_and_commands() {
    assert_eq!(tool_for_key('A'), Some(AnnotationTool::Arrow));
    assert_eq!(tool_for_key('R'), Some(AnnotationTool::Rectangle));
    assert_eq!(tool_for_key('H'), Some(AnnotationTool::Highlight));
    assert_eq!(tool_for_key('T'), Some(AnnotationTool::Text));
    assert_eq!(tool_for_key('B'), Some(AnnotationTool::Redact));
    assert_eq!(tool_for_key('1'), Some(AnnotationTool::Marker));
    assert_eq!(tool_for_key('Z'), None);
    assert_eq!(annotation_command(true, true, true), Some(AnnotationCommand::Cancel));
    assert_eq!(annotation_command(false, true, true), Some(AnnotationCommand::Finish));
    assert_eq!(annotation_command(false, false, true), Some(AnnotationCommand::Copy));
    assert_eq!(annotation_command(false, false, false), None);
}

#[test]
fn clicks_add_markers_and_text() {
    let p = AnnotationPoint::new(3, 4);
    assert_eq!(annotation_for_click(AnnotationTool::Marker, p, ""), Some(AnnotationItem::Marker { center: p, number: 0 }));
    assert_eq!(
        annotation_for_click(AnnotationTool::Text, p, "  Total  "),
        Some(AnnotationItem::Text { position: p, text: "Total".to_string(), size: 24 })
    );
    assert_eq!(annotation_for_click(AnnotationTool::Text, p, " \t "), None);
    assert_eq!(annotation_for_click(AnnotationTool::Arrow, p, "x"), None);
}

#[test]
fn rendering_equals_applying_to_a_copy() {
    let source = frame(24, 16);
    let mut document = AnnotationDocument::new();
    document.add(AnnotationItem::Rectangle { start: AnnotationPoint::new(1, 1), end: AnnotationPoint::new(12, 9), thickness: 2 });
    document.add_marker(AnnotationPoint::new(18, 8));
    document.add(AnnotationItem::Redact { start: AnnotationPoint::new(2, 10), end: AnnotationPoint::new(10, 15), block_size: 4 });
    let rendered = document.render(&source, &heads(&document));
    let mut copy = source.clone();
    document.apply(&mut copy, &heads(&document));
    assert_eq!(rendered.pixels, copy.pixels);
    assert_eq!((rendered.width, rendered.height, rendered.stride), (copy.width, copy.height, copy.stride));
    assert!(source.pixels.iter().all(|&b| b == 10));
}
