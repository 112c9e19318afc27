use captur::calendar::{civil_from_days, format_unix_ms};
use captur::evidence::{EvidenceLabel, PdfExportCapture, PdfExportModel};
use captur::frame::{split_tall_capture, BgraFrame};
use captur::lines::{truncate_line, wrap_text};
use captur::page::{page_text, plan_document};

fn solid(width: u32, height: u32) -> BgraFrame {
    let stride = width as usize * 4;
    BgraFrame { origin_x: 0, origin_y: 0, width, height, stride, pixels: vec![1; stride * height as usize] }
}

#[test]
fn unix_epoch_formats_correctly() {
    assert_eq!(format_unix_ms(0), "1970-01-01 00:00 UTC");
}

#[test]
fn tall_capture_splits_without_pixel_loss() {
    let frame = BgraFrame { origin_x: 0, origin_y: 0, width: 10, height: 100, stride: 40, pixels: vec![1_u8; 4000] };
    let segments = split_tall_capture(&frame);
    assert!(segments.len() > 1);
    assert_eq!(segments.iter().map(|s| s.height).sum::<u32>(), 100);
}

#[test]
fn split_bands_follow_the_page_ratio() {
    let frame = BgraFrame {
        origin_x: 3,
        origin_y: -7,
        width: 10,
        height: 100,
        stride: 44,
        pixels: (0..4400).map(|i| (i % 251) as u8).collect(),
    };
    let segments = split_tall_capture(&frame);
    // 10 * 1.38 rounds to 14 rows per band.
    let heights: Vec<u32> = segments.iter().map(|s| s.height).collect();
    assert_eq!(heights, vec![14, 14, 14, 14, 14, 14, 14, 2]);
    assert_eq!(segments[1].origin_y, 7);
    assert_eq!(segments[1].origin_x, 3);
    // Row 0 of band 1 is row 14 of the capture, without the row padding.
    assert_eq!(&segments[1].pixels[0..40], &frame.pixels[14 * 44..14 * 44 + 40]);
    let wide = solid(100, 100);
    let whole = split_tall_capture(&wide);
    assert_eq!(whole.len(), 1);
    assert_eq!(whole[0].height, 100);
}

#[test]
fn civil_dates_around_epochs_and_leap_days() {
    assert_eq!(civil_from_days(0), (1970, 1, 1));
    assert_eq!(civil_from_days(-1), (1969, 12, 31));
    assert_eq!(civil_from_days(59), (1970, 3, 1));
    assert_eq!(civil_from_days(11_016), (2000, 2, 29));
    assert_eq!(civil_from_days(19_782), (2024, 2, 29));
    assert_eq!(civil_from_days(-719_468), (0, 3, 1));
    assert_eq!(format_unix_ms(1_789_627_200_000), "2026-09-17 06:40 UTC");
    assert_eq!(format_unix_ms(86_399_999), "1970-01-01 23:59 UTC");
}

#[test]
fn lines_are_normalized_and_truncated() {
    assert_eq!(truncate_line("  a   b\tc  ", 10), "a b c");
    assert_eq!(truncate_line("abcdef", 4), "abc…");
    assert_eq!(truncate_line("abcdef", 0), "…");
    assert_eq!(truncate_line("", 3), "");
}

#[test]
fn captions_wrap_onto_two_lines() {
    assert_eq!(wrap_text("one two three", 7, 2), vec!["one two", "three"]);
    assert_eq!(wrap_text("one two three four", 7, 2), vec!["one two", "three …"]);
    assert_eq!(wrap_text("", 10, 2), vec![""]);
    // A first word longer than a line starts a new line after an empty one.
    assert_eq!(wrap_text("abcdefghij k", 5, 2), vec!["", "abcd…"]);
}

fn capture(number: usize, width: u32, height: u32, caption: &str, label: EvidenceLabel) -> PdfExportCapture {
    PdfExportCapture { number, frame: solid(width, height), caption: caption.to_string(), label, captured_at_unix_ms: 60_000 }
}

#[test]
fn page_text_has_heading_description_caption_and_footer() {
    let model = PdfExportModel {
        title: "  ".to_string(),
        description: "Steps   to reproduce".to_string(),
        generated_at_unix_ms: 0,
        captures: vec![capture(1, 300, 100, "Total stays the same", EvidenceLabel::Before)],
    };
    let text = page_text(&model, &model.captures[0], 300, 100, 0, 1);
    assert!(text.landscape);
    assert_eq!(text.title, "Captur Evidence");
    assert_eq!(text.heading, "Capture 1 · Before");
    assert_eq!(text.description.as_deref(), Some("Steps to reproduce"));
    assert_eq!(text.caption_lines, vec!["Total stays the same"]);
    assert_eq!(text.footer, "Generated by Captur · 1970-01-01 00:00 UTC · captured 1970-01-01 00:01 UTC");

    let middle = page_text(&model, &model.captures[0], 100, 100, 1, 3);
    assert!(!middle.landscape);
    assert_eq!(middle.heading, "Capture 1 · Before · part 2/3");
    assert!(middle.description.is_none());
    assert!(middle.caption_lines.is_empty());
}

#[test]
fn documents_get_one_page_per_segment() {
    let model = PdfExportModel {
        title: String::new(),
        description: String::new(),
        generated_at_unix_ms: 0,
        captures: vec![
            capture(1, 10, 10, "", EvidenceLabel::Unlabeled),
            capture(2, 10, 100, "end", EvidenceLabel::Action),
        ],
    };
    let plan = plan_document(&model).unwrap();
    assert_eq!(plan.title, "Captur Evidence");
    assert_eq!(plan.pages.len(), 9);
    assert_eq!(plan.pages[0].text.heading, "Capture 1");
    assert_eq!(plan.pages[1].text.heading, "Capture 2 · Action · part 1/8");
    assert!(plan.pages[1].text.caption_lines.is_empty());
    assert_eq!(plan.pages[8].text.caption_lines, vec!["end"]);
    assert_eq!(plan.pages[8].segment.height, 2);

    let empty = PdfExportModel { title: "x".to_string(), description: String::new(), generated_at_unix_ms: 0, captures: Vec::new() };
    assert_eq!(plan_document(&empty).unwrap_err(), "the evidence session has no screenshots");
}

fn solid_frame(width: u32, height: u32, bgra: [u8; 4]) -> BgraFrame {
    let stride = width as usize * 4;
    let mut pixels = vec![0_u8; stride * height as usize];
    for pixel in pixels.chunks_mut(4) {
        pixel.copy_from_slice(&bgra);
    }
    BgraFrame { origin_x: 0, origin_y: 0, width, height, stride, pixels }
}

#[test]
fn realistic_evidence_gets_a_page_per_capture_and_bands_for_tall_ones() {
    let dimensions = [(1920, 1080), (2560, 1440), (3840, 2160), (1080, 1920), (3440, 1440), (800, 3600)];
    let captures: Vec<PdfExportCapture> = dimensions
        .into_iter()
        .enumerate()
        .map(|(index, (width, height))| PdfExportCapture {
            number: index + 1,
            frame: solid_frame(width, height, [32 + index as u8 * 12, 78, 140, 255]),
            caption: if index % 2 == 0 { format!("Evidence caption for capture {}", index + 1) } else { String::new() },
            label: match index % 3 {
                0 => EvidenceLabel::Before,
                1 => EvidenceLabel::Action,
                _ => EvidenceLabel::After,
            },
            captured_at_unix_ms: 1_789_627_200_000 + index as u64 * 1000,
        })
        .collect();
    let model = PdfExportModel {
        title: "Order total deletion evidence".into(),
        description: "The total remains unchanged until the page is refreshed.".into(),
        generated_at_unix_ms: 1_789_627_200_000,
        captures,
    };
    let plan = plan_document(&model).unwrap();
    assert!(plan.pages.len() >= model.captures.len());
    // The 800 by 3600 capture is taller than 2.35 times its width: 1104-row bands.
    assert_eq!(plan.pages.len(), 5 + 4);
    assert_eq!(plan.title, "Order total deletion evidence");
    let first = &plan.pages[0].text;
    assert!(first.landscape);
    assert_eq!(first.heading, "Capture 1 · Before");
    assert_eq!(first.description.as_deref(), Some("The total remains unchanged until the page is refreshed."));
    assert_eq!(first.caption_lines, vec!["Evidence caption for capture 1"]);
    assert_eq!(first.footer, "Generated by Captur · 2026-09-17 06:40 UTC · captured 2026-09-17 06:40 UTC");
    assert!(!plan.pages[3].text.landscape);
    assert_eq!(plan.pages[5].text.heading, "Capture 6 · After · part 1/4");
    assert_eq!(plan.pages[8].text.heading, "Capture 6 · After · part 4/4");
    assert_eq!(plan.pages[8].segment.height, 3600 - 3 * 1104);
    assert_eq!(plan.pages.iter().map(|p| p.segment.height).sum::<u32>(), 1080 + 1440 + 2160 + 1920 + 1440 + 3600);
}
