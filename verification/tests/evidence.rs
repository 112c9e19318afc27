use captur::evidence::{
    capture_png_name, default_pdf_filename, default_pdf_filename_at, png_filename, sanitize_filename, EvidenceLabel, EvidenceSession,
};
use captur::frame::BgraFrame;

fn frame(width: u32, height: u32, fill: u8) -> BgraFrame {
    let stride = width as usize * 4;
    BgraFrame { origin_x: 0, origin_y: 0, width, height, stride, pixels: vec![fill; stride * height as usize] }
}

#[test]
fn sanitizes_windows_filename_characters() {
    assert_eq!(sanitize_filename(" Order: total / proof? "), "Order-total-proof");
}

#[test]
fn sanitizing_trims_edges_collapses_dashes_and_caps_length() {
    assert_eq!(sanitize_filename("..--a<<>>b--.."), "a-b");
    assert_eq!(sanitize_filename("tab\tand\nnewline"), "tab-and-newline");
    assert_eq!(sanitize_filename("   "), "");
    let long = "x".repeat(150);
    assert_eq!(sanitize_filename(&long).chars().count(), 100);
}

#[test]
fn default_pdf_name_uses_the_session_name() {
    assert_eq!(default_pdf_filename("Login bug"), "Login-bug.pdf");
    assert_eq!(default_pdf_filename_at("Evidence Session", 1234), "Captur-Evidence-1234.pdf");
    assert_eq!(default_pdf_filename_at("???", 7), "Captur-Evidence-7.pdf");
    let fallback = default_pdf_filename("");
    assert!(fallback.starts_with("Captur-Evidence-") && fallback.ends_with(".pdf"));
}

#[test]
fn labels_have_display_names() {
    let names: Vec<&str> = EvidenceLabel::all().iter().map(|label| label.display()).collect();
    assert_eq!(names, vec!["None", "Before", "Action", "After"]);
    assert_eq!(EvidenceLabel::default(), EvidenceLabel::Unlabeled);
}

#[test]
fn captures_get_increasing_ids_and_can_be_reordered() {
    let mut session = EvidenceSession::default();
    assert_eq!(session.name, "Evidence Session");
    assert_eq!(session.add_capture(frame(1, 1, 1), "one".to_string()), 1);
    assert_eq!(session.add_capture_at(frame(1, 1, 2), "two".to_string(), 500), 2);
    assert_eq!(session.add_capture(frame(1, 1, 3), "three".to_string()), 3);
    assert_eq!(session.captures[1].captured_at_unix_ms, 500);
    assert_eq!(session.captures[0].label, EvidenceLabel::Unlabeled);

    session.move_up(2);
    let ids: Vec<u64> = session.captures.iter().map(|c| c.id).collect();
    assert_eq!(ids, vec![1, 3, 2]);
    session.move_down(2);
    session.move_up(0);
    let ids: Vec<u64> = session.captures.iter().map(|c| c.id).collect();
    assert_eq!(ids, vec![1, 3, 2]);
    session.move_down(0);
    session.move_up(1);
    let ids: Vec<u64> = session.captures.iter().map(|c| c.id).collect();
    assert_eq!(ids, vec![1, 3, 2]);

    session.remove(1);
    session.remove(9);
    let ids: Vec<u64> = session.captures.iter().map(|c| c.id).collect();
    assert_eq!(ids, vec![1, 2]);
    assert_eq!(session.add_capture(frame(1, 1, 4), String::new()), 4);
}

#[test]
fn export_model_trims_and_numbers_captures() {
    let mut session = EvidenceSession::default();
    session.name = "  Checkout  ".to_string();
    session.description = "\tSteps\n".to_string();
    session.add_capture_at(frame(2, 1, 9), "  first ".to_string(), 10);
    session.add_capture_at(frame(1, 2, 8), "second".to_string(), 20);
    session.captures[1].label = EvidenceLabel::After;
    let model = session.export_model_at(99);
    assert_eq!(model.title, "Checkout");
    assert_eq!(model.description, "Steps");
    assert_eq!(model.generated_at_unix_ms, 99);
    assert_eq!(model.captures.len(), 2);
    assert_eq!(model.captures[0].number, 1);
    assert_eq!(model.captures[0].caption, "first");
    assert_eq!(model.captures[1].number, 2);
    assert_eq!(model.captures[1].label, EvidenceLabel::After);
    assert_eq!(model.captures[1].captured_at_unix_ms, 20);
    assert_eq!(model.captures[1].frame.pixels, vec![8; 8]);
    assert!(session.export_model().generated_at_unix_ms > 0);
}

#[test]
fn saved_sessions_record_file_names_and_metadata() {
    assert_eq!(png_filename(0), "001.png");
    assert_eq!(png_filename(41), "042.png");
    assert_eq!(png_filename(1233), "1234.png");
    let mut session = EvidenceSession::default();
    session.add_capture_at(frame(3, 2, 0), "cap".to_string(), 5);
    session.set_png_path(0, "C:/out/001.png".to_string());
    session.set_png_path(4, "ignored".to_string());
    assert_eq!(session.captures[0].png_path.as_deref(), Some("C:/out/001.png"));
    let metadata = session.metadata(&vec!["001.png".to_string()]);
    assert_eq!(metadata.name, "Evidence Session");
    assert_eq!(metadata.captures.len(), 1);
    let record = &metadata.captures[0];
    assert_eq!((record.id, record.order, record.width, record.height), (1, 0, 3, 2));
    assert_eq!(record.caption, "cap");
    assert_eq!(record.filename, "001.png");
    assert_eq!(record.captured_at_unix_ms, 5);
}

#[test]
fn ids_stay_unique_through_reordering_and_removal() {
    let mut session = EvidenceSession::default();
    for fill in 0..4 {
        session.add_capture_at(frame(1, 1, fill), String::new(), 0);
    }
    session.move_down(0);
    session.remove(1);
    let id = session.add_capture_at(frame(1, 1, 9), String::new(), 0);
    assert_eq!(id, 5);
    let mut ids: Vec<u64> = session.captures.iter().map(|c| c.id).collect();
    ids.sort();
    ids.dedup();
    assert_eq!(ids.len(), session.captures.len());
}

#[test]
fn latest_captures_are_offered_under_their_size() {
    assert_eq!(capture_png_name(1920, 1080), "ProofSnip-1920x1080.png");
    assert_eq!(capture_png_name(0, 7), "ProofSnip-0x7.png");
}

#[test]
fn sanitizing_twice_changes_nothing_unless_cut_after_a_dash() {
    for name in [" Order: total / proof? ", "..a..", "x", "", "tab\tand\nnewline", "ü<>ö"] {
        let once = sanitize_filename(name);
        assert_eq!(sanitize_filename(&once), once);
    }
    // Cut at 100 characters right after a dash: the second pass drops it.
    let name = format!("{}-b", "a".repeat(99));
    let once = sanitize_filename(&name);
    assert_eq!(once, format!("{}-", "a".repeat(99)));
    assert_eq!(sanitize_filename(&once), "a".repeat(99));
}

#[test]
fn ids_are_never_reused_over_a_history() {
    let mut session = EvidenceSession::default();
    let mut issued = Vec::new();
    issued.push(session.add_capture_at(frame(2, 2, 1), "one".to_string(), 10));
    issued.push(session.add_capture_at(frame(2, 2, 2), "two".to_string(), 20));
    session.move_up(1);
    issued.push(session.add_capture_at(frame(2, 2, 3), "three".to_string(), 30));
    session.remove(2);
    session.remove(0);
    session.move_down(0);
    issued.push(session.add_capture_at(frame(2, 2, 4), "four".to_string(), 40));
    assert_eq!(issued, vec![1, 2, 3, 4]);
    let ids: Vec<u64> = session.captures.iter().map(|c| c.id).collect();
    assert_eq!(ids, vec![1, 4]);
}
