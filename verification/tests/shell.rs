use captur::annotations::{AnnotationDocument, AnnotationPoint, AnnotationTool};
use captur::region::{PixelPoint, PixelRect};
use captur::shell::{AppMode, RepeatStep, ShellState, WindowAction};
use captur::workspace::SelectionDrag;

fn state() -> ShellState {
    ShellState::new("Ready".to_string(), false)
}

fn is_empty(document: &mut AnnotationDocument) -> bool {
    document.undo().is_none() && document.add_marker(AnnotationPoint::new(1, 1)) == 1
}

#[test]
fn a_new_shell_starts_on_the_workspace() {
    let s = ShellState::new("Ready".to_string(), true);
    assert_eq!(s.mode, AppMode::Workspace);
    assert_eq!(s.status, "Ready");
    assert!(s.startup_enabled);
    assert_eq!(s.annotation_tool, AnnotationTool::Arrow);
    assert_eq!(s.selection, SelectionDrag::default());
}

#[test]
fn escape_on_the_overlay_restores_the_workspace_as_it_was() {
    let mut s = state();
    s.mode = AppMode::Overlay;
    s.workspace_was_visible = true;
    s.selection = SelectionDrag { start: Some(PixelPoint { x: 1, y: 2 }), end: Some(PixelPoint { x: 5, y: 6 }), pointer_down: true };
    assert_eq!(s.cancel_overlay(), WindowAction::ShowWorkspace);
    assert_eq!(s.mode, AppMode::Workspace);
    assert_eq!(s.selection, SelectionDrag::default());
    assert!(!s.workspace_was_visible);
    assert_eq!(s.status, "Ready");

    let mut hidden = state();
    hidden.mode = AppMode::Overlay;
    assert_eq!(hidden.cancel_overlay(), WindowAction::HideWindow);
    assert_eq!(hidden.mode, AppMode::Workspace);
}

#[test]
fn repeating_a_capture_needs_a_previous_region() {
    let mut s = state();
    s.mode = AppMode::Toast;
    assert_eq!(s.repeat_capture(None), RepeatStep::ShowWorkspace);
    assert_eq!(s.status, "No previous region is available yet");
    assert_eq!(s.mode, AppMode::Workspace);

    let mut t = state();
    let region = PixelRect { left: 10, top: 20, right: 110, bottom: 70 };
    assert_eq!(t.repeat_capture(Some(region)), RepeatStep::Capture(region));
    assert_eq!(t.status, "Ready");
}

#[test]
fn the_copy_confirmation_gives_the_size() {
    let mut s = state();
    s.show_capture_toast(1920, 1080);
    assert_eq!(s.toast_text, "Copied · 1920 × 1080");
    assert_eq!(s.mode, AppMode::Toast);
}

#[test]
fn annotating_needs_a_capture_and_opens_a_fresh_editor() {
    let mut document = AnnotationDocument::new();
    document.add_marker(AnnotationPoint::new(3, 3));
    let mut s = state();
    assert!(!s.start_annotation(&mut document, false));
    assert_eq!(s.status, "Capture an image before annotating it");
    assert_eq!(s.mode, AppMode::Workspace);
    assert_eq!(document.add_marker(AnnotationPoint::new(4, 4)), 2);

    s.annotation_tool = AnnotationTool::Redact;
    s.annotation_text = "note".to_string();
    assert!(s.start_annotation(&mut document, true));
    assert_eq!(s.mode, AppMode::Annotate);
    assert_eq!(s.annotation_tool, AnnotationTool::Arrow);
    assert!(s.annotation_text.is_empty());
    assert!(s.annotation_drag_start.is_none());
    assert!(is_empty(&mut document));
}

#[test]
fn escape_in_the_editor_cancels_the_annotation() {
    let mut document = AnnotationDocument::new();
    document.add_marker(AnnotationPoint::new(3, 3));
    let mut s = state();
    s.mode = AppMode::Annotate;
    s.cancel_annotation(&mut document);
    assert_eq!(s.mode, AppMode::Workspace);
    assert_eq!(s.status, "Annotation cancelled");
    assert!(is_empty(&mut document));
}

#[test]
fn enter_in_the_editor_applies_and_reports_the_copy() {
    let mut document = AnnotationDocument::new();
    document.add_marker(AnnotationPoint::new(3, 3));
    let mut s = state();
    s.mode = AppMode::Annotate;
    s.finish_annotation(&mut document, Some(Ok(())));
    assert_eq!(s.mode, AppMode::Workspace);
    assert_eq!(s.status, "Annotations applied and screenshot copied");
    assert!(is_empty(&mut document));

    let mut failed = state();
    let mut other = AnnotationDocument::new();
    failed.finish_annotation(&mut other, Some(Err("clipboard is busy".to_string())));
    assert_eq!(failed.status, "Annotations applied, but clipboard copy failed: clipboard is busy");

    let mut none = state();
    let mut kept = AnnotationDocument::new();
    kept.add_marker(AnnotationPoint::new(3, 3));
    none.mode = AppMode::Annotate;
    none.finish_annotation(&mut kept, None);
    assert_eq!(none.mode, AppMode::Workspace);
    assert_eq!(none.status, "Ready");
    assert_eq!(kept.add_marker(AnnotationPoint::new(4, 4)), 2);
}

#[test]
fn c_in_the_editor_reports_the_copy() {
    let mut s = state();
    s.mode = AppMode::Annotate;
    s.annotation_copied(Ok(()));
    assert_eq!(s.status, "Annotated screenshot copied");
    s.annotation_copied(Err("clipboard is busy".to_string()));
    assert_eq!(s.status, "clipboard is busy");
    assert_eq!(s.mode, AppMode::Annotate);
}

#[test]
fn the_startup_checkbox_reports_or_goes_back() {
    let mut s = state();
    s.startup_enabled = true;
    s.startup_changed(true, Ok(()));
    assert!(s.startup_enabled);
    assert_eq!(s.status, "ProofSnip will start with Windows");
    s.startup_enabled = false;
    s.startup_changed(false, Ok(()));
    assert!(!s.startup_enabled);
    assert_eq!(s.status, "ProofSnip removed from Windows startup");
    s.startup_enabled = true;
    s.startup_changed(true, Err("could not open Run key: access denied".to_string()));
    assert!(!s.startup_enabled);
    assert_eq!(s.status, "could not open Run key: access denied");
}

#[test]
fn the_note_prompt_closes_back_to_the_workspace() {
    let mut s = state();
    s.mode = AppMode::Note;
    assert_eq!(s.close_note(true), WindowAction::HideWindow);
    assert_eq!(s.status, "Capture added to evidence");
    assert_eq!(s.mode, AppMode::Workspace);
    let mut t = state();
    t.mode = AppMode::Note;
    assert_eq!(t.close_note(false), WindowAction::HideWindow);
    assert_eq!(t.status, "Ready");
}

#[test]
fn exporting_needs_a_capture_and_closing_keeps_the_tray_running() {
    let mut s = state();
    assert!(!s.export_requested(0));
    assert_eq!(s.status, "Add at least one capture before exporting PDF");
    let mut t = state();
    assert!(t.export_requested(2));
    assert_eq!(t.status, "Ready");

    assert!(t.close_requested(true, false));
    assert_eq!(t.status, "ProofSnip is still running in the notification area");
    let mut u = state();
    assert!(!u.close_requested(true, true));
    assert!(!u.close_requested(false, false));
    assert_eq!(u.status, "Ready");
}

#[test]
fn errors_go_to_the_status_line() {
    let mut s = state();
    s.report("no visible active window is available".to_string());
    assert_eq!(s.status, "no visible active window is available");
}
