use captur::desktop::{
    capture_error, executable_path_complete, key_down, last_error, startup_command, startup_query_result,
    startup_removed, startup_value_bytes, status_error, active_window_bounds, choose_pdf_path, choose_png_path, dialog_cancelled, dialog_result, registration_error, registration_report, DialogOutcome, DialogStep, encode_utf16, ensure_overlay_bounds,
    hotkey_bindings, hotkey_event, hotkey_id, overlay_placement, show_note_prompt, show_toast, tray_action,
    workspace_placement, write_wide_buffer, HotkeyEvent, HotkeyReceiver, TrayAction, TrayEvent, TrayReceiver,
    WindowPlacement,
};
use captur::region::PixelRect;
use std::sync::mpsc;

const EVENTS: [HotkeyEvent; 6] = [
    HotkeyEvent::CaptureRegion,
    HotkeyEvent::CaptureSameRegion,
    HotkeyEvent::ToggleWorkspace,
    HotkeyEvent::CaptureMonitor,
    HotkeyEvent::CaptureActiveWindow,
    HotkeyEvent::CaptureNote,
];

#[test]
fn hotkey_ids_come_back_as_their_events() {
    for event in EVENTS {
        assert_eq!(hotkey_event(hotkey_id(event)), Some(event));
    }
    assert_eq!(hotkey_id(HotkeyEvent::CaptureRegion), 0x5053_0001);
    assert_eq!(hotkey_event(0x5053_0007), None);
    assert_eq!(hotkey_event(0), None);
}

#[test]
fn hotkeys_are_registered_with_ctrl_alt_letters() {
    let bindings = hotkey_bindings();
    let keys: Vec<u8> = bindings.iter().map(|b| b.key).collect();
    assert_eq!(keys, b"SRWMAN".to_vec());
    let labels: Vec<&str> = bindings.iter().map(|b| b.label.as_str()).collect();
    assert_eq!(labels, vec!["Ctrl+Alt+S", "Ctrl+Alt+R", "Ctrl+Alt+W", "Ctrl+Alt+M", "Ctrl+Alt+A", "Ctrl+Alt+N"]);
    let ids: Vec<i32> = bindings.iter().map(|b| b.id).collect();
    assert_eq!(ids, EVENTS.iter().map(|e| hotkey_id(*e)).collect::<Vec<_>>());
}

#[test]
fn receivers_hand_over_what_was_sent() {
    let (sender, receiver) = mpsc::channel();
    let hotkeys = HotkeyReceiver::new(receiver);
    assert!(hotkeys.try_recv().is_none());
    sender.send(Ok(HotkeyEvent::CaptureNote)).unwrap();
    sender.send(Err("could not register Ctrl+Alt+S".to_string())).unwrap();
    assert_eq!(hotkeys.try_recv(), Some(Ok(HotkeyEvent::CaptureNote)));
    assert_eq!(hotkeys.try_recv(), Some(Err("could not register Ctrl+Alt+S".to_string())));
    drop(sender);
    assert!(hotkeys.try_recv().is_none());

    let (sender, receiver) = mpsc::channel();
    let tray = TrayReceiver::new(receiver);
    assert_eq!(tray.try_recv(), Err(mpsc::TryRecvError::Empty));
    sender.send(TrayEvent::Exit).unwrap();
    assert_eq!(tray.try_recv(), Ok(TrayEvent::Exit));
    drop(sender);
    assert_eq!(tray.try_recv(), Err(mpsc::TryRecvError::Disconnected));
}

#[test]
fn tray_messages_map_to_actions() {
    assert_eq!(tray_action(0x8001, 0, 0x0203), TrayAction::Notify(TrayEvent::ShowWorkspace));
    assert_eq!(tray_action(0x8001, 0, 0x0205), TrayAction::ShowMenu);
    assert_eq!(tray_action(0x8001, 0, 0x0200), TrayAction::PassOn);
    assert_eq!(tray_action(0x0111, 1, 0), TrayAction::Notify(TrayEvent::ShowWorkspace));
    assert_eq!(tray_action(0x0111, 0x0001_0002, 0), TrayAction::Exit);
    assert_eq!(tray_action(0x0111, 7, 0), TrayAction::Ignore);
    assert_eq!(tray_action(0x0002, 0, 0), TrayAction::Quit);
    assert_eq!(tray_action(0x000F, 0, 0), TrayAction::PassOn);
}

#[test]
fn tooltips_are_written_as_terminated_utf16() {
    let mut buffer = [7_u16; 8];
    write_wide_buffer(&mut buffer, "Captur");
    assert_eq!(buffer, [67, 97, 112, 116, 117, 114, 0, 7]);
    let mut small = [7_u16; 3];
    write_wide_buffer(&mut small, "Captur");
    assert_eq!(small, [67, 97, 112]);
    assert_eq!(encode_utf16("a😀é"), "a😀é".encode_utf16().collect::<Vec<u16>>());
}

#[test]
fn compact_windows_are_placed_by_the_capture() {
    let anchor = PixelRect { left: 100, top: 50, right: 900, bottom: 650 };
    assert_eq!(show_toast(anchor), WindowPlacement { x: 530, y: 566, width: 350, height: 60, activate: false });
    assert_eq!(show_note_prompt(anchor), WindowPlacement { x: 100, y: 658, width: 560, height: 150, activate: true });
    let corner = PixelRect { left: i32::MIN, top: 0, right: i32::MIN + 5, bottom: i32::MAX };
    assert_eq!(show_toast(corner).x, i32::MIN);
    assert_eq!(show_note_prompt(corner).y, i32::MAX);
}

#[test]
fn the_overlay_is_moved_only_when_it_drifted() {
    let bounds = PixelRect { left: -1920, top: 0, right: 1920, bottom: 1080 };
    assert_eq!(overlay_placement(bounds), WindowPlacement { x: -1920, y: 0, width: 3840, height: 1080, activate: true });
    assert_eq!(ensure_overlay_bounds(bounds, bounds), None);
    let moved = PixelRect { left: 0, ..bounds };
    assert_eq!(
        ensure_overlay_bounds(moved, bounds),
        Some(WindowPlacement { x: -1920, y: 0, width: 3840, height: 1080, activate: false })
    );
}

#[test]
fn the_workspace_is_scaled_and_centered() {
    let work = PixelRect { left: 0, top: 0, right: 1920, bottom: 1040 };
    assert_eq!(workspace_placement(work, 96), WindowPlacement { x: 440, y: 160, width: 1040, height: 720, activate: true });
    assert_eq!(workspace_placement(work, 72), workspace_placement(work, 96));
    // At 192 dpi both extents are capped by the work area less its margin.
    assert_eq!(workspace_placement(work, 192), WindowPlacement { x: 24, y: 24, width: 1872, height: 992, activate: true });
    let small = PixelRect { left: 10, top: 10, right: 610, bottom: 410 };
    assert_eq!(workspace_placement(small, 96), WindowPlacement { x: 10, y: 10, width: 600, height: 400, activate: true });
}

#[test]
fn active_windows_must_be_visible_restored_and_non_empty() {
    let rect = PixelRect { left: 1, top: 2, right: 3, bottom: 4 };
    assert_eq!(active_window_bounds(true, false, rect), Ok(rect));
    assert_eq!(active_window_bounds(false, false, rect).unwrap_err(), "no visible active window is available");
    assert_eq!(active_window_bounds(true, true, rect).unwrap_err(), "the active window is minimized");
    let flat = PixelRect { left: 1, top: 2, right: 1, bottom: 4 };
    assert_eq!(active_window_bounds(true, false, flat).unwrap_err(), "the active window has empty bounds");
}

#[test]
fn save_dialogs_are_set_up_for_their_file_type() {
    let pdf = choose_pdf_path("Evidence.pdf");
    assert_eq!(
        (pdf.default_filename.as_str(), pdf.extension.as_str(), pdf.filter_name.as_str(), pdf.pattern.as_str(), pdf.title.as_str()),
        ("Evidence.pdf", "pdf", "PDF document", "*.pdf", "Export ProofSnip Evidence")
    );
    let png = choose_png_path("001.png");
    assert_eq!(
        (png.extension.as_str(), png.filter_name.as_str(), png.pattern.as_str(), png.title.as_str()),
        ("png", "PNG image", "*.png", "Save ProofSnip Capture")
    );
    assert!(pdf.file_system_only && pdf.overwrite_prompt);
    assert!(png.file_system_only && png.overwrite_prompt);
    assert!(dialog_cancelled(0x8007_04c7));
    assert!(!dialog_cancelled(0x8000_4005));
}

#[test]
fn a_save_dialog_outcome_becomes_a_path_nothing_or_an_error() {
    let chosen = dialog_result(DialogOutcome::Chosen("C:\\Evidence\\report.pdf".to_string()));
    assert_eq!(chosen, Ok(Some("C:\\Evidence\\report.pdf".to_string())));
    let cancelled = DialogOutcome::Failed { step: DialogStep::Show, code: 0x8007_04c7, detail: "The operation was canceled by the user.".to_string() };
    assert_eq!(dialog_result(cancelled), Ok(None));
    let failed = DialogOutcome::Failed { step: DialogStep::Show, code: 0x8000_4005, detail: "Unspecified error".to_string() };
    assert_eq!(dialog_result(failed), Err("save dialog failed: Unspecified error".to_string()));
    let cases = [
        (DialogStep::Create, "could not create save dialog: boom"),
        (DialogStep::SetFileTypes, "could not configure save dialog: boom"),
        (DialogStep::SetOptions, "could not configure save dialog options: boom"),
        (DialogStep::SetDefaultExtension, "could not set file extension: boom"),
        (DialogStep::SetFileName, "could not set default file name: boom"),
        (DialogStep::SetTitle, "could not set save dialog title: boom"),
        (DialogStep::GetResult, "save dialog returned no file: boom"),
        (DialogStep::GetDisplayName, "could not read selected file path: boom"),
        (DialogStep::ReadPath, "selected file path was invalid: boom"),
    ];
    for (step, expected) in cases {
        // The cancel code only means "cancelled" when showing the dialog.
        let outcome = DialogOutcome::Failed { step, code: 0x8007_04c7, detail: "boom".to_string() };
        assert_eq!(dialog_result(outcome), Err(expected.to_string()));
    }
}

#[test]
fn a_failed_hotkey_registration_names_the_hotkey() {
    assert_eq!(
        registration_error("Ctrl+Alt+S", "Hot key is already registered."),
        "could not register Ctrl+Alt+S: Hot key is already registered."
    );
}

#[test]
fn startup_registration_runs_the_program_in_the_background() {
    let command = startup_command(r"C:\Program Files\Captur\captur.exe");
    assert_eq!(command, "\"C:\\Program Files\\Captur\\captur.exe\" --background");
    assert_eq!(startup_value_bytes("A\u{e9}"), vec![0x41, 0x00, 0xe9, 0x00, 0x00, 0x00]);
    assert_eq!(startup_value_bytes("\u{1F600}"), vec![0x3d, 0xd8, 0x00, 0xde, 0x00, 0x00]);
    assert_eq!(startup_query_result(0), Some(true));
    assert_eq!(startup_query_result(2), Some(false));
    assert_eq!(startup_query_result(5), None);
    assert!(startup_removed(0) && startup_removed(2) && !startup_removed(5));
    assert!(executable_path_complete(10, 32_768));
    assert!(!executable_path_complete(0, 32_768));
    assert!(!executable_path_complete(32_768, 32_768));
}

#[test]
fn the_top_bit_of_a_key_state_means_down() {
    assert!(key_down(i16::MIN));
    assert!(key_down(-32767));
    assert!(!key_down(1));
    assert!(!key_down(0));
}

#[test]
fn system_errors_are_worded_with_their_context() {
    assert_eq!(capture_error("access lost"), "desktop duplication failed: access lost");
    assert_eq!(last_error("GetDC", "The handle is invalid."), "GetDC failed: The handle is invalid.");
    assert_eq!(
        status_error("could not open Windows startup settings", "Access is denied."),
        "could not open Windows startup settings: Access is denied."
    );
}

#[test]
fn registering_hotkeys_keeps_the_ids_that_worked_and_reports_the_rest() {
    let bindings = hotkey_bindings();
    let mut outcomes: Vec<Result<(), String>> = vec![Ok(()); 6];
    outcomes[1] = Err("Hot key is already registered.".to_string());
    outcomes[4] = Err("Access is denied.".to_string());
    let report = registration_report(&bindings, &outcomes);
    assert_eq!(report.registered, vec![0x5053_0001, 0x5053_0003, 0x5053_0004, 0x5053_0006]);
    assert_eq!(
        report.errors,
        vec![
            "could not register Ctrl+Alt+R: Hot key is already registered.".to_string(),
            "could not register Ctrl+Alt+A: Access is denied.".to_string(),
        ]
    );
    let failed: Vec<Result<(), String>> = (0..6).map(|_| Err("no".to_string())).collect();
    let none = registration_report(&bindings, &failed);
    assert!(none.registered.is_empty());
    assert_eq!(none.errors.len(), 6);
}
