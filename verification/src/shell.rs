//! The decisions of the program's shell: which screen it shows, what the
//! status line and the copy confirmation say, and what becomes of the
//! annotation editor and the overlay selection when a capture, an
//! annotation or a setting ends. Each decision is a step from the shell's
//! state and what just happened (a key, the outcome of a clipboard or
//! registry call) to the next state and what the window system is asked
//! to do; the caller makes the calls and hands their outcomes in.

use vstd::prelude::*;
use crate::annotations::{AnnotationDocument, AnnotationPoint, AnnotationTool};
use crate::region::PixelRect;
use crate::text::{decimal_string, decimal_text};
use crate::workspace::SelectionDrag;

verus! {

/// The screen the program shows.
#[derive(Clone, Copy, Debug, PartialEq, Eq, Structural)]
pub enum AppMode {
    /// The evidence workspace (or nothing, when it is hidden).
    Workspace,
    /// The full-screen region selection over a frozen desktop.
    Overlay,
    /// The prompt for a note on a capture.
    Note,
    /// The short confirmation after a copy.
    Toast,
    /// The annotation editor.
    Annotate,
}

/// What the window system is asked to do after a decision.
#[derive(Clone, Copy, Debug, PartialEq, Eq, Structural)]
pub enum WindowAction {
    Nothing,
    ShowWorkspace,
    HideWindow,
}

/// What a request to capture the last region again leads to.
#[derive(Clone, Copy, Debug, PartialEq, Eq)]
pub enum RepeatStep {
    /// Capture this region.
    Capture(PixelRect),
    /// There is none yet: show the workspace.
    ShowWorkspace,
}

/// The state the shell's decisions read and change.
pub struct ShellState {
    pub mode: AppMode,
    /// The status line of the workspace.
    pub status: String,
    /// Whether the program is registered to start at sign-in, as the
    /// settings checkbox shows it.
    pub startup_enabled: bool,
    /// Whether the workspace was visible when the current capture began.
    pub workspace_was_visible: bool,
    /// The drag on the capture overlay.
    pub selection: SelectionDrag,
    pub annotation_tool: AnnotationTool,
    /// Where a drag of the annotation editor began.
    pub annotation_drag_start: Option<AnnotationPoint>,
    /// The text the annotation editor's text tool places.
    pub annotation_text: String,
    /// What the copy confirmation says.
    pub toast_text: String,
}

/// The drag of a selection that has not begun.
pub open spec fn no_selection() -> SelectionDrag {
    SelectionDrag { start: None, end: None, pointer_down: false }
}

/// The copy confirmation for a capture of `width` by `height` pixels.
pub open spec fn toast_message(width: nat, height: nat) -> Seq<char> {
    "Copied · "@ + decimal_text(width) + " × "@ + decimal_text(height)
}

/// The status after the start-at-sign-in setting was changed to `enabled`.
pub open spec fn startup_message(enabled: bool) -> Seq<char> {
    if enabled {
        "ProofSnip will start with Windows"@
    } else {
        "ProofSnip removed from Windows startup"@
    }
}

impl ShellState {
    /// The state at start: the workspace, with `status` in the status line
    /// and the start-at-sign-in setting read as `startup_enabled`.
    pub fn new(status: String, startup_enabled: bool) -> (s: Self)
        ensures
            s.mode == AppMode::Workspace,
            s.status@ == status@,
            s.startup_enabled == startup_enabled,
            !s.workspace_was_visible,
            s.selection == no_selection(),
            s.annotation_tool == AnnotationTool::Arrow,
            s.annotation_drag_start is None,
            s.annotation_text@.len() == 0,
            s.toast_text@.len() == 0,
    {
        ShellState {
            mode: AppMode::Workspace,
            status,
            startup_enabled,
            workspace_was_visible: false,
            selection: SelectionDrag { start: None, end: None, pointer_down: false },
            annotation_tool: AnnotationTool::Arrow,
            annotation_drag_start: None,
            annotation_text: String::new(),
            toast_text: String::new(),
        }
    }

    /// Puts `message` (an error of a window-system call, most often) in the
    /// status line.
    pub fn report(&mut self, message: String)
        ensures
            final(self).status@ == message@,
            final(self).mode == old(self).mode,
            final(self).startup_enabled == old(self).startup_enabled,
            final(self).workspace_was_visible == old(self).workspace_was_visible,
            final(self).selection == old(self).selection,
            final(self).annotation_tool == old(self).annotation_tool,
            final(self).annotation_drag_start == old(self).annotation_drag_start,
            final(self).annotation_text@ == old(self).annotation_text@,
            final(self).toast_text@ == old(self).toast_text@,
    {
        self.status = message;
    }

    /// Leaves the capture overlay (Escape, or a capture that failed): the
    /// selection is dropped, the workspace comes back, and the window is
    /// shown again if it was visible when the capture began, else hidden.
    pub fn cancel_overlay(&mut self) -> (action: WindowAction)
        ensures
            action == (if old(self).workspace_was_visible {
                WindowAction::ShowWorkspace
            } else {
                WindowAction::HideWindow
            }),
            final(self).mode == AppMode::Workspace,
            final(self).selection == no_selection(),
            !final(self).workspace_was_visible,
            final(self).status@ == old(self).status@,
            final(self).startup_enabled == old(self).startup_enabled,
            final(self).annotation_tool == old(self).annotation_tool,
            final(self).annotation_drag_start == old(self).annotation_drag_start,
            final(self).annotation_text@ == old(self).annotation_text@,
            final(self).toast_text@ == old(self).toast_text@,
    {
        self.selection = SelectionDrag { start: None, end: None, pointer_down: false };
        self.mode = AppMode::Workspace;
        let action = if self.workspace_was_visible {
            WindowAction::ShowWorkspace
        } else {
            WindowAction::HideWindow
        };
        self.workspace_was_visible = false;
        action
    }

    /// A request to capture the last region again, `last_region` being the
    /// region of the last capture if there was one. Without one the status
    /// says so and the workspace is shown; with one, nothing changes yet.
    pub fn repeat_capture(&mut self, last_region: Option<PixelRect>) -> (step: RepeatStep)
        ensures
            match last_region {
                Some(region) => {
                    &&& step == RepeatStep::Capture(region)
                    &&& final(self).mode == old(self).mode
                    &&& final(self).status@ == old(self).status@
                },
                None => {
                    &&& step == RepeatStep::ShowWorkspace
                    &&& final(self).mode == AppMode::Workspace
                    &&& final(self).status@ == "No previous region is available yet"@
                },
            },
            final(self).startup_enabled == old(self).startup_enabled,
            final(self).workspace_was_visible == old(self).workspace_was_visible,
            final(self).selection == old(self).selection,
            final(self).annotation_tool == old(self).annotation_tool,
            final(self).annotation_drag_start == old(self).annotation_drag_start,
            final(self).annotation_text@ == old(self).annotation_text@,
            final(self).toast_text@ == old(self).toast_text@,
    {
        match last_region {
            Some(region) => RepeatStep::Capture(region),
            None => {
                self.status = String::from_str("No previous region is available yet");
                self.mode = AppMode::Workspace;
                RepeatStep::ShowWorkspace
            },
        }
    }

    /// The confirmation after a capture of `width` by `height` pixels was
    /// copied: its text, and the confirmation is shown.
    pub fn show_capture_toast(&mut self, width: u32, height: u32)
        ensures
            final(self).toast_text@ == toast_message(width as nat, height as nat),
            final(self).mode == AppMode::Toast,
            final(self).status@ == old(self).status@,
            final(self).startup_enabled == old(self).startup_enabled,
            final(self).workspace_was_visible == old(self).workspace_was_visible,
            final(self).selection == old(self).selection,
            final(self).annotation_tool == old(self).annotation_tool,
            final(self).annotation_drag_start == old(self).annotation_drag_start,
            final(self).annotation_text@ == old(self).annotation_text@,
    {
        let mut text = String::from_str("Copied · ");
        let w = decimal_string(width as u64);
        text.append(w.as_str());
        text.append(" × ");
        let h = decimal_string(height as u64);
        text.append(h.as_str());
        self.toast_text = text;
        self.mode = AppMode::Toast;
    }

    /// A request to annotate the latest capture, `has_capture` telling
    /// whether there is one. Without one the status says so and nothing
    /// else changes; with one the editor opens on an empty document with the
    /// arrow tool, no drag and no text.
    pub fn start_annotation(&mut self, document: &mut AnnotationDocument, has_capture: bool) -> (started: bool)
        ensures
            started == has_capture,
            !has_capture ==> {
                &&& final(self).status@ == "Capture an image before annotating it"@
                &&& final(self).mode == old(self).mode
                &&& final(self).annotation_tool == old(self).annotation_tool
                &&& final(self).annotation_drag_start == old(self).annotation_drag_start
                &&& final(self).annotation_text@ == old(self).annotation_text@
                &&& final(document)@ == old(document)@
                &&& final(document).next_marker() == old(document).next_marker()
            },
            has_capture ==> {
                &&& final(self).status@ == old(self).status@
                &&& final(self).mode == AppMode::Annotate
                &&& final(self).annotation_tool == AnnotationTool::Arrow
                &&& final(self).annotation_drag_start is None
                &&& final(self).annotation_text@.len() == 0
                &&& final(document)@.len() == 0
                &&& final(document).next_marker() == 1
            },
            final(self).startup_enabled == old(self).startup_enabled,
            final(self).workspace_was_visible == old(self).workspace_was_visible,
            final(self).selection == old(self).selection,
            final(self).toast_text@ == old(self).toast_text@,
    {
        if !has_capture {
            self.status = String::from_str("Capture an image before annotating it");
            return false;
        }
        document.clear();
        self.annotation_tool = AnnotationTool::Arrow;
        self.annotation_drag_start = None;
        self.annotation_text = String::new();
        self.mode = AppMode::Annotate;
        true
    }

    /// Escape in the annotation editor: the annotations are dropped and the
    /// workspace comes back, saying so.
    pub fn cancel_annotation(&mut self, document: &mut AnnotationDocument)
        ensures
            final(document)@.len() == 0,
            final(document).next_marker() == 1,
            final(self).mode == AppMode::Workspace,
            final(self).status@ == "Annotation cancelled"@,
            final(self).startup_enabled == old(self).startup_enabled,
            final(self).workspace_was_visible == old(self).workspace_was_visible,
            final(self).selection == old(self).selection,
            final(self).annotation_tool == old(self).annotation_tool,
            final(self).annotation_drag_start == old(self).annotation_drag_start,
            final(self).annotation_text@ == old(self).annotation_text@,
            final(self).toast_text@ == old(self).toast_text@,
    {
        document.clear();
        self.mode = AppMode::Workspace;
        self.status = String::from_str("Annotation cancelled");
    }

    /// Enter in the annotation editor, after the annotated image was made
    /// the latest capture and copied: `copied` is the outcome of the copy,
    /// or `None` when there was no image to annotate. The workspace comes
    /// back; with an image the annotations are dropped and the status tells
    /// whether the copy worked.
    pub fn finish_annotation(&mut self, document: &mut AnnotationDocument, copied: Option<Result<(), String>>)
        ensures
            final(self).mode == AppMode::Workspace,
            match copied {
                None => {
                    &&& final(self).status@ == old(self).status@
                    &&& final(document)@ == old(document)@
                    &&& final(document).next_marker() == old(document).next_marker()
                },
                Some(Ok(())) => {
                    &&& final(self).status@ == "Annotations applied and screenshot copied"@
                    &&& final(document)@.len() == 0
                    &&& final(document).next_marker() == 1
                },
                Some(Err(error)) => {
                    &&& final(self).status@ == "Annotations applied, but clipboard copy failed: "@
                        + error@
                    &&& final(document)@.len() == 0
                    &&& final(document).next_marker() == 1
                },
            },
            final(self).startup_enabled == old(self).startup_enabled,
            final(self).workspace_was_visible == old(self).workspace_was_visible,
            final(self).selection == old(self).selection,
            final(self).annotation_tool == old(self).annotation_tool,
            final(self).annotation_drag_start == old(self).annotation_drag_start,
            final(self).annotation_text@ == old(self).annotation_text@,
            final(self).toast_text@ == old(self).toast_text@,
    {
        match copied {
            None => {
                self.mode = AppMode::Workspace;
            },
            Some(result) => {
                document.clear();
                self.mode = AppMode::Workspace;
                match result {
                    Ok(()) => {
                        self.status = String::from_str("Annotations applied and screenshot copied");
                    },
                    Err(error) => {
                        let mut message = String::from_str("Annotations applied, but clipboard copy failed: ");
                        message.append(error.as_str());
                        self.status = message;
                    },
                }
            },
        }
    }

    /// C in the annotation editor, after the annotated image was copied
    /// with outcome `copied`: the status tells whether it worked.
    pub fn annotation_copied(&mut self, copied: Result<(), String>)
        ensures
            match copied {
                Ok(()) => final(self).status@ == "Annotated screenshot copied"@,
                Err(error) => final(self).status@ == error@,
            },
            final(self).mode == old(self).mode,
            final(self).startup_enabled == old(self).startup_enabled,
            final(self).workspace_was_visible == old(self).workspace_was_visible,
            final(self).selection == old(self).selection,
            final(self).annotation_tool == old(self).annotation_tool,
            final(self).annotation_drag_start == old(self).annotation_drag_start,
            final(self).annotation_text@ == old(self).annotation_text@,
            final(self).toast_text@ == old(self).toast_text@,
    {
        match copied {
            Ok(()) => {
                self.status = String::from_str("Annotated screenshot copied");
            },
            Err(error) => {
                self.status = error;
            },
        }
    }

    /// The settings checkbox was changed to `enabled` and the registry call
    /// ended with `result`. On success the status says what now holds; on
    /// failure the checkbox goes back and the status holds the error.
    pub fn startup_changed(&mut self, enabled: bool, result: Result<(), String>)
        ensures
            match result {
                Ok(()) => {
                    &&& final(self).startup_enabled == old(self).startup_enabled
                    &&& final(self).status@ == startup_message(enabled)
                },
                Err(error) => {
                    &&& final(self).startup_enabled == !enabled
                    &&& final(self).status@ == error@
                },
            },
            final(self).mode == old(self).mode,
            final(self).workspace_was_visible == old(self).workspace_was_visible,
            final(self).selection == old(self).selection,
            final(self).annotation_tool == old(self).annotation_tool,
            final(self).annotation_drag_start == old(self).annotation_drag_start,
            final(self).annotation_text@ == old(self).annotation_text@,
            final(self).toast_text@ == old(self).toast_text@,
    {
        match result {
            Ok(()) => {
                self.status = if enabled {
                    String::from_str("ProofSnip will start with Windows")
                } else {
                    String::from_str("ProofSnip removed from Windows startup")
                };
            },
            Err(error) => {
                self.startup_enabled = !enabled;
                self.status = error;
            },
        }
    }

    /// The note prompt closed: `added` tells whether Enter added the capture
    /// to the evidence with its note (Escape, or a prompt without a capture,
    /// adds nothing). The prompt is hidden and the workspace comes back.
    pub fn close_note(&mut self, added: bool) -> (action: WindowAction)
        ensures
            action == WindowAction::HideWindow,
            final(self).mode == AppMode::Workspace,
            added ==> final(self).status@ == "Capture added to evidence"@,
            !added ==> final(self).status@ == old(self).status@,
            final(self).startup_enabled == old(self).startup_enabled,
            final(self).workspace_was_visible == old(self).workspace_was_visible,
            final(self).selection == old(self).selection,
            final(self).annotation_tool == old(self).annotation_tool,
            final(self).annotation_drag_start == old(self).annotation_drag_start,
            final(self).annotation_text@ == old(self).annotation_text@,
            final(self).toast_text@ == old(self).toast_text@,
    {
        if added {
            self.status = String::from_str("Capture added to evidence");
        }
        self.mode = AppMode::Workspace;
        WindowAction::HideWindow
    }

    /// A request to export the session, which holds `captures` captures:
    /// whether to go on (ask for a path). With none the status says that
    /// one is needed.
    pub fn export_requested(&mut self, captures: usize) -> (go_on: bool)
        ensures
            go_on == (captures > 0),
            captures == 0 ==> final(self).status@ == "Add at least one capture before exporting PDF"@,
            captures > 0 ==> final(self).status@ == old(self).status@,
            final(self).mode == old(self).mode,
            final(self).startup_enabled == old(self).startup_enabled,
            final(self).workspace_was_visible == old(self).workspace_was_visible,
            final(self).selection == old(self).selection,
            final(self).annotation_tool == old(self).annotation_tool,
            final(self).annotation_drag_start == old(self).annotation_drag_start,
            final(self).annotation_text@ == old(self).annotation_text@,
            final(self).toast_text@ == old(self).toast_text@,
    {
        if captures == 0 {
            self.status = String::from_str("Add at least one capture before exporting PDF");
            return false;
        }
        true
    }

    /// The main window was asked to close. With a notification-area icon
    /// (`has_tray`) and no exit chosen from it, the program keeps running:
    /// the close is refused, the window hidden and the status says so.
    pub fn close_requested(&mut self, has_tray: bool, exit_requested: bool) -> (keep_running: bool)
        ensures
            keep_running == (has_tray && !exit_requested),
            keep_running ==> final(self).status@ == "ProofSnip is still running in the notification area"@,
            !keep_running ==> final(self).status@ == old(self).status@,
            final(self).mode == old(self).mode,
            final(self).startup_enabled == old(self).startup_enabled,
            final(self).workspace_was_visible == old(self).workspace_was_visible,
            final(self).selection == old(self).selection,
            final(self).annotation_tool == old(self).annotation_tool,
            final(self).annotation_drag_start == old(self).annotation_drag_start,
            final(self).annotation_text@ == old(self).annotation_text@,
            final(self).toast_text@ == old(self).toast_text@,
    {
        if has_tray && !exit_requested {
            self.status = String::from_str("ProofSnip is still running in the notification area");
            return true;
        }
        false
    }
}

} // verus!
