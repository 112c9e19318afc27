# Captur core

The verified library behind Captur, a Windows snipping and evidence-export
tool. Verus proves every function in `src/` against its contract. The
three that read the system clock or a message channel (`now_unix_ms` and
the receivers' `try_recv`) state nothing of what they return, as that
depends on the time or on other threads.

- `region`, `frame`, `compose`: desktop rectangles, BGRA frames (cropping,
  rotation, row packing, splitting tall captures into pages) and the
  stitching of per-monitor captures into one desktop frame.
- `canvas`, `annotations`: the annotation model (arrows, rectangles,
  highlights, text, redaction, numbered markers) and its rasterizer.
- `text`, `lines`, `calendar`: character classes, word wrapping and
  truncation, civil dates and UTC time stamps.
- `evidence`, `page`: evidence sessions, file names, and the page plan of an
  exported PDF document.
- `workspace`, `desktop`, `clock`: decisions of the user interface and the
  desktop shell (hotkeys, the notification-area icon, window placement,
  save dialogs, start at sign-in), and the system clock.
- `shell`: the program's screens and status line, as steps from the
  shell's state and what just happened to the next state and what the
  window system is asked to do.

`app/` holds the program shell: PDF drawing with printpdf, session folders
with serde, and egui previews. `tests/` exercises the library.
