//! Captur: the verified core of a snipping and evidence-export tool.
//!
//! The library holds the pixel geometry of captures and how the captures of
//! several monitors make one desktop image, the annotation model and its
//! software rasterizer, the evidence-session model, the text and page
//! layout of exported documents, and the decisions of the desktop shell
//! (hotkeys, the notification-area icon, window placement). Talking to the
//! window system, the file system and the PDF writer is left to the caller.

pub mod region;
pub mod frame;
pub mod compose;
pub mod canvas;
pub mod annotations;
pub mod text;
pub mod lines;
pub mod calendar;
pub mod clock;
pub mod evidence;
pub mod page;
pub mod workspace;
pub mod desktop;
pub mod shell;
