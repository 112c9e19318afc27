//! Decisions of the desktop shell: global hotkeys, the notification-area
//! icon, where the compact windows go, save dialogs and the checks made on
//! what the window system reports. The calls into the window system are
//! made by the caller.

use vstd::prelude::*;
use crate::region::{clamp_int, max_int, min_int, PixelRect};
use crate::text::chars_of;
use std::sync::mpsc::{Receiver, TryRecvError};

verus! {

// ----- hotkeys -----
/// What a global hotkey asks for.
#[derive(Clone, Copy, Debug, PartialEq, Eq)]
pub enum HotkeyEvent {
    CaptureRegion,
    CaptureSameRegion,
    ToggleWorkspace,
    CaptureMonitor,
    CaptureActiveWindow,
    CaptureNote,
}

/// The registration id of the hotkey for `event`.
pub open spec fn event_id(event: HotkeyEvent) -> i32 {
    match event {
        HotkeyEvent::CaptureRegion => 0x5053_0001,
        HotkeyEvent::CaptureSameRegion => 0x5053_0002,
        HotkeyEvent::ToggleWorkspace => 0x5053_0003,
        HotkeyEvent::CaptureMonitor => 0x5053_0004,
        HotkeyEvent::CaptureActiveWindow => 0x5053_0005,
        HotkeyEvent::CaptureNote => 0x5053_0006,
    }
}

/// The key that, with Ctrl and Alt, triggers `event`.
pub open spec fn event_key(event: HotkeyEvent) -> u8 {
    match event {
        HotkeyEvent::CaptureRegion => 83,
        HotkeyEvent::CaptureSameRegion => 82,
        HotkeyEvent::ToggleWorkspace => 87,
        HotkeyEvent::CaptureMonitor => 77,
        HotkeyEvent::CaptureActiveWindow => 65,
        HotkeyEvent::CaptureNote => 78,
    }
}

/// The hotkeys, in the order they are registered.
pub open spec fn hotkey_events() -> Seq<HotkeyEvent> {
    seq![
        HotkeyEvent::CaptureRegion,
        HotkeyEvent::CaptureSameRegion,
        HotkeyEvent::ToggleWorkspace,
        HotkeyEvent::CaptureMonitor,
        HotkeyEvent::CaptureActiveWindow,
        HotkeyEvent::CaptureNote,
    ]
}

/// A hotkey to register: its id, its key (with Ctrl and Alt) and the name
/// shown for it.
#[derive(Clone, Debug)]
pub struct HotkeyBinding {
    pub id: i32,
    pub key: u8,
    pub label: String,
}

/// The id of the hotkey for `event`.
pub fn hotkey_id(event: HotkeyEvent) -> (id: i32)
    ensures
        id == event_id(event),
{
    match event {
        HotkeyEvent::CaptureRegion => 0x5053_0001,
        HotkeyEvent::CaptureSameRegion => 0x5053_0002,
        HotkeyEvent::ToggleWorkspace => 0x5053_0003,
        HotkeyEvent::CaptureMonitor => 0x5053_0004,
        HotkeyEvent::CaptureActiveWindow => 0x5053_0005,
        HotkeyEvent::CaptureNote => 0x5053_0006,
    }
}

/// The hotkey event that a hotkey message with `id` reports, if `id` is
/// one of the registered ids.
pub fn hotkey_event(id: i32) -> (event: Option<HotkeyEvent>)
    ensures
        event is Some <==> exists|e: HotkeyEvent| event_id(e) == id,
        event matches Some(e) ==> event_id(e) == id,
{
    let event = if id == 0x5053_0001 {
        Some(HotkeyEvent::CaptureRegion)
    } else if id == 0x5053_0002 {
        Some(HotkeyEvent::CaptureSameRegion)
    } else if id == 0x5053_0003 {
        Some(HotkeyEvent::ToggleWorkspace)
    } else if id == 0x5053_0004 {
        Some(HotkeyEvent::CaptureMonitor)
    } else if id == 0x5053_0005 {
        Some(HotkeyEvent::CaptureActiveWindow)
    } else if id == 0x5053_0006 {
        Some(HotkeyEvent::CaptureNote)
    } else {
        None
    };
    proof {
        if event is Some {
            assert(event_id(event->0) == id);
        }
        if event is None {
            assert forall|e: HotkeyEvent| event_id(e) != id by {
                match e {
                    HotkeyEvent::CaptureRegion => {},
                    HotkeyEvent::CaptureSameRegion => {},
                    HotkeyEvent::ToggleWorkspace => {},
                    HotkeyEvent::CaptureMonitor => {},
                    HotkeyEvent::CaptureActiveWindow => {},
                    HotkeyEvent::CaptureNote => {},
                }
            }
        }
    }
    event
}

/// A hotkey message carries the id its hotkey was registered with, so every
/// event comes back from its own id, and no two events share an id.
pub proof fn lemma_hotkey_ids_round_trip(a: HotkeyEvent, b: HotkeyEvent)
    ensures
        event_id(a) == event_id(b) ==> a == b,
{
}

fn binding(event: HotkeyEvent, label: &str) -> (b: HotkeyBinding)
    ensures
        b.id == event_id(event),
        b.key == event_key(event),
        b.label@ == label@,
{
    let key: u8 = match event {
        HotkeyEvent::CaptureRegion => 83,
        HotkeyEvent::CaptureSameRegion => 82,
        HotkeyEvent::ToggleWorkspace => 87,
        HotkeyEvent::CaptureMonitor => 77,
        HotkeyEvent::CaptureActiveWindow => 65,
        HotkeyEvent::CaptureNote => 78,
    };
    HotkeyBinding { id: hotkey_id(event), key, label: String::from_str(label) }
}

/// The hotkeys to register, in order: Ctrl+Alt+S captures a region, R the
/// same region again, W toggles the workspace, M captures the monitor
/// under the cursor, A the active window, and N a region with a note.
pub fn hotkey_bindings() -> (bindings: Vec<HotkeyBinding>)
    ensures
        bindings@.len() == 6,
        forall|i: int|
            0 <= i < 6 ==> (#[trigger] bindings@[i]).id == event_id(hotkey_events()[i])
                && bindings@[i].key == event_key(hotkey_events()[i]),
        bindings@[0].label@ == "Ctrl+Alt+S"@,
        bindings@[1].label@ == "Ctrl+Alt+R"@,
        bindings@[2].label@ == "Ctrl+Alt+W"@,
        bindings@[3].label@ == "Ctrl+Alt+M"@,
        bindings@[4].label@ == "Ctrl+Alt+A"@,
        bindings@[5].label@ == "Ctrl+Alt+N"@,
{
    let mut bindings: Vec<HotkeyBinding> = Vec::new();
    bindings.push(binding(HotkeyEvent::CaptureRegion, "Ctrl+Alt+S"));
    bindings.push(binding(HotkeyEvent::CaptureSameRegion, "Ctrl+Alt+R"));
    bindings.push(binding(HotkeyEvent::ToggleWorkspace, "Ctrl+Alt+W"));
    bindings.push(binding(HotkeyEvent::CaptureMonitor, "Ctrl+Alt+M"));
    bindings.push(binding(HotkeyEvent::CaptureActiveWindow, "Ctrl+Alt+A"));
    bindings.push(binding(HotkeyEvent::CaptureNote, "Ctrl+Alt+N"));
    bindings
}

/// The ids of the hotkeys of `bindings` whose registration succeeded, the
/// `i`-th registration having ended with `outcomes[i]`, in order.
pub open spec fn registered_ids(bindings: Seq<HotkeyBinding>, outcomes: Seq<Result<(), String>>) -> Seq<i32>
    decreases bindings.len(),
{
    if bindings.len() == 0 || outcomes.len() == 0 {
        seq![]
    } else {
        let rest = registered_ids(bindings.drop_last(), outcomes.drop_last());
        match outcomes.last() {
            Ok(()) => rest.push(bindings.last().id),
            Err(_) => rest,
        }
    }
}

/// The messages for the registrations of `bindings` that failed, in order:
/// see `registration_error`.
pub open spec fn registration_errors(bindings: Seq<HotkeyBinding>, outcomes: Seq<Result<(), String>>) -> Seq<
    Seq<char>,
>
    decreases bindings.len(),
{
    if bindings.len() == 0 || outcomes.len() == 0 {
        seq![]
    } else {
        let rest = registration_errors(bindings.drop_last(), outcomes.drop_last());
        match outcomes.last() {
            Ok(()) => rest,
            Err(detail) => rest.push("could not register "@ + bindings.last().label@ + ": "@ + detail@),
        }
    }
}

/// What registering the hotkeys came to: the ids that were registered, to
/// be released later, and one message for each hotkey that failed, to be
/// sent to the program. With no id registered there is nothing to listen
/// for.
pub struct RegistrationReport {
    pub registered: Vec<i32>,
    pub errors: Vec<String>,
}

/// The report of registering `bindings`, the `i`-th registration having
/// ended with `outcomes[i]`.
pub fn registration_report(bindings: &Vec<HotkeyBinding>, outcomes: &Vec<Result<(), String>>) -> (r:
    RegistrationReport)
    requires
        bindings.len() == outcomes.len(),
    ensures
        r.registered@ == registered_ids(bindings@, outcomes@),
        r.errors@.len() == registration_errors(bindings@, outcomes@).len(),
        forall|k: int| 0 <= k < r.errors@.len() ==> (#[trigger] r.errors@[k])@ == registration_errors(bindings@, outcomes@)[k],
{
    let mut registered: Vec<i32> = Vec::new();
    let mut errors: Vec<String> = Vec::new();
    let mut i: usize = 0;
    while i < bindings.len()
        invariant
            bindings.len() == outcomes.len(),
            i <= bindings.len(),
            registered@ == registered_ids(bindings@.take(i as int), outcomes@.take(i as int)),
            errors@.len() == registration_errors(bindings@.take(i as int), outcomes@.take(i as int)).len(),
            forall|k: int| 0 <= k < errors@.len() ==> (#[trigger] errors@[k])@ == registration_errors(
                bindings@.take(i as int),
                outcomes@.take(i as int),
            )[k],
        decreases bindings.len() - i,
    {
        let ghost b1 = bindings@.take(i + 1);
        let ghost o1 = outcomes@.take(i + 1);
        assert(b1.drop_last() =~= bindings@.take(i as int));
        assert(o1.drop_last() =~= outcomes@.take(i as int));
        assert(b1.last() == bindings@[i as int]);
        assert(o1.last() == outcomes@[i as int]);
        match &outcomes[i] {
            Ok(()) => {
                registered.push(bindings[i].id);
            },
            Err(detail) => {
                let message = registration_error(bindings[i].label.as_str(), detail.as_str());
                errors.push(message);
            },
        }
        i = i + 1;
    }
    assert(bindings@.take(bindings.len() as int) =~= bindings@);
    assert(outcomes@.take(outcomes.len() as int) =~= outcomes@);
    RegistrationReport { registered, errors }
}

/// `std::sync::mpsc::Receiver`, carried through as an opaque value.
#[verifier::external_type_specification]
#[verifier::external_body]
#[verifier::reject_recursive_types(T)]
pub struct ExReceiver<T>(Receiver<T>);

/// `std::sync::mpsc::TryRecvError`, carried through as an opaque value.
#[verifier::external_type_specification]
#[verifier::external_body]
pub struct ExTryRecvError(TryRecvError);

/// `Receiver::try_recv`: the next message already sent on the channel, or
/// the reason there is none. Nothing is stated of the result, which
/// depends on what other threads have sent.
#[verifier::external_body]
fn receive_now<T>(receiver: &Receiver<T>) -> Result<T, TryRecvError> {
    receiver.try_recv()
}

/// The application's end of the channel on which the hotkey thread reports
/// hotkeys and registration failures.
pub struct HotkeyReceiver {
    receiver: Receiver<Result<HotkeyEvent, String>>,
}

impl HotkeyReceiver {
    /// The channel end that the reports are read from.
    pub closed spec fn channel(&self) -> Receiver<Result<HotkeyEvent, String>> {
        self.receiver
    }

    /// The application's end of a hotkey channel: it reads from `receiver`.
    pub fn new(receiver: Receiver<Result<HotkeyEvent, String>>) -> (r: Self)
        ensures
            r.channel() == receiver,
    {
        HotkeyReceiver { receiver }
    }

    /// The next report of the hotkey thread, if one is waiting; nothing when
    /// the channel is empty or closed.
    pub fn try_recv(&self) -> Option<Result<HotkeyEvent, String>> {
        match receive_now(&self.receiver) {
            Ok(report) => Some(report),
            Err(_) => None,
        }
    }
}

// ----- notification-area icon -----
/// What the notification-area icon asks of the application.
#[derive(Clone, Copy, Debug, PartialEq, Eq)]
pub enum TrayEvent {
    ShowWorkspace,
    Exit,
}

/// The application's end of the channel on which the icon's thread reports
/// what the user asked for.
pub struct TrayReceiver {
    receiver: Receiver<TrayEvent>,
}

impl TrayReceiver {
    /// The channel end that the requests are read from.
    pub closed spec fn channel(&self) -> Receiver<TrayEvent> {
        self.receiver
    }

    /// The application's end of a tray channel: it reads from `receiver`.
    pub fn new(receiver: Receiver<TrayEvent>) -> (r: Self)
        ensures
            r.channel() == receiver,
    {
        TrayReceiver { receiver }
    }

    /// The next request of the icon, or why there is none (the channel is
    /// empty, or the icon's thread has ended).
    pub fn try_recv(&self) -> Result<TrayEvent, TryRecvError> {
        receive_now(&self.receiver)
    }
}

/// What the icon's window does with a message.
#[derive(Clone, Copy, Debug, PartialEq, Eq)]
pub enum TrayAction {
    /// Tell the application, and report the message handled.
    Notify(TrayEvent),
    /// Open the icon's context menu, and report the message handled.
    ShowMenu,
    /// Tell the application to exit and destroy the icon's window.
    Exit,
    /// End the icon's message loop.
    Quit,
    /// Report the message handled and do nothing.
    Ignore,
    /// Leave the message to the default window procedure.
    PassOn,
}

/// The message the icon sends its window (`WM_APP + 1`).
pub const TRAY_MESSAGE: u32 = 0x8001;
/// The context-menu command that shows the workspace.
pub const MENU_SHOW: usize = 1;
/// The context-menu command that exits.
pub const MENU_EXIT: usize = 2;

/// What the icon's window does with window message `message`: a double
/// click on the icon shows the workspace, a right click opens the menu,
/// the menu's commands show the workspace or exit, and the window's
/// destruction ends the message loop.
pub open spec fn tray_action_of(message: u32, wparam: usize, lparam: isize) -> TrayAction {
    if message == TRAY_MESSAGE && lparam as u32 == 0x0203 {
        TrayAction::Notify(TrayEvent::ShowWorkspace)
    } else if message == TRAY_MESSAGE && lparam as u32 == 0x0205 {
        TrayAction::ShowMenu
    } else if message == 0x0111 {
        if wparam % 0x10000 == MENU_SHOW {
            TrayAction::Notify(TrayEvent::ShowWorkspace)
        } else if wparam % 0x10000 == MENU_EXIT {
            TrayAction::Exit
        } else {
            TrayAction::Ignore
        }
    } else if message == 0x0002 {
        TrayAction::Quit
    } else {
        TrayAction::PassOn
    }
}

/// What the icon's window does with a window message; see `tray_action_of`.
pub fn tray_action(message: u32, wparam: usize, lparam: isize) -> (action: TrayAction)
    ensures
        action == tray_action_of(message, wparam, lparam),
{
    let low = lparam as u32;
    let command = wparam & 0xffff;
    assert(wparam & 0xffff == wparam % 0x10000) by (bit_vector);
    if message == TRAY_MESSAGE && low == 0x0203 {
        TrayAction::Notify(TrayEvent::ShowWorkspace)
    } else if message == TRAY_MESSAGE && low == 0x0205 {
        TrayAction::ShowMenu
    } else if message == 0x0111 {
        if command == MENU_SHOW {
            TrayAction::Notify(TrayEvent::ShowWorkspace)
        } else if command == MENU_EXIT {
            TrayAction::Exit
        } else {
            TrayAction::Ignore
        }
    } else if message == 0x0002 {
        TrayAction::Quit
    } else {
        TrayAction::PassOn
    }
}

/// The UTF-16 code units of `c`.
pub open spec fn utf16_units(c: char) -> Seq<u16> {
    let v = c as u32;
    if v < 0x10000 {
        seq![v as u16]
    } else {
        let u = v - 0x10000;
        seq![(0xD800 + u / 0x400) as u16, (0xDC00 + u % 0x400) as u16]
    }
}

/// `s` encoded as UTF-16, as `str::encode_utf16` yields it.
pub open spec fn utf16(s: Seq<char>) -> Seq<u16>
    decreases s.len(),
{
    if s.len() == 0 {
        seq![]
    } else {
        utf16(s.drop_last()) + utf16_units(s.last())
    }
}

fn push_utf16(out: &mut Vec<u16>, c: char)
    ensures
        final(out)@ == old(out)@ + utf16_units(c),
{
    let v = c as u32;
    if v < 0x10000 {
        out.push(v as u16);
    } else {
        let u = v - 0x10000;
        out.push((0xD800 + u / 0x400) as u16);
        out.push((0xDC00 + u % 0x400) as u16);
    }
    assert(final(out)@ =~= old(out)@ + utf16_units(c));
}

/// `text` encoded as UTF-16.
pub fn encode_utf16(text: &str) -> (units: Vec<u16>)
    ensures
        units@ == utf16(text@),
{
    let v = chars_of(text);
    let mut units: Vec<u16> = Vec::new();
    let mut i: usize = 0;
    while i < v.len()
        invariant
            i <= v@.len(),
            v@ == text@,
            units@ == utf16(v@.subrange(0, i as int)),
        decreases v@.len() - i,
    {
        push_utf16(&mut units, v[i]);
        assert(v@.subrange(0, i + 1).drop_last() =~= v@.subrange(0, i as int));
        i = i + 1;
    }
    assert(v@.subrange(0, v@.len() as int) =~= v@);
    units
}

/// Writes `text` as NUL-terminated UTF-16 into the front of `buffer`: as
/// many units of the encoding and its terminating 0 as fit; the rest of the
/// buffer keeps what it held.
pub fn write_wide_buffer(buffer: &mut [u16], text: &str)
    ensures
        final(buffer)@.len() == old(buffer)@.len(),
        forall|i: int|
            0 <= i < old(buffer)@.len() ==> #[trigger] final(buffer)@[i] == (if i < utf16(text@).len() + 1 {
                utf16(text@).push(0u16)[i]
            } else {
                old(buffer)@[i]
            }),
{
    let mut units = encode_utf16(text);
    units.push(0);
    let n = buffer.len();
    let mut i: usize = 0;
    while i < n && i < units.len()
        invariant
            n == old(buffer)@.len(),
            buffer@.len() == n,
            units@ == utf16(text@).push(0u16),
            i <= n,
            i <= units@.len(),
            forall|k: int|
                0 <= k < n ==> #[trigger] buffer@[k] == (if k < i {
                    units@[k]
                } else {
                    old(buffer)@[k]
                }),
        decreases n - i,
    {
        buffer[i] = units[i];
        i = i + 1;
    }
}

// ----- window placement -----
/// Where a window is put on the desktop, in desktop pixels, and whether it
/// takes the keyboard focus.
#[derive(Clone, Copy, Debug, PartialEq, Eq)]
pub struct WindowPlacement {
    pub x: i32,
    pub y: i32,
    pub width: i32,
    pub height: i32,
    pub activate: bool,
}

/// `v` clamped to the range of `i32`: what saturating `i32` arithmetic gives.
pub open spec fn sat_i32(v: int) -> int {
    clamp_int(v, i32::MIN as int, i32::MAX as int)
}

fn saturate(v: i64) -> (r: i32)
    ensures
        r == sat_i32(v as int),
{
    if v < i32::MIN as i64 {
        i32::MIN
    } else if v > i32::MAX as i64 {
        i32::MAX
    } else {
        v as i32
    }
}

/// The completion toast: 350 by 60 pixels, its top-left corner 370 pixels
/// left of the capture's right edge and 84 above its bottom edge
/// (saturating), shown without taking the focus.
pub fn show_toast(anchor: PixelRect) -> (p: WindowPlacement)
    ensures
        p.x == sat_i32(anchor.right - 370),
        p.y == sat_i32(anchor.bottom - 84),
        p.width == 350,
        p.height == 60,
        !p.activate,
{
    WindowPlacement {
        x: saturate(anchor.right as i64 - 370),
        y: saturate(anchor.bottom as i64 - 84),
        width: 350,
        height: 60,
        activate: false,
    }
}

/// The note prompt: 560 by 150 pixels, left-aligned with the capture and 8
/// pixels below it (saturating), taking the focus.
pub fn show_note_prompt(anchor: PixelRect) -> (p: WindowPlacement)
    ensures
        p.x == anchor.left,
        p.y == sat_i32(anchor.bottom + 8),
        p.width == 560,
        p.height == 150,
        p.activate,
{
    WindowPlacement {
        x: anchor.left,
        y: saturate(anchor.bottom as i64 + 8),
        width: 560,
        height: 150,
        activate: true,
    }
}

/// The placement that makes the capture overlay cover `bounds`: its
/// corner, and its width and height as `PixelRect::width` and `height`
/// give them, read back as `i32`.
pub open spec fn overlay_at(bounds: PixelRect, activate: bool) -> WindowPlacement {
    WindowPlacement {
        x: bounds.left,
        y: bounds.top,
        width: bounds.spec_width() as u32 as i32,
        height: bounds.spec_height() as u32 as i32,
        activate,
    }
}

/// Where the capture overlay is shown to cover `bounds`, taking the focus.
pub fn overlay_placement(bounds: PixelRect) -> (p: WindowPlacement)
    ensures
        p == overlay_at(bounds, true),
{
    WindowPlacement {
        x: bounds.left,
        y: bounds.top,
        width: bounds.width() as i32,
        height: bounds.height() as i32,
        activate: true,
    }
}

/// Whether the overlay, now at `current`, has to be moved back to cover
/// `bounds`: nothing when it already does, else the placement (without
/// taking the focus).
pub fn ensure_overlay_bounds(current: PixelRect, bounds: PixelRect) -> (p: Option<WindowPlacement>)
    ensures
        current == bounds ==> p is None,
        current != bounds ==> p == Some(overlay_at(bounds, false)),
{
    if current.left == bounds.left && current.top == bounds.top && current.right == bounds.right
        && current.bottom == bounds.bottom {
        None
    } else {
        Some(
            WindowPlacement {
                x: bounds.left,
                y: bounds.top,
                width: bounds.width() as i32,
                height: bounds.height() as i32,
                activate: false,
            },
        )
    }
}

/// `a / b` rounded toward zero, as Rust divides integers.
pub open spec fn div_toward_zero(a: int, b: int) -> int {
    if a >= 0 {
        a / b
    } else {
        -((-a) / b)
    }
}

/// The workspace's extent along one axis of a work area `work` pixels
/// long, at `dpi`: `base` pixels at 96 dpi, scaled to `dpi`, at most the
/// work area less a 48-pixel margin, and at least `least` pixels or the
/// whole work area when it is smaller.
pub open spec fn workspace_extent(base: int, least: int, work: int, dpi: int) -> int {
    max_int(
        min_int(div_toward_zero(sat_i32(base * dpi), 96), sat_i32(work - 48)),
        min_int(least, work),
    )
}

/// The evidence workspace inside monitor work area `work` at `dpi` dots
/// per inch (at least 96 is used): 1040 by 720 pixels at 96 dpi, scaled,
/// kept within the work area less a margin and at least 720 by 520 pixels
/// where the work area allows, centered, taking the focus.
pub open spec fn workspace_at(work: PixelRect, dpi: u32) -> WindowPlacement {
    let d = (if dpi < 96 { 96 } else { dpi }) as i32 as int;
    let work_width = sat_i32(work.right - work.left);
    let work_height = sat_i32(work.bottom - work.top);
    let width = workspace_extent(1040, 720, work_width, d);
    let height = workspace_extent(720, 520, work_height, d);
    WindowPlacement {
        x: (work.left + (work_width - width) / 2) as i32,
        y: (work.top + (work_height - height) / 2) as i32,
        width: width as i32,
        height: height as i32,
        activate: true,
    }
}

fn extent(base: i32, least: i32, work: i32, dpi: i32) -> (e: i32)
    requires
        0 < least,
        0 < base <= 1040,
    ensures
        e == workspace_extent(base as int, least as int, work as int, dpi as int),
        e <= work,
        e >= min_int(least as int, work as int),
{
    let wide: i64 = base as i64;
    assert(-1040 * 0x8000_0000 <= wide * (dpi as i64) <= 1040 * 0x8000_0000) by (nonlinear_arith)
        requires
            0 < wide <= 1040,
            i32::MIN <= dpi <= i32::MAX,
    ;
    let scaled = saturate(wide * dpi as i64) / 96;
    let room = saturate(work as i64 - 48);
    let low = if least < work {
        least
    } else {
        work
    };
    let upper = if scaled < room {
        scaled
    } else {
        room
    };
    if upper > low {
        upper
    } else {
        low
    }
}

/// Where the evidence workspace is shown; see `workspace_at`.
pub fn workspace_placement(work: PixelRect, dpi: u32) -> (p: WindowPlacement)
    ensures
        p == workspace_at(work, dpi),
{
    let d = (if dpi < 96 {
        96
    } else {
        dpi
    }) as i32;
    let work_width = saturate(work.right as i64 - work.left as i64);
    let work_height = saturate(work.bottom as i64 - work.top as i64);
    let width = extent(1040, 720, work_width, d);
    let height = extent(720, 520, work_height, d);
    let x = work.left + (work_width - width) / 2;
    let y = work.top + (work_height - height) / 2;
    WindowPlacement { x, y, width, height, activate: true }
}

/// The bounds of the active window as a capture region: it must be a
/// visible window that is not minimized and whose bounds are not empty.
pub fn active_window_bounds(visible: bool, minimized: bool, rect: PixelRect) -> (res: Result<
    PixelRect,
    String,
>)
    ensures
        !visible ==> res is Err && res->Err_0@ == "no visible active window is available"@,
        visible && minimized ==> res is Err && res->Err_0@ == "the active window is minimized"@,
        visible && !minimized && rect.spec_is_empty() ==> res is Err && res->Err_0@
            == "the active window has empty bounds"@,
        visible && !minimized && !rect.spec_is_empty() ==> res == Ok::<PixelRect, String>(rect),
{
    if !visible {
        return Err(String::from_str("no visible active window is available"));
    }
    if minimized {
        return Err(String::from_str("the active window is minimized"));
    }
    if rect.is_empty() {
        return Err(String::from_str("the active window has empty bounds"));
    }
    Ok(rect)
}

// ----- save dialogs -----
/// How a save dialog is set up: the file name it proposes, the extension it
/// adds, its one file type (name and pattern), its title, whether it offers
/// only file-system paths, and whether it asks before a file is overwritten.
#[derive(Clone, Debug)]
pub struct SaveDialogRequest {
    pub default_filename: String,
    pub extension: String,
    pub filter_name: String,
    pub pattern: String,
    pub title: String,
    pub file_system_only: bool,
    pub overwrite_prompt: bool,
}

/// The dialog for exporting a PDF, proposing `default_filename`; how the
/// dialog ends becomes the chosen path by `dialog_result`.
pub fn choose_pdf_path(default_filename: &str) -> (r: SaveDialogRequest)
    ensures
        r.default_filename@ == default_filename@,
        r.extension@ == "pdf"@,
        r.filter_name@ == "PDF document"@,
        r.pattern@ == "*.pdf"@,
        r.title@ == "Export ProofSnip Evidence"@,
        r.file_system_only,
        r.overwrite_prompt,
{
    SaveDialogRequest {
        default_filename: String::from_str(default_filename),
        extension: String::from_str("pdf"),
        filter_name: String::from_str("PDF document"),
        pattern: String::from_str("*.pdf"),
        title: String::from_str("Export ProofSnip Evidence"),
        file_system_only: true,
        overwrite_prompt: true,
    }
}

/// The dialog for saving a PNG, proposing `default_filename`; how the
/// dialog ends becomes the chosen path by `dialog_result`.
pub fn choose_png_path(default_filename: &str) -> (r: SaveDialogRequest)
    ensures
        r.default_filename@ == default_filename@,
        r.extension@ == "png"@,
        r.filter_name@ == "PNG image"@,
        r.pattern@ == "*.png"@,
        r.title@ == "Save ProofSnip Capture"@,
        r.file_system_only,
        r.overwrite_prompt,
{
    SaveDialogRequest {
        default_filename: String::from_str(default_filename),
        extension: String::from_str("png"),
        filter_name: String::from_str("PNG image"),
        pattern: String::from_str("*.png"),
        title: String::from_str("Save ProofSnip Capture"),
        file_system_only: true,
        overwrite_prompt: true,
    }
}

/// Whether a save dialog that failed with result code `code` was cancelled
/// by the user (`HRESULT_FROM_WIN32(ERROR_CANCELLED)`), which is no error.
pub fn dialog_cancelled(code: u32) -> (b: bool)
    ensures
        b == (code == 0x8007_04c7),
{
    code == 0x8007_04c7
}

/// The calls that set up, show and read a save dialog, in the order they
/// are made.
#[derive(Clone, Copy, Debug, PartialEq, Eq, Structural)]
pub enum DialogStep {
    Create,
    SetFileTypes,
    SetOptions,
    SetDefaultExtension,
    SetFileName,
    SetTitle,
    Show,
    GetResult,
    GetDisplayName,
    ReadPath,
}

/// How a save dialog ended: a path was chosen, or a step failed with result
/// code `code` and the system text `detail`.
#[derive(Clone, Debug)]
pub enum DialogOutcome {
    Chosen(String),
    Failed { step: DialogStep, code: u32, detail: String },
}

/// The words that open the error message of a failed step.
pub open spec fn dialog_step_text(step: DialogStep) -> Seq<char> {
    match step {
        DialogStep::Create => "could not create save dialog"@,
        DialogStep::SetFileTypes => "could not configure save dialog"@,
        DialogStep::SetOptions => "could not configure save dialog options"@,
        DialogStep::SetDefaultExtension => "could not set file extension"@,
        DialogStep::SetFileName => "could not set default file name"@,
        DialogStep::SetTitle => "could not set save dialog title"@,
        DialogStep::Show => "save dialog failed"@,
        DialogStep::GetResult => "save dialog returned no file"@,
        DialogStep::GetDisplayName => "could not read selected file path"@,
        DialogStep::ReadPath => "selected file path was invalid"@,
    }
}

fn step_text(step: DialogStep) -> (text: &'static str)
    ensures
        text@ == dialog_step_text(step),
{
    proof {
        reveal_strlit("could not create save dialog");
        reveal_strlit("could not configure save dialog");
        reveal_strlit("could not configure save dialog options");
        reveal_strlit("could not set file extension");
        reveal_strlit("could not set default file name");
        reveal_strlit("could not set save dialog title");
        reveal_strlit("save dialog failed");
        reveal_strlit("save dialog returned no file");
        reveal_strlit("could not read selected file path");
        reveal_strlit("selected file path was invalid");
    }
    match step {
        DialogStep::Create => "could not create save dialog",
        DialogStep::SetFileTypes => "could not configure save dialog",
        DialogStep::SetOptions => "could not configure save dialog options",
        DialogStep::SetDefaultExtension => "could not set file extension",
        DialogStep::SetFileName => "could not set default file name",
        DialogStep::SetTitle => "could not set save dialog title",
        DialogStep::Show => "save dialog failed",
        DialogStep::GetResult => "save dialog returned no file",
        DialogStep::GetDisplayName => "could not read selected file path",
        DialogStep::ReadPath => "selected file path was invalid",
    }
}

/// What choosing a save path gives for the way the dialog ended: the chosen
/// path; nothing when showing the dialog was cancelled by the user (see
/// `dialog_cancelled`); else the error of the failed step, its words, `: `
/// and the system text.
pub fn dialog_result(outcome: DialogOutcome) -> (r: Result<Option<String>, String>)
    ensures
        match outcome {
            DialogOutcome::Chosen(path) => r == Ok::<Option<String>, String>(Some(path)),
            DialogOutcome::Failed { step, code, detail } => if step == DialogStep::Show && code
                == 0x8007_04c7 {
                r == Ok::<Option<String>, String>(None)
            } else {
                r is Err && r->Err_0@ == dialog_step_text(step) + ": "@ + detail@
            },
        },
{
    match outcome {
        DialogOutcome::Chosen(path) => Ok(Some(path)),
        DialogOutcome::Failed { step, code, detail } => {
            if step == DialogStep::Show && dialog_cancelled(code) {
                Ok(None)
            } else {
                let mut message = String::from_str(step_text(step));
                message.append(": ");
                message.append(detail.as_str());
                Err(message)
            }
        },
    }
}

// ----- start with Windows -----
/// The command that starts the program in the background at login: the
/// executable's path in double quotes, then ` --background`.
pub open spec fn startup_command_text(executable: Seq<char>) -> Seq<char> {
    "\""@ + executable + "\" --background"@
}

/// The command registered to start the program at login; see
/// `startup_command_text`.
pub fn startup_command(executable: &str) -> (command: String)
    ensures
        command@ == startup_command_text(executable@),
{
    let mut command = String::from_str("\"");
    command.append(executable);
    command.append("\" --background");
    command
}

/// The little-endian bytes of the code units `units`, two per unit.
pub open spec fn le_bytes(units: Seq<u16>) -> Seq<u8> {
    Seq::new(2 * units.len(), |i: int| if i % 2 == 0 { (units[i / 2] % 256) as u8 } else { (units[i / 2] / 256) as u8 })
}

/// The registry data for the startup command: the command as
/// NUL-terminated UTF-16, in the byte order of Windows (little-endian).
pub fn startup_value_bytes(command: &str) -> (bytes: Vec<u8>)
    ensures
        bytes@ == le_bytes(utf16(command@).push(0u16)),
{
    let mut units = encode_utf16(command);
    units.push(0);
    let ghost target = le_bytes(units@);
    let mut bytes: Vec<u8> = Vec::new();
    let mut i: usize = 0;
    while i < units.len()
        invariant
            i <= units@.len(),
            target == le_bytes(units@),
            bytes@.len() == 2 * i,
            forall|k: int| 0 <= k < 2 * i ==> #[trigger] bytes@[k] == target[k],
        decreases units@.len() - i,
    {
        let unit = units[i];
        bytes.push((unit % 256) as u8);
        bytes.push((unit / 256) as u8);
        proof {
            assert((2 * i) / 2 == i && (2 * i) % 2 == 0);
            assert((2 * i + 1) / 2 == i && (2 * i + 1) % 2 == 1);
        }
        i = i + 1;
    }
    assert(bytes@ =~= target);
    bytes
}

/// What a query of the startup entry that ended with `status` says: that
/// the entry exists (success), that it does not (file not found), or
/// nothing, when the query failed.
pub fn startup_query_result(status: u32) -> (enabled: Option<bool>)
    ensures
        status == 0 ==> enabled == Some(true),
        status == 2 ==> enabled == Some(false),
        status != 0 && status != 2 ==> enabled is None,
{
    if status == 0 {
        Some(true)
    } else if status == 2 {
        Some(false)
    } else {
        None
    }
}

/// Whether removing the startup entry, which ended with `status`, left the
/// program out of the startup list: it did when it succeeded or when there
/// was no entry.
pub fn startup_removed(status: u32) -> (removed: bool)
    ensures
        removed == (status == 0 || status == 2),
{
    status == 0 || status == 2
}

/// Whether the length `length` that the system reported for the executable
/// path, written into a buffer of `capacity` units, is a whole path: not
/// empty and not cut at the end of the buffer.
pub fn executable_path_complete(length: usize, capacity: usize) -> (complete: bool)
    ensures
        complete == (length != 0 && length < capacity),
{
    length != 0 && length < capacity
}

// ----- input -----
/// Whether a key whose asynchronous state is `state` is down: the top bit
/// of the state.
pub fn key_down(state: i16) -> (down: bool)
    ensures
        down == (state < 0),
{
    let bits = #[verifier::truncate] (state as u16);
    assert((bits & 0x8000) != 0 <==> state < 0) by (bit_vector)
        requires
            bits == #[verifier::truncate] (state as u16),
    ;
    (bits & 0x8000) != 0
}

// ----- error messages -----
/// The message sent when the hotkey shown as `label` could not be
/// registered, the system error reading `detail`.
pub fn registration_error(label: &str, detail: &str) -> (message: String)
    ensures
        message@ == "could not register "@ + label@ + ": "@ + detail@,
{
    let mut message = String::from_str("could not register ");
    message.append(label);
    message.append(": ");
    message.append(detail);
    message
}

/// The message for a failed desktop duplication, whose system error reads
/// `detail`.
pub fn capture_error(detail: &str) -> (message: String)
    ensures
        message@ == "desktop duplication failed: "@ + detail@,
{
    let mut message = String::from_str("desktop duplication failed: ");
    message.append(detail);
    message
}

/// The message for a failed system call `operation`, whose last error reads
/// `detail`.
pub fn last_error(operation: &str, detail: &str) -> (message: String)
    ensures
        message@ == operation@ + " failed: "@ + detail@,
{
    let mut message = String::from_str(operation);
    message.append(" failed: ");
    message.append(detail);
    message
}

/// The message for a registry operation described by `context` that ended
/// with a status whose system text reads `detail`.
pub fn status_error(context: &str, detail: &str) -> (message: String)
    ensures
        message@ == context@ + ": "@ + detail@,
{
    let mut message = String::from_str(context);
    message.append(": ");
    message.append(detail);
    message
}

} // verus!
