//! Decisions of the evidence workspace: the tone a status message is shown
//! in, and the annotation a drag on the image makes.

use vstd::prelude::*;
use crate::annotations::{AnnotationItem, AnnotationPoint, AnnotationTool};
use crate::region::{max_int, min_int, PixelPoint, PixelRect};
use crate::text::{chars_of, decimal_string, decimal_text, trim_ws, trimmed};

verus! {

/// How a status message is presented.
#[derive(Clone, Copy, Debug, PartialEq, Eq)]
pub enum StatusTone {
    Neutral,
    Accent,
    Success,
    Warning,
    Danger,
}

/// `c` with ASCII capitals turned into small letters.
pub open spec fn ascii_lower(c: char) -> char {
    if 'A' <= c <= 'Z' {
        ((c as u32) + 32) as char
    } else {
        c
    }
}

/// `s` with ASCII capitals turned into small letters, as
/// `str::to_ascii_lowercase` gives it.
pub open spec fn lowercase(s: Seq<char>) -> Seq<char> {
    s.map_values(|c: char| ascii_lower(c))
}

/// Whether `needle` occurs in `s`.
pub open spec fn has_part(s: Seq<char>, needle: Seq<char>) -> bool {
    exists|i: int| 0 <= i <= s.len() - needle.len() && #[trigger] s.subrange(i, i + needle.len()) == needle
}

/// The tone of a status message whose text, lowercased, is `s`: danger for
/// failures, accent for work in progress, warning for cancellations,
/// success for completed work, else neutral; the first that matches wins.
pub open spec fn tone_of(s: Seq<char>) -> StatusTone {
    if has_part(s, "failed"@) || has_part(s, "error"@) || has_part(s, "could not"@) || has_part(
        s,
        "unavailable"@,
    ) {
        StatusTone::Danger
    } else if has_part(s, "saving"@) || has_part(s, "exporting"@) {
        StatusTone::Accent
    } else if has_part(s, "cancel"@) || has_part(s, "no previous"@) {
        StatusTone::Warning
    } else if has_part(s, "copied"@) || has_part(s, "saved"@) || has_part(s, "exported"@) || has_part(
        s,
        "added"@,
    ) || has_part(s, "applied"@) || has_part(s, "updated"@) || has_part(s, "ready"@) {
        StatusTone::Success
    } else {
        StatusTone::Neutral
    }
}

fn lowercase_chars(v: &Vec<char>) -> (out: Vec<char>)
    ensures
        out@ == lowercase(v@),
{
    let mut out: Vec<char> = Vec::new();
    let mut i: usize = 0;
    while i < v.len()
        invariant
            i <= v@.len(),
            out@ == lowercase(v@.subrange(0, i as int)),
        decreases v@.len() - i,
    {
        let c = v[i];
        let lower = if 'A' <= c && c <= 'Z' {
            ((c as u8) + 32) as char
        } else {
            c
        };
        assert(lower == ascii_lower(c)) by {
            if 'A' <= c <= 'Z' {
                assert((c as u8) as u32 == c as u32);
            }
        }
        out.push(lower);
        assert(out@ =~= lowercase(v@.subrange(0, i + 1)));
        i = i + 1;
    }
    assert(v@.subrange(0, v@.len() as int) =~= v@);
    out
}

/// Whether `needle` occurs in `hay`.
fn contains_part(hay: &Vec<char>, needle: &str) -> (found: bool)
    ensures
        found == has_part(hay@, needle@),
{
    let pat = chars_of(needle);
    let n = hay.len();
    let m = pat.len();
    if m > n {
        return false;
    }
    let last = n - m;
    let mut i: usize = 0;
    loop
        invariant
            n == hay@.len(),
            m == pat@.len(),
            last == n - m,
            i <= last,
            pat@ == needle@,
            forall|k: int| 0 <= k < i ==> #[trigger] hay@.subrange(k, k + m) != pat@,
        decreases last - i,
    {
        let mut j: usize = 0;
        let mut same = true;
        while j < m
            invariant
                n == hay@.len(),
                m == pat@.len(),
                i <= last,
                last == n - m,
                j <= m,
                same == (forall|q: int| 0 <= q < j ==> hay@[i + q] == pat@[q]),
            decreases m - j,
        {
            if hay[i + j] != pat[j] {
                same = false;
            }
            j = j + 1;
        }
        if same {
            assert(hay@.subrange(i as int, i + m) =~= pat@);
            return true;
        }
        assert(hay@.subrange(i as int, i + m) != pat@) by {
            let q = choose|q: int| 0 <= q < m && hay@[i + q] != pat@[q];
            assert(hay@.subrange(i as int, i + m)[q] == hay@[i + q]);
        }
        if i == last {
            assert forall|k: int| 0 <= k <= hay@.len() - needle@.len() implies #[trigger] hay@.subrange(
                k,
                k + needle@.len(),
            ) != needle@ by {
                if k < i {
                } else {
                    assert(k == i);
                }
            }
            return false;
        }
        i = i + 1;
    }
}

/// The tone a status message is shown in; see `tone_of`.
pub fn status_tone(status: &str) -> (tone: StatusTone)
    ensures
        tone == tone_of(lowercase(status@)),
{
    let lower = lowercase_chars(&chars_of(status));
    if contains_part(&lower, "failed") || contains_part(&lower, "error") || contains_part(&lower, "could not")
        || contains_part(&lower, "unavailable") {
        StatusTone::Danger
    } else if contains_part(&lower, "saving") || contains_part(&lower, "exporting") {
        StatusTone::Accent
    } else if contains_part(&lower, "cancel") || contains_part(&lower, "no previous") {
        StatusTone::Warning
    } else if contains_part(&lower, "copied") || contains_part(&lower, "saved") || contains_part(
        &lower,
        "exported",
    ) || contains_part(&lower, "added") || contains_part(&lower, "applied") || contains_part(
        &lower,
        "updated",
    ) || contains_part(&lower, "ready") {
        StatusTone::Success
    } else {
        StatusTone::Neutral
    }
}

/// The annotation that dragging `tool` from `start` to `end` makes: none
/// for a drag that does not move or for a tool that is not dragged (text
/// and markers); arrows and rectangles are 4 pixels thick and redactions
/// use 12-pixel blocks.
pub open spec fn drag_item(tool: AnnotationTool, start: AnnotationPoint, end: AnnotationPoint) -> Option<
    AnnotationItem,
> {
    if start == end {
        None
    } else {
        match tool {
            AnnotationTool::Arrow => Some(AnnotationItem::Arrow { start, end, thickness: 4 }),
            AnnotationTool::Rectangle => Some(AnnotationItem::Rectangle { start, end, thickness: 4 }),
            AnnotationTool::Highlight => Some(AnnotationItem::Highlight { start, end }),
            AnnotationTool::Redact => Some(AnnotationItem::Redact { start, end, block_size: 12 }),
            AnnotationTool::Text | AnnotationTool::Marker => None,
        }
    }
}

/// The annotation that a drag with `tool` from `start` to `end` makes; see
/// `drag_item`.
pub fn annotation_for_drag(tool: AnnotationTool, start: AnnotationPoint, end: AnnotationPoint) -> (item:
    Option<AnnotationItem>)
    ensures
        item == drag_item(tool, start, end),
{
    if start.x == end.x && start.y == end.y {
        return None;
    }
    match tool {
        AnnotationTool::Arrow => Some(AnnotationItem::Arrow { start, end, thickness: 4 }),
        AnnotationTool::Rectangle => Some(AnnotationItem::Rectangle { start, end, thickness: 4 }),
        AnnotationTool::Highlight => Some(AnnotationItem::Highlight { start, end }),
        AnnotationTool::Redact => Some(AnnotationItem::Redact { start, end, block_size: 12 }),
        AnnotationTool::Text | AnnotationTool::Marker => None,
    }
}

/// The drag that selects a region on the capture overlay: where it
/// started and reached, and whether the primary button was down at the
/// last look.
#[derive(Clone, Copy, Debug, Default, PartialEq, Eq)]
pub struct SelectionDrag {
    pub start: Option<PixelPoint>,
    pub end: Option<PixelPoint>,
    pub pointer_down: bool,
}

/// The rectangle spanned by two points.
pub open spec fn spanned(a: PixelPoint, b: PixelPoint) -> PixelRect {
    PixelRect {
        left: min_int(a.x as int, b.x as int) as i32,
        top: min_int(a.y as int, b.y as int) as i32,
        right: max_int(a.x as int, b.x as int) as i32,
        bottom: max_int(a.y as int, b.y as int) as i32,
    }
}

/// The drag after a look at the pointer, with the cursor at `cursor` (when
/// it could be read) and the button `down`: a press starts the drag at the
/// cursor, moving with the button down extends it, and the button state is
/// remembered.
pub open spec fn next_drag(drag: SelectionDrag, cursor: Option<PixelPoint>, down: bool) -> SelectionDrag {
    let pressed = down && !drag.pointer_down;
    if pressed {
        SelectionDrag { start: cursor, end: cursor, pointer_down: down }
    } else if down && drag.start is Some {
        SelectionDrag { start: drag.start, end: cursor, pointer_down: down }
    } else {
        SelectionDrag { pointer_down: down, ..drag }
    }
}

/// The region a look at the pointer completes: on release of the button,
/// the rectangle from the start of the drag to the cursor (or, when the
/// cursor cannot be read, to where the drag last reached), clamped to
/// `bounds`, provided it is more than one pixel wide and tall.
pub open spec fn released_region(drag: SelectionDrag, cursor: Option<PixelPoint>, down: bool, bounds: PixelRect) -> Option<
    PixelRect,
> {
    let next = next_drag(drag, cursor, down);
    let released = !down && drag.pointer_down;
    let reach = if cursor is Some { cursor } else { next.end };
    if released && next.start is Some && reach is Some {
        let r = spanned(next.start->0, reach->0).clamp_to_spec(bounds);
        if !r.spec_is_empty() && r.spec_width() > 1 && r.spec_height() > 1 {
            Some(r)
        } else {
            None
        }
    } else {
        None
    }
}

/// One look at the pointer during a region selection; see `next_drag` and
/// `released_region`.
pub fn track_selection(drag: SelectionDrag, cursor: Option<PixelPoint>, down: bool, bounds: PixelRect) -> (r: (
    SelectionDrag,
    Option<PixelRect>,
))
    requires
        bounds.is_ordered(),
    ensures
        r.0 == next_drag(drag, cursor, down),
        r.1 == released_region(drag, cursor, down, bounds),
{
    let pressed = down && !drag.pointer_down;
    let released = !down && drag.pointer_down;
    let mut next = drag;
    next.pointer_down = down;
    if pressed {
        next.start = cursor;
        next.end = cursor;
    } else if down && next.start.is_some() {
        next.end = cursor;
    }
    let reach = match cursor {
        Some(point) => Some(point),
        None => next.end,
    };
    let mut selected: Option<PixelRect> = None;
    if released {
        if let (Some(start), Some(end)) = (next.start, reach) {
            let region = PixelRect::from_points(start, end).clamp_to(bounds);
            if !region.is_empty() && region.width() > 1 && region.height() > 1 {
                selected = Some(region);
            }
        }
    }
    (next, selected)
}

/// The region the overlay shows while dragging: the rectangle from the
/// start of the drag to where it reached, clamped to `bounds`; nothing
/// before a drag has started.
pub fn selection_preview(drag: SelectionDrag, bounds: PixelRect) -> (r: Option<PixelRect>)
    requires
        bounds.is_ordered(),
    ensures
        (drag.start is Some && drag.end is Some) ==> r == Some(
            spanned(drag.start->0, drag.end->0).clamp_to_spec(bounds),
        ),
        !(drag.start is Some && drag.end is Some) ==> r is None,
{
    match (drag.start, drag.end) {
        (Some(start), Some(end)) => Some(PixelRect::from_points(start, end).clamp_to(bounds)),
        _ => None,
    }
}

/// "W × H", the size shown next to a selection.
pub fn selection_label(region: PixelRect) -> (label: String)
    ensures
        label@ == decimal_text(region.spec_width() as nat) + " × "@ + decimal_text(region.spec_height() as nat),
{
    let mut label = decimal_string(region.width() as u64);
    label.append(" × ");
    let h = decimal_string(region.height() as u64);
    label.append(h.as_str());
    label
}

/// A region completed by a release lies inside the overlay's bounds and is
/// at least two pixels wide and tall.
pub proof fn lemma_released_region_inside(drag: SelectionDrag, cursor: Option<PixelPoint>, down: bool, bounds: PixelRect)
    requires
        bounds.is_ordered(),
        released_region(drag, cursor, down, bounds) is Some,
    ensures
        ({
            let r = released_region(drag, cursor, down, bounds)->0;
            &&& bounds.left <= r.left < r.right <= bounds.right
            &&& bounds.top <= r.top < r.bottom <= bounds.bottom
            &&& r.spec_width() >= 2
            &&& r.spec_height() >= 2
        }),
{
}

/// The annotation tool a key selects: A arrow, R rectangle, H highlight,
/// T text, B redaction (blur), 1 number marker.
pub open spec fn key_tool(key: char) -> Option<AnnotationTool> {
    if key == 'A' {
        Some(AnnotationTool::Arrow)
    } else if key == 'R' {
        Some(AnnotationTool::Rectangle)
    } else if key == 'H' {
        Some(AnnotationTool::Highlight)
    } else if key == 'T' {
        Some(AnnotationTool::Text)
    } else if key == 'B' {
        Some(AnnotationTool::Redact)
    } else if key == '1' {
        Some(AnnotationTool::Marker)
    } else {
        None
    }
}

/// The annotation tool that pressing `key` selects; see `key_tool`.
pub fn tool_for_key(key: char) -> (tool: Option<AnnotationTool>)
    ensures
        tool == key_tool(key),
{
    match key {
        'A' => Some(AnnotationTool::Arrow),
        'R' => Some(AnnotationTool::Rectangle),
        'H' => Some(AnnotationTool::Highlight),
        'T' => Some(AnnotationTool::Text),
        'B' => Some(AnnotationTool::Redact),
        '1' => Some(AnnotationTool::Marker),
        _ => None,
    }
}

/// The annotation that a click with `tool` at `point` adds: a marker (its
/// number is given when it is added), or, with the text tool and a draft
/// that is not blank, the trimmed draft in 24-pixel type; nothing for the
/// other tools.
pub fn annotation_for_click(tool: AnnotationTool, point: AnnotationPoint, draft: &str) -> (item: Option<
    AnnotationItem,
>)
    ensures
        tool == AnnotationTool::Marker ==> item == Some(AnnotationItem::Marker { center: point, number: 0 }),
        tool == AnnotationTool::Text && trim_ws(draft@).len() > 0 ==> (item matches Some(
            AnnotationItem::Text { position, text, size },
        ) && position == point && text@ == trim_ws(draft@) && size == 24),
        tool == AnnotationTool::Text && trim_ws(draft@).len() == 0 ==> item is None,
        tool != AnnotationTool::Marker && tool != AnnotationTool::Text ==> item is None,
{
    match tool {
        AnnotationTool::Marker => Some(AnnotationItem::Marker { center: point, number: 0 }),
        AnnotationTool::Text => {
            let text = trimmed(draft);
            if text.as_str().is_empty() {
                None
            } else {
                Some(AnnotationItem::Text { position: point, text, size: 24 })
            }
        },
        _ => None,
    }
}

/// What the keyboard asks of the annotation workspace.
#[derive(Clone, Copy, Debug, PartialEq, Eq)]
pub enum AnnotationCommand {
    /// Escape: drop the annotations and go back.
    Cancel,
    /// Enter: apply the annotations.
    Finish,
    /// C: copy the annotated image.
    Copy,
}

/// The command the keys pressed ask for: cancelling wins over finishing,
/// and finishing over copying.
pub fn annotation_command(escape: bool, enter: bool, copy: bool) -> (command: Option<AnnotationCommand>)
    ensures
        escape ==> command == Some(AnnotationCommand::Cancel),
        !escape && enter ==> command == Some(AnnotationCommand::Finish),
        !escape && !enter && copy ==> command == Some(AnnotationCommand::Copy),
        !escape && !enter && !copy ==> command is None,
{
    if escape {
        Some(AnnotationCommand::Cancel)
    } else if enter {
        Some(AnnotationCommand::Finish)
    } else if copy {
        Some(AnnotationCommand::Copy)
    } else {
        None
    }
}

} // verus!
