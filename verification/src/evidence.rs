//! Evidence sessions: ordered captures with captions and stage labels, the
//! model a session is exported from, and file names derived from it.

use vstd::prelude::*;
use crate::frame::{BgraFrame, same_image};
use crate::text::{
    chars_of, edge_pred, is_ctrl, is_edge, is_ws, is_control_char, is_whitespace_char, lemma_trim_end,
    lemma_trim_start, slice_chars, string_of, trim_chars, trim_edges, trim_end_by, trim_start_by, trim_ws,
    trimmed, decimal_text, decimal_string, lemma_decimal_digits, padded, padded_decimal, trim_start_ws, trim_end_ws,
};
use crate::clock::now_unix_ms;

verus! {

/// The stage a capture documents.
#[derive(Clone, Copy, Debug, Default, PartialEq, Eq)]
pub enum EvidenceLabel {
    #[default]
    Unlabeled,
    Before,
    Action,
    After,
}

/// The name shown for a label.
pub open spec fn label_name(label: EvidenceLabel) -> Seq<char> {
    match label {
        EvidenceLabel::Unlabeled => "None"@,
        EvidenceLabel::Before => "Before"@,
        EvidenceLabel::Action => "Action"@,
        EvidenceLabel::After => "After"@,
    }
}

impl EvidenceLabel {
    /// Every label, in menu order.
    pub fn all() -> (labels: [EvidenceLabel; 4])
        ensures
            labels@ == seq![EvidenceLabel::Unlabeled, EvidenceLabel::Before, EvidenceLabel::Action, EvidenceLabel::After],
    {
        let labels = [EvidenceLabel::Unlabeled, EvidenceLabel::Before, EvidenceLabel::Action, EvidenceLabel::After];
        assert(labels@ =~= seq![EvidenceLabel::Unlabeled, EvidenceLabel::Before, EvidenceLabel::Action, EvidenceLabel::After]);
        labels
    }

    /// The name shown for the label.
    pub fn display(self) -> (name: &'static str)
        ensures
            name@ == label_name(self),
    {
        match self {
            EvidenceLabel::Unlabeled => "None",
            EvidenceLabel::Before => "Before",
            EvidenceLabel::Action => "Action",
            EvidenceLabel::After => "After",
        }
    }
}

/// One capture of a session.
#[derive(Clone, Debug)]
pub struct EvidenceCapture {
    pub id: u64,
    pub frame: BgraFrame,
    pub caption: String,
    pub label: EvidenceLabel,
    pub captured_at_unix_ms: u64,
    pub png_path: Option<String>,
}

/// A named, described, ordered collection of captures.
#[derive(Clone, Debug)]
pub struct EvidenceSession {
    pub name: String,
    pub description: String,
    pub captures: Vec<EvidenceCapture>,
    next_id: u64,
}

/// The model a session is exported from.
#[derive(Clone, Debug)]
pub struct PdfExportModel {
    pub title: String,
    pub description: String,
    pub generated_at_unix_ms: u64,
    pub captures: Vec<PdfExportCapture>,
}

/// One capture of an export model; `number` counts from 1 in session order.
#[derive(Clone, Debug)]
pub struct PdfExportCapture {
    pub number: usize,
    pub frame: BgraFrame,
    pub caption: String,
    pub label: EvidenceLabel,
    pub captured_at_unix_ms: u64,
}

/// `s` with the entries at `i` and `j` exchanged.
pub open spec fn swapped<T>(s: Seq<T>, i: int, j: int) -> Seq<T> {
    s.update(i, s[j]).update(j, s[i])
}

impl View for EvidenceSession {
    type V = Seq<EvidenceCapture>;

    /// The captures, in session order.
    closed spec fn view(&self) -> Seq<EvidenceCapture> {
        self.captures@
    }
}

impl Default for EvidenceSession {
    fn default() -> (s: Self)
        ensures
            s.spec_name() == "Evidence Session"@,
            s.spec_description().len() == 0,
            s@.len() == 0,
            s.spec_next_id() == 1,
            ids_fresh(s@, s.spec_next_id()),
    {
        EvidenceSession {
            name: String::from_str("Evidence Session"),
            description: String::new(),
            captures: Vec::new(),
            next_id: 1,
        }
    }
}

impl EvidenceSession {
    /// The session name.
    pub closed spec fn spec_name(self) -> Seq<char> {
        self.name@
    }

    /// The session description.
    pub closed spec fn spec_description(self) -> Seq<char> {
        self.description@
    }

    /// The id the next added capture gets.
    pub closed spec fn spec_next_id(self) -> u64 {
        self.next_id
    }

    /// A session holds its captures in a vector, so their number fits
    /// `usize`.
    pub proof fn lemma_len_fits(&self)
        ensures
            self@.len() <= usize::MAX,
    {
        assert(self@.len() == self.captures.len());
    }

    /// Appends a capture taken at `captured_at_unix_ms`, with no label, and
    /// returns its id; ids count up from 1.
    pub fn add_capture_at(&mut self, frame: BgraFrame, caption: String, captured_at_unix_ms: u64) -> (id: u64)
        requires
            old(self).spec_next_id() < u64::MAX,
        ensures
            id == old(self).spec_next_id(),
            final(self).spec_next_id() == id + 1,
            final(self)@ == old(self)@.push(
                EvidenceCapture {
                    id,
                    frame,
                    caption,
                    label: EvidenceLabel::Unlabeled,
                    captured_at_unix_ms,
                    png_path: None,
                },
            ),
            final(self).spec_name() == old(self).spec_name(),
            final(self).spec_description() == old(self).spec_description(),
            ids_fresh(old(self)@, old(self).spec_next_id()) ==> forall|i: int|
                0 <= i < old(self)@.len() ==> (#[trigger] old(self)@[i]).id < id,
            ids_fresh(old(self)@, old(self).spec_next_id()) ==> ids_fresh(final(self)@, final(self).spec_next_id()),
    {
        proof {
            if ids_fresh(old(self)@, old(self).spec_next_id()) {
                lemma_added_id_is_fresh(
                    old(self)@,
                    old(self).spec_next_id(),
                    EvidenceCapture {
                        id: self.next_id,
                        frame,
                        caption,
                        label: EvidenceLabel::Unlabeled,
                        captured_at_unix_ms,
                        png_path: None,
                    },
                );
            }
        }
        let id = self.next_id;
        self.next_id = self.next_id + 1;
        self.captures.push(
            EvidenceCapture {
                id,
                frame,
                caption,
                label: EvidenceLabel::Unlabeled,
                captured_at_unix_ms,
                png_path: None,
            },
        );
        id
    }

    /// Appends a capture taken now, with no label, and returns its id. The
    /// capture time is read from the system clock, so nothing is stated of
    /// it.
    pub fn add_capture(&mut self, frame: BgraFrame, caption: String) -> (id: u64)
        requires
            old(self).spec_next_id() < u64::MAX,
        ensures
            id == old(self).spec_next_id(),
            final(self).spec_next_id() == id + 1,
            final(self)@.len() == old(self)@.len() + 1,
            final(self)@.drop_last() == old(self)@,
            final(self)@.last().id == id,
            final(self)@.last().frame == frame,
            final(self)@.last().caption == caption,
            final(self)@.last().label == EvidenceLabel::Unlabeled,
            final(self)@.last().png_path is None,
            final(self).spec_name() == old(self).spec_name(),
            final(self).spec_description() == old(self).spec_description(),
            ids_fresh(old(self)@, old(self).spec_next_id()) ==> forall|i: int|
                0 <= i < old(self)@.len() ==> (#[trigger] old(self)@[i]).id < id,
            ids_fresh(old(self)@, old(self).spec_next_id()) ==> ids_fresh(final(self)@, final(self).spec_next_id()),
    {
        let now = now_unix_ms();
        let id = self.add_capture_at(frame, caption, now);
        assert(self@.drop_last() =~= old(self)@);
        id
    }

    /// Moves the capture at `index` one place up; out-of-range indices and
    /// the first capture change nothing.
    pub fn move_up(&mut self, index: usize)
        ensures
            0 < index < old(self)@.len() ==> final(self)@ == swapped(old(self)@, index as int, index - 1),
            !(0 < index < old(self)@.len()) ==> final(self)@ == old(self)@,
            final(self).spec_next_id() == old(self).spec_next_id(),
            final(self).spec_name() == old(self).spec_name(),
            final(self).spec_description() == old(self).spec_description(),
            ids_fresh(old(self)@, old(self).spec_next_id()) ==> ids_fresh(final(self)@, final(self).spec_next_id()),
    {
        if index > 0 && index < self.captures.len() {
            let item = self.captures.remove(index);
            self.captures.insert(index - 1, item);
            assert(self.captures@ =~= swapped(old(self)@, index as int, index - 1));
            proof {
                if ids_fresh(old(self)@, old(self).spec_next_id()) {
                    lemma_swap_keeps_ids_fresh(old(self)@, old(self).spec_next_id(), index as int, index - 1);
                }
            }
        }
    }

    /// Moves the capture at `index` one place down; out-of-range indices and
    /// the last capture change nothing.
    pub fn move_down(&mut self, index: usize)
        ensures
            index + 1 < old(self)@.len() ==> final(self)@ == swapped(old(self)@, index as int, index + 1),
            !(index + 1 < old(self)@.len()) ==> final(self)@ == old(self)@,
            final(self).spec_next_id() == old(self).spec_next_id(),
            final(self).spec_name() == old(self).spec_name(),
            final(self).spec_description() == old(self).spec_description(),
            ids_fresh(old(self)@, old(self).spec_next_id()) ==> ids_fresh(final(self)@, final(self).spec_next_id()),
    {
        if index < self.captures.len() && index + 1 < self.captures.len() {
            let item = self.captures.remove(index);
            self.captures.insert(index + 1, item);
            assert(self.captures@ =~= swapped(old(self)@, index as int, index + 1));
            proof {
                if ids_fresh(old(self)@, old(self).spec_next_id()) {
                    lemma_swap_keeps_ids_fresh(old(self)@, old(self).spec_next_id(), index as int, index + 1);
                }
            }
        }
    }

    /// Removes the capture at `index`; an out-of-range index changes
    /// nothing.
    pub fn remove(&mut self, index: usize)
        ensures
            index < old(self)@.len() ==> final(self)@ == old(self)@.remove(index as int),
            index >= old(self)@.len() ==> final(self)@ == old(self)@,
            final(self).spec_next_id() == old(self).spec_next_id(),
            final(self).spec_name() == old(self).spec_name(),
            final(self).spec_description() == old(self).spec_description(),
            ids_fresh(old(self)@, old(self).spec_next_id()) ==> ids_fresh(final(self)@, final(self).spec_next_id()),
    {
        if index < self.captures.len() {
            self.captures.remove(index);
            proof {
                if ids_fresh(old(self)@, old(self).spec_next_id()) {
                    lemma_remove_keeps_ids_fresh(old(self)@, old(self).spec_next_id(), index as int);
                }
            }
        }
    }

    /// The export model of the session, generated at `generated_at_unix_ms`:
    /// trimmed title, description and captions, and captures numbered from 1
    /// in session order.
    pub fn export_model_at(&self, generated_at_unix_ms: u64) -> (model: PdfExportModel)
        ensures
            model.title@ == trim_ws(self.spec_name()),
            model.description@ == trim_ws(self.spec_description()),
            model.generated_at_unix_ms == generated_at_unix_ms,
            model.captures@.len() == self@.len(),
            forall|i: int|
                0 <= i < self@.len() ==> {
                    let c = #[trigger] model.captures@[i];
                    &&& c.number == i + 1
                    &&& same_image(c.frame, self@[i].frame)
                    &&& c.caption@ == trim_ws(self@[i].caption@)
                    &&& c.label == self@[i].label
                    &&& c.captured_at_unix_ms == self@[i].captured_at_unix_ms
                },
    {
        let mut captures: Vec<PdfExportCapture> = Vec::new();
        let mut i: usize = 0;
        while i < self.captures.len()
            invariant
                i <= self@.len(),
                self@ == self.captures@,
                captures@.len() == i,
                forall|j: int|
                    0 <= j < i ==> {
                        let c = #[trigger] captures@[j];
                        &&& c.number == j + 1
                        &&& same_image(c.frame, self@[j].frame)
                        &&& c.caption@ == trim_ws(self@[j].caption@)
                        &&& c.label == self@[j].label
                        &&& c.captured_at_unix_ms == self@[j].captured_at_unix_ms
                    },
            decreases self@.len() - i,
        {
            let capture = &self.captures[i];
            captures.push(
                PdfExportCapture {
                    number: i + 1,
                    frame: capture.frame.duplicate(),
                    caption: trimmed(capture.caption.as_str()),
                    label: capture.label,
                    captured_at_unix_ms: capture.captured_at_unix_ms,
                },
            );
            i = i + 1;
        }
        PdfExportModel {
            title: trimmed(self.name.as_str()),
            description: trimmed(self.description.as_str()),
            generated_at_unix_ms,
            captures,
        }
    }

    /// The export model of the session, generated now. The generation time
    /// is read from the system clock, so nothing is stated of it.
    pub fn export_model(&self) -> (model: PdfExportModel)
        ensures
            model.title@ == trim_ws(self.spec_name()),
            model.description@ == trim_ws(self.spec_description()),
            model.captures@.len() == self@.len(),
            forall|i: int|
                0 <= i < self@.len() ==> {
                    let c = #[trigger] model.captures@[i];
                    &&& c.number == i + 1
                    &&& same_image(c.frame, self@[i].frame)
                    &&& c.caption@ == trim_ws(self@[i].caption@)
                    &&& c.label == self@[i].label
                    &&& c.captured_at_unix_ms == self@[i].captured_at_unix_ms
                },
    {
        let now = now_unix_ms();
        self.export_model_at(now)
    }
}

/// What is recorded of a capture when a session is saved to a folder.
#[derive(Clone, Debug)]
pub struct CaptureMetadata {
    pub id: u64,
    pub order: usize,
    pub caption: String,
    pub label: EvidenceLabel,
    pub captured_at_unix_ms: u64,
    pub width: u32,
    pub height: u32,
    pub filename: String,
}

/// What is recorded of a session when it is saved to a folder.
#[derive(Clone, Debug)]
pub struct SessionMetadata {
    pub name: String,
    pub description: String,
    pub captures: Vec<CaptureMetadata>,
}

/// The file name of the image of the capture at `index` in a saved
/// session: its number from 1, with zeros in front to three digits, and
/// ".png".
pub open spec fn png_name(index: nat) -> Seq<char> {
    padded(index + 1, 3) + ".png"@
}

/// The file name under which the capture at `index` is saved; see
/// `png_name`.
pub fn png_filename(index: usize) -> (name: String)
    requires
        index < usize::MAX,
    ensures
        name@ == png_name(index as nat),
{
    let mut name = padded_decimal((index + 1) as u64, 3);
    name.append(".png");
    name
}

impl EvidenceSession {
    /// Records where the image of the capture at `index` was saved; an
    /// out-of-range index changes nothing.
    pub fn set_png_path(&mut self, index: usize, path: String)
        ensures
            index < old(self)@.len() ==> final(self)@ == old(self)@.update(
                index as int,
                EvidenceCapture { png_path: Some(path), ..old(self)@[index as int] },
            ),
            index >= old(self)@.len() ==> final(self)@ == old(self)@,
            final(self).spec_next_id() == old(self).spec_next_id(),
            final(self).spec_name() == old(self).spec_name(),
            final(self).spec_description() == old(self).spec_description(),
            ids_fresh(old(self)@, old(self).spec_next_id()) ==> ids_fresh(final(self)@, final(self).spec_next_id()),
    {
        if index < self.captures.len() {
            let mut capture = self.captures.remove(index);
            capture.png_path = Some(path);
            self.captures.insert(index, capture);
            assert(self.captures@ =~= old(self)@.update(
                index as int,
                EvidenceCapture { png_path: Some(path), ..old(self)@[index as int] },
            ));
            proof {
                if ids_fresh(old(self)@, old(self).spec_next_id()) {
                    lemma_update_keeps_ids_fresh(
                        old(self)@,
                        old(self).spec_next_id(),
                        index as int,
                        EvidenceCapture { png_path: Some(path), ..old(self)@[index as int] },
                    );
                }
            }
        }
    }

    /// The record of the session saved to a folder, where `filenames[i]` is
    /// the file name of the image of capture `i`: the name and description
    /// as they are, and for each capture in order its id, position, caption,
    /// label, capture time, size and file name.
    pub fn metadata(&self, filenames: &Vec<String>) -> (m: SessionMetadata)
        requires
            filenames@.len() == self@.len(),
        ensures
            m.name@ == self.spec_name(),
            m.description@ == self.spec_description(),
            m.captures@.len() == self@.len(),
            forall|i: int|
                0 <= i < self@.len() ==> {
                    let c = #[trigger] m.captures@[i];
                    let e = self@[i];
                    &&& c.id == e.id
                    &&& c.order == i
                    &&& c.caption@ == e.caption@
                    &&& c.label == e.label
                    &&& c.captured_at_unix_ms == e.captured_at_unix_ms
                    &&& c.width == e.frame.width
                    &&& c.height == e.frame.height
                    &&& c.filename@ == filenames@[i]@
                },
    {
        let mut captures: Vec<CaptureMetadata> = Vec::new();
        let mut i: usize = 0;
        while i < self.captures.len()
            invariant
                i <= self@.len(),
                self@ == self.captures@,
                filenames@.len() == self@.len(),
                captures@.len() == i,
                forall|j: int|
                    0 <= j < i ==> {
                        let c = #[trigger] captures@[j];
                        let e = self@[j];
                        &&& c.id == e.id
                        &&& c.order == j
                        &&& c.caption@ == e.caption@
                        &&& c.label == e.label
                        &&& c.captured_at_unix_ms == e.captured_at_unix_ms
                        &&& c.width == e.frame.width
                        &&& c.height == e.frame.height
                        &&& c.filename@ == filenames@[j]@
                    },
            decreases self@.len() - i,
        {
            let e = &self.captures[i];
            captures.push(
                CaptureMetadata {
                    id: e.id,
                    order: i,
                    caption: e.caption.clone(),
                    label: e.label,
                    captured_at_unix_ms: e.captured_at_unix_ms,
                    width: e.frame.width,
                    height: e.frame.height,
                    filename: filenames[i].clone(),
                },
            );
            i = i + 1;
        }
        SessionMetadata { name: self.name.clone(), description: self.description.clone(), captures }
    }
}

/// Every capture of `captures` has an id below `next`.
pub open spec fn ids_below(captures: Seq<EvidenceCapture>, next: u64) -> bool {
    forall|i: int| 0 <= i < captures.len() ==> (#[trigger] captures[i]).id < next
}

/// No two captures of `captures` share an id.
pub open spec fn ids_distinct(captures: Seq<EvidenceCapture>) -> bool {
    forall|i: int, j: int| 0 <= i < captures.len() && 0 <= j < captures.len() && i != j ==> (
    #[trigger] captures[i]).id != (#[trigger] captures[j]).id
}

/// The ids of a session are fresh: pairwise distinct and all below `next`,
/// the id the next capture gets. Every session that the library makes and
/// changes keeps this (see `Default` and the methods of `EvidenceSession`).
pub open spec fn ids_fresh(captures: Seq<EvidenceCapture>, next: u64) -> bool {
    ids_below(captures, next) && ids_distinct(captures)
}

/// Ids are never handed out twice: appending a capture with id `next` to a
/// session whose ids are fresh gives it an id above every other id and
/// keeps the ids fresh with the next id one higher; exchanging two
/// captures, removing one, or changing a capture but not its id keeps the
/// ids fresh too.
pub proof fn lemma_added_id_is_fresh(captures: Seq<EvidenceCapture>, next: u64, added: EvidenceCapture)
    requires
        ids_fresh(captures, next),
        added.id == next,
        next < u64::MAX,
    ensures
        forall|i: int| 0 <= i < captures.len() ==> (#[trigger] captures[i]).id < added.id,
        ids_fresh(captures.push(added), (next + 1) as u64),
{
    let pushed = captures.push(added);
    assert forall|i: int| 0 <= i < pushed.len() implies (#[trigger] pushed[i]).id < (next + 1) as u64 by {
        if i < captures.len() {
            assert(pushed[i] == captures[i]);
        }
    }
    assert forall|i: int, j: int| 0 <= i < pushed.len() && 0 <= j < pushed.len() && i != j implies (
    #[trigger] pushed[i]).id != (#[trigger] pushed[j]).id by {
        if i < captures.len() {
            assert(pushed[i] == captures[i]);
        }
        if j < captures.len() {
            assert(pushed[j] == captures[j]);
        }
    }
}

/// Exchanging two captures keeps the ids fresh.
pub proof fn lemma_swap_keeps_ids_fresh(captures: Seq<EvidenceCapture>, next: u64, i: int, j: int)
    requires
        ids_fresh(captures, next),
        0 <= i < captures.len(),
        0 <= j < captures.len(),
    ensures
        ids_fresh(swapped(captures, i, j), next),
{
    let t = swapped(captures, i, j);
    let src = |k: int| if k == i { j } else if k == j { i } else { k };
    assert forall|k: int| 0 <= k < t.len() implies t[k] == captures[src(k)] by {}
    assert forall|k: int| 0 <= k < t.len() implies (#[trigger] t[k]).id < next by {
        assert(t[k] == captures[src(k)]);
    }
    assert forall|a: int, b: int| 0 <= a < t.len() && 0 <= b < t.len() && a != b implies (#[trigger] t[a]).id != (
    #[trigger] t[b]).id by {
        assert(t[a] == captures[src(a)]);
        assert(t[b] == captures[src(b)]);
    }
}

/// Removing a capture keeps the ids fresh.
pub proof fn lemma_remove_keeps_ids_fresh(captures: Seq<EvidenceCapture>, next: u64, i: int)
    requires
        ids_fresh(captures, next),
        0 <= i < captures.len(),
    ensures
        ids_fresh(captures.remove(i), next),
{
    let t = captures.remove(i);
    assert forall|k: int| 0 <= k < t.len() implies t[k] == captures[if k < i { k } else { k + 1 }] by {}
    assert forall|k: int| 0 <= k < t.len() implies (#[trigger] t[k]).id < next by {
        assert(t[k] == captures[if k < i { k } else { k + 1 }]);
    }
    assert forall|a: int, b: int| 0 <= a < t.len() && 0 <= b < t.len() && a != b implies (#[trigger] t[a]).id != (
    #[trigger] t[b]).id by {
        assert(t[a] == captures[if a < i { a } else { a + 1 }]);
        assert(t[b] == captures[if b < i { b } else { b + 1 }]);
    }
}

/// Changing a capture but not its id keeps the ids fresh.
pub proof fn lemma_update_keeps_ids_fresh(captures: Seq<EvidenceCapture>, next: u64, i: int, c: EvidenceCapture)
    requires
        ids_fresh(captures, next),
        0 <= i < captures.len(),
        c.id == captures[i].id,
    ensures
        ids_fresh(captures.update(i, c), next),
{
    let t = captures.update(i, c);
    assert forall|k: int| 0 <= k < t.len() implies (#[trigger] t[k]).id == captures[k].id by {}
    assert forall|k: int| 0 <= k < t.len() implies (#[trigger] t[k]).id < next by {
        assert(t[k].id == captures[k].id);
    }
    assert forall|a: int, b: int| 0 <= a < t.len() && 0 <= b < t.len() && a != b implies (#[trigger] t[a]).id != (
    #[trigger] t[b]).id by {
        assert(t[a].id == captures[a].id);
        assert(t[b].id == captures[b].id);
    }
}

/// A call that changes the captures of an evidence session: `add_capture_at`
/// of a frame with a caption, taken at a time (or `add_capture`, which reads
/// the time from the clock), or `move_up`, `move_down` or `remove` at an
/// index.
pub enum SessionOp {
    Add { frame: BgraFrame, caption: String, captured_at_unix_ms: u64 },
    MoveUp(usize),
    MoveDown(usize),
    Remove(usize),
}

/// The captures and next id of a session made by `default` and then changed
/// by the calls `ops` in order, step by step as the contracts of those calls
/// describe, with the ids the adds returned, in order.
pub open spec fn replay_session(ops: Seq<SessionOp>) -> (Seq<EvidenceCapture>, u64, Seq<u64>)
    decreases ops.len(),
{
    if ops.len() == 0 {
        (seq![], 1, seq![])
    } else {
        let (captures, next, issued) = replay_session(ops.drop_last());
        match ops.last() {
            SessionOp::Add { frame, caption, captured_at_unix_ms } => (
                captures.push(
                    EvidenceCapture {
                        id: next,
                        frame,
                        caption,
                        label: EvidenceLabel::Unlabeled,
                        captured_at_unix_ms,
                        png_path: None,
                    },
                ),
                (next + 1) as u64,
                issued.push(next),
            ),
            SessionOp::MoveUp(index) => (
                if 0 < index < captures.len() {
                    swapped(captures, index as int, index - 1)
                } else {
                    captures
                },
                next,
                issued,
            ),
            SessionOp::MoveDown(index) => (
                if index + 1 < captures.len() {
                    swapped(captures, index as int, index + 1)
                } else {
                    captures
                },
                next,
                issued,
            ),
            SessionOp::Remove(index) => (
                if index < captures.len() {
                    captures.remove(index as int)
                } else {
                    captures
                },
                next,
                issued,
            ),
        }
    }
}

/// Ids over any history of a session made by `default` (with fewer calls
/// than the largest `u64` less one, so that every add may be made): the ids
/// handed out strictly increase from 1, the next id is one above the last
/// one handed out, so an add never returns an id handed out before, not
/// even one whose capture was removed; the session's ids are pairwise
/// distinct and each is one that an add handed out.
pub proof fn lemma_session_ids_history(ops: Seq<SessionOp>)
    requires
        ops.len() < u64::MAX - 1,
    ensures
        replay_session(ops).1 == replay_session(ops).2.len() + 1,
        replay_session(ops).2.len() <= ops.len(),
        forall|i: int, j: int|
            0 <= i < j < replay_session(ops).2.len() ==> #[trigger] replay_session(ops).2[i]
                < #[trigger] replay_session(ops).2[j],
        forall|i: int|
            0 <= i < replay_session(ops).2.len() ==> #[trigger] replay_session(ops).2[i] < replay_session(
                ops,
            ).1,
        ids_fresh(replay_session(ops).0, replay_session(ops).1),
        forall|k: int|
            0 <= k < replay_session(ops).0.len() ==> replay_session(ops).2.contains(
                (#[trigger] replay_session(ops).0[k]).id,
            ),
    decreases ops.len(),
{
    if ops.len() > 0 {
        let p = ops.drop_last();
        lemma_session_ids_history(p);
        let (captures, next, issued) = replay_session(p);
        let (c2, n2, i2) = replay_session(ops);
        match ops.last() {
            SessionOp::Add { frame, caption, captured_at_unix_ms } => {
                let added = EvidenceCapture {
                    id: next,
                    frame,
                    caption,
                    label: EvidenceLabel::Unlabeled,
                    captured_at_unix_ms,
                    png_path: None,
                };
                lemma_added_id_is_fresh(captures, next, added);
                assert(c2 == captures.push(added));
                assert(i2 == issued.push(next));
                assert forall|k: int| 0 <= k < c2.len() implies i2.contains((#[trigger] c2[k]).id) by {
                    if k < captures.len() {
                        assert(c2[k] == captures[k]);
                        let w = choose|w: int| 0 <= w < issued.len() && issued[w] == captures[k].id;
                        assert(i2[w] == issued[w]);
                    } else {
                        assert(i2[issued.len() as int] == next);
                    }
                }
                assert forall|a: int, b: int| 0 <= a < b < i2.len() implies #[trigger] i2[a] < #[trigger] i2[b] by {
                    if b < issued.len() {
                        assert(i2[a] == issued[a] && i2[b] == issued[b]);
                    } else {
                        assert(i2[a] == issued[a]);
                    }
                }
                assert forall|a: int| 0 <= a < i2.len() implies #[trigger] i2[a] < n2 by {
                    if a < issued.len() {
                        assert(i2[a] == issued[a]);
                    }
                }
            },
            SessionOp::MoveUp(index) => {
                if 0 < index < captures.len() {
                    lemma_swap_keeps_ids_fresh(captures, next, index as int, index - 1);
                    let i = index as int;
                    assert forall|k: int| 0 <= k < c2.len() implies i2.contains((#[trigger] c2[k]).id) by {
                        let src = if k == i { i - 1 } else if k == i - 1 { i } else { k };
                        assert(c2[k] == captures[src]);
                    }
                }
            },
            SessionOp::MoveDown(index) => {
                if index + 1 < captures.len() {
                    lemma_swap_keeps_ids_fresh(captures, next, index as int, index + 1);
                    let i = index as int;
                    assert forall|k: int| 0 <= k < c2.len() implies i2.contains((#[trigger] c2[k]).id) by {
                        let src = if k == i { i + 1 } else if k == i + 1 { i } else { k };
                        assert(c2[k] == captures[src]);
                    }
                }
            },
            SessionOp::Remove(index) => {
                if index < captures.len() {
                    lemma_remove_keeps_ids_fresh(captures, next, index as int);
                    let i = index as int;
                    assert forall|k: int| 0 <= k < c2.len() implies i2.contains((#[trigger] c2[k]).id) by {
                        assert(c2[k] == captures[if k < i { k } else { k + 1 }]);
                    }
                }
            },
        }
    }
}

/// Moving a capture up and then moving it back down restores the order.
pub proof fn lemma_move_up_then_down(s: Seq<EvidenceCapture>, index: int)
    requires
        0 < index < s.len(),
    ensures
        swapped(swapped(s, index, index - 1), index - 1, index) == s,
{
    assert(swapped(swapped(s, index, index - 1), index - 1, index) =~= s);
}

/// Moving a capture down and then moving it back up restores the order.
pub proof fn lemma_move_down_then_up(s: Seq<EvidenceCapture>, index: int)
    requires
        0 <= index,
        index + 1 < s.len(),
    ensures
        swapped(swapped(s, index, index + 1), index + 1, index) == s,
{
    assert(swapped(swapped(s, index, index + 1), index + 1, index) =~= s);
}

/// Reordering keeps the same captures: every capture is still there, once.
pub proof fn lemma_move_keeps_captures(s: Seq<EvidenceCapture>, i: int, j: int)
    requires
        0 <= i < s.len(),
        0 <= j < s.len(),
    ensures
        swapped(s, i, j).to_multiset() == s.to_multiset(),
{
    broadcast use vstd::multiset::group_multiset_axioms;
    let t = s.update(i, s[j]);
    vstd::seq_lib::to_multiset_update(s, i, s[j]);
    vstd::seq_lib::to_multiset_update(t, j, s[i]);
    if i == j {
        assert(swapped(s, i, j) =~= s);
    } else {
        assert(t[j] == s[j]);
        let m0 = s.to_multiset();
        let m1 = m0.insert(s[j]).remove(s[i]);
        let m2 = m1.insert(s[i]).remove(s[j]);
        vstd::seq_lib::to_multiset_contains(s, s[i]);
        assert(s.contains(s[i]));
        assert(m0.count(s[i]) > 0);
        assert forall|x: EvidenceCapture| m2.count(x) == m0.count(x) by {
            if x == s[i] && x == s[j] {
            } else if x == s[i] {
            } else if x == s[j] {
            }
        }
        assert(m2 =~= m0);
    }
}

/// Characters that Windows file names cannot hold.
pub open spec fn is_reserved(c: char) -> bool {
    c == '<' || c == '>' || c == ':' || c == '"' || c == '/' || c == '\\' || c == '|' || c == '?'
        || c == '*'
}

/// The file-name character that stands for `c`: `c` itself when it is
/// neither reserved, a control character nor white space, else `-`.
pub open spec fn filename_char(c: char) -> char {
    if !is_reserved(c) && !is_ctrl(c) && !is_ws(c) { c } else { '-' }
}

/// `s` with every character mapped by `filename_char` and every run of `-`
/// in the result cut to one.
pub open spec fn collapse_dashes(s: Seq<char>) -> Seq<char>
    decreases s.len(),
{
    if s.len() == 0 {
        seq![]
    } else {
        let p = collapse_dashes(s.drop_last());
        let m = filename_char(s.last());
        if m == '-' && s.len() >= 2 && filename_char(s[s.len() - 2]) == '-' {
            p
        } else {
            p.push(m)
        }
    }
}

/// The first `n` characters of `s`, or all of them.
pub open spec fn take_chars(s: Seq<char>, n: int) -> Seq<char> {
    if s.len() <= n { s } else { s.subrange(0, n) }
}

/// The file name `sanitize_filename` makes of `name`: the name trimmed,
/// every character that a file name cannot hold (and white space) turned
/// into `-`, runs of `-` cut to one, spaces, dots and dashes cut from both
/// ends, and at most 100 characters kept.
pub open spec fn sanitized(name: Seq<char>) -> Seq<char> {
    take_chars(trim_end_by(trim_start_by(collapse_dashes(trim_ws(name)), edge_pred()), edge_pred()), 100)
}

fn filename_char_exec(c: char) -> (m: char)
    ensures
        m == filename_char(c),
{
    let reserved = c == '<' || c == '>' || c == ':' || c == '"' || c == '/' || c == '\\' || c == '|'
        || c == '?' || c == '*';
    if !reserved && !is_control_char(c) && !is_whitespace_char(c) {
        c
    } else {
        '-'
    }
}

/// A file-name stem for `name` that Windows accepts: see `sanitized`.
pub fn sanitize_filename(name: &str) -> (out: String)
    ensures
        out@ == sanitized(name@),
{
    let all = chars_of(name);
    let t = trim_chars(&all);
    let mut collapsed: Vec<char> = Vec::new();
    let mut previous_dash = false;
    let mut i: usize = 0;
    assert(t@.subrange(0, 0) =~= Seq::<char>::empty());
    while i < t.len()
        invariant
            i <= t@.len(),
            collapsed@ == collapse_dashes(t@.subrange(0, i as int)),
            previous_dash == (i > 0 && filename_char(t@[i - 1]) == '-'),
        decreases t@.len() - i,
    {
        let mapped = filename_char_exec(t[i]);
        let ghost pre = t@.subrange(0, i + 1);
        assert(pre.drop_last() =~= t@.subrange(0, i as int));
        if mapped == '-' {
            if !previous_dash {
                collapsed.push('-');
            }
            previous_dash = true;
        } else {
            collapsed.push(mapped);
            previous_dash = false;
        }
        i = i + 1;
    }
    assert(t@.subrange(0, t@.len() as int) =~= t@);
    let edged = trim_edges(&collapsed);
    let keep = if edged.len() <= 100 { edged.len() } else { 100 };
    let kept = slice_chars(&edged, 0, keep);
    assert(kept@ =~= take_chars(edged@, 100));
    string_of(&kept)
}

/// Every character of a collapsed name is a file-name character: neither
/// reserved, a control character nor white space.
pub proof fn lemma_collapse_clean(s: Seq<char>)
    ensures
        forall|i: int|
            0 <= i < collapse_dashes(s).len() ==> {
                let c = #[trigger] collapse_dashes(s)[i];
                !is_reserved(c) && !is_ctrl(c) && !is_ws(c)
            },
        collapse_dashes(s).len() <= s.len(),
    decreases s.len(),
{
    if s.len() > 0 {
        lemma_collapse_clean(s.drop_last());
    }
}

/// A sanitized name holds only file-name characters, at most 100 of them,
/// and does not start with a space, a dot or a dash.
pub proof fn lemma_sanitized_clean(name: Seq<char>)
    ensures
        sanitized(name).len() <= 100,
        forall|i: int|
            0 <= i < sanitized(name).len() ==> {
                let c = #[trigger] sanitized(name)[i];
                !is_reserved(c) && !is_ctrl(c) && !is_ws(c)
            },
        sanitized(name).len() > 0 ==> !is_edge(sanitized(name)[0]),
{
    let c = collapse_dashes(trim_ws(name));
    lemma_collapse_clean(trim_ws(name));
    lemma_trim_start(c, edge_pred());
    let a = trim_start_by(c, edge_pred());
    lemma_trim_end(a, edge_pred());
    let b = trim_end_by(a, edge_pred());
    assert forall|i: int| 0 <= i < b.len() implies {
        let ch = #[trigger] b[i];
        !is_reserved(ch) && !is_ctrl(ch) && !is_ws(ch)
    } by {
        assert(b[i] == a[i]);
        assert(a[i] == c[c.len() - a.len() + i]);
    }
    if b.len() > 0 {
        assert(b[0] == a[0]);
    }
}

/// The collapsed text ends with the mapped last character of `s`.
proof fn lemma_collapse_last(s: Seq<char>)
    requires
        s.len() > 0,
    ensures
        collapse_dashes(s).len() > 0,
        collapse_dashes(s).last() == filename_char(s.last()),
    decreases s.len(),
{
    let p = s.drop_last();
    let m = filename_char(s.last());
    if m == '-' && s.len() >= 2 && filename_char(s[s.len() - 2]) == '-' {
        lemma_collapse_last(p);
        assert(p.last() == s[s.len() - 2]);
    }
}

/// A collapsed text holds no two dashes in a row.
proof fn lemma_collapse_no_double(s: Seq<char>)
    ensures
        forall|i: int|
            0 <= i < collapse_dashes(s).len() - 1 ==> !(#[trigger] collapse_dashes(s)[i] == '-'
                && collapse_dashes(s)[i + 1] == '-'),
    decreases s.len(),
{
    if s.len() > 0 {
        let p = s.drop_last();
        lemma_collapse_no_double(p);
        let c = collapse_dashes(s);
        let cp = collapse_dashes(p);
        let m = filename_char(s.last());
        if !(m == '-' && s.len() >= 2 && filename_char(s[s.len() - 2]) == '-') {
            assert(c == cp.push(m));
            if p.len() > 0 {
                lemma_collapse_last(p);
                assert(p.last() == s[s.len() - 2]);
            } else {
                assert(cp.len() == 0);
            }
            assert forall|i: int| 0 <= i < c.len() - 1 implies !(#[trigger] c[i] == '-' && c[i + 1] == '-') by {
                if i < cp.len() - 1 {
                    assert(c[i] == cp[i] && c[i + 1] == cp[i + 1]);
                } else {
                    assert(i == cp.len() - 1);
                    assert(c[i] == cp.last());
                }
            }
        }
    }
}

/// A text of file-name characters with no two dashes in a row collapses to
/// itself.
proof fn lemma_collapse_fixed(s: Seq<char>)
    requires
        forall|i: int| 0 <= i < s.len() ==> filename_char(#[trigger] s[i]) == s[i],
        forall|i: int| 0 <= i < s.len() - 1 ==> !(#[trigger] s[i] == '-' && s[i + 1] == '-'),
    ensures
        collapse_dashes(s) == s,
    decreases s.len(),
{
    if s.len() > 0 {
        let p = s.drop_last();
        assert forall|i: int| 0 <= i < p.len() implies filename_char(#[trigger] p[i]) == p[i] by {
            assert(p[i] == s[i]);
        }
        assert forall|i: int| 0 <= i < p.len() - 1 implies !(#[trigger] p[i] == '-' && p[i + 1] == '-') by {
            assert(p[i] == s[i] && p[i + 1] == s[i + 1]);
        }
        lemma_collapse_fixed(p);
        if s.len() >= 2 {
            assert(!(s[s.len() - 2] == '-' && s[s.len() - 1] == '-'));
            assert(filename_char(s[s.len() - 2]) == s[s.len() - 2]);
        }
        assert(filename_char(s.last()) == s.last());
        assert(p.push(s.last()) =~= s);
    }
}

/// Sanitizing a sanitized name changes nothing, provided the name was not
/// cut at 100 characters just after a space, dot or dash (cutting may leave
/// such a character at the end, which a second pass removes).
pub proof fn lemma_sanitize_twice(name: Seq<char>)
    requires
        sanitized(name).len() < 100 || (sanitized(name).len() > 0 && !is_edge(sanitized(name).last())),
    ensures
        sanitized(sanitized(name)) == sanitized(name),
{
    let c = collapse_dashes(trim_ws(name));
    let a = trim_start_by(c, edge_pred());
    let b = trim_end_by(a, edge_pred());
    let t = sanitized(name);
    lemma_sanitized_clean(name);
    lemma_collapse_no_double(trim_ws(name));
    lemma_trim_start(c, edge_pred());
    lemma_trim_end(a, edge_pred());
    // `t` is a run of consecutive characters of `c`.
    let off = c.len() - a.len();
    assert forall|k: int| 0 <= k < t.len() implies #[trigger] t[k] == c[off + k] by {
        assert(t[k] == b[k]);
        assert(b[k] == a[k]);
    }
    assert forall|i: int| 0 <= i < t.len() - 1 implies !(#[trigger] t[i] == '-' && t[i + 1] == '-') by {
        assert(t[i] == c[off + i] && t[i + 1] == c[off + i + 1]);
    }
    assert forall|i: int| 0 <= i < t.len() implies filename_char(#[trigger] t[i]) == t[i] by {}
    // The last character is no edge character.
    if t.len() > 0 {
        if t.len() < 100 {
            assert(t == b);
        }
        assert(!is_edge(t.last()));
        assert(!is_ws(t[0]) && !is_ws(t.last()));
    }
    assert(trim_start_ws(t) == t);
    assert(trim_end_ws(t) == t);
    assert(trim_ws(t) == t);
    lemma_collapse_fixed(t);
    assert(trim_start_by(t, edge_pred()) == t);
    assert(trim_end_by(t, edge_pred()) == t);
    assert(take_chars(t, 100) == t);
}

/// The default PDF file name for a session called `name` at `now_ms`: the
/// sanitized name and ".pdf", or "Captur-Evidence-", the time and ".pdf"
/// when the sanitized name is empty or the default "Evidence-Session".
pub open spec fn default_pdf_name(name: Seq<char>, now_ms: nat) -> Seq<char> {
    if sanitized(name).len() == 0 || sanitized(name) == "Evidence-Session"@ {
        "Captur-Evidence-"@ + decimal_text(now_ms) + ".pdf"@
    } else {
        sanitized(name) + ".pdf"@
    }
}

/// A character that a Windows file name can hold and that is not white
/// space.
pub open spec fn file_name_safe(c: char) -> bool {
    !is_reserved(c) && !is_ctrl(c) && !is_ws(c)
}

/// Default PDF names are safe Windows file names: every character is one a
/// file name can hold (and none is white space), and the name ends in
/// ".pdf".
pub proof fn lemma_default_pdf_name_safe(name: Seq<char>, now_ms: nat)
    ensures
        forall|i: int|
            0 <= i < default_pdf_name(name, now_ms).len() ==> file_name_safe(
                #[trigger] default_pdf_name(name, now_ms)[i],
            ),
        default_pdf_name(name, now_ms).len() >= 4,
        default_pdf_name(name, now_ms).subrange(
            default_pdf_name(name, now_ms).len() - 4,
            default_pdf_name(name, now_ms).len() as int,
        ) == ".pdf"@,
{
    reveal_strlit(".pdf");
    reveal_strlit("Captur-Evidence-");
    lemma_sanitized_clean(name);
    lemma_decimal_digits(now_ms);
    let out = default_pdf_name(name, now_ms);
    let tail = ".pdf"@;
    let head = if sanitized(name).len() == 0 || sanitized(name) == "Evidence-Session"@ {
        "Captur-Evidence-"@ + decimal_text(now_ms)
    } else {
        sanitized(name)
    };
    assert(out == head + tail);
    assert forall|i: int| 0 <= i < head.len() implies file_name_safe(#[trigger] head[i]) by {
        if sanitized(name).len() == 0 || sanitized(name) == "Evidence-Session"@ {
            if i >= 16 {
                assert(head[i] == decimal_text(now_ms)[i - 16]);
            }
        }
    }
    assert forall|i: int| 0 <= i < out.len() implies file_name_safe(#[trigger] out[i]) by {
        if i < head.len() {
            assert(out[i] == head[i]);
        } else {
            assert(out[i] == tail[i - head.len()]);
        }
    }
    assert(out.subrange(out.len() - 4, out.len() as int) =~= tail);
}

/// The default PDF file name for a session called `session_name`, with
/// `now_ms` standing for the current time: the sanitized name and ".pdf",
/// or "Captur-Evidence-", the time and ".pdf" when the sanitized name is
/// empty or the default "Evidence-Session".
pub fn default_pdf_filename_at(session_name: &str, now_ms: u64) -> (out: String)
    ensures
        out@ == default_pdf_name(session_name@, now_ms as nat),
{
    let stem = sanitize_filename(session_name);
    let default_stem = String::from_str("Evidence-Session");
    let mut out = if stem.as_str().is_empty() || stem == default_stem {
        let mut s = String::from_str("Captur-Evidence-");
        let digits = decimal_string(now_ms);
        s.append(digits.as_str());
        s
    } else {
        stem
    };
    out.append(".pdf");
    out
}

/// The default PDF file name for a session called `session_name` at the
/// current time; see `default_pdf_filename_at`. The time is read from the
/// system clock, so only the form of the fallback name is stated.
pub fn default_pdf_filename(session_name: &str) -> (out: String)
    ensures
        exists|now: u64| out@ == #[trigger] default_pdf_name(session_name@, now as nat),
        !(sanitized(session_name@).len() == 0 || sanitized(session_name@) == "Evidence-Session"@) ==> out@
            == sanitized(session_name@) + ".pdf"@,
{
    let now = now_unix_ms();
    default_pdf_filename_at(session_name, now)
}

/// The name proposed when the latest capture, `width` by `height` pixels, is
/// saved as a PNG: "ProofSnip-WxH.png".
pub fn capture_png_name(width: u32, height: u32) -> (name: String)
    ensures
        name@ == "ProofSnip-"@ + decimal_text(width as nat) + "x"@ + decimal_text(height as nat) + ".png"@,
{
    let mut name = String::from_str("ProofSnip-");
    let w = decimal_string(width as u64);
    name.append(w.as_str());
    name.append("x");
    let h = decimal_string(height as u64);
    name.append(h.as_str());
    name.append(".png");
    name
}

} // verus!
