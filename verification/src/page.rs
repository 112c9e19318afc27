//! The plan of an exported evidence document: one page per capture, or per
//! band of a capture too tall for one page, with the text each page shows.
//! Drawing the pages and writing the file are left to the caller.

use vstd::prelude::*;
use crate::calendar::{format_unix_ms, utc_stamp};
use crate::evidence::{label_name, EvidenceLabel, PdfExportCapture, PdfExportModel};
use crate::frame::{is_band_of, is_tall, same_image, segment_rows, split_tall_capture, BgraFrame};
use crate::lines::{truncate_line, truncated, wrap_text, wrapped};
use crate::region::min_int;
use crate::text::{decimal_string, decimal_text, trim_ws, trimmed};

verus! {

/// The text of one page and its orientation.
#[derive(Clone, Debug)]
pub struct PageText {
    /// Whether the page is laid out landscape.
    pub landscape: bool,
    /// The document title at the top of the page.
    pub title: String,
    /// "Capture N", its label and, for a split capture, the part.
    pub heading: String,
    /// The session description, shown on the first page of the first capture.
    pub description: Option<String>,
    /// The caption, on the last page of a capture.
    pub caption_lines: Vec<String>,
    /// When the document was generated and the capture taken.
    pub footer: String,
}

/// A page of the document: the image it shows and its text.
#[derive(Clone, Debug)]
pub struct PagePlan {
    pub segment: BgraFrame,
    pub text: PageText,
}

/// The document: its title and its pages, in order.
#[derive(Clone, Debug)]
pub struct DocumentPlan {
    pub title: String,
    pub pages: Vec<PagePlan>,
}

/// The title shown on pages: the trimmed model title, or "Captur Evidence"
/// when it is blank.
pub open spec fn page_title(title: Seq<char>) -> Seq<char> {
    if trim_ws(title).len() == 0 {
        "Captur Evidence"@
    } else {
        trim_ws(title)
    }
}

/// The title of the document: the model title as it is, or "Captur
/// Evidence" when it is empty.
pub open spec fn document_title(title: Seq<char>) -> Seq<char> {
    if title.len() == 0 {
        "Captur Evidence"@
    } else {
        title
    }
}

/// A page is landscape when its image is more than 1.45 times as wide as
/// it is tall.
pub open spec fn is_landscape(width: int, height: int) -> bool {
    100 * width > 145 * height
}

/// "Capture N", then " · " and the label unless the capture is unlabeled,
/// then " · part i/n" when the capture spans several pages.
pub open spec fn heading_text(number: nat, label: EvidenceLabel, index: nat, count: nat) -> Seq<char> {
    "Capture "@ + decimal_text(number) + (if label == EvidenceLabel::Unlabeled {
        Seq::<char>::empty()
    } else {
        " · "@ + label_name(label)
    }) + (if count > 1 {
        " · part "@ + decimal_text(index + 1) + "/"@ + decimal_text(count)
    } else {
        Seq::<char>::empty()
    })
}

/// "Generated by Captur · <generated> · captured <captured>", both as UTC
/// time stamps.
pub open spec fn footer_text(generated_ms: nat, captured_ms: nat) -> Seq<char> {
    "Generated by Captur · "@ + utc_stamp(generated_ms) + " · captured "@ + utc_stamp(captured_ms)
}

/// `t` is the text of page `index` of `count` pages of `capture`, whose
/// image is `width` by `height` pixels, in a document made from `model`.
pub open spec fn is_page_text(
    t: PageText,
    model: PdfExportModel,
    capture: PdfExportCapture,
    width: int,
    height: int,
    index: nat,
    count: nat,
) -> bool {
    let landscape = is_landscape(width, height);
    &&& t.landscape == landscape
    &&& t.title@ == page_title(model.title@)
    &&& t.heading@ == heading_text(capture.number as nat, capture.label, index, count)
    &&& (if capture.number == 1 && index == 0 && model.description@.len() > 0 {
        t.description is Some && t.description->0@ == truncated(model.description@, 130)
    } else {
        t.description is None
    })
    &&& (if capture.caption@.len() > 0 && index + 1 == count {
        let lines = wrapped(capture.caption@, if landscape { 115 } else { 85 }, 2);
        &&& t.caption_lines@.len() == lines.len()
        &&& forall|i: int| 0 <= i < lines.len() ==> (#[trigger] t.caption_lines@[i])@ == lines[i]
    } else {
        t.caption_lines@.len() == 0
    })
    &&& t.footer@ == footer_text(model.generated_at_unix_ms as nat, capture.captured_at_unix_ms as nat)
}

/// The session description is shown once per document: a page's text
/// holds it exactly when the page is the first page of capture 1 and the
/// session has a description, and then it holds the description cut to one
/// line of 130 characters.
pub proof fn lemma_description_on_first_page_only(
    t: PageText,
    model: PdfExportModel,
    capture: PdfExportCapture,
    width: int,
    height: int,
    index: nat,
    count: nat,
)
    requires
        is_page_text(t, model, capture, width, height, index, count),
    ensures
        t.description is Some <==> (capture.number == 1 && index == 0 && model.description@.len() > 0),
        t.description is Some ==> t.description->0@ == truncated(model.description@, 130),
        capture.number != 1 ==> t.description is None,
        index > 0 ==> t.description is None,
{
}

/// What else a page's text says of where it stands: a page is landscape
/// exactly when the image is more than 1.45 times as wide as it is tall;
/// the caption appears only on the last page of a capture; the heading
/// begins with "Capture " and the capture's number, and ends with
/// " · part i/n" exactly when the capture spans more than one page.
pub proof fn lemma_page_layout(
    t: PageText,
    model: PdfExportModel,
    capture: PdfExportCapture,
    width: int,
    height: int,
    index: nat,
    count: nat,
)
    requires
        is_page_text(t, model, capture, width, height, index, count),
    ensures
        t.landscape <==> 100 * width > 145 * height,
        index + 1 != count ==> t.caption_lines@.len() == 0,
        capture.caption@.len() == 0 ==> t.caption_lines@.len() == 0,
        t.heading@.subrange(0, 8 + decimal_text(capture.number as nat).len() as int) == "Capture "@ + decimal_text(
            capture.number as nat,
        ),
        count > 1 ==> t.heading@.subrange(
            t.heading@.len() - (" · part "@ + decimal_text(index + 1) + "/"@ + decimal_text(count)).len(),
            t.heading@.len() as int,
        ) == " · part "@ + decimal_text(index + 1) + "/"@ + decimal_text(count),
{
    let head = "Capture "@ + decimal_text(capture.number as nat);
    let mid = if capture.label == EvidenceLabel::Unlabeled {
        Seq::<char>::empty()
    } else {
        " · "@ + label_name(capture.label)
    };
    let part = if count > 1 {
        " · part "@ + decimal_text(index + 1) + "/"@ + decimal_text(count)
    } else {
        Seq::<char>::empty()
    };
    reveal_strlit("Capture ");
    assert(t.heading@ == head + mid + part);
    assert(t.heading@.subrange(0, head.len() as int) =~= head);
    if count > 1 {
        assert(t.heading@.subrange(t.heading@.len() - part.len(), t.heading@.len() as int) =~= part);
    }
}

fn label_part(label: EvidenceLabel) -> (s: String)
    ensures
        s@ == (if label == EvidenceLabel::Unlabeled {
            Seq::<char>::empty()
        } else {
            " · "@ + label_name(label)
        }),
{
    match label {
        EvidenceLabel::Unlabeled => String::new(),
        other => {
            let mut s = String::from_str(" · ");
            s.append(other.display());
            s
        },
    }
}

/// The text of page `segment_index` of `segment_count` pages of `capture`,
/// whose image is `width` by `height` pixels, in a document made from
/// `model`; see `is_page_text`.
pub fn page_text(
    model: &PdfExportModel,
    capture: &PdfExportCapture,
    width: u32,
    height: u32,
    segment_index: usize,
    segment_count: usize,
) -> (t: PageText)
    requires
        segment_index < segment_count,
    ensures
        is_page_text(
            t,
            *model,
            *capture,
            width as int,
            height as int,
            segment_index as nat,
            segment_count as nat,
        ),
{
    let landscape = 100 * (width as u64) > 145 * (height as u64);
    let trimmed_title = trimmed(model.title.as_str());
    let title = if trimmed_title.as_str().is_empty() {
        String::from_str("Captur Evidence")
    } else {
        trimmed_title
    };
    let mut heading = String::from_str("Capture ");
    let number = decimal_string(capture.number as u64);
    heading.append(number.as_str());
    let label = label_part(capture.label);
    heading.append(label.as_str());
    if segment_count > 1 {
        let ghost front = heading@;
        let mut part = String::from_str(" · part ");
        let index = decimal_string((segment_index + 1) as u64);
        part.append(index.as_str());
        part.append("/");
        let count = decimal_string(segment_count as u64);
        part.append(count.as_str());
        heading.append(part.as_str());
        assert(heading@ == front + part@);
    }
    assert(heading@ =~= heading_text(
        capture.number as nat,
        capture.label,
        segment_index as nat,
        segment_count as nat,
    ));
    let description = if capture.number == 1 && segment_index == 0 && !model.description.as_str().is_empty() {
        Some(truncate_line(model.description.as_str(), 130))
    } else {
        None
    };
    let caption_lines = if !capture.caption.as_str().is_empty() && segment_index + 1 == segment_count {
        wrap_text(
            capture.caption.as_str(),
            if landscape {
                115
            } else {
                85
            },
            2,
        )
    } else {
        Vec::new()
    };
    let mut footer = String::from_str("Generated by Captur · ");
    let generated = format_unix_ms(model.generated_at_unix_ms);
    footer.append(generated.as_str());
    footer.append(" · captured ");
    let captured = format_unix_ms(capture.captured_at_unix_ms);
    footer.append(captured.as_str());
    assert(footer@ =~= footer_text(model.generated_at_unix_ms as nat, capture.captured_at_unix_ms as nat));
    PageText { landscape, title, heading, description, caption_lines, footer }
}

/// The number of pages a capture of `frame` takes: one, or one per band
/// when it is tall (none for a tall capture without rows).
pub open spec fn segment_count(frame: BgraFrame) -> int {
    if !is_tall(frame.width as int, frame.height as int) {
        1
    } else {
        let seg = segment_rows(frame.width as int);
        (frame.height + seg - 1) / seg
    }
}

/// `segment` is the image of page `index` of a capture of `frame`: the
/// whole capture, or its `index`-th band.
pub open spec fn is_segment_of(segment: BgraFrame, frame: BgraFrame, index: int) -> bool {
    if !is_tall(frame.width as int, frame.height as int) {
        index == 0 && same_image(segment, frame)
    } else {
        let seg = segment_rows(frame.width as int);
        is_band_of(segment, frame, index * seg, min_int(seg, frame.height - index * seg))
    }
}

/// The number of pages of the captures before capture `i`.
pub open spec fn pages_before(captures: Seq<PdfExportCapture>, i: int) -> int
    decreases i,
{
    if i <= 0 {
        0
    } else {
        pages_before(captures, i - 1) + segment_count(captures[i - 1].frame)
    }
}

/// The position in the document of page `j` of capture `i`.
pub open spec fn page_index(captures: Seq<PdfExportCapture>, i: int, j: int) -> int {
    pages_before(captures, i) + j
}

/// The pages of the captures before capture `i` come before those of the
/// captures from `k` on, for `i <= k`.
proof fn lemma_pages_before_grows(captures: Seq<PdfExportCapture>, i: int, k: int)
    requires
        0 <= i <= k,
    ensures
        pages_before(captures, i) <= pages_before(captures, k),
    decreases k - i,
{
    if i < k {
        lemma_pages_before_grows(captures, i, k - 1);
        lemma_segment_count_nonneg(captures[k - 1].frame);
    }
}

proof fn lemma_segment_count_nonneg(frame: BgraFrame)
    ensures
        segment_count(frame) >= 0,
{
    let seg = segment_rows(frame.width as int);
    if is_tall(frame.width as int, frame.height as int) {
        assert((frame.height + seg - 1) / seg >= 0) by (nonlinear_arith)
            requires
                seg >= 1,
                frame.height >= 0,
        ;
    }
}

/// Every capture with at least one row of pixels gets at least one page, so
/// a document has at least as many pages as it has such captures.
pub proof fn lemma_a_page_per_capture(captures: Seq<PdfExportCapture>, i: int)
    requires
        0 <= i <= captures.len(),
        forall|k: int| 0 <= k < captures.len() ==> (#[trigger] captures[k]).frame.height >= 1,
    ensures
        pages_before(captures, i) >= i,
        forall|k: int| 0 <= k < captures.len() ==> segment_count(#[trigger] captures[k].frame) >= 1,
    decreases i,
{
    assert forall|k: int| 0 <= k < captures.len() implies segment_count(#[trigger] captures[k].frame) >= 1 by {
        let f = captures[k].frame;
        if is_tall(f.width as int, f.height as int) {
            let seg = segment_rows(f.width as int);
            assert((f.height + seg - 1) / seg >= 1) by (nonlinear_arith)
                requires
                    seg >= 1,
                    f.height >= 1,
            ;
        }
    }
    if i > 0 {
        lemma_a_page_per_capture(captures, i - 1);
    }
}

/// A split into `n` bands of `seg` rows that covers `height` rows, with a
/// last band that is not empty, has `ceil(height / seg)` bands.
proof fn lemma_band_count(n: int, seg: int, height: int)
    requires
        seg >= 1,
        height >= 0,
        n >= 0,
        n * seg >= height,
        n == 0 || (n - 1) * seg < height,
    ensures
        n == (height + seg - 1) / seg,
{
    let q = (height + seg - 1) / seg;
    vstd::arithmetic::div_mod::lemma_fundamental_div_mod(height + seg - 1, seg);
    vstd::arithmetic::div_mod::lemma_mod_bound(height + seg - 1, seg);
    if n == 0 {
        assert(height == 0);
        vstd::arithmetic::div_mod::lemma_basic_div(seg - 1, seg);
    } else {
        assert(n == q) by (nonlinear_arith)
            requires
                seg >= 1,
                n * seg >= height,
                (n - 1) * seg < height,
                seg * q + (height + seg - 1) % seg == height + seg - 1,
                0 <= (height + seg - 1) % seg < seg,
        ;
    }
}

/// The pages of the document made from `model`: for each capture in turn,
/// the pages of its segments in order, each with its text; see
/// `is_page_text`. Fails with "the evidence session has no screenshots"
/// when the model has no capture.
pub fn plan_document(model: &PdfExportModel) -> (res: Result<DocumentPlan, String>)
    requires
        forall|i: int|
            0 <= i < model.captures@.len() ==> (#[trigger] model.captures@[i]).frame.wf()
                && model.captures@[i].frame.bounds_fit(),
    ensures
        model.captures@.len() == 0 <==> res is Err,
        res is Err ==> res->Err_0@ == "the evidence session has no screenshots"@,
        res is Ok ==> {
            let plan = res->Ok_0;
            let captures = model.captures@;
            &&& plan.title@ == document_title(model.title@)
            &&& plan.pages@.len() == pages_before(captures, captures.len() as int)
            &&& forall|i: int, j: int|
                0 <= i < captures.len() && 0 <= j < segment_count(captures[i].frame) ==> {
                    let page = #[trigger] plan.pages@[page_index(captures, i, j)];
                    &&& is_segment_of(page.segment, captures[i].frame, j)
                    &&& is_page_text(
                        page.text,
                        *model,
                        captures[i],
                        page.segment.width as int,
                        page.segment.height as int,
                        j as nat,
                        segment_count(captures[i].frame) as nat,
                    )
                }
        },
{
    if model.captures.len() == 0 {
        return Err(String::from_str("the evidence session has no screenshots"));
    }
    let title = if model.title.as_str().is_empty() {
        String::from_str("Captur Evidence")
    } else {
        model.title.clone()
    };
    let ghost captures = model.captures@;
    let mut pages: Vec<PagePlan> = Vec::new();
    let mut i: usize = 0;
    while i < model.captures.len()
        invariant
            i <= captures.len(),
            captures == model.captures@,
            forall|k: int|
                0 <= k < captures.len() ==> (#[trigger] captures[k]).frame.wf()
                    && captures[k].frame.bounds_fit(),
            pages@.len() == pages_before(captures, i as int),
            forall|a: int, j: int|
                0 <= a < i && 0 <= j < segment_count(captures[a].frame) ==> {
                    let page = #[trigger] pages@[page_index(captures, a, j)];
                    &&& is_segment_of(page.segment, captures[a].frame, j)
                    &&& is_page_text(
                        page.text,
                        *model,
                        captures[a],
                        page.segment.width as int,
                        page.segment.height as int,
                        j as nat,
                        segment_count(captures[a].frame) as nat,
                    )
                },
        decreases captures.len() - i,
    {
        let capture = &model.captures[i];
        let mut segments = split_tall_capture(&capture.frame);
        let count = segments.len();
        let ghost all_segments = segments@;
        let ghost frame = capture.frame;
        proof {
            if is_tall(frame.width as int, frame.height as int) {
                lemma_band_count(count as int, segment_rows(frame.width as int), frame.height as int);
            }
            assert(count == segment_count(frame));
        }
        let ghost start = pages@.len() as int;
        let mut j: usize = 0;
        while j < count
            invariant
                i < captures.len(),
                captures == model.captures@,
                *capture == captures[i as int],
                frame == capture.frame,
                count == segment_count(frame),
                count == all_segments.len(),
                j <= count,
                segments@ == all_segments.subrange(j as int, count as int),
                start == pages_before(captures, i as int),
                start >= 0,
                pages@.len() == start + j,
                forall|k: int|
                    0 <= k < count ==> (is_tall(frame.width as int, frame.height as int) ==> is_segment_of(
                        #[trigger] all_segments[k],
                        frame,
                        k,
                    )),
                !is_tall(frame.width as int, frame.height as int) ==> count == 1 && same_image(
                    all_segments[0],
                    frame,
                ),
                forall|a: int, jj: int|
                    0 <= a < i && 0 <= jj < segment_count(captures[a].frame) ==> {
                        let page = #[trigger] pages@[page_index(captures, a, jj)];
                        &&& is_segment_of(page.segment, captures[a].frame, jj)
                        &&& is_page_text(
                            page.text,
                            *model,
                            captures[a],
                            page.segment.width as int,
                            page.segment.height as int,
                            jj as nat,
                            segment_count(captures[a].frame) as nat,
                        )
                    },
                forall|jj: int|
                    0 <= jj < j ==> {
                        let page = #[trigger] pages@[start + jj];
                        &&& is_segment_of(page.segment, frame, jj)
                        &&& is_page_text(
                            page.text,
                            *model,
                            captures[i as int],
                            page.segment.width as int,
                            page.segment.height as int,
                            jj as nat,
                            count as nat,
                        )
                    },
            decreases count - j,
        {
            let segment = segments.remove(0);
            assert(segment == all_segments[j as int]);
            let text = page_text(model, capture, segment.width, segment.height, j, count);
            let ghost old_pages = pages@;
            pages.push(PagePlan { segment, text });
            proof {
                assert forall|a: int, jj: int|
                    0 <= a < i && 0 <= jj < segment_count(captures[a].frame) implies pages@[page_index(
                        captures,
                        a,
                        jj,
                    )] == old_pages[page_index(captures, a, jj)] by {
                    lemma_pages_before_grows(captures, a + 1, i as int);
                    lemma_pages_before_grows(captures, 0, a);
                    assert(pages_before(captures, a + 1) == pages_before(captures, a) + segment_count(
                        captures[a].frame,
                    ));
                    assert(page_index(captures, a, jj) < old_pages.len());
                }
                assert forall|jj: int| 0 <= jj < j + 1 implies {
                    let page = #[trigger] pages@[start + jj];
                    &&& is_segment_of(page.segment, frame, jj)
                    &&& is_page_text(
                        page.text,
                        *model,
                        captures[i as int],
                        page.segment.width as int,
                        page.segment.height as int,
                        jj as nat,
                        count as nat,
                    )
                } by {
                    if jj < j {
                        assert(pages@[start + jj] == old_pages[start + jj]);
                    } else {
                        assert(pages@[start + jj].segment == all_segments[j as int]);
                        if is_tall(frame.width as int, frame.height as int) {
                            assert(is_segment_of(all_segments[j as int], frame, j as int));
                        }
                    }
                }
                assert(segments@ =~= all_segments.subrange(j + 1, count as int));
            }
            j = j + 1;
        }
        proof {
            assert forall|a: int, jj: int|
                0 <= a < i + 1 && 0 <= jj < segment_count(captures[a].frame) implies {
                    let page = #[trigger] pages@[page_index(captures, a, jj)];
                    &&& is_segment_of(page.segment, captures[a].frame, jj)
                    &&& is_page_text(
                        page.text,
                        *model,
                        captures[a],
                        page.segment.width as int,
                        page.segment.height as int,
                        jj as nat,
                        segment_count(captures[a].frame) as nat,
                    )
                } by {
                if a == i {
                    assert(page_index(captures, a, jj) == start + jj);
                }
            }
        }
        i = i + 1;
    }
    Ok(DocumentPlan { title, pages })
}

} // verus!
