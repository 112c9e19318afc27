//! Lines of page text: words split at white space, lines cut to a number of
//! characters with an ellipsis, and greedy wrapping onto a few lines.

use vstd::prelude::*;
use crate::text::{chars_of, is_whitespace_char, is_ws, slice_chars, string_of};

verus! {

/// The words of `s`: its maximal runs of characters that are not white
/// space, in order, as `str::split_whitespace` yields them.
pub open spec fn words(s: Seq<char>) -> Seq<Seq<char>>
    decreases s.len(),
{
    if s.len() == 0 {
        seq![]
    } else {
        let p = s.drop_last();
        let c = s.last();
        let w = words(p);
        if is_ws(c) {
            w
        } else if p.len() == 0 || is_ws(p.last()) {
            w.push(seq![c])
        } else {
            w.update(w.len() - 1, w.last().push(c))
        }
    }
}

/// The words of `ws` joined with one space between each two.
pub open spec fn joined(ws: Seq<Seq<char>>) -> Seq<char>
    decreases ws.len(),
{
    if ws.len() == 0 {
        seq![]
    } else if ws.len() == 1 {
        ws[0]
    } else {
        joined(ws.drop_last()) + seq![' '] + ws.last()
    }
}

/// `s` with its white space normalized: the words of `s` joined by single
/// spaces, with nothing before the first or after the last.
pub open spec fn squeezed(s: Seq<char>) -> Seq<char> {
    joined(words(s))
}

/// `s` normalized and cut to at most `max_chars` characters: when the
/// normalized text is longer, its first `max_chars - 1` characters (none
/// when `max_chars` is 0) and an ellipsis.
pub open spec fn truncated(s: Seq<char>, max_chars: nat) -> Seq<char> {
    let n = squeezed(s);
    if n.len() <= max_chars {
        n
    } else {
        n.subrange(0, if max_chars == 0 { 0 } else { max_chars - 1 }).push('…')
    }
}

/// One step of greedy wrapping: word `w` goes onto a new line when the
/// last line cannot take it (with a separating space when the line is not
/// empty) within `max_chars` and fewer than `max_lines` lines are in use;
/// else it is appended to the last line.
pub open spec fn wrap_step(lines: Seq<Seq<char>>, w: Seq<char>, max_chars: nat, max_lines: nat) -> Seq<
    Seq<char>,
> {
    let last = lines.last();
    let extra: int = if last.len() == 0 { 0 } else { 1 };
    if last.len() + extra + w.len() > max_chars && lines.len() < max_lines {
        lines.push(w)
    } else {
        lines.update(lines.len() - 1, if last.len() == 0 { w } else { last + seq![' '] + w })
    }
}

/// The lines that greedy wrapping makes of the words `ws`, starting from a
/// single empty line.
pub open spec fn wrap_words(ws: Seq<Seq<char>>, max_chars: nat, max_lines: nat) -> Seq<Seq<char>>
    decreases ws.len(),
{
    if ws.len() == 0 {
        seq![seq![]]
    } else {
        wrap_step(wrap_words(ws.drop_last(), max_chars, max_lines), ws.last(), max_chars, max_lines)
    }
}

/// The lines `wrap_text` makes of `s`: its words wrapped greedily, and the
/// last line truncated when it is still longer than `max_chars`.
pub open spec fn wrapped(s: Seq<char>, max_chars: nat, max_lines: nat) -> Seq<Seq<char>> {
    let lines = wrap_words(words(s), max_chars, max_lines);
    if lines.last().len() > max_chars {
        lines.update(lines.len() - 1, truncated(lines.last(), max_chars))
    } else {
        lines
    }
}

/// Wrapping always leaves at least one line.
pub proof fn lemma_wrap_words_nonempty(ws: Seq<Seq<char>>, max_chars: nat, max_lines: nat)
    ensures
        wrap_words(ws, max_chars, max_lines).len() >= 1,
    decreases ws.len(),
{
    if ws.len() > 0 {
        lemma_wrap_words_nonempty(ws.drop_last(), max_chars, max_lines);
    }
}

/// A text whose last character is not white space has a word.
proof fn lemma_words_end(s: Seq<char>)
    requires
        s.len() > 0,
        !is_ws(s.last()),
    ensures
        words(s).len() > 0,
    decreases s.len(),
{
    let p = s.drop_last();
    if p.len() > 0 && !is_ws(p.last()) {
        lemma_words_end(p);
    }
}

/// Every word is a non-empty run of characters that are not white space.
pub proof fn lemma_words_shape(s: Seq<char>)
    ensures
        forall|i: int|
            0 <= i < words(s).len() ==> #[trigger] words(s)[i].len() > 0 && forall|j: int|
                0 <= j < words(s)[i].len() ==> !is_ws(#[trigger] words(s)[i][j]),
    decreases s.len(),
{
    if s.len() > 0 {
        let p = s.drop_last();
        lemma_words_shape(p);
        let c = s.last();
        let w = words(p);
        if !is_ws(c) && !(p.len() == 0 || is_ws(p.last())) {
            lemma_words_end(p);
            assert forall|i: int| 0 <= i < words(s).len() implies #[trigger] words(s)[i].len() > 0
                && forall|j: int| 0 <= j < words(s)[i].len() ==> !is_ws(#[trigger] words(s)[i][j]) by {
                if i == w.len() - 1 {
                    assert forall|j: int| 0 <= j < words(s)[i].len() implies !is_ws(
                        #[trigger] words(s)[i][j],
                    ) by {
                        if j < w[i].len() {
                            assert(words(s)[i][j] == w[i][j]);
                        }
                    }
                }
            }
        } else if !is_ws(c) {
            assert forall|i: int| 0 <= i < words(s).len() implies #[trigger] words(s)[i].len() > 0
                && forall|j: int| 0 <= j < words(s)[i].len() ==> !is_ws(#[trigger] words(s)[i][j]) by {
                if i < w.len() {
                    assert(words(s)[i] == w[i]);
                }
            }
        }
    }
}

/// The words of `v`, as `str::split_whitespace` yields them.
pub fn split_words(v: &Vec<char>) -> (ws: Vec<Vec<char>>)
    ensures
        ws@.len() == words(v@).len(),
        forall|i: int| 0 <= i < ws@.len() ==> (#[trigger] ws@[i])@ == words(v@)[i],
{
    let mut done: Vec<Vec<char>> = Vec::new();
    let mut current: Vec<char> = Vec::new();
    let mut i: usize = 0;
    while i < v.len()
        invariant
            i <= v@.len(),
            current@.len() > 0 <==> (i > 0 && !is_ws(v@[i - 1])),
            words(v@.subrange(0, i as int)) == (if current@.len() > 0 {
                done@.map_values(|w: Vec<char>| w@).push(current@)
            } else {
                done@.map_values(|w: Vec<char>| w@)
            }),
        decreases v@.len() - i,
    {
        let c = v[i];
        let ghost before = done@.map_values(|w: Vec<char>| w@);
        let ghost cur = current@;
        let ghost pre = v@.subrange(0, i + 1);
        assert(pre.drop_last() =~= v@.subrange(0, i as int));
        if is_whitespace_char(c) {
            if current.len() > 0 {
                done.push(current);
                current = Vec::new();
                assert(done@.map_values(|w: Vec<char>| w@) =~= before.push(cur));
            }
        } else {
            current.push(c);
            proof {
                if cur.len() == 0 {
                    assert(current@ =~= seq![c]);
                    assert(words(pre) =~= before.push(seq![c]));
                } else {
                    let w = words(v@.subrange(0, i as int));
                    assert(w == before.push(cur));
                    assert(w.update(w.len() - 1, w.last().push(c)) =~= before.push(cur.push(c)));
                    assert(words(pre) =~= before.push(cur.push(c)));
                }
            }
        }
        i = i + 1;
    }
    assert(v@.subrange(0, v@.len() as int) =~= v@);
    if current.len() > 0 {
        let ghost before = done@.map_values(|w: Vec<char>| w@);
        let ghost cur = current@;
        done.push(current);
        assert(done@.map_values(|w: Vec<char>| w@) =~= before.push(cur));
    }
    assert forall|k: int| 0 <= k < done@.len() implies (#[trigger] done@[k])@ == words(v@)[k] by {
        assert(done@.map_values(|w: Vec<char>| w@)[k] == done@[k]@);
    }
    done
}

/// The words `ws` joined with single spaces.
pub fn join_words(ws: &Vec<Vec<char>>) -> (out: Vec<char>)
    ensures
        out@ == joined(ws@.map_values(|w: Vec<char>| w@)),
{
    let ghost views = ws@.map_values(|w: Vec<char>| w@);
    let mut out: Vec<char> = Vec::new();
    let mut k: usize = 0;
    while k < ws.len()
        invariant
            k <= ws@.len(),
            views == ws@.map_values(|w: Vec<char>| w@),
            out@ == joined(views.subrange(0, k as int)),
        decreases ws@.len() - k,
    {
        let ghost before = out@;
        if k > 0 {
            out.push(' ');
        }
        let mut word = slice_chars(&ws[k], 0, ws[k].len());
        out.append(&mut word);
        let ghost next = views.subrange(0, k + 1);
        assert(next.drop_last() =~= views.subrange(0, k as int));
        assert(ws@[k as int]@ =~= ws@[k as int]@.subrange(0, ws@[k as int]@.len() as int));
        assert(out@ =~= joined(next));
        k = k + 1;
    }
    assert(views.subrange(0, ws@.len() as int) =~= views);
    out
}

/// The characters of `v` with white space normalized; see `squeezed`.
pub fn squeeze(v: &Vec<char>) -> (out: Vec<char>)
    ensures
        out@ == squeezed(v@),
{
    let ws = split_words(v);
    assert(ws@.map_values(|w: Vec<char>| w@) =~= words(v@));
    join_words(&ws)
}

/// `value` with white space normalized and cut to at most `max_chars`
/// characters, the last of which is an ellipsis when text was cut; see
/// `truncated`.
pub fn truncate_line(value: &str, max_chars: usize) -> (out: String)
    ensures
        out@ == truncated(value@, max_chars as nat),
{
    let v = chars_of(value);
    let t = truncate_chars(&v, max_chars);
    string_of(&t)
}

fn truncate_chars(v: &Vec<char>, max_chars: usize) -> (out: Vec<char>)
    ensures
        out@ == truncated(v@, max_chars as nat),
{
    let normalized = squeeze(v);
    if normalized.len() <= max_chars {
        normalized
    } else {
        let keep = if max_chars == 0 {
            0
        } else {
            max_chars - 1
        };
        let mut out = slice_chars(&normalized, 0, keep);
        out.push('…');
        out
    }
}

/// Whether a line of `line_len` characters can take no word of `word_len`
/// characters (with a separating space when the line is not empty) within
/// `max_chars`.
fn overflows(line_len: usize, word_len: usize, max_chars: usize) -> (b: bool)
    ensures
        b == (line_len + (if line_len == 0 { 0int } else { 1 }) + word_len > max_chars),
{
    if line_len > max_chars {
        true
    } else if line_len == 0 {
        word_len > max_chars
    } else {
        word_len >= max_chars - line_len
    }
}

/// The words `ws` wrapped greedily; see `wrap_words`.
fn wrap_word_lines(ws: &Vec<Vec<char>>, max_chars: usize, max_lines: usize) -> (lines: Vec<Vec<char>>)
    ensures
        lines@.map_values(|l: Vec<char>| l@) == wrap_words(
            ws@.map_values(|w: Vec<char>| w@),
            max_chars as nat,
            max_lines as nat,
        ),
{
    let ghost views = ws@.map_values(|w: Vec<char>| w@);
    let mut lines: Vec<Vec<char>> = Vec::new();
    lines.push(Vec::new());
    proof {
        assert(lines@.map_values(|l: Vec<char>| l@) =~= seq![Seq::<char>::empty()]);
        assert(views.subrange(0, 0) =~= Seq::<Seq<char>>::empty());
    }
    let mut k: usize = 0;
    while k < ws.len()
        invariant
            k <= ws@.len(),
            views == ws@.map_values(|w: Vec<char>| w@),
            lines@.len() >= 1,
            lines@.map_values(|l: Vec<char>| l@) == wrap_words(
                views.subrange(0, k as int),
                max_chars as nat,
                max_lines as nat,
            ),
        decreases ws@.len() - k,
    {
        let ghost before = lines@.map_values(|l: Vec<char>| l@);
        let ghost next = views.subrange(0, k + 1);
        assert(next.drop_last() =~= views.subrange(0, k as int));
        assert(next.last() == ws@[k as int]@);
        let mut word = slice_chars(&ws[k], 0, ws[k].len());
        assert(word@ =~= ws@[k as int]@);
        let mut last = lines.pop().unwrap();
        assert(last@ == before.last());
        assert(lines@.map_values(|l: Vec<char>| l@) =~= before.drop_last());
        if overflows(last.len(), word.len(), max_chars) && max_lines > 0 && lines.len() < max_lines - 1 {
            lines.push(last);
            lines.push(word);
            assert(lines@.map_values(|l: Vec<char>| l@) =~= before.push(next.last()));
        } else {
            let ghost old_last = last@;
            if last.len() > 0 {
                last.push(' ');
            }
            last.append(&mut word);
            assert(last@ =~= (if old_last.len() == 0 { next.last() } else { old_last + seq![' '] + next.last() }));
            lines.push(last);
            assert(lines@.map_values(|l: Vec<char>| l@) =~= before.update(
                before.len() - 1,
                if old_last.len() == 0 { next.last() } else { old_last + seq![' '] + next.last() },
            ));
        }
        k = k + 1;
    }
    assert(views.subrange(0, ws@.len() as int) =~= views);
    lines
}

/// `value` wrapped onto at most `max_lines` lines of at most `max_chars`
/// characters where its words allow: greedy wrapping of the words, and the
/// last line truncated when it is still too long; see `wrapped`. A word
/// longer than a line is never broken, and once `max_lines` lines are in
/// use the rest goes onto the last line before it is truncated.
pub fn wrap_text(value: &str, max_chars: usize, max_lines: usize) -> (out: Vec<String>)
    ensures
        out@.len() == wrapped(value@, max_chars as nat, max_lines as nat).len(),
        forall|i: int|
            0 <= i < out@.len() ==> (#[trigger] out@[i])@ == wrapped(
                value@,
                max_chars as nat,
                max_lines as nat,
            )[i],
{
    let v = chars_of(value);
    let ws = split_words(&v);
    assert(ws@.map_values(|w: Vec<char>| w@) =~= words(v@));
    let mut lines = wrap_word_lines(&ws, max_chars, max_lines);
    let ghost target = wrapped(value@, max_chars as nat, max_lines as nat);
    proof {
        lemma_wrap_words_nonempty(words(v@), max_chars as nat, max_lines as nat);
    }
    let ghost wl = lines@.map_values(|l: Vec<char>| l@);
    assert(lines@.len() == wl.len());
    let last_len = lines[lines.len() - 1].len();
    if last_len > max_chars {
        let last = lines.pop().unwrap();
        let cut = truncate_chars(&last, max_chars);
        lines.push(cut);
        assert(lines@.map_values(|l: Vec<char>| l@) =~= target);
    } else {
        assert(lines@.map_values(|l: Vec<char>| l@) =~= target);
    }
    let mut out: Vec<String> = Vec::new();
    let mut i: usize = 0;
    while i < lines.len()
        invariant
            i <= lines@.len(),
            lines@.map_values(|l: Vec<char>| l@) == target,
            out@.len() == i,
            forall|j: int| 0 <= j < i ==> (#[trigger] out@[j])@ == target[j],
        decreases lines@.len() - i,
    {
        let line = string_of(&lines[i]);
        assert(line@ == target[i as int]);
        out.push(line);
        i = i + 1;
    }
    out
}

/// A truncated line holds at most `max_chars` characters, for any
/// `max_chars` of at least one.
pub proof fn lemma_truncated_fits(s: Seq<char>, max_chars: nat)
    requires
        max_chars >= 1,
    ensures
        truncated(s, max_chars).len() <= max_chars,
{
}

/// Greedy wrapping uses at most `max_lines` lines, or one line when
/// `max_lines` is 0.
proof fn lemma_wrap_words_count(ws: Seq<Seq<char>>, max_chars: nat, max_lines: nat)
    ensures
        wrap_words(ws, max_chars, max_lines).len() <= (if max_lines == 0 { 1 } else { max_lines }),
    decreases ws.len(),
{
    if ws.len() > 0 {
        lemma_wrap_words_count(ws.drop_last(), max_chars, max_lines);
        lemma_wrap_words_nonempty(ws.drop_last(), max_chars, max_lines);
    }
}

/// Wrapped text takes at least one and at most `max_lines` lines (one when
/// `max_lines` is 0), and its last line fits in `max_chars` characters
/// whenever `max_chars` is at least one.
pub proof fn lemma_wrapped_bounds(s: Seq<char>, max_chars: nat, max_lines: nat)
    ensures
        1 <= wrapped(s, max_chars, max_lines).len() <= (if max_lines == 0 { 1 } else { max_lines }),
        max_chars >= 1 ==> wrapped(s, max_chars, max_lines).last().len() <= max_chars,
{
    lemma_wrap_words_count(words(s), max_chars, max_lines);
    lemma_wrap_words_nonempty(words(s), max_chars, max_lines);
    let lines = wrap_words(words(s), max_chars, max_lines);
    if max_chars >= 1 {
        lemma_truncated_fits(lines.last(), max_chars);
    }
}

} // verus!
