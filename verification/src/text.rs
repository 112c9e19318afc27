//! Character classes and string helpers over `Seq<char>`.

use vstd::prelude::*;
use vstd::std_specs::iter::IteratorSpec;

verus! {

broadcast use vstd::string::group_string_axioms;

/// Unicode `White_Space`, the class `char::is_whitespace` tests.
pub open spec fn is_ws(c: char) -> bool {
    let v = c as u32;
    ||| 0x09 <= v <= 0x0d
    ||| v == 0x20
    ||| v == 0x85
    ||| v == 0xa0
    ||| v == 0x1680
    ||| 0x2000 <= v <= 0x200a
    ||| v == 0x2028
    ||| v == 0x2029
    ||| v == 0x202f
    ||| v == 0x205f
    ||| v == 0x3000
}

/// Unicode general category `Cc`, the class `char::is_control` tests.
pub open spec fn is_ctrl(c: char) -> bool {
    let v = c as u32;
    v <= 0x1f || (0x7f <= v <= 0x9f)
}

/// Whether `c` is Unicode white space.
pub fn is_whitespace_char(c: char) -> (b: bool)
    ensures
        b == is_ws(c),
{
    let v = c as u32;
    (0x09 <= v && v <= 0x0d) || v == 0x20 || v == 0x85 || v == 0xa0 || v == 0x1680 || (0x2000 <= v
        && v <= 0x200a) || v == 0x2028 || v == 0x2029 || v == 0x202f || v == 0x205f || v == 0x3000
}

/// Whether `c` is a control character.
pub fn is_control_char(c: char) -> (b: bool)
    ensures
        b == is_ctrl(c),
{
    let v = c as u32;
    v <= 0x1f || (0x7f <= v && v <= 0x9f)
}

/// The characters of `s`, in order.
pub fn chars_of(s: &str) -> (v: Vec<char>)
    ensures
        v@ == s@,
{
    let mut it = s.chars();
    let mut v: Vec<char> = Vec::new();
    loop
        invariant
            it.obeys_prophetic_iter_laws(),
            it.decrease() is Some,
            v@ + it.remaining() == s@,
        ensures
            v@ == s@,
        decreases it.decrease()->0,
    {
        let ghost before = it.remaining();
        match it.next() {
            Some(c) => {
                v.push(c);
                assert(v@ + it.remaining() =~= s@) by {
                    assert(before == seq![c] + it.remaining());
                }
            },
            None => {
                assert(v@ =~= s@);
                break;
            },
        }
    }
    v
}

/// `String::push`: appends `c` to the end of `s`.
#[verifier::external_body]
fn string_push(s: &mut String, c: char)
    ensures
        final(s)@ == old(s)@.push(c),
{
    s.push(c);
}

/// A `String` holding the characters of `v`.
pub fn string_of(v: &Vec<char>) -> (s: String)
    ensures
        s@ == v@,
{
    let mut s = String::new();
    let mut i: usize = 0;
    while i < v.len()
        invariant
            i <= v@.len(),
            s@ == v@.subrange(0, i as int),
        decreases v@.len() - i,
    {
        string_push(&mut s, v[i]);
        assert(s@ =~= v@.subrange(0, i + 1));
        i = i + 1;
    }
    assert(s@ =~= v@);
    s
}

/// `s` without its leading white space.
pub open spec fn trim_start_ws(s: Seq<char>) -> Seq<char>
    decreases s.len(),
{
    if s.len() > 0 && is_ws(s[0]) { trim_start_ws(s.drop_first()) } else { s }
}

/// `s` without its trailing white space.
pub open spec fn trim_end_ws(s: Seq<char>) -> Seq<char>
    decreases s.len(),
{
    if s.len() > 0 && is_ws(s.last()) { trim_end_ws(s.drop_last()) } else { s }
}

/// `s` without leading and trailing white space, as `str::trim` gives it.
pub open spec fn trim_ws(s: Seq<char>) -> Seq<char> {
    trim_end_ws(trim_start_ws(s))
}

/// `s` without the leading characters for which `strip` holds.
pub open spec fn trim_start_by(s: Seq<char>, strip: spec_fn(char) -> bool) -> Seq<char>
    decreases s.len(),
{
    if s.len() > 0 && strip(s[0]) { trim_start_by(s.drop_first(), strip) } else { s }
}

/// `s` without the trailing characters for which `strip` holds.
pub open spec fn trim_end_by(s: Seq<char>, strip: spec_fn(char) -> bool) -> Seq<char>
    decreases s.len(),
{
    if s.len() > 0 && strip(s.last()) { trim_end_by(s.drop_last(), strip) } else { s }
}

/// Facts on trimming at the front: what is left is a suffix whose first
/// character, if any, is kept, and everything cut was stripped.
pub proof fn lemma_trim_start(s: Seq<char>, strip: spec_fn(char) -> bool)
    ensures
        ({
            let t = trim_start_by(s, strip);
            &&& t.len() <= s.len()
            &&& t == s.subrange(s.len() - t.len(), s.len() as int)
            &&& t.len() > 0 ==> !strip(t[0])
            &&& forall|i: int| 0 <= i < s.len() - t.len() ==> strip(#[trigger] s[i])
        }),
    decreases s.len(),
{
    if s.len() > 0 && strip(s[0]) {
        lemma_trim_start(s.drop_first(), strip);
        let t = trim_start_by(s, strip);
        assert(t == s.subrange(s.len() - t.len(), s.len() as int)) by {
            assert(s.drop_first().subrange(s.drop_first().len() - t.len(), s.drop_first().len() as int) =~= s.subrange(
                s.len() - t.len(),
                s.len() as int,
            ));
        }
        assert forall|i: int| 0 <= i < s.len() - t.len() implies strip(#[trigger] s[i]) by {
            if i > 0 {
                assert(s[i] == s.drop_first()[i - 1]);
            }
        }
    } else {
        assert(s == s.subrange(0, s.len() as int));
    }
}

/// Facts on trimming at the back: what is left is a prefix whose last
/// character, if any, is kept, and everything cut was stripped.
pub proof fn lemma_trim_end(s: Seq<char>, strip: spec_fn(char) -> bool)
    ensures
        ({
            let t = trim_end_by(s, strip);
            &&& t.len() <= s.len()
            &&& t == s.subrange(0, t.len() as int)
            &&& t.len() > 0 ==> !strip(t.last())
            &&& forall|i: int| t.len() <= i < s.len() ==> strip(#[trigger] s[i])
        }),
    decreases s.len(),
{
    if s.len() > 0 && strip(s.last()) {
        lemma_trim_end(s.drop_last(), strip);
        let t = trim_end_by(s, strip);
        assert(t == s.subrange(0, t.len() as int)) by {
            assert(s.drop_last().subrange(0, t.len() as int) =~= s.subrange(0, t.len() as int));
        }
        assert forall|i: int| t.len() <= i < s.len() implies strip(#[trigger] s[i]) by {
            if i < s.len() - 1 {
                assert(s[i] == s.drop_last()[i]);
            }
        }
    } else {
        assert(s == s.subrange(0, s.len() as int));
    }
}

/// The white-space class as a predicate value.
pub open spec fn ws_pred() -> spec_fn(char) -> bool {
    |c: char| is_ws(c)
}

/// `trim_start_ws` is `trim_start_by` with the white-space class.
pub proof fn lemma_trim_ws_by(s: Seq<char>)
    ensures
        trim_start_ws(s) == trim_start_by(s, ws_pred()),
        trim_end_ws(s) == trim_end_by(s, ws_pred()),
    decreases s.len(),
{
    if s.len() > 0 {
        lemma_trim_ws_by(s.drop_first());
        lemma_trim_ws_by(s.drop_last());
    }
}

/// The index range `[start, end)` of `v` that remains once leading and
/// trailing characters for which `strip` holds are cut.
fn trimmed_range(v: &Vec<char>, Ghost(strip): Ghost<spec_fn(char) -> bool>, kind: u8) -> (r: (usize, usize))
    requires
        kind == 0 ==> strip == ws_pred(),
        kind == 1 ==> strip == edge_pred(),
        kind <= 1,
    ensures
        r.0 <= r.1 <= v@.len(),
        v@.subrange(r.0 as int, r.1 as int) == trim_end_by(trim_start_by(v@, strip), strip),
{
    let n = v.len();
    assert(v@.subrange(0, n as int) =~= v@);
    let mut start: usize = 0;
    while start < n && strips(v[start], kind)
        invariant
            start <= n,
            n == v@.len(),
            kind <= 1,
            kind == 0 ==> strip == ws_pred(),
            kind == 1 ==> strip == edge_pred(),
            trim_start_by(v@, strip) == trim_start_by(v@.subrange(start as int, n as int), strip),
        decreases n - start,
    {
        assert(v@.subrange(start as int, n as int).drop_first() =~= v@.subrange(start + 1, n as int));
        start = start + 1;
    }
    let ghost front = v@.subrange(start as int, n as int);
    assert(trim_start_by(front, strip) == front);
    let mut end: usize = n;
    while end > start && strips(v[end - 1], kind)
        invariant
            start <= end <= n,
            n == v@.len(),
            kind <= 1,
            kind == 0 ==> strip == ws_pred(),
            kind == 1 ==> strip == edge_pred(),
            front == v@.subrange(start as int, n as int),
            trim_end_by(front, strip) == trim_end_by(v@.subrange(start as int, end as int), strip),
        decreases end - start,
    {
        assert(v@.subrange(start as int, end as int).drop_last() =~= v@.subrange(start as int, end - 1));
        end = end - 1;
    }
    (start, end)
}

/// The characters cut from both ends of a file name.
pub open spec fn is_edge(c: char) -> bool {
    c == ' ' || c == '.' || c == '-'
}

/// `is_edge` as a predicate value.
pub open spec fn edge_pred() -> spec_fn(char) -> bool {
    |c: char| is_edge(c)
}

fn strips(c: char, kind: u8) -> (b: bool)
    requires
        kind <= 1,
    ensures
        kind == 0 ==> b == is_ws(c),
        kind == 1 ==> b == is_edge(c),
{
    if kind == 0 {
        is_whitespace_char(c)
    } else {
        c == ' ' || c == '.' || c == '-'
    }
}

/// The characters of `v` in `[start, end)`.
pub fn slice_chars(v: &Vec<char>, start: usize, end: usize) -> (out: Vec<char>)
    requires
        start <= end <= v@.len(),
    ensures
        out@ == v@.subrange(start as int, end as int),
{
    let mut out: Vec<char> = Vec::new();
    let mut i = start;
    while i < end
        invariant
            start <= i <= end <= v@.len(),
            out@ == v@.subrange(start as int, i as int),
        decreases end - i,
    {
        out.push(v[i]);
        assert(out@ =~= v@.subrange(start as int, i + 1));
        i = i + 1;
    }
    out
}

/// The characters of `v` without leading and trailing white space.
pub fn trim_chars(v: &Vec<char>) -> (out: Vec<char>)
    ensures
        out@ == trim_ws(v@),
{
    let (start, end) = trimmed_range(v, Ghost(ws_pred()), 0);
    proof {
        lemma_trim_ws_by(v@);
        lemma_trim_ws_by(trim_start_ws(v@));
    }
    slice_chars(v, start, end)
}

/// `s.trim()` as an owned string.
pub fn trimmed(s: &str) -> (out: String)
    ensures
        out@ == trim_ws(s@),
{
    let v = chars_of(s);
    let t = trim_chars(&v);
    string_of(&t)
}

/// The characters of `v` without leading and trailing spaces, dots and
/// dashes.
pub fn trim_edges(v: &Vec<char>) -> (out: Vec<char>)
    ensures
        out@ == trim_end_by(trim_start_by(v@, edge_pred()), edge_pred()),
{
    let (start, end) = trimmed_range(v, Ghost(edge_pred()), 1);
    slice_chars(v, start, end)
}

/// The ASCII digit character for `d`.
pub open spec fn digit(d: nat) -> char {
    ((48 + d) as u32) as char
}

/// The decimal digits of `n`, as characters.
pub open spec fn decimal_text(n: nat) -> Seq<char>
    decreases n,
{
    if n < 10 {
        seq![digit(n)]
    } else {
        decimal_text(n / 10).push(digit(n % 10))
    }
}

/// Every decimal digit of `n` is one of '0' to '9'.
pub proof fn lemma_decimal_digits(n: nat)
    ensures
        forall|i: int| 0 <= i < decimal_text(n).len() ==> '0' <= #[trigger] decimal_text(n)[i] <= '9',
        decimal_text(n).len() >= 1,
    decreases n,
{
    if n >= 10 {
        lemma_decimal_digits(n / 10);
        assert forall|i: int| 0 <= i < decimal_text(n).len() implies '0' <= #[trigger] decimal_text(n)[i] <= '9' by {
            if i < decimal_text(n / 10).len() {
                assert(decimal_text(n)[i] == decimal_text(n / 10)[i]);
            }
        }
    }
}

/// The decimal digits of `n` as a string.
pub fn decimal_string(n: u64) -> (s: String)
    ensures
        s@ == decimal_text(n as nat),
    decreases n,
{
    if n < 10 {
        let mut v: Vec<char> = Vec::new();
        v.push(digit_char(n as u8));
        assert(v@ =~= decimal_text(n as nat));
        string_of(&v)
    } else {
        let mut s = decimal_string(n / 10);
        let mut v: Vec<char> = Vec::new();
        v.push(digit_char((n % 10) as u8));
        let tail = string_of(&v);
        s.append(tail.as_str());
        assert(s@ =~= decimal_text(n as nat));
        s
    }
}

/// The ASCII digit for `d < 10`.
pub fn digit_char(d: u8) -> (c: char)
    requires
        d < 10,
    ensures
        c == digit(d as nat),
{
    match d {
        0 => '0',
        1 => '1',
        2 => '2',
        3 => '3',
        4 => '4',
        5 => '5',
        6 => '6',
        7 => '7',
        8 => '8',
        _ => '9',
    }
}

/// The decimal digits of `n`, with zeros in front up to `width`
/// characters, as `format!("{:0width$}")` writes an unsigned number.
pub open spec fn padded(n: nat, width: nat) -> Seq<char> {
    let t = decimal_text(n);
    if t.len() < width {
        Seq::new((width - t.len()) as nat, |i: int| '0') + t
    } else {
        t
    }
}

/// `n` in decimal, padded with zeros to at least `width` characters.
pub fn padded_decimal(n: u64, width: usize) -> (s: String)
    ensures
        s@ == padded(n as nat, width as nat),
{
    let digits = decimal_string(n);
    let len = chars_of(digits.as_str()).len();
    if len < width {
        let mut zeros: Vec<char> = Vec::new();
        let mut i: usize = 0;
        while i < width - len
            invariant
                i <= width - len,
                zeros@ == Seq::new(i as nat, |k: int| '0'),
            decreases width - len - i,
        {
            zeros.push('0');
            assert(zeros@ =~= Seq::new((i + 1) as nat, |k: int| '0'));
            i = i + 1;
        }
        let mut s = string_of(&zeros);
        s.append(digits.as_str());
        s
    } else {
        digits
    }
}

/// The decimal text of `v`, with a minus sign when it is negative, as
/// `format!("{}")` writes a signed number.
pub open spec fn signed_text(v: int) -> Seq<char> {
    if v < 0 {
        "-"@ + decimal_text((-v) as nat)
    } else {
        decimal_text(v as nat)
    }
}

/// `v` in decimal, with a minus sign when it is negative.
pub fn signed_decimal_string(v: i64) -> (s: String)
    ensures
        s@ == signed_text(v as int),
{
    if v < 0 {
        let magnitude: u64 = if v == i64::MIN {
            0x8000_0000_0000_0000
        } else {
            (-v) as u64
        };
        let mut s = String::from_str("-");
        let digits = decimal_string(magnitude);
        s.append(digits.as_str());
        s
    } else {
        decimal_string(v as u64)
    }
}

} // verus!
