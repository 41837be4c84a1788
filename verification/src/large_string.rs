//! A large ANSI colour coded document, indexed by line so that a small
//! window of it can be rendered quickly.

use ansi_to_tui::IntoText;
use ratatui::text::Text;
use vstd::prelude::*;
use vstd::string::StringSliceAdditionalSpecFns;
use vstd::utf8::*;

verus! {

/// True for the bytes that end a line: line feed and carriage return.
pub open spec fn is_eol(b: u8) -> bool {
    b == 0x0a || b == 0x0d
}

/// The position of the first end-of-line byte at or after `i`, or `i` itself
/// when `i` lies at or past the end of `b`.
pub open spec fn eol_from(b: Seq<u8>, i: int) -> int
    decreases b.len() - i,
{
    if 0 <= i < b.len() && !is_eol(b[i]) {
        eol_from(b, i + 1)
    } else {
        i
    }
}

/// Where the line that starts at `i` ends, its terminator included: the line
/// runs up to its first end-of-line byte, and a CR LF or LF CR pair of two
/// different end-of-line bytes counts as one terminator. A last line
/// without terminator ends with the document.
pub open spec fn line_end(b: Seq<u8>, i: int) -> int {
    let e = eol_from(b, i);
    if e >= b.len() {
        b.len() as int
    } else if e + 1 < b.len() && is_eol(b[e + 1]) && b[e] != b[e + 1] {
        e + 2
    } else {
        e + 1
    }
}

/// The eol search moves forward and stays within the document.
pub proof fn lemma_eol_from_bounds(b: Seq<u8>, i: int)
    requires
        0 <= i,
    ensures
        i <= eol_from(b, i),
        i <= b.len() ==> eol_from(b, i) <= b.len(),
        eol_from(b, i) < b.len() ==> is_eol(b[eol_from(b, i)]),
        forall|k: int| i <= k < eol_from(b, i) ==> !is_eol(#[trigger] b[k]),
    decreases b.len() - i,
{
    if 0 <= i < b.len() && !is_eol(b[i]) {
        lemma_eol_from_bounds(b, i + 1);
    }
}

/// The start offsets of the lines of `b` from offset `i` on.
pub open spec fn line_starts_from(b: Seq<u8>, i: int) -> Seq<int>
    decreases b.len() - i,
{
    if 0 <= i < b.len() {
        proof {
            lemma_eol_from_bounds(b, i);
        }
        seq![i] + line_starts_from(b, line_end(b, i))
    } else {
        seq![]
    }
}

/// The start offsets of all lines of the byte sequence `b`.
pub open spec fn line_starts(b: Seq<u8>) -> Seq<int> {
    line_starts_from(b, 0)
}

/// The line starts from `i` on rise strictly, lie inside the document, begin
/// at `i`, and each one after the first directly follows an end-of-line byte.
pub proof fn lemma_line_starts_from_shape(b: Seq<u8>, i: int)
    requires
        0 <= i,
    ensures
        ({
            let s = line_starts_from(b, i);
            &&& s.len() > 0 <==> i < b.len()
            &&& s.len() > 0 ==> s[0] == i
            &&& forall|k: int| 0 <= k < s.len() ==> i <= #[trigger] s[k] < b.len()
            &&& forall|k: int, j: int| 0 <= k < j < s.len() ==> #[trigger] s[k] < #[trigger] s[j]
            &&& forall|k: int| 0 < k < s.len() ==> is_eol(b[#[trigger] s[k] - 1])
        }),
    decreases b.len() - i,
{
    if i < b.len() {
        lemma_eol_from_bounds(b, i);
        let e = line_end(b, i);
        lemma_line_starts_from_shape(b, e);
        let s = line_starts_from(b, i);
        let rest = line_starts_from(b, e);
        assert(s == seq![i] + rest);
        assert forall|k: int| 0 < k < s.len() implies is_eol(b[#[trigger] s[k] - 1]) by {
            assert(s[k] == rest[k - 1]);
            if k > 1 {
                assert(is_eol(b[rest[k - 1] - 1]));
            } else {
                assert(s[k] == e);
            }
        }
        assert forall|k: int, j: int| 0 <= k < j < s.len() implies #[trigger] s[k]
            < #[trigger] s[j] by {
            assert(s[j] == rest[j - 1]);
            if k > 0 {
                assert(s[k] == rest[k - 1]);
            }
        }
    }
}

/// Each line start from `i` on is where the line before it ends, and the
/// last line ends with the document.
proof fn lemma_line_starts_chain(b: Seq<u8>, i: int)
    requires
        0 <= i,
    ensures
        ({
            let s = line_starts_from(b, i);
            &&& forall|k: int| 0 < k < s.len() ==> #[trigger] s[k] == line_end(b, s[k - 1])
            &&& s.len() > 0 ==> line_end(b, s.last()) == b.len()
        }),
    decreases b.len() - i,
{
    if i < b.len() {
        lemma_eol_from_bounds(b, i);
        let e = line_end(b, i);
        lemma_line_starts_chain(b, e);
        lemma_line_starts_from_shape(b, e);
        let s = line_starts_from(b, i);
        let rest = line_starts_from(b, e);
        assert(s == seq![i] + rest);
        assert forall|k: int| 0 < k < s.len() implies #[trigger] s[k] == line_end(b, s[k - 1]) by {
            assert(s[k] == rest[k - 1]);
            if k > 1 {
                assert(s[k - 1] == rest[k - 2]);
            }
        }
        if rest.len() > 0 {
            assert(s.last() == rest.last());
        } else {
            assert(s.last() == i);
        }
    }
}

/// How one line ends and the next begins: after the start of each line but
/// the last comes the first end-of-line byte of that line, and the next line
/// starts right after it, or one byte later when the two bytes there are two
/// different end-of-line bytes (CR LF or LF CR). A terminator is thus at
/// most two bytes, so a blank line between two CR LF is a line of its own.
/// The last line runs to the end of the document: it holds at most its
/// first end-of-line byte, or such a pair, as its last bytes.
pub proof fn lemma_line_terminators(b: Seq<u8>)
    ensures
        forall|k: int|
            #![trigger line_starts(b)[k]]
            0 < k < line_starts(b).len() ==> exists|e: int|
                #![trigger b[e]]
                {
                    &&& line_starts(b)[k - 1] <= e < line_starts(b)[k]
                    &&& is_eol(b[e])
                    &&& (forall|m: int| line_starts(b)[k - 1] <= m < e ==> !is_eol(b[m]))
                    &&& if e + 1 < b.len() && is_eol(b[e + 1]) && b[e] != b[e + 1] {
                        line_starts(b)[k] == e + 2
                    } else {
                        line_starts(b)[k] == e + 1
                    }
                },
        line_starts(b).len() > 0 ==> {
            let p = line_starts(b).last();
            ||| forall|m: int| p <= m < b.len() ==> !is_eol(b[m])
            ||| exists|e: int|
                #![trigger b[e]]
                {
                    &&& p <= e < b.len()
                    &&& is_eol(b[e])
                    &&& (forall|m: int| p <= m < e ==> !is_eol(b[m]))
                    &&& if e + 1 < b.len() && is_eol(b[e + 1]) && b[e] != b[e + 1] {
                        b.len() == e + 2
                    } else {
                        b.len() == e + 1
                    }
                }
        },
{
    let s = line_starts(b);
    lemma_line_starts_chain(b, 0);
    lemma_line_starts_from_shape(b, 0);
    assert forall|k: int| #![trigger s[k]] 0 < k < s.len() implies exists|e: int|
        #![trigger b[e]]
        {
            &&& s[k - 1] <= e < s[k]
            &&& is_eol(b[e])
            &&& (forall|m: int| s[k - 1] <= m < e ==> !is_eol(b[m]))
            &&& if e + 1 < b.len() && is_eol(b[e + 1]) && b[e] != b[e + 1] {
                s[k] == e + 2
            } else {
                s[k] == e + 1
            }
        } by {
        let p = s[k - 1];
        assert(0 <= p < b.len());
        lemma_eol_from_bounds(b, p);
        let e = eol_from(b, p);
        assert(s[k] == line_end(b, p));
        assert(s[k] < b.len());
        assert(e < b.len());
    }
    if s.len() > 0 {
        let p = s.last();
        assert(0 <= p < b.len()) by {
            assert(s[s.len() - 1] == p);
        }
        lemma_eol_from_bounds(b, p);
        let e = eol_from(b, p);
        if e < b.len() {
            assert(line_end(b, p) == b.len());
        }
    }
}

/// In a valid UTF-8 sequence, the position right after an ASCII byte is a
/// character boundary.
pub proof fn lemma_boundary_after_ascii(b: Seq<u8>, p: int)
    requires
        valid_utf8(b),
        1 <= p <= b.len(),
        b[p - 1] < 0x80,
    ensures
        is_char_boundary(b, p),
    decreases b.len(),
{
    let l = length_of_first_scalar(b);
    let rest = pop_first_scalar(b);
    assert(valid_first_scalar(b) && valid_utf8(rest));
    if p - 1 < l {
        assert(p == 1);
        assert(is_char_boundary(rest, 0));
    } else {
        assert(rest[p - 1 - l] == b[p - 1]);
        lemma_boundary_after_ascii(rest, p - l);
    }
}

/// The offsets of a vector of `usize` as mathematical integers.
pub open spec fn as_ints(s: Seq<usize>) -> Seq<int> {
    s.map_values(|x: usize| x as int)
}

/// Where line `line` of `b` starts, or the end of `b` for a line past the
/// last one.
pub open spec fn line_start_or_end(b: Seq<u8>, line: int) -> int {
    if line < line_starts(b).len() {
        line_starts(b)[line]
    } else {
        b.len() as int
    }
}

/// Where the lines start rises with the line number, from 0 for the first
/// line to the end of `b` past the last line.
pub proof fn lemma_line_start_or_end_monotonic(b: Seq<u8>, a: int, c: int)
    requires
        0 <= a <= c,
    ensures
        0 <= line_start_or_end(b, a) <= line_start_or_end(b, c) <= b.len(),
        line_start_or_end(b, 0) == 0,
        line_start_or_end(b, line_starts(b).len() as int) == b.len(),
{
    lemma_line_starts_from_shape(b, 0);
    let s = line_starts(b);
    if c < s.len() && a < c {
        assert(s[a] < s[c]);
    }
}

/// Rendering `first` lines from `top` and then `second` lines from there
/// covers the same bytes as rendering `first + second` lines from `top`.
pub proof fn lemma_windows_concatenate(b: Seq<u8>, top: int, first: int, second: int)
    requires
        0 <= top,
        0 <= first,
        0 <= second,
    ensures
        b.subrange(line_start_or_end(b, top), line_start_or_end(b, top + first)) + b.subrange(
            line_start_or_end(b, top + first),
            line_start_or_end(b, top + first + second),
        ) == b.subrange(line_start_or_end(b, top), line_start_or_end(b, top + first + second)),
{
    lemma_line_start_or_end_monotonic(b, top, top + first);
    lemma_line_start_or_end_monotonic(b, top + first, top + first + second);
    assert(b.subrange(line_start_or_end(b, top), line_start_or_end(b, top + first)) + b.subrange(
        line_start_or_end(b, top + first),
        line_start_or_end(b, top + first + second),
    ) =~= b.subrange(line_start_or_end(b, top), line_start_or_end(b, top + first + second)));
}

/// The number of line feed bytes in `b` from offset `i` on.
pub open spec fn count_lf_from(b: Seq<u8>, i: int) -> nat
    decreases b.len() - i,
{
    if 0 <= i < b.len() {
        count_lf_from(b, i + 1) + if b[i] == 0x0a {
            1nat
        } else {
            0nat
        }
    } else {
        0
    }
}

/// The number of line feed bytes in `b`.
pub open spec fn count_lf(b: Seq<u8>) -> nat {
    count_lf_from(b, 0)
}

/// Skipping bytes that are no line feed does not change the count.
proof fn lemma_count_lf_skip(b: Seq<u8>, i: int, k: int)
    requires
        0 <= i <= k <= b.len(),
        forall|m: int| i <= m < k ==> #[trigger] b[m] != 0x0a,
    ensures
        count_lf_from(b, i) == count_lf_from(b, k),
    decreases k - i,
{
    if i < k {
        lemma_count_lf_skip(b, i + 1, k);
    }
}

/// The line count from `i` on, in a document without carriage returns.
proof fn lemma_line_count_without_cr_from(b: Seq<u8>, i: int)
    requires
        0 <= i <= b.len(),
        forall|k: int| 0 <= k < b.len() ==> #[trigger] b[k] != 0x0d,
    ensures
        line_starts_from(b, i).len() == count_lf_from(b, i) + if i < b.len() && b.last()
            != 0x0a {
            1nat
        } else {
            0nat
        },
    decreases b.len() - i,
{
    if i < b.len() {
        lemma_eol_from_bounds(b, i);
        let e = eol_from(b, i);
        lemma_count_lf_skip(b, i, e);
        assert(line_starts_from(b, i).len() == 1 + line_starts_from(b, line_end(b, i)).len());
        if e < b.len() {
            assert(b[e] == 0x0a);
            assert(line_end(b, i) == e + 1);
            assert(count_lf_from(b, e) == count_lf_from(b, e + 1) + 1);
            lemma_line_count_without_cr_from(b, e + 1);
            if e + 1 == b.len() {
                assert(b.last() == 0x0a);
            }
        } else {
            assert(line_end(b, i) == b.len());
            assert(b.last() != 0x0a);
            assert(count_lf_from(b, b.len() as int) == 0);
        }
    }
}

/// In a document without carriage returns, the number of lines is the
/// number of line feeds, plus one for a last line that has no line feed.
pub proof fn lemma_line_count_without_cr(b: Seq<u8>)
    requires
        forall|k: int| 0 <= k < b.len() ==> #[trigger] b[k] != 0x0d,
    ensures
        line_starts(b).len() == count_lf(b) + if b.len() > 0 && b.last() != 0x0a {
            1nat
        } else {
            0nat
        },
{
    lemma_line_count_without_cr_from(b, 0);
}

/// The eol search inside `a` is not changed by bytes appended after an
/// end-of-line byte of `a`.
proof fn lemma_eol_from_prefix(a: Seq<u8>, b: Seq<u8>, i: int)
    requires
        0 <= i,
        eol_from(a, i) < a.len(),
    ensures
        eol_from(a + b, i) == eol_from(a, i),
    decreases a.len() - i,
{
    if i < a.len() && !is_eol(a[i]) {
        assert((a + b)[i] == a[i]);
        lemma_eol_from_prefix(a, b, i + 1);
    } else {
        assert((a + b)[i] == a[i]);
    }
}

/// The eol search inside the appended part `b` is that of `b`, moved by
/// the length of `a`.
proof fn lemma_eol_from_suffix(a: Seq<u8>, b: Seq<u8>, j: int)
    requires
        0 <= j,
    ensures
        eol_from(a + b, a.len() + j) == a.len() + eol_from(b, j),
    decreases b.len() - j,
{
    if j < b.len() {
        assert((a + b)[a.len() + j] == b[j]);
        if !is_eol(b[j]) {
            lemma_eol_from_suffix(a, b, j + 1);
        }
    }
}

/// The lines of the appended part `b` are those of `b` itself.
proof fn lemma_line_count_suffix(a: Seq<u8>, b: Seq<u8>, j: int)
    requires
        0 <= j,
    ensures
        line_starts_from(a + b, a.len() + j).len() == line_starts_from(b, j).len(),
    decreases b.len() - j,
{
    if j < b.len() {
        lemma_eol_from_bounds(b, j);
        lemma_eol_from_suffix(a, b, j);
        let e = eol_from(b, j);
        if e + 1 < b.len() {
            assert((a + b)[a.len() + e + 1] == b[e + 1]);
            assert((a + b)[a.len() + e] == b[e]);
        }
        assert(line_end(a + b, a.len() + j) == a.len() + line_end(b, j));
        lemma_line_count_suffix(a, b, line_end(b, j));
    }
}

/// The lines of `a + b` from `i` on, for an `i` inside `a`.
proof fn lemma_line_count_concat_from(a: Seq<u8>, b: Seq<u8>, i: int)
    requires
        0 <= i <= a.len(),
        a.len() > 0,
        a.last() == 0x0a,
        b.len() == 0 || b[0] != 0x0d,
    ensures
        line_starts_from(a + b, i).len() == line_starts_from(a, i).len() + line_starts(b).len(),
    decreases a.len() - i,
{
    if i < a.len() {
        lemma_eol_from_bounds(a, i);
        let e = eol_from(a, i);
        assert(e < a.len()) by {
            if e >= a.len() {
                assert(!is_eol(a[a.len() - 1]));
            }
        }
        lemma_eol_from_prefix(a, b, i);
        assert((a + b)[e] == a[e]);
        if e + 1 < a.len() {
            assert((a + b)[e + 1] == a[e + 1]);
        } else if b.len() > 0 {
            assert((a + b)[e + 1] == b[0]);
        }
        assert(line_end(a + b, i) == line_end(a, i));
        lemma_line_count_concat_from(a, b, line_end(a, i));
    } else {
        lemma_line_count_suffix(a, b, 0);
    }
}

/// Appending a document to one that is empty or whose last line ends with a
/// line feed adds its lines, unless the appended part begins with a
/// carriage return that would join the line feed as one terminator.
pub proof fn lemma_line_count_concat(a: Seq<u8>, b: Seq<u8>)
    requires
        a.len() == 0 || a.last() == 0x0a,
        b.len() == 0 || b[0] != 0x0d,
    ensures
        line_starts(a + b).len() == line_starts(a).len() + line_starts(b).len(),
{
    if a.len() == 0 {
        assert(a + b =~= b);
    } else {
        lemma_line_count_concat_from(a, b, 0);
    }
}

/// Store a large ANSI colour coded string in a way that allows you
/// to quickly extract a small range and convert it into Text
#[derive(Debug)]
pub struct LargeString {
    /// The stored string
    content: String,
    /// First byte of each line in content
    line_start: Vec<usize>,
}

impl View for LargeString {
    type V = Seq<char>;

    closed spec fn view(&self) -> Seq<char> {
        self.content@
    }
}

impl LargeString {
    /// The UTF-8 bytes of the stored document.
    pub open spec fn bytes(&self) -> Seq<u8> {
        encode_utf8(self@)
    }

    /// The line index matches the stored document.
    #[verifier::type_invariant]
    closed spec fn indexed(&self) -> bool {
        as_ints(self.line_start@) == line_starts(encode_utf8(self.content@))
    }

    /// Find line start of all lines
    /// to enable quick rendering of a small range of lines.
    pub fn new(content: String) -> (r: Self)
        ensures
            r@ == content@,
    {
        let bytes = content.as_str().as_bytes();
        let ghost b = bytes@;
        let n = bytes.len();
        let mut line_start: Vec<usize> = Vec::new();
        let mut i: usize = 0;
        while i < n
            invariant
                n == b.len(),
                b == bytes@,
                b == encode_utf8(content@),
                i <= n,
                line_starts(b) == as_ints(line_start@) + line_starts_from(b, i as int),
            decreases n - i,
        {
            proof {
                lemma_eol_from_bounds(b, i as int);
            }
            let ghost before = line_start@;
            let ghost old_i = i;
            line_start.push(i);
            assert(as_ints(line_start@) =~= as_ints(before).push(i as int));
            // Skip all non-EOL bytes
            let mut j = i;
            while j < n && !(bytes[j] == 0x0a || bytes[j] == 0x0d)
                invariant
                    n == b.len(),
                    b == bytes@,
                    i <= j <= n,
                    eol_from(b, j as int) == eol_from(b, i as int),
                decreases n - j,
            {
                j += 1;
            }
            let ghost next = line_end(b, i as int);
            // A pair of different EOL bytes ends one line; otherwise the
            // line ends with its single EOL byte (or the document ends).
            if j < n && n - j > 1 && (bytes[j + 1] == 0x0a || bytes[j + 1] == 0x0d) && bytes[j]
                != bytes[j + 1] {
                i = j + 2;
            } else if j < n {
                i = j + 1;
            } else {
                i = n;
            }
            assert(i == next);
            assert(as_ints(line_start@) + line_starts_from(b, i as int) =~= as_ints(before) + (
            seq![old_i as int] + line_starts_from(b, next)));
        }
        LargeString { content, line_start }
    }

    /// Number of lines in content
    pub fn lines(&self) -> (r: usize)
        ensures
            r == line_starts(self.bytes()).len(),
    {
        proof {
            use_type_invariant(self);
        }
        self.line_start.len()
    }

    /// Where line `line` starts, or the end of the content for a line past
    /// the last one.
    fn line_start_or_end(&self, line: usize) -> (r: usize)
        ensures
            r == line_start_or_end(self.bytes(), line as int),
    {
        proof {
            use_type_invariant(self);
            assert(as_ints(self.line_start@).len() == self.line_start@.len());
        }
        if line < self.line_start.len() {
            proof {
                assert(as_ints(self.line_start@)[line as int] == self.line_start@[line as int]);
            }
            self.line_start[line]
        } else {
            self.content.as_str().as_bytes().len()
        }
    }

    /// The part of the content that holds `line_count` lines from line
    /// `top_line` on: it ends where line `top_line + line_count` starts, and
    /// lines past the last one start at the end of the content.
    pub fn render_slice(&self, top_line: usize, line_count: usize) -> (r: &str)
        requires
            top_line + line_count <= usize::MAX,
        ensures
            r.spec_bytes() == self.bytes().subrange(
                line_start_or_end(self.bytes(), top_line as int),
                line_start_or_end(self.bytes(), top_line + line_count),
            ),
    {
        let ghost b = self.bytes();
        let start = self.line_start_or_end(top_line);
        let end = self.line_start_or_end(top_line + line_count);
        proof {
            lemma_line_starts_from_shape(b, 0);
            broadcast use encode_utf8_valid_utf8;
            broadcast use is_char_boundary_start_end_of_seq;
            broadcast use valid_utf8_split;

            let s = line_starts(b);
            if (top_line + line_count) < s.len() {
                assert(start <= end) by {
                    if line_count > 0 {
                        assert(s[top_line as int] < s[top_line + line_count]);
                    }
                }
            }
            assert(start <= end <= b.len());
            if end < b.len() {
                assert(end == s[top_line + line_count]);
                if end > 0 {
                    let k = top_line + line_count;
                    assert(k > 0) by {
                        if k == 0 {
                            assert(s[0] == 0);
                        }
                    }
                    assert(is_eol(b[s[k] - 1]));
                    lemma_boundary_after_ascii(b, end as int);
                }
            }
            assert(is_char_boundary(b, end as int));
            let head = b.subrange(0, end as int);
            assert(valid_utf8(head));
            if 0 < start && start < end {
                assert(start == s[top_line as int]);
                assert(top_line > 0) by {
                    if top_line == 0 {
                        assert(s[0] == 0);
                    }
                }
                assert(is_eol(b[s[top_line as int] - 1]));
                assert(head[start - 1] == b[start - 1]);
                lemma_boundary_after_ascii(head, start as int);
            }
            assert(is_char_boundary(head, start as int));
        }
        let (head, _) = self.content.as_str().split_at(end);
        let (_, slice) = head.split_at(start);
        proof {
            assert(slice.spec_bytes() =~= b.subrange(start as int, end as int));
        }
        slice
    }

    /// Render a range of lines of the content as Text
    pub fn render(&self, top_line: usize, line_count: usize) -> (r: Text<'_>)
        requires
            top_line + line_count <= usize::MAX,
        ensures
            r == (match ansi_text(
                self.bytes().subrange(
                    line_start_or_end(self.bytes(), top_line as int),
                    line_start_or_end(self.bytes(), top_line + line_count),
                ),
            ) {
                Ok(t) => t,
                Err(e) => error_text(e),
            }),
    {
        let content_str = self.render_slice(top_line, line_count);
        match ansi_to_text(content_str) {
            Ok(text) => text,
            Err(err) => error_to_text(err),
        }
    }
}

/// The text of a ratatui document.
#[verifier::external_type_specification]
#[verifier::external_body]
pub struct ExText<'a>(Text<'a>);

/// The error of a failed ANSI conversion.
#[verifier::external_type_specification]
#[verifier::external_body]
pub struct ExAnsiError(ansi_to_tui::Error);

/// What `ansi_to_tui::IntoText::into_text` gives for the bytes of a string:
/// the styled text that its ANSI escape codes describe, or the parse error.
pub uninterp spec fn ansi_text(bytes: Seq<u8>) -> Result<Text<'static>, ansi_to_tui::Error>;

/// What `ratatui::text::Text::from` gives for the displayed form of an
/// ANSI conversion error.
pub uninterp spec fn error_text(err: ansi_to_tui::Error) -> Text<'static>;

/// Calls `ansi_to_tui::IntoText::into_text` on the string: it parses the
/// ANSI escape codes of the bytes of `s` into styled ratatui text. The
/// parser reads nothing but its argument, so the result is named by
/// `ansi_text` of those bytes.
#[verifier::external_body]
fn ansi_to_text(s: &str) -> (r: Result<Text<'static>, ansi_to_tui::Error>)
    ensures
        r == ansi_text(s.spec_bytes()),
{
    s.into_text()
}

/// Calls `ratatui::text::Text::from` on the displayed form of the error, so
/// that the error shows in place of the document. The result depends on the
/// error alone and is named by `error_text`.
#[verifier::external_body]
fn error_to_text(err: ansi_to_tui::Error) -> (r: Text<'static>)
    ensures
        r == error_text(err),
{
    Text::from(format!("{}", err))
}

} // verus!
