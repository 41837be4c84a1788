//! Plain text helpers: comparing strings and moving between a text and its
//! lines.

use vstd::prelude::*;
use vstd::string::StringSliceAdditionalSpecFns;
use vstd::utf8::*;

verus! {

/// True when `a` and `b` hold the same characters.
pub fn same_text(a: &str, b: &str) -> (r: bool)
    ensures
        r == (a@ == b@),
{
    let x = a.as_bytes();
    let y = b.as_bytes();
    proof {
        encode_utf8_decode_utf8(a@);
        encode_utf8_decode_utf8(b@);
    }
    if x.len() != y.len() {
        return false;
    }
    let n = x.len();
    let mut i: usize = 0;
    while i < n
        invariant
            n == x@.len(),
            n == y@.len(),
            x@ == encode_utf8(a@),
            y@ == encode_utf8(b@),
            decode_utf8(encode_utf8(a@)) == a@,
            decode_utf8(encode_utf8(b@)) == b@,
            i <= n,
            forall|j: int| 0 <= j < i ==> x@[j] == y@[j],
        decreases n - i,
    {
        if x[i] != y[i] {
            return false;
        }
        i += 1;
    }
    assert(x@ =~= y@);
    true
}

/// The lines of `s`: the pieces between its line feeds. A text with `n`
/// line feeds has `n + 1` lines, the last one empty when `s` ends with a
/// line feed.
pub open spec fn split_lines_spec(s: Seq<char>) -> Seq<Seq<char>>
    decreases s.len(),
{
    if s.len() == 0 {
        seq![Seq::<char>::empty()]
    } else {
        let init = split_lines_spec(s.drop_last());
        if s.last() == '\n' {
            init.push(Seq::<char>::empty())
        } else {
            init.update(init.len() - 1, init.last().push(s.last()))
        }
    }
}

/// The lines joined with line feeds between them.
pub open spec fn join_lines_spec(lines: Seq<Seq<char>>) -> Seq<char>
    decreases lines.len(),
{
    if lines.len() == 0 {
        Seq::empty()
    } else if lines.len() == 1 {
        lines[0]
    } else {
        join_lines_spec(lines.drop_last()) + seq!['\n'] + lines.last()
    }
}

/// The characters of the strings of `v`.
pub open spec fn texts(v: Seq<String>) -> Seq<Seq<char>> {
    v.map_values(|s: String| s@)
}

/// A text has at least one line.
pub proof fn lemma_split_lines_nonempty(s: Seq<char>)
    ensures
        split_lines_spec(s).len() >= 1,
    decreases s.len(),
{
    if s.len() > 0 {
        lemma_split_lines_nonempty(s.drop_last());
    }
}

/// No line holds a line feed.
pub proof fn lemma_lines_have_no_newline(s: Seq<char>)
    ensures
        forall|i: int, j: int|
            0 <= i < split_lines_spec(s).len() && 0 <= j < split_lines_spec(s)[i].len() ==> (
            #[trigger] split_lines_spec(s)[i][j]) != '\n',
    decreases s.len(),
{
    if s.len() > 0 {
        lemma_split_lines_nonempty(s.drop_last());
        lemma_lines_have_no_newline(s.drop_last());
    }
}

proof fn lemma_join_extend_last(lines: Seq<Seq<char>>, c: char)
    requires
        lines.len() >= 1,
    ensures
        join_lines_spec(lines.update(lines.len() - 1, lines.last().push(c))) == join_lines_spec(
            lines,
        ).push(c),
{
    let l2 = lines.update(lines.len() - 1, lines.last().push(c));
    if lines.len() > 1 {
        assert(l2.drop_last() =~= lines.drop_last());
        assert((join_lines_spec(lines.drop_last()) + seq!['\n'] + lines.last()).push(c)
            =~= join_lines_spec(lines.drop_last()) + seq!['\n'] + lines.last().push(c));
    }
}

/// Joining the lines of a text gives the text back.
pub proof fn lemma_join_split(s: Seq<char>)
    ensures
        join_lines_spec(split_lines_spec(s)) == s,
    decreases s.len(),
{
    if s.len() == 0 {
    } else {
        let init = split_lines_spec(s.drop_last());
        lemma_split_lines_nonempty(s.drop_last());
        lemma_join_split(s.drop_last());
        if s.last() == '\n' {
            assert(init.push(Seq::<char>::empty()).drop_last() =~= init);
            assert(s.drop_last() + seq!['\n'] + Seq::<char>::empty() =~= s);
        } else {
            lemma_join_extend_last(init, s.last());
            assert(s.drop_last().push(s.last()) =~= s);
        }
    }
}

/// Splitting `s`, a line feed and then `line` adds `line` after the lines
/// of `s`, when `line` holds no line feed.
proof fn lemma_split_append_line(s: Seq<char>, line: Seq<char>)
    requires
        forall|j: int| 0 <= j < line.len() ==> line[j] != '\n',
    ensures
        split_lines_spec(s + seq!['\n'] + line) == split_lines_spec(s).push(line),
    decreases line.len(),
{
    if line.len() == 0 {
        let t = s + seq!['\n'] + line;
        assert(t.drop_last() =~= s);
        assert(t.last() == '\n');
        assert(line =~= Seq::<char>::empty());
    } else {
        let shorter = line.drop_last();
        assert forall|j: int| 0 <= j < shorter.len() implies shorter[j] != '\n' by {
            assert(shorter[j] == line[j]);
        }
        assert(line.last() != '\n') by {
            assert(line[line.len() - 1] != '\n');
        }
        lemma_split_append_line(s, shorter);
        let t = s + seq!['\n'] + line;
        assert(t.drop_last() =~= s + seq!['\n'] + shorter);
        assert(t.last() == line.last());
        assert(shorter.push(line.last()) =~= line);
        assert(split_lines_spec(s).push(shorter).update(
            split_lines_spec(s).len() as int,
            shorter.push(line.last()),
        ) =~= split_lines_spec(s).push(line));
    }
}

/// Splitting a line with no line feed gives that one line.
proof fn lemma_split_single_line(line: Seq<char>)
    requires
        forall|j: int| 0 <= j < line.len() ==> line[j] != '\n',
    ensures
        split_lines_spec(line) == seq![line],
    decreases line.len(),
{
    if line.len() == 0 {
        assert(line =~= Seq::<char>::empty());
    } else {
        assert forall|j: int| 0 <= j < line.drop_last().len() implies line.drop_last()[j] != '\n' by {
            assert(line.drop_last()[j] == line[j]);
        }
        assert(line.last() != '\n') by {
            assert(line[line.len() - 1] != '\n');
        }
        lemma_split_single_line(line.drop_last());
        assert(line.drop_last().push(line.last()) =~= line);
        let init = split_lines_spec(line.drop_last());
        assert(init == seq![line.drop_last()]);
        assert(init.update(init.len() - 1, init.last().push(line.last())) =~= seq![line]);
    }
}

/// Splitting joined lines gives the lines back, when none of them holds a
/// line feed.
pub proof fn lemma_split_join(lines: Seq<Seq<char>>)
    requires
        lines.len() >= 1,
        forall|i: int, j: int|
            0 <= i < lines.len() && 0 <= j < lines[i].len() ==> (#[trigger] lines[i][j]) != '\n',
    ensures
        split_lines_spec(join_lines_spec(lines)) == lines,
    decreases lines.len(),
{
    if lines.len() == 1 {
        assert forall|j: int| 0 <= j < lines[0].len() implies lines[0][j] != '\n' by {
            assert(lines[0][j] != '\n');
        }
        lemma_split_single_line(lines[0]);
        assert(seq![lines[0]] =~= lines);
    } else {
        let init = lines.drop_last();
        assert forall|i: int, j: int|
            0 <= i < init.len() && 0 <= j < init[i].len() implies (#[trigger] init[i][j]) != '\n' by {
            assert(init[i] == lines[i]);
            assert(lines[i][j] != '\n');
        }
        lemma_split_join(init);
        assert forall|j: int| 0 <= j < lines.last().len() implies lines.last()[j] != '\n' by {
            assert(lines[lines.len() - 1][j] != '\n');
        }
        lemma_split_append_line(join_lines_spec(init), lines.last());
        assert(init.push(lines.last()) =~= lines);
    }
}

/// A text has at most as many characters as its UTF-8 encoding has bytes.
proof fn lemma_chars_at_most_bytes(s: Seq<char>)
    ensures
        s.len() <= encode_utf8(s).len(),
    decreases s.len(),
{
    if s.len() > 0 {
        lemma_chars_at_most_bytes(s.drop_first());
    }
}

/// Split a text into its lines, as `str::split("\n")` does.
pub fn split_lines(text: &str) -> (r: Vec<String>)
    ensures
        texts(r@) == split_lines_spec(text@),
{
    broadcast use vstd::string::group_string_axioms;

    let mut lines: Vec<String> = Vec::new();
    let mut start: usize = 0;
    let mut i: usize = 0;
    let bytes = text.as_bytes();
    let byte_count = bytes.len();
    proof {
        lemma_chars_at_most_bytes(text@);
        assert(bytes@ == encode_utf8(text@));
        assert(text@.len() <= bytes@.len());
        assert(bytes@.len() == byte_count);
        assert(text@.take(0) =~= Seq::<char>::empty());
        assert(texts(lines@).push(text@.subrange(0, 0)) =~= split_lines_spec(text@.take(0)));
    }
    for c in it: text.chars()
        invariant
            it.seq() == text@,
            i == it.index(),
            text@.len() <= usize::MAX,
            start <= i <= text@.len(),
            texts(lines@).push(text@.subrange(start as int, i as int)) == split_lines_spec(
                text@.take(i as int),
            ),
    {
        let ghost prefix = text@.take(i + 1);
        proof {
            assert(prefix.drop_last() =~= text@.take(i as int));
            assert(prefix.last() == c);
        }
        if c == '\n' {
            let line = text.substring_char(start, i).to_owned();
            let ghost before = lines@;
            lines.push(line);
            proof {
                assert(texts(lines@) =~= texts(before).push(text@.subrange(start as int, i as int)));
                assert(text@.subrange(i + 1, i + 1) =~= Seq::<char>::empty());
            }
            start = i + 1;
        } else {
            proof {
                let init = texts(lines@).push(text@.subrange(start as int, i as int));
                assert(text@.subrange(start as int, i + 1) =~= text@.subrange(start as int, i as int).push(c));
                assert(texts(lines@).push(text@.subrange(start as int, i + 1)) =~= init.update(
                    init.len() - 1,
                    init.last().push(c),
                ));
            }
        }
        i += 1;
    }
    let n = i;
    let last = text.substring_char(start, n).to_owned();
    let ghost before = lines@;
    lines.push(last);
    proof {
        assert(text@.take(n as int) =~= text@);
        assert(texts(lines@) =~= texts(before).push(text@.subrange(start as int, n as int)));
    }
    lines
}

/// Join lines with a line feed between each two of them.
pub fn join_lines(lines: &Vec<String>) -> (r: String)
    ensures
        r@ == join_lines_spec(texts(lines@)),
{
    let mut text = String::new();
    let n = lines.len();
    let mut i: usize = 0;
    proof {
        reveal_strlit("\n");
        assert(texts(lines@).take(0) =~= Seq::<Seq<char>>::empty());
    }
    while i < n
        invariant
            n == lines@.len(),
            i <= n,
            "\n"@ == seq!['\n'],
            text@ == join_lines_spec(texts(lines@).take(i as int)),
        decreases n - i,
    {
        let ghost before = text@;
        let ghost t = texts(lines@);
        if i > 0 {
            text.append("\n");
        }
        text.append(lines[i].as_str());
        proof {
            assert(t.take(i + 1).drop_last() =~= t.take(i as int));
            assert(t.take(i + 1).last() == lines@[i as int]@);
            if i == 0 {
                assert(text@ =~= t.take(1)[0]);
            } else {
                assert(text@ =~= before + seq!['\n'] + lines@[i as int]@);
            }
        }
        i += 1;
    }
    proof {
        assert(texts(lines@).take(n as int) =~= texts(lines@));
    }
    text
}

} // verus!
