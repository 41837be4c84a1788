//! Identifiers of jj revisions and the formats in which a revision is shown.

use vstd::prelude::*;
use vstd::std_specs::cmp::PartialEqSpecImpl;

verus! {

/// The change id of a revision: stable while the change is rewritten.
#[derive(Debug, Hash)]
pub struct ChangeId(pub String);

/// The commit id of a revision: changes with every rewrite.
#[derive(Debug, Hash)]
pub struct CommitId(pub String);

impl View for ChangeId {
    type V = Seq<char>;

    open spec fn view(&self) -> Seq<char> {
        self.0@
    }
}

impl View for CommitId {
    type V = Seq<char>;

    open spec fn view(&self) -> Seq<char> {
        self.0@
    }
}

impl ChangeId {
    /// The id as text.
    pub fn as_str(&self) -> (r: &str)
        ensures
            r@ == self@,
    {
        self.0.as_str()
    }
}

impl CommitId {
    /// The id as text.
    pub fn as_str(&self) -> (r: &str)
        ensures
            r@ == self@,
    {
        self.0.as_str()
    }
}

impl Clone for ChangeId {
    fn clone(&self) -> (r: Self)
        ensures
            r@ == self@,
    {
        ChangeId(self.0.clone())
    }
}

impl Clone for CommitId {
    fn clone(&self) -> (r: Self)
        ensures
            r@ == self@,
    {
        CommitId(self.0.clone())
    }
}

impl PartialEq for ChangeId {
    fn eq(&self, other: &Self) -> (r: bool) {
        self.0 == other.0
    }
}

impl PartialEqSpecImpl for ChangeId {
    open spec fn obeys_eq_spec() -> bool {
        true
    }

    open spec fn eq_spec(&self, other: &ChangeId) -> bool {
        self@ == other@
    }
}

impl Eq for ChangeId {}

impl PartialEq for CommitId {
    fn eq(&self, other: &Self) -> (r: bool) {
        self.0 == other.0
    }
}

impl PartialEqSpecImpl for CommitId {
    open spec fn obeys_eq_spec() -> bool {
        true
    }

    open spec fn eq_spec(&self, other: &CommitId) -> bool {
        self@ == other@
    }
}

impl Eq for CommitId {}

/// The revision shown in a panel: its change and the commit that currently
/// holds the change.
#[derive(Debug, Hash)]
pub struct Head {
    pub change_id: ChangeId,
    pub commit_id: CommitId,
}

/// The mathematical value of a [`Head`].
pub struct HeadView {
    pub change_id: Seq<char>,
    pub commit_id: Seq<char>,
}

impl View for Head {
    type V = HeadView;

    open spec fn view(&self) -> HeadView {
        HeadView { change_id: self.change_id@, commit_id: self.commit_id@ }
    }
}

impl Clone for Head {
    fn clone(&self) -> (r: Self)
        ensures
            r@ == self@,
    {
        Head { change_id: self.change_id.clone(), commit_id: self.commit_id.clone() }
    }
}

impl PartialEq for Head {
    fn eq(&self, other: &Self) -> (r: bool) {
        self.change_id == other.change_id && self.commit_id == other.commit_id
    }
}

impl PartialEqSpecImpl for Head {
    open spec fn obeys_eq_spec() -> bool {
        true
    }

    open spec fn eq_spec(&self, other: &Head) -> bool {
        self@ == other@
    }
}

impl Eq for Head {}

/// How the output of `jj show` is formatted.
#[derive(Debug, Hash)]
pub enum DiffFormat {
    ColorWords,
    Git,
    /// An external diff tool, by name or the configured default.
    DiffTool(Option<String>),
}

/// The mathematical value of a [`DiffFormat`].
pub enum DiffFormatView {
    ColorWords,
    Git,
    DiffTool(Option<Seq<char>>),
}

impl View for DiffFormat {
    type V = DiffFormatView;

    open spec fn view(&self) -> DiffFormatView {
        match self {
            DiffFormat::ColorWords => DiffFormatView::ColorWords,
            DiffFormat::Git => DiffFormatView::Git,
            DiffFormat::DiffTool(None) => DiffFormatView::DiffTool(None),
            DiffFormat::DiffTool(Some(tool)) => DiffFormatView::DiffTool(Some(tool@)),
        }
    }
}

impl Clone for DiffFormat {
    fn clone(&self) -> (r: Self)
        ensures
            r@ == self@,
    {
        match self {
            DiffFormat::ColorWords => DiffFormat::ColorWords,
            DiffFormat::Git => DiffFormat::Git,
            DiffFormat::DiffTool(None) => DiffFormat::DiffTool(None),
            DiffFormat::DiffTool(Some(tool)) => DiffFormat::DiffTool(Some(tool.clone())),
        }
    }
}

impl DiffFormat {
    /// True for the color-words format.
    fn is_color_words(&self) -> (r: bool)
        ensures
            r == (self is ColorWords),
    {
        match self {
            DiffFormat::ColorWords => true,
            _ => false,
        }
    }

    /// True for the git format.
    fn is_git(&self) -> (r: bool)
        ensures
            r == (self is Git),
    {
        match self {
            DiffFormat::Git => true,
            _ => false,
        }
    }

    /// True for an external diff tool.
    pub(crate) fn is_diff_tool(&self) -> (r: bool)
        ensures
            r == (self is DiffTool),
    {
        match self {
            DiffFormat::DiffTool(_) => true,
            _ => false,
        }
    }
}

impl PartialEq for DiffFormat {
    fn eq(&self, other: &Self) -> (r: bool) {
        match self {
            DiffFormat::ColorWords => other.is_color_words(),
            DiffFormat::Git => other.is_git(),
            DiffFormat::DiffTool(tool) => match other {
                DiffFormat::DiffTool(other_tool) => match (tool, other_tool) {
                    (None, None) => true,
                    (Some(a), Some(b)) => a.eq(b),
                    _ => false,
                },
                _ => false,
            },
        }
    }
}

impl PartialEqSpecImpl for DiffFormat {
    open spec fn obeys_eq_spec() -> bool {
        true
    }

    open spec fn eq_spec(&self, other: &DiffFormat) -> bool {
        self@ == other@
    }
}

impl Eq for DiffFormat {}


/// The position of the first `c` in `s` at or after `i`, or the length of
/// `s` when there is none.
pub open spec fn index_from(s: Seq<char>, c: char, i: int) -> int
    decreases s.len() - i,
{
    if 0 <= i < s.len() && s[i] != c {
        index_from(s, c, i + 1)
    } else {
        i
    }
}

/// The first line of `s`, as `str::lines` yields it: the text before the
/// first line feed, without the carriage return of a CR LF ending; `None`
/// for an empty text.
pub open spec fn first_line(s: Seq<char>) -> Option<Seq<char>> {
    if s.len() == 0 {
        None
    } else {
        let k = index_from(s, '\n', 0);
        if k < s.len() && k > 0 && s[k - 1] == '\r' {
            Some(s.subrange(0, k - 1))
        } else {
            Some(s.subrange(0, k))
        }
    }
}

/// A line `change_id commit_id` split at its first space, as
/// `str::split_once(' ')` does; `None` for a line without a space.
pub open spec fn split_head(line: Seq<char>) -> Option<HeadView> {
    let p = index_from(line, ' ', 0);
    if p < line.len() {
        Some(HeadView { change_id: line.subrange(0, p), commit_id: line.subrange(p + 1, line.len() as int) })
    } else {
        None
    }
}

/// Why the output of `jj log` names no revision.
#[derive(Debug)]
pub enum LogHeadError {
    /// The output is empty: the revset selects no revision.
    NoRevision,
    /// The first line is not a change id and a commit id; it is given.
    BadLine(String),
}

proof fn lemma_index_from_bounds(s: Seq<char>, c: char, i: int)
    requires
        0 <= i <= s.len(),
    ensures
        i <= index_from(s, c, i) <= s.len(),
        index_from(s, c, i) < s.len() ==> s[index_from(s, c, i)] == c,
    decreases s.len() - i,
{
    if i < s.len() && s[i] != c {
        lemma_index_from_bounds(s, c, i + 1);
    }
}

/// The position of the first `c` in `s`, or the length of `s`.
fn index_of_char(s: &str, c: char, n: usize) -> (r: usize)
    requires
        n == s@.len(),
    ensures
        r == index_from(s@, c, 0),
        r <= n,
{
    let mut i: usize = 0;
    while i < n && s.get_char(i) != c
        invariant
            n == s@.len(),
            i <= n,
            index_from(s@, c, i as int) == index_from(s@, c, 0),
        decreases n - i,
    {
        i += 1;
    }
    proof {
        lemma_index_from_bounds(s@, c, 0);
    }
    i
}

/// The revision named by the first line of the output of
/// `jj log -T 'change_id ++ " " ++ commit_id ++ "\n"'`.
pub fn parse_log_head(output: &str) -> (r: Result<Head, LogHeadError>)
    ensures
        match first_line(output@) {
            None => r matches Err(LogHeadError::NoRevision),
            Some(line) => match split_head(line) {
                None => r matches Err(LogHeadError::BadLine(l)) && l@ == line,
                Some(h) => r matches Ok(head) && head@ == h,
            },
        },
{
    broadcast use vstd::string::group_string_axioms;

    let n = output.unicode_len();
    if n == 0 {
        return Err(LogHeadError::NoRevision);
    }
    let k = index_of_char(output, '\n', n);
    let mut end = k;
    if k < n && k > 0 && output.get_char(k - 1) == '\r' {
        end = k - 1;
    }
    let line = output.substring_char(0, end);
    let p = index_of_char(line, ' ', end);
    if p == end {
        return Err(LogHeadError::BadLine(line.to_owned()));
    }
    let change_id = line.substring_char(0, p).to_owned();
    let commit_id = line.substring_char(p + 1, end).to_owned();
    Ok(Head { change_id: ChangeId(change_id), commit_id: CommitId(commit_id) })
}

} // verus!
