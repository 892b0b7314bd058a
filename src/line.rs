//! Classification of single lines of a task document.

use vstd::prelude::*;

verus! {

/// The line that opens the task list.
pub const TASK_LIST_HEADER: &'static str = "## タスク一覧";

/// The line that opens the archive.
pub const ARCHIVE_HEADER: &'static str = "## アーカイブ";

/// The marker that opens a pending checklist line, separator included.
pub const PENDING_MARKER: &'static str = "- [ ] ";

/// The marker that opens a done checklist line, separator included.
pub const DONE_MARKER: &'static str = "- [x] ";

/// The text of the task list header.
pub open spec fn task_list_header() -> Seq<char> {
    seq!['#', '#', ' ', 'タ', 'ス', 'ク', '一', '覧']
}

/// The text of the archive header.
pub open spec fn archive_header() -> Seq<char> {
    seq!['#', '#', ' ', 'ア', 'ー', 'カ', 'イ', 'ブ']
}

/// The text of the pending marker.
pub open spec fn pending_marker() -> Seq<char> {
    seq!['-', ' ', '[', ' ', ']', ' ']
}

/// The text of the done marker.
pub open spec fn done_marker() -> Seq<char> {
    seq!['-', ' ', '[', 'x', ']', ' ']
}

/// Width of a checklist marker, in characters.
pub open spec fn marker_len() -> int {
    6
}

pub open spec fn starts_with(s: Seq<char>, p: Seq<char>) -> bool {
    p.len() <= s.len() && s.subrange(0, p.len() as int) == p
}

pub open spec fn is_pending(l: Seq<char>) -> bool {
    starts_with(l, pending_marker())
}

pub open spec fn is_done(l: Seq<char>) -> bool {
    starts_with(l, done_marker())
}

/// A checklist line, pending or done.
pub open spec fn is_task(l: Seq<char>) -> bool {
    is_pending(l) || is_done(l)
}

pub open spec fn is_archive_header(l: Seq<char>) -> bool {
    l == archive_header()
}

/// The text of a checklist line after its marker.
pub open spec fn body(l: Seq<char>) -> Seq<char> {
    l.skip(marker_len())
}

/// Importance of a task, written as one symbol after the marker.
#[derive(Clone, Copy, Debug, PartialEq, Eq, Structural)]
pub enum Priority {
    High,
    Medium,
    Low,
}

pub open spec fn symbol_of(p: Priority) -> char {
    match p {
        Priority::High => '🔴',
        Priority::Medium => '🟡',
        Priority::Low => '🟢',
    }
}

pub open spec fn priority_of_symbol(c: char) -> Option<Priority> {
    if c == '🔴' {
        Some(Priority::High)
    } else if c == '🟡' {
        Some(Priority::Medium)
    } else if c == '🟢' {
        Some(Priority::Low)
    } else {
        None
    }
}

/// The priority that a checklist line carries, if its text opens with a symbol.
pub open spec fn line_priority(l: Seq<char>) -> Option<Priority> {
    if is_task(l) && body(l).len() > 0 {
        priority_of_symbol(body(l)[0])
    } else {
        None
    }
}

/// What kind of line a document holds.
#[derive(Clone, Copy, Debug, PartialEq, Eq, Structural)]
pub enum LineKind {
    TaskListHeader,
    ArchiveHeader,
    Pending,
    Done,
    Other,
}

pub open spec fn kind_of(l: Seq<char>) -> LineKind {
    if l == task_list_header() {
        LineKind::TaskListHeader
    } else if l == archive_header() {
        LineKind::ArchiveHeader
    } else if is_pending(l) {
        LineKind::Pending
    } else if is_done(l) {
        LineKind::Done
    } else {
        LineKind::Other
    }
}

/// Headers, pending lines and done lines are told apart by their first characters.
pub proof fn lemma_kinds(l: Seq<char>)
    ensures
        (kind_of(l) == LineKind::Pending) == is_pending(l),
        (kind_of(l) == LineKind::Done) == is_done(l),
        (kind_of(l) == LineKind::ArchiveHeader) == is_archive_header(l),
        !(is_pending(l) && is_done(l)),
        is_task(l) ==> !is_archive_header(l) && l != task_list_header(),
{
    if is_task(l) {
        assert(l.subrange(0, 6)[0] == l[0]);
        assert(l.subrange(0, 6)[3] == l[3]);
    }
}

/// Relies on str::strip_prefix: the rest of `s` after `p` when `s` opens with `p`.
#[verifier::external_body]
fn strip<'a>(s: &'a str, p: &str) -> (r: Option<&'a str>)
    ensures
        match r {
            Some(t) => starts_with(s@, p@) && t@ == s@.skip(p@.len() as int),
            None => !starts_with(s@, p@),
        },
{
    s.strip_prefix(p)
}

/// Whether `s` opens with `p`.
pub fn str_starts_with(s: &str, p: &str) -> (r: bool)
    ensures
        r == starts_with(s@, p@),
{
    strip(s, p).is_some()
}

/// Whether the two texts are the same.
pub fn str_equals(s: &str, t: &str) -> (r: bool)
    ensures
        r == (s@ == t@),
{
    match strip(s, t) {
        Some(rest) => {
            proof {
                if rest@.len() == 0 {
                    assert(s@ =~= s@.subrange(0, t@.len() as int));
                }
            }
            rest.is_empty()
        },
        None => {
            assert(s@.subrange(0, s@.len() as int) =~= s@);
            false
        },
    }
}

/// The kind of a line; never fails, as any unrecognised line is `Other`.
pub fn classify(line: &str) -> (k: LineKind)
    ensures
        k == kind_of(line@),
        (k == LineKind::Pending) == is_pending(line@),
        (k == LineKind::Done) == is_done(line@),
        (k == LineKind::ArchiveHeader) == is_archive_header(line@),
{
    proof {
        lemma_kinds(line@);
        reveal_strlit("## タスク一覧");
        reveal_strlit("## アーカイブ");
        reveal_strlit("- [ ] ");
        reveal_strlit("- [x] ");
        assert(TASK_LIST_HEADER@ =~= task_list_header());
        assert(ARCHIVE_HEADER@ =~= archive_header());
        assert(PENDING_MARKER@ =~= pending_marker());
        assert(DONE_MARKER@ =~= done_marker());
    }
    if str_equals(line, TASK_LIST_HEADER) {
        LineKind::TaskListHeader
    } else if str_equals(line, ARCHIVE_HEADER) {
        LineKind::ArchiveHeader
    } else if str_starts_with(line, PENDING_MARKER) {
        LineKind::Pending
    } else if str_starts_with(line, DONE_MARKER) {
        LineKind::Done
    } else {
        LineKind::Other
    }
}

/// A blank line: empty, or nothing but white space; a checklist line never is.
pub open spec fn is_blank(l: Seq<char>) -> bool {
    l.len() == 0 || (!is_task(l) && trimmed(l).len() == 0)
}

/// What `str::trim` leaves of a text.
pub uninterp spec fn trimmed(s: Seq<char>) -> Seq<char>;

/// Relies on str::trim: the text without leading and trailing white space.
#[verifier::external_body]
fn trim(s: &str) -> (r: &str)
    ensures
        r@ == trimmed(s@),
{
    s.trim()
}

/// Whether a line is blank.
pub fn blank(line: &str) -> (r: bool)
    ensures
        r == is_blank(line@),
{
    if line.is_empty() {
        return true;
    }
    if task_body(line).is_some() {
        return false;
    }
    trim(line).is_empty()
}

/// A new pending line with the given priority and text.
pub open spec fn new_task_line(text: Seq<char>, p: Priority) -> Seq<char> {
    pending_marker() + seq![symbol_of(p), ' '] + text
}

/// A checklist line with its marker turned to done.
pub open spec fn done_line(l: Seq<char>) -> Seq<char> {
    done_marker() + body(l)
}

/// A checklist line without a priority gets the medium one; any other line stays.
pub open spec fn backfilled(l: Seq<char>) -> Seq<char> {
    if is_task(l) && line_priority(l) is None {
        l.subrange(0, marker_len()) + seq![symbol_of(Priority::Medium), ' '] + body(l)
    } else {
        l
    }
}

/// A checklist line without a priority gets the medium symbol right after its
/// marker and keeps its state and text; any other line is left as it is; a
/// second backfill changes nothing.
pub proof fn lemma_backfilled(l: Seq<char>)
    ensures
        is_task(l) && line_priority(l) is None ==> {
            &&& line_priority(backfilled(l)) == Some(Priority::Medium)
            &&& is_pending(backfilled(l)) == is_pending(l)
            &&& is_done(backfilled(l)) == is_done(l)
            &&& body(backfilled(l)) == seq![symbol_of(Priority::Medium), ' '] + body(l)
        },
        !(is_task(l) && line_priority(l) is None) ==> backfilled(l) == l,
        is_pending(backfilled(l)) == is_pending(l),
        is_done(backfilled(l)) == is_done(l),
        is_task(backfilled(l)) ==> line_priority(backfilled(l)) is Some,
        backfilled(backfilled(l)) == backfilled(l),
        is_archive_header(backfilled(l)) == is_archive_header(l),
        backfilled(l) == task_list_header() <==> l == task_list_header(),
        is_blank(backfilled(l)) == is_blank(l),
        backfilled(l).len() == 0 <==> l.len() == 0,
{
    lemma_kinds(l);
    if is_task(l) && line_priority(l) is None {
        let b = backfilled(l);
        assert(b.subrange(0, 6) =~= l.subrange(0, 6));
        assert(body(b) =~= seq![symbol_of(Priority::Medium), ' '] + body(l));
        lemma_kinds(b);
    }
}

pub open spec fn priority_named(name: Seq<char>) -> Option<Priority> {
    if name == seq!['h', 'i', 'g', 'h'] {
        Some(Priority::High)
    } else if name == seq!['m', 'e', 'd', 'i', 'u', 'm'] {
        Some(Priority::Medium)
    } else if name == seq!['l', 'o', 'w'] {
        Some(Priority::Low)
    } else {
        None
    }
}

impl Priority {
    /// The priority called `high`, `medium` or `low`.
    pub fn from_name(name: &str) -> (r: Option<Priority>)
        ensures
            r == priority_named(name@),
    {
        proof {
            reveal_strlit("high");
            reveal_strlit("medium");
            reveal_strlit("low");
            assert("high"@ =~= seq!['h', 'i', 'g', 'h']);
            assert("medium"@ =~= seq!['m', 'e', 'd', 'i', 'u', 'm']);
            assert("low"@ =~= seq!['l', 'o', 'w']);
        }
        if str_equals(name, "high") {
            Some(Priority::High)
        } else if str_equals(name, "medium") {
            Some(Priority::Medium)
        } else if str_equals(name, "low") {
            Some(Priority::Low)
        } else {
            None
        }
    }

    /// The symbol that stands for the priority in a line.
    pub fn symbol(&self) -> (r: &'static str)
        ensures
            r@ == seq![symbol_of(*self)],
    {
        proof {
            reveal_strlit("🔴");
            reveal_strlit("🟡");
            reveal_strlit("🟢");
        }
        match self {
            Priority::High => "🔴",
            Priority::Medium => "🟡",
            Priority::Low => "🟢",
        }
    }
}

/// The text of a checklist line after its marker; `None` for other lines.
pub fn task_body(line: &str) -> (r: Option<&str>)
    ensures
        match r {
            Some(t) => is_task(line@) && t@ == body(line@),
            None => !is_task(line@),
        },
{
    proof {
        reveal_strlit("- [ ] ");
        reveal_strlit("- [x] ");
        assert(PENDING_MARKER@ =~= pending_marker());
        assert(DONE_MARKER@ =~= done_marker());
    }
    match strip(line, PENDING_MARKER) {
        Some(t) => Some(t),
        None => strip(line, DONE_MARKER),
    }
}

/// The priority that a checklist line carries, if any.
pub fn priority_of(line: &str) -> (r: Option<Priority>)
    ensures
        r == line_priority(line@),
{
    match task_body(line) {
        None => None,
        Some(t) => {
            let high = Priority::High.symbol();
            let medium = Priority::Medium.symbol();
            let low = Priority::Low.symbol();
            proof {
                if t@.len() > 0 {
                    assert(t@.subrange(0, 1) =~= seq![t@[0]]);
                    assert(seq![t@[0]][0] == t@[0]);
                }
            }
            if str_starts_with(t, high) {
                Some(Priority::High)
            } else if str_starts_with(t, medium) {
                Some(Priority::Medium)
            } else if str_starts_with(t, low) {
                Some(Priority::Low)
            } else {
                proof {
                    if t@.len() > 0 {
                        assert(t@.subrange(0, 1) =~= seq![t@[0]]);
                    }
                }
                None
            }
        },
    }
}

/// A new pending line with the given text and priority.
pub fn make_task_line(text: &str, p: Priority) -> (r: String)
    ensures
        r@ == new_task_line(text@, p),
{
    proof {
        reveal_strlit("- [ ] ");
        reveal_strlit(" ");
        assert(PENDING_MARKER@ =~= pending_marker());
    }
    let mut r = String::from_str(PENDING_MARKER);
    r.append(p.symbol());
    r.append(" ");
    r.append(text);
    proof {
        assert(r@ =~= new_task_line(text@, p));
    }
    r
}

/// The line with its pending marker turned to done.
pub fn make_done_line(line: &str) -> (r: String)
    requires
        is_pending(line@),
    ensures
        r@ == done_line(line@),
{
    proof {
        reveal_strlit("- [x] ");
        assert(DONE_MARKER@ =~= done_marker());
    }
    let rest = task_body(line).unwrap();
    let mut r = String::from_str(DONE_MARKER);
    r.append(rest);
    r
}

/// The line with the medium priority added where a checklist line has none.
pub fn backfill_line(line: &String) -> (r: String)
    ensures
        r@ == backfilled(line@),
{
    proof {
        reveal_strlit("- [ ] ");
        reveal_strlit("- [x] ");
        reveal_strlit(" ");
        assert(PENDING_MARKER@ =~= pending_marker());
        assert(DONE_MARKER@ =~= done_marker());
    }
    if priority_of(line.as_str()).is_some() {
        return line.clone();
    }
    match task_body(line.as_str()) {
        None => line.clone(),
        Some(rest) => {
            let marker = if str_starts_with(line.as_str(), PENDING_MARKER) {
                PENDING_MARKER
            } else {
                DONE_MARKER
            };
            let mut r = String::from_str(marker);
            r.append(Priority::Medium.symbol());
            r.append(" ");
            r.append(rest);
            proof {
                assert(r@ =~= backfilled(line@));
            }
            r
        },
    }
}

/// A new task list header line.
pub fn task_list_header_line() -> (r: String)
    ensures
        r@ == task_list_header(),
{
    proof {
        reveal_strlit("## タスク一覧");
        assert(TASK_LIST_HEADER@ =~= task_list_header());
    }
    String::from_str(TASK_LIST_HEADER)
}

/// A new archive header line.
pub fn archive_header_line() -> (r: String)
    ensures
        r@ == archive_header(),
{
    proof {
        reveal_strlit("## アーカイブ");
        assert(ARCHIVE_HEADER@ =~= archive_header());
    }
    String::from_str(ARCHIVE_HEADER)
}

} // verus!
