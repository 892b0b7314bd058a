//! What the task list shows: pending tasks numbered from 1 and, on request,
//! completed tasks, with those in the archive numbered on their own.

use crate::document::{
    archive_pos, count_state, find_archive, lemma_archive_pos_props, lemma_count_step, lines_of,
};
use crate::line::{body, classify, is_archive_header, is_done, is_pending, task_body, LineKind};
use vstd::prelude::*;

verus! {

/// The kind of an entry of the task list.
#[derive(Clone, Copy, Debug, PartialEq, Eq, Structural)]
pub enum EntryKind {
    /// A pending task, with its number.
    Pending,
    /// A completed task before the archive header; it has no number.
    Done,
    /// A completed task in the archive, with its number there.
    Archived,
    /// The archive header.
    ArchiveStart,
}

/// One entry of the task list: its kind, its number (0 where it has none)
/// and the text after the checklist marker.
pub struct ListEntry {
    pub kind: EntryKind,
    pub number: usize,
    pub text: String,
}

impl View for ListEntry {
    type V = (EntryKind, nat, Seq<char>);

    open spec fn view(&self) -> (EntryKind, nat, Seq<char>) {
        (self.kind, self.number as nat, self.text@)
    }
}

/// The entry that line `i` of `d` gives, if any; completed tasks and the
/// archive header show only when `all` is asked for.
pub open spec fn entry_at(d: Seq<Seq<char>>, i: int, all: bool) -> Option<
    (EntryKind, nat, Seq<char>),
> {
    let l = d[i];
    let h = archive_pos(d);
    if is_pending(l) {
        Some((EntryKind::Pending, count_state(d.take(i), false) + 1, body(l)))
    } else if all && is_archive_header(l) {
        Some((EntryKind::ArchiveStart, 0nat, Seq::empty()))
    } else if all && is_done(l) && i > h {
        Some((EntryKind::Archived, count_state(d.subrange(h + 1, i), true) + 1, body(l)))
    } else if all && is_done(l) {
        Some((EntryKind::Done, 0nat, body(l)))
    } else {
        None
    }
}

/// The entries of the first `n` lines of `d`, in order.
pub open spec fn entries_upto(d: Seq<Seq<char>>, n: int, all: bool) -> Seq<
    (EntryKind, nat, Seq<char>),
>
    decreases n,
{
    if n <= 0 {
        Seq::empty()
    } else {
        match entry_at(d, n - 1, all) {
            Some(e) => entries_upto(d, n - 1, all).push(e),
            None => entries_upto(d, n - 1, all),
        }
    }
}

pub open spec fn entries_view(v: Seq<ListEntry>) -> Seq<(EntryKind, nat, Seq<char>)> {
    v.map_values(|e: ListEntry| e@)
}

pub proof fn lemma_count_bound(d: Seq<Seq<char>>, done: bool)
    ensures
        count_state(d, done) <= d.len(),
    decreases d.len(),
{
    if d.len() > 0 {
        lemma_count_bound(d.drop_last(), done);
    }
}

/// The task list of a document.
pub fn list_entries(lines: &Vec<String>, all: bool) -> (r: Vec<ListEntry>)
    ensures
        entries_view(r@) == entries_upto(lines_of(lines@), lines@.len() as int, all),
{
    let ghost d = lines_of(lines@);
    let h = find_archive(lines);
    proof {
        lemma_archive_pos_props(d);
    }
    let mut out: Vec<ListEntry> = Vec::new();
    let mut pending: usize = 0;
    let mut archived: usize = 0;
    let mut i: usize = 0;
    while i < lines.len()
        invariant
            d == lines_of(lines@),
            h == archive_pos(d),
            h <= lines.len(),
            0 <= i <= lines.len(),
            entries_view(out@) == entries_upto(d, i as int, all),
            pending == count_state(d.take(i as int), false),
            i > h ==> archived == count_state(d.subrange(h + 1, i as int), true),
            i <= h ==> archived == 0,
        decreases lines.len() - i,
    {
        proof {
            lemma_count_step(d, i as int, false);
            lemma_count_bound(d.take(i as int), false);
            if i > h {
                lemma_count_bound(d.subrange(h + 1, i as int), true);
                assert(d.subrange(h + 1, i + 1).drop_last() =~= d.subrange(h + 1, i as int));
            } else if i == h + 1 {
                assert(d.subrange(h + 1, i as int).len() == 0);
            }
        }
        let line = lines[i].as_str();
        let kind = classify(line);
        let ghost before = entries_view(out@);
        if kind == LineKind::Pending {
            pending = pending + 1;
            let text = String::from_str(task_body(line).unwrap());
            out.push(ListEntry { kind: EntryKind::Pending, number: pending, text });
        } else if kind == LineKind::Done && i > h {
            archived = archived + 1;
            if all {
                let text = String::from_str(task_body(line).unwrap());
                out.push(ListEntry { kind: EntryKind::Archived, number: archived, text });
            }
        } else if kind == LineKind::Done {
            if all {
                let text = String::from_str(task_body(line).unwrap());
                out.push(ListEntry { kind: EntryKind::Done, number: 0, text });
            }
        } else if all && kind == LineKind::ArchiveHeader {
            out.push(ListEntry { kind: EntryKind::ArchiveStart, number: 0, text: String::new() });
        }
        proof {
            assert(entries_view(out@) =~= entries_upto(d, i + 1, all));
        }
        i = i + 1;
    }
    out
}

} // verus!
