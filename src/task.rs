//! The operations that change a task document: each takes the lines and
//! gives the new lines, or an error that leaves the document as it was.

use crate::document::{
    archive_pos, copy_lines, count_done, count_pending, count_tasks, find_archive, find_nth,
    has_archive, lemma_archive_pos_at, lemma_archive_pos_props, lemma_count_around,
    lemma_count_concat, lemma_count_one, lemma_nth_exists, lemma_nth_in_range, lemma_nth_index,
    lemma_select_count, lines_of, nth_index, push_line, select,
};
use crate::line::{
    archive_header, archive_header_line, classify, done_line, done_marker, is_archive_header,
    lemma_kinds, make_done_line, make_task_line, new_task_line, pending_marker, priority_named,
    task_list_header, task_list_header_line, LineKind, Priority,
};
use vstd::prelude::*;

verus! {

/// Why an operation on a document did not take place.
#[derive(Clone, Copy, Debug, PartialEq, Eq, Structural)]
pub enum TaskError {
    /// No pending task has the given number.
    TaskNotFound,
    /// No completed task has the given number.
    CompletedTaskNotFound,
    /// The name is none of `high`, `medium`, `low`.
    InvalidPriority,
}

/// The document with a new pending task: before the archive header, or at
/// the end; an empty document becomes the task list header, a blank line
/// and the task.
pub open spec fn appended(d: Seq<Seq<char>>, text: Seq<char>, p: Priority) -> Seq<Seq<char>> {
    if d.len() == 0 {
        seq![task_list_header(), Seq::empty(), new_task_line(text, p)]
    } else {
        d.insert(archive_pos(d), new_task_line(text, p))
    }
}

/// The document with its `n`-th pending task marked done.
pub open spec fn marked_done(d: Seq<Seq<char>>, n: int) -> Seq<Seq<char>> {
    let k = nth_index(d, n, false);
    d.update(k, done_line(d[k]))
}

/// The document without its `n`-th pending task.
pub open spec fn removed(d: Seq<Seq<char>>, n: int) -> Seq<Seq<char>> {
    d.remove(nth_index(d, n, false))
}

/// The document with its `n`-th completed task moved right under the
/// archive header, or, when there is none, to a new archive at the end.
pub open spec fn archived_one(d: Seq<Seq<char>>, n: int) -> Seq<Seq<char>> {
    let k = nth_index(d, n, true);
    let e = d.remove(k);
    if has_archive(e) {
        e.insert(archive_pos(e) + 1, d[k])
    } else {
        e + seq![archive_header(), Seq::empty(), d[k]]
    }
}

pub open spec fn done_lines(s: Seq<Seq<char>>) -> Seq<Seq<char>> {
    select(s, true, true)
}

pub open spec fn not_done_lines(s: Seq<Seq<char>>) -> Seq<Seq<char>> {
    select(s, true, false)
}

/// The document with every completed task before the archive header moved,
/// in order, to the end of the archive, which is made when there is none.
pub open spec fn archived_all(d: Seq<Seq<char>>) -> Seq<Seq<char>> {
    let h = archive_pos(d);
    let active = d.take(h);
    let moved = done_lines(active);
    if moved.len() == 0 {
        d
    } else if h < d.len() {
        not_done_lines(active) + d.skip(h) + moved
    } else {
        not_done_lines(active) + seq![archive_header(), Seq::empty()] + moved
    }
}

/// The priority of the given name, or `InvalidPriority`.
pub fn parse_priority(name: &str) -> (r: Result<Priority, TaskError>)
    ensures
        match priority_named(name@) {
            Some(p) => r == Ok::<Priority, TaskError>(p),
            None => r == Err::<Priority, TaskError>(TaskError::InvalidPriority),
        },
{
    match Priority::from_name(name) {
        Some(p) => Ok(p),
        None => Err(TaskError::InvalidPriority),
    }
}

/// Adds a pending task with the given text and priority.
pub fn append_task(lines: &Vec<String>, text: &str, priority: Priority) -> (r: Vec<String>)
    ensures
        lines_of(r@) == appended(lines_of(lines@), text@, priority),
{
    let ghost d = lines_of(lines@);
    let line = make_task_line(text, priority);
    let mut out: Vec<String> = Vec::new();
    if lines.len() == 0 {
        push_line(&mut out, task_list_header_line());
        push_line(&mut out, String::new());
        push_line(&mut out, line);
        proof {
            assert(lines_of(out@) =~= appended(d, text@, priority));
        }
        return out;
    }
    let h = find_archive(lines);
    copy_lines(&mut out, lines, 0, h);
    push_line(&mut out, line);
    copy_lines(&mut out, lines, h, lines.len());
    proof {
        assert(lines_of(out@) =~= appended(d, text@, priority));
    }
    out
}

/// Marks the `n`-th pending task, counted from 1, as done.
pub fn mark_done(lines: &Vec<String>, n: usize) -> (r: Result<Vec<String>, TaskError>)
    ensures
        match r {
            Ok(v) => 1 <= n <= count_pending(lines_of(lines@)) && lines_of(v@) == marked_done(
                lines_of(lines@),
                n as int,
            ),
            Err(e) => e == TaskError::TaskNotFound && !(1 <= n <= count_pending(lines_of(lines@))),
        },
{
    let ghost d = lines_of(lines@);
    match find_nth(lines, n, false) {
        None => Err(TaskError::TaskNotFound),
        Some(k) => {
            proof {
                lemma_nth_in_range(d, k as int, n as int, false);
                lemma_nth_index(d, k as int, n as int, false);
            }
            let mut out: Vec<String> = Vec::new();
            copy_lines(&mut out, lines, 0, k);
            push_line(&mut out, make_done_line(lines[k].as_str()));
            copy_lines(&mut out, lines, k + 1, lines.len());
            proof {
                assert(lines_of(out@) =~= marked_done(d, n as int));
            }
            Ok(out)
        },
    }
}

/// Removes the `n`-th pending task, counted from 1.
pub fn remove_task(lines: &Vec<String>, n: usize) -> (r: Result<Vec<String>, TaskError>)
    ensures
        match r {
            Ok(v) => 1 <= n <= count_pending(lines_of(lines@)) && lines_of(v@) == removed(
                lines_of(lines@),
                n as int,
            ),
            Err(e) => e == TaskError::TaskNotFound && !(1 <= n <= count_pending(lines_of(lines@))),
        },
{
    let ghost d = lines_of(lines@);
    match find_nth(lines, n, false) {
        None => Err(TaskError::TaskNotFound),
        Some(k) => {
            proof {
                lemma_nth_in_range(d, k as int, n as int, false);
                lemma_nth_index(d, k as int, n as int, false);
            }
            let mut out: Vec<String> = Vec::new();
            copy_lines(&mut out, lines, 0, k);
            copy_lines(&mut out, lines, k + 1, lines.len());
            proof {
                assert(lines_of(out@) =~= removed(d, n as int));
            }
            Ok(out)
        },
    }
}

/// Moves the `n`-th completed task, counted from 1 over the whole document,
/// right under the archive header; makes the archive when there is none.
pub fn archive_task(lines: &Vec<String>, n: usize) -> (r: Result<Vec<String>, TaskError>)
    ensures
        match r {
            Ok(v) => 1 <= n <= count_done(lines_of(lines@)) && lines_of(v@) == archived_one(
                lines_of(lines@),
                n as int,
            ),
            Err(e) => e == TaskError::CompletedTaskNotFound && !(1 <= n <= count_done(
                lines_of(lines@),
            )),
        },
{
    let ghost d = lines_of(lines@);
    match find_nth(lines, n, true) {
        None => Err(TaskError::CompletedTaskNotFound),
        Some(k) => {
            proof {
                lemma_nth_in_range(d, k as int, n as int, true);
                lemma_nth_index(d, k as int, n as int, true);
            }
            let mut rest: Vec<String> = Vec::new();
            copy_lines(&mut rest, lines, 0, k);
            copy_lines(&mut rest, lines, k + 1, lines.len());
            let ghost e = lines_of(rest@);
            assert(e =~= d.remove(k as int));
            let h = find_archive(&rest);
            let mut out: Vec<String> = Vec::new();
            if h < rest.len() {
                copy_lines(&mut out, &rest, 0, h + 1);
                push_line(&mut out, lines[k].clone());
                copy_lines(&mut out, &rest, h + 1, rest.len());
            } else {
                copy_lines(&mut out, &rest, 0, rest.len());
                push_line(&mut out, archive_header_line());
                push_line(&mut out, String::new());
                push_line(&mut out, lines[k].clone());
            }
            proof {
                assert(lines_of(out@) =~= archived_one(d, n as int));
            }
            Ok(out)
        },
    }
}

/// Moves every completed task before the archive header, in order, to the
/// end of the archive; makes the archive when there is none.
pub fn archive_all(lines: &Vec<String>) -> (r: Vec<String>)
    ensures
        lines_of(r@) == archived_all(lines_of(lines@)),
{
    let ghost d = lines_of(lines@);
    let h = find_archive(lines);
    let mut kept: Vec<String> = Vec::new();
    let mut moved: Vec<String> = Vec::new();
    let mut i: usize = 0;
    while i < h
        invariant
            d == lines_of(lines@),
            h == archive_pos(d),
            0 <= i <= h <= lines.len(),
            lines_of(kept@) == not_done_lines(d.take(i as int)),
            lines_of(moved@) == done_lines(d.take(i as int)),
        decreases h - i,
    {
        proof {
            assert(d.take(i + 1).drop_last() =~= d.take(i as int));
        }
        assert(d.take(i + 1).last() == lines@[i as int]@);
        if classify(lines[i].as_str()) == LineKind::Done {
            push_line(&mut moved, lines[i].clone());
            assert(lines_of(moved@) =~= done_lines(d.take(i + 1)));
            assert(lines_of(kept@) =~= not_done_lines(d.take(i + 1)));
        } else {
            push_line(&mut kept, lines[i].clone());
            assert(lines_of(moved@) =~= done_lines(d.take(i + 1)));
            assert(lines_of(kept@) =~= not_done_lines(d.take(i + 1)));
        }
        i = i + 1;
    }
    if moved.len() == 0 {
        let mut out: Vec<String> = Vec::new();
        copy_lines(&mut out, lines, 0, lines.len());
        proof {
            assert(lines_of(out@) =~= d);
        }
        return out;
    }
    let mut out = kept;
    if h < lines.len() {
        copy_lines(&mut out, lines, h, lines.len());
    } else {
        push_line(&mut out, archive_header_line());
        push_line(&mut out, String::new());
    }
    let ghost before = lines_of(out@);
    copy_lines(&mut out, &moved, 0, moved.len());
    proof {
        assert(lines_of(moved@).subrange(0, moved@.len() as int) =~= lines_of(moved@));
        assert(lines_of(out@) =~= archived_all(d));
    }
    out
}

/// The part of a document before its archive header.
pub open spec fn active_region(d: Seq<Seq<char>>) -> Seq<Seq<char>> {
    d.take(archive_pos(d))
}

/// Archiving the `n`-th completed task takes it out of the active region
/// (where it stood there) and puts it right under the archive header, or,
/// where the archive is new, after that header and a blank line at the end.
pub proof fn lemma_archive_placement(d: Seq<Seq<char>>, n: int)
    requires
        1 <= n <= count_done(d),
    ensures
        ({
            let k = nth_index(d, n, true);
            let r = archived_one(d, n);
            &&& has_archive(d) ==> has_archive(r) && r[archive_pos(r) + 1] == d[k]
            &&& !has_archive(d) ==> archive_pos(r) == r.len() - 3 && r[r.len() - 1] == d[k]
            &&& k < archive_pos(d) ==> active_region(r) == active_region(d).remove(k)
            &&& k > archive_pos(d) ==> active_region(r) == active_region(d)
        }),
{
    lemma_nth_exists(d, n, true);
    let k = nth_index(d, n, true);
    let r = archived_one(d, n);
    let e = d.remove(k);
    let h = archive_pos(d);
    lemma_archive_pos_props(d);
    lemma_kinds(d[k]);
    let pe = if k < h {
        h - 1
    } else {
        h
    };
    assert forall|j: int| 0 <= j < pe implies !is_archive_header(#[trigger] e[j]) by {
        if j < k {
            assert(e[j] == d[j]);
        } else {
            assert(e[j] == d[j + 1]);
        }
    }
    if h < d.len() {
        if k < h {
            assert(e[pe] == d[h]);
        } else {
            assert(e[pe] == d[h]);
        }
    }
    lemma_archive_pos_at(e, pe);
    if has_archive(e) {
        assert forall|j: int| 0 <= j < pe implies !is_archive_header(#[trigger] r[j]) by {
            assert(r[j] == e[j]);
        }
        assert(r[pe] == e[pe]);
        lemma_archive_pos_at(r, pe);
        assert(r.take(pe) =~= e.take(pe));
    } else {
        assert forall|j: int| 0 <= j < e.len() implies !is_archive_header(#[trigger] r[j]) by {
            assert(r[j] == e[j]);
        }
        assert(r[e.len() as int] == archive_header());
        lemma_archive_pos_at(r, e.len() as int);
        assert(r.take(e.len() as int) =~= e);
    }
    if k < h {
        assert(e.take(pe) =~= d.take(h).remove(k));
    } else if k > h {
        assert(e.take(pe) =~= d.take(h));
    }
}

/// Adding a task adds one to the number of tasks; marking one done and
/// archiving keep that number; removing one takes one away.
pub proof fn lemma_task_count(d: Seq<Seq<char>>, text: Seq<char>, p: Priority, n: int)
    ensures
        count_tasks(appended(d, text, p)) == count_tasks(d) + 1,
        1 <= n <= count_pending(d) ==> count_tasks(marked_done(d, n)) == count_tasks(d),
        1 <= n <= count_pending(d) ==> count_tasks(removed(d, n)) + 1 == count_tasks(d),
        1 <= n <= count_done(d) ==> count_tasks(archived_one(d, n)) == count_tasks(d),
        count_tasks(archived_all(d)) == count_tasks(d),
{
    lemma_count_appended(d, text, p);
    if 1 <= n <= count_pending(d) {
        lemma_count_pending_ops(d, n);
    }
    if 1 <= n <= count_done(d) {
        lemma_count_archived_one(d, n);
    }
    lemma_count_archived_all(d);
}

proof fn lemma_count_appended(d: Seq<Seq<char>>, text: Seq<char>, p: Priority)
    ensures
        count_tasks(appended(d, text, p)) == count_tasks(d) + 1,
{
    let l = new_task_line(text, p);
    assert(l.subrange(0, 6) =~= pending_marker());
    lemma_kinds(l);
    lemma_count_one(l, true);
    lemma_count_one(l, false);
    if d.len() == 0 {
        let h = task_list_header();
        lemma_kinds(h);
        lemma_kinds(Seq::<char>::empty());
        assert(seq![h, Seq::empty(), l] =~= seq![h] + seq![Seq::<char>::empty()] + seq![l]);
        lemma_count_concat(seq![h] + seq![Seq::<char>::empty()], seq![l], true);
        lemma_count_concat(seq![h] + seq![Seq::<char>::empty()], seq![l], false);
        lemma_count_concat(seq![h], seq![Seq::<char>::empty()], true);
        lemma_count_concat(seq![h], seq![Seq::<char>::empty()], false);
        lemma_count_one(h, true);
        lemma_count_one(h, false);
        lemma_count_one(Seq::empty(), true);
        lemma_count_one(Seq::empty(), false);
    } else {
        lemma_archive_pos_props(d);
        let i = archive_pos(d);
        assert(d =~= d.take(i) + d.skip(i));
        assert(d.insert(i, l) =~= d.take(i) + seq![l] + d.skip(i));
        lemma_count_concat(d.take(i), d.skip(i), true);
        lemma_count_concat(d.take(i), d.skip(i), false);
        lemma_count_concat(d.take(i) + seq![l], d.skip(i), true);
        lemma_count_concat(d.take(i) + seq![l], d.skip(i), false);
        lemma_count_concat(d.take(i), seq![l], true);
        lemma_count_concat(d.take(i), seq![l], false);
    }
}

proof fn lemma_count_pending_ops(d: Seq<Seq<char>>, n: int)
    requires
        1 <= n <= count_pending(d),
    ensures
        count_tasks(marked_done(d, n)) == count_tasks(d),
        count_tasks(removed(d, n)) + 1 == count_tasks(d),
{
    lemma_nth_exists(d, n, false);
    let k = nth_index(d, n, false);
    let x = done_line(d[k]);
    assert(x.subrange(0, 6) =~= done_marker());
    lemma_kinds(x);
    lemma_kinds(d[k]);
    let u = marked_done(d, n);
    assert(u =~= d.take(k) + seq![x] + d.skip(k + 1));
    assert(u.take(k) =~= d.take(k));
    assert(u.skip(k + 1) =~= d.skip(k + 1));
    assert(u[k] == x);
    lemma_count_around(d, k, true);
    lemma_count_around(d, k, false);
    lemma_count_around(u, k, true);
    lemma_count_around(u, k, false);
    lemma_count_one(x, true);
    lemma_count_one(x, false);
    lemma_count_one(d[k], true);
    lemma_count_one(d[k], false);
    let v = removed(d, n);
    assert(v =~= d.take(k) + d.skip(k + 1));
    lemma_count_concat(d.take(k), d.skip(k + 1), true);
    lemma_count_concat(d.take(k), d.skip(k + 1), false);
}

proof fn lemma_count_archived_one(d: Seq<Seq<char>>, n: int)
    requires
        1 <= n <= count_done(d),
    ensures
        count_tasks(archived_one(d, n)) == count_tasks(d),
{
    lemma_nth_exists(d, n, true);
    let k = nth_index(d, n, true);
    let l = d[k];
    let e = d.remove(k);
    assert(e =~= d.take(k) + d.skip(k + 1));
    lemma_count_around(d, k, true);
    lemma_count_around(d, k, false);
    lemma_count_concat(d.take(k), d.skip(k + 1), true);
    lemma_count_concat(d.take(k), d.skip(k + 1), false);
    lemma_count_one(l, true);
    lemma_count_one(l, false);
    lemma_archive_pos_props(e);
    if has_archive(e) {
        let i = archive_pos(e) + 1;
        assert(e =~= e.take(i) + e.skip(i));
        assert(e.insert(i, l) =~= e.take(i) + seq![l] + e.skip(i));
        lemma_count_concat(e.take(i), e.skip(i), true);
        lemma_count_concat(e.take(i), e.skip(i), false);
        lemma_count_concat(e.take(i) + seq![l], e.skip(i), true);
        lemma_count_concat(e.take(i) + seq![l], e.skip(i), false);
        lemma_count_concat(e.take(i), seq![l], true);
        lemma_count_concat(e.take(i), seq![l], false);
    } else {
        let a = archive_header();
        let z = Seq::<char>::empty();
        lemma_kinds(a);
        lemma_kinds(z);
        assert(seq![a, z, l] =~= seq![a] + seq![z] + seq![l]);
        lemma_count_concat(e, seq![a, z, l], true);
        lemma_count_concat(e, seq![a, z, l], false);
        lemma_count_concat(seq![a] + seq![z], seq![l], true);
        lemma_count_concat(seq![a] + seq![z], seq![l], false);
        lemma_count_concat(seq![a], seq![z], true);
        lemma_count_concat(seq![a], seq![z], false);
        lemma_count_one(a, true);
        lemma_count_one(a, false);
        lemma_count_one(z, true);
        lemma_count_one(z, false);
    }
}

proof fn lemma_count_archived_all(d: Seq<Seq<char>>)
    ensures
        count_tasks(archived_all(d)) == count_tasks(d),
{
    lemma_archive_pos_props(d);
    let h = archive_pos(d);
    let a = d.take(h);
    let kept = not_done_lines(a);
    let moved = done_lines(a);
    lemma_select_count(a, true, true);
    lemma_select_count(a, true, false);
    assert(d =~= a + d.skip(h));
    lemma_count_concat(a, d.skip(h), true);
    lemma_count_concat(a, d.skip(h), false);
    if moved.len() > 0 {
        let mid = if h < d.len() {
            d.skip(h)
        } else {
            seq![archive_header(), Seq::empty()]
        };
        assert(archived_all(d) == kept + mid + moved);
        lemma_count_concat(kept + mid, moved, true);
        lemma_count_concat(kept + mid, moved, false);
        lemma_count_concat(kept, mid, true);
        lemma_count_concat(kept, mid, false);
        if h == d.len() {
            let x = archive_header();
            let z = Seq::<char>::empty();
            lemma_kinds(x);
            lemma_kinds(z);
            assert(mid =~= seq![x] + seq![z]);
            assert(d.skip(h).len() == 0);
            lemma_count_concat(seq![x], seq![z], true);
            lemma_count_concat(seq![x], seq![z], false);
            lemma_count_one(x, true);
            lemma_count_one(x, false);
            lemma_count_one(z, true);
            lemma_count_one(z, false);
        }
    }
}

} // verus!
