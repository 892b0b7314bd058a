//! The pass that brings a document to its canonical layout.

use crate::document::{
    archive_pos, copy_lines, find_archive, lemma_archive_pos_at, lemma_archive_pos_props,
    lemma_archive_pos_take,
    lemma_select_keeps, lemma_select_lines, lemma_select_none,
    lemma_select_partition_len, lines_of, push_line, select,
};
use crate::line::{
    archive_header, backfill_line, backfilled, blank, classify, is_archive_header, is_blank,
    is_pending, is_task, lemma_backfilled, lemma_kinds, line_priority, task_list_header,
    task_list_header_line, LineKind,
};
use vstd::prelude::*;

verus! {

/// The document opened by the task list header and a blank line, unless it
/// already opens with that header.
pub open spec fn with_header(d: Seq<Seq<char>>) -> Seq<Seq<char>> {
    if d.len() > 0 && d[0] == task_list_header() {
        d
    } else {
        seq![task_list_header(), Seq::empty()] + d
    }
}

/// A line is dropped when it is blank and so is the line before it; each
/// line that stays is backfilled with a priority.
pub open spec fn tidied(s: Seq<Seq<char>>) -> Seq<Seq<char>>
    decreases s.len(),
{
    if s.len() == 0 {
        s
    } else if s.len() >= 2 && is_blank(s.last()) && is_blank(s[s.len() - 2]) {
        tidied(s.drop_last())
    } else {
        tidied(s.drop_last()).push(backfilled(s.last()))
    }
}

/// Pending tasks after the first archive header move, in order, to just
/// before it.
pub open spec fn relocated(s: Seq<Seq<char>>) -> Seq<Seq<char>> {
    let h = archive_pos(s);
    if h == s.len() {
        s
    } else {
        s.take(h) + select(s.skip(h + 1), false, true) + seq![s[h]] + select(
            s.skip(h + 1),
            false,
            false,
        )
    }
}

/// A blank line is added when the last line is not empty.
pub open spec fn with_trailing(s: Seq<Seq<char>>) -> Seq<Seq<char>> {
    if s.len() > 0 && s.last().len() > 0 {
        s.push(Seq::empty())
    } else {
        s
    }
}

/// The canonical form of a document: header, no runs of blank lines, a
/// priority on every task, no pending task in the archive (unless that is
/// allowed), and a final empty line.
pub open spec fn normalized(d: Seq<Seq<char>>, allow_incomplete_in_archive: bool) -> Seq<
    Seq<char>,
> {
    let c = tidied(with_header(d));
    with_trailing(
        if allow_incomplete_in_archive {
            c
        } else {
            relocated(c)
        },
    )
}

/// After relocation the first archive header is followed by no pending task.
pub proof fn lemma_relocated_clean(s: Seq<Seq<char>>)
    ensures
        forall|i: int|
            archive_pos(relocated(s)) <= i < relocated(s).len() ==> !is_pending(
                #[trigger] relocated(s)[i],
            ),
{
    lemma_archive_pos_props(s);
    let h = archive_pos(s);
    if h < s.len() {
        let tail = s.skip(h + 1);
        let p = select(tail, false, true);
        let q = select(tail, false, false);
        let m = relocated(s);
        lemma_select_lines(tail, false, true);
        lemma_select_lines(tail, false, false);
        assert forall|j: int| 0 <= j < h + p.len() implies !is_archive_header(#[trigger] m[j]) by {
            if j < h {
                assert(m[j] == s[j]);
            } else {
                assert(m[j] == p[j - h]);
                lemma_kinds(p[j - h]);
            }
        }
        assert(m[h + p.len()] == s[h]);
        lemma_archive_pos_at(m, h + p.len());
        assert forall|i: int| archive_pos(m) <= i < m.len() implies
            !is_pending(#[trigger] m[i]) by {
            if i == h + p.len() {
                lemma_kinds(s[h]);
            } else {
                assert(m[i] == q[i - h - p.len() - 1]);
            }
        }
    } else {
        lemma_archive_pos_props(relocated(s));
    }
}

/// The final empty line keeps the archive header where it was and adds no
/// pending task after it.
pub proof fn lemma_trailing_clean(m: Seq<Seq<char>>)
    requires
        forall|i: int| archive_pos(m) <= i < m.len() ==> !is_pending(#[trigger] m[i]),
    ensures
        forall|i: int|
            archive_pos(with_trailing(m)) <= i < with_trailing(m).len() ==> !is_pending(
                #[trigger] with_trailing(m)[i],
            ),
{
    lemma_archive_pos_props(m);
    let t = with_trailing(m);
    if t.len() > m.len() {
        assert forall|j: int| 0 <= j < archive_pos(m) implies
            !is_archive_header(#[trigger] t[j]) by {
            assert(t[j] == m[j]);
        }
        if archive_pos(m) < m.len() {
            assert(t[archive_pos(m)] == m[archive_pos(m)]);
            lemma_archive_pos_at(t, archive_pos(m));
        } else {
            assert(t[m.len() as int].len() == 0);
            assert(archive_header().len() == 8);
            assert(!is_archive_header(t[m.len() as int]));
            lemma_archive_pos_at(t, t.len() as int);
        }
        assert forall|i: int| archive_pos(t) <= i < t.len() implies
            !is_pending(#[trigger] t[i]) by {
            if i < m.len() {
                assert(t[i] == m[i]);
            }
        }
    }
}

/// Unless pending tasks are allowed in the archive, none stands at or after
/// the archive header once a document is normalized.
pub proof fn lemma_archive_consistency(d: Seq<Seq<char>>)
    ensures
        forall|i: int|
            archive_pos(normalized(d, false)) <= i < normalized(d, false).len() ==> !is_pending(
                #[trigger] normalized(d, false)[i],
            ),
{
    let c = tidied(with_header(d));
    lemma_relocated_clean(c);
    lemma_trailing_clean(relocated(c));
}

/// What `tidied` keeps: the first line, each line that is not blank, and
/// nothing but backfilled lines of its input.
pub proof fn lemma_tidied_lines(s: Seq<Seq<char>>)
    ensures
        tidied(s).len() <= s.len(),
        s.len() > 0 ==> tidied(s).len() > 0 && tidied(s)[0] == backfilled(s[0]),
        forall|i: int|
            0 <= i < tidied(s).len() ==> exists|j: int|
                0 <= j < s.len() && #[trigger] tidied(s)[i] == backfilled(s[j]),
        forall|j: int|
            0 <= j < s.len() && !is_blank(s[j]) ==> tidied(s).contains(
                backfilled(#[trigger] s[j]),
            ),
    decreases s.len(),
{
    if s.len() > 0 {
        let y = s.drop_last();
        lemma_tidied_lines(y);
        let t = tidied(s);
        assert forall|i: int| 0 <= i < t.len() implies exists|j: int|
            0 <= j < s.len() && #[trigger] t[i] == backfilled(s[j]) by {
            if i < tidied(y).len() {
                let j = choose|j: int| 0 <= j < y.len() && tidied(y)[i] == backfilled(y[j]);
                assert(s[j] == y[j]);
            } else {
                assert(t[i] == backfilled(s[s.len() - 1]));
            }
        }
        assert forall|j: int| 0 <= j < s.len() && !is_blank(s[j]) implies t.contains(
            backfilled(#[trigger] s[j]),
        ) by {
            if j < y.len() {
                assert(s[j] == y[j]);
                let k = choose|k: int|
                    0 <= k < tidied(y).len() && tidied(y)[k] == backfilled(y[j]);
                assert(t[k] == tidied(y)[k]);
            } else {
                assert(t[t.len() - 1] == backfilled(s[j]));
            }
        }
        if y.len() > 0 {
            assert(t[0] == tidied(y)[0]);
            assert(y[0] == s[0]);
        }
    }
}

/// Relocation keeps every line, moves none into the place of the first one
/// unless it is the archive header, and adds nothing.
pub proof fn lemma_relocated_lines(s: Seq<Seq<char>>)
    ensures
        relocated(s).len() == s.len(),
        s.len() > 0 && !is_archive_header(s[0]) ==> relocated(s)[0] == s[0],
        forall|i: int|
            0 <= i < relocated(s).len() ==> exists|j: int|
                0 <= j < s.len() && #[trigger] relocated(s)[i] == s[j],
        forall|j: int| 0 <= j < s.len() ==> relocated(s).contains(#[trigger] s[j]),
{
    lemma_archive_pos_props(s);
    let h = archive_pos(s);
    let m = relocated(s);
    if h < s.len() {
        let tail = s.skip(h + 1);
        let p = select(tail, false, true);
        let q = select(tail, false, false);
        lemma_select_lines(tail, false, true);
        lemma_select_lines(tail, false, false);
        lemma_select_keeps(tail, false, true);
        lemma_select_keeps(tail, false, false);
        lemma_select_partition_len(tail, false);
        assert forall|i: int| 0 <= i < m.len() implies exists|j: int|
            0 <= j < s.len() && #[trigger] m[i] == s[j] by {
            if i < h {
                assert(m[i] == s[i]);
            } else if i < h + p.len() {
                let j = choose|j: int| 0 <= j < tail.len() && p[i - h] == tail[j];
                assert(m[i] == s[h + 1 + j]);
            } else if i == h + p.len() {
                assert(m[i] == s[h]);
            } else {
                let j = choose|j: int|
                    0 <= j < tail.len() && q[i - h - p.len() - 1] == tail[j];
                assert(m[i] == s[h + 1 + j]);
            }
        }
        assert forall|j: int| 0 <= j < s.len() implies m.contains(#[trigger] s[j]) by {
            if j < h {
                assert(m[j] == s[j]);
            } else if j == h {
                assert(m[h + p.len()] == s[j]);
            } else {
                assert(tail[j - h - 1] == s[j]);
                if is_pending(s[j]) {
                    let k = choose|k: int| 0 <= k < p.len() && p[k] == tail[j - h - 1];
                    assert(m[h + k] == s[j]);
                } else {
                    let k = choose|k: int| 0 <= k < q.len() && q[k] == tail[j - h - 1];
                    assert(m[h + p.len() + 1 + k] == s[j]);
                }
            }
        }
        if h > 0 {
            assert(m[0] == s[0]);
        }
    } else {
        assert forall|j: int| 0 <= j < s.len() implies m.contains(#[trigger] s[j]) by {
            assert(m[j] == s[j]);
        }
    }
}

/// Once a document is normalized every checklist line carries a priority, and
/// each checklist line of the input is there in backfilled form: with the
/// medium symbol where it had none, as it was where it had one.
pub proof fn lemma_priority_backfill(d: Seq<Seq<char>>, allow_incomplete_in_archive: bool)
    ensures
        forall|i: int|
            0 <= i < normalized(d, allow_incomplete_in_archive).len() && is_task(
                #[trigger] normalized(d, allow_incomplete_in_archive)[i],
            ) ==> line_priority(normalized(d, allow_incomplete_in_archive)[i]) is Some,
        forall|j: int|
            0 <= j < d.len() && is_task(#[trigger] d[j]) ==> normalized(
                d,
                allow_incomplete_in_archive,
            ).contains(backfilled(d[j])),
{
    let w = with_header(d);
    let c = tidied(w);
    let m = if allow_incomplete_in_archive {
        c
    } else {
        relocated(c)
    };
    let n = normalized(d, allow_incomplete_in_archive);
    lemma_tidied_lines(w);
    lemma_relocated_lines(c);
    assert forall|i: int| 0 <= i < n.len() && is_task(#[trigger] n[i]) implies line_priority(
        n[i],
    ) is Some by {
        if i < m.len() {
            assert(n[i] == m[i]);
            let k = if allow_incomplete_in_archive {
                i
            } else {
                choose|k: int| 0 <= k < c.len() && m[i] == c[k]
            };
            let j = choose|j: int| 0 <= j < w.len() && c[k] == backfilled(w[j]);
            lemma_backfilled(w[j]);
        } else {
            assert(n[i].len() == 0);
        }
    }
    assert forall|j: int| 0 <= j < d.len() && is_task(#[trigger] d[j]) implies n.contains(
        backfilled(d[j]),
    ) by {
        let jw = if w.len() > d.len() {
            j + 2
        } else {
            j
        };
        assert(w[jw] == d[j]);
        let k = choose|k: int| 0 <= k < c.len() && c[k] == backfilled(w[jw]);
        let i = if allow_incomplete_in_archive {
            k
        } else {
            choose|i: int| 0 <= i < m.len() && m[i] == c[k]
        };
        assert(n[i] == m[i]);
    }
}

/// No two blank lines stand together, but for a final empty line after a
/// blank line that is not empty.
pub open spec fn single_blank_runs(s: Seq<Seq<char>>) -> bool {
    forall|i: int|
        0 <= i && i + 1 < s.len() && is_blank(#[trigger] s[i]) && is_blank(s[i + 1]) ==> i + 2
            == s.len() && s[i + 1].len() == 0 && s[i].len() > 0
}

/// A document whose lines are all backfilled already and where no two
/// blank lines stand together is left as it is by `tidied`.
pub proof fn lemma_tidied_fixed(s: Seq<Seq<char>>)
    requires
        forall|i: int| 0 <= i < s.len() ==> backfilled(#[trigger] s[i]) == s[i],
        forall|i: int|
            0 <= i && i + 1 < s.len() ==> !(is_blank(#[trigger] s[i]) && is_blank(s[i + 1])),
    ensures
        tidied(s) == s,
    decreases s.len(),
{
    if s.len() > 0 {
        let y = s.drop_last();
        assert forall|i: int| 0 <= i < y.len() implies backfilled(#[trigger] y[i]) == y[i] by {
            assert(y[i] == s[i]);
        }
        assert forall|i: int| 0 <= i && i + 1 < y.len() implies !(is_blank(#[trigger] y[i])
            && is_blank(y[i + 1])) by {
            assert(y[i] == s[i]);
            assert(y[i + 1] == s[i + 1]);
        }
        lemma_tidied_fixed(y);
        if s.len() >= 2 {
            assert(!(is_blank(s[s.len() - 2]) && is_blank(s[s.len() - 1])));
        }
        assert(backfilled(s[s.len() - 1]) == s[s.len() - 1]);
        assert(y.push(s.last()) =~= s);
    }
}

/// Without a pending task at or after the archive header, relocation
/// changes nothing.
pub proof fn lemma_relocated_fixed(s: Seq<Seq<char>>)
    requires
        forall|i: int| archive_pos(s) <= i < s.len() ==> !is_pending(#[trigger] s[i]),
    ensures
        relocated(s) == s,
{
    lemma_archive_pos_props(s);
    let h = archive_pos(s);
    if h < s.len() {
        let tail = s.skip(h + 1);
        assert forall|j: int| 0 <= j < tail.len() implies !is_pending(#[trigger] tail[j]) by {
            assert(tail[j] == s[h + 1 + j]);
        }
        lemma_select_none(tail, false);
        assert(relocated(s) =~= s);
    }
}

/// Normalizing a normalized document changes nothing, provided the first
/// pass left no two blank lines together (it can, where it lifts a pending
/// task out from between two blank lines of the archive), apart from a final
/// empty line after a blank line that is not empty.
pub proof fn lemma_normalize_idempotent(d: Seq<Seq<char>>, allow_incomplete_in_archive: bool)
    requires
        single_blank_runs(normalized(d, allow_incomplete_in_archive)),
    ensures
        normalized(normalized(d, allow_incomplete_in_archive), allow_incomplete_in_archive)
            == normalized(d, allow_incomplete_in_archive),
{
    let allow = allow_incomplete_in_archive;
    let n = normalized(d, allow);
    lemma_normalized_shape(d, allow);
    assert(with_header(n) == n);
    if !allow {
        lemma_archive_consistency(d);
    }
    let last = n.len() - 1;
    if n.len() >= 2 && is_blank(n[last - 1]) && is_blank(n[last]) {
        let x = n.drop_last();
        assert forall|i: int| 0 <= i < x.len() implies backfilled(#[trigger] x[i]) == x[i] by {
            assert(x[i] == n[i]);
        }
        assert forall|i: int| 0 <= i && i + 1 < x.len() implies !(is_blank(#[trigger] x[i])
            && is_blank(x[i + 1])) by {
            assert(x[i] == n[i]);
            assert(x[i + 1] == n[i + 1]);
        }
        lemma_tidied_fixed(x);
        assert(tidied(n) == tidied(x));
        if !allow {
            lemma_archive_pos_take(n, x.len() as int);
            lemma_archive_pos_props(x);
            assert(x =~= n.take(x.len() as int));
            assert forall|i: int| archive_pos(x) <= i < x.len() implies !is_pending(
                #[trigger] x[i],
            ) by {
                assert(x[i] == n[i]);
            }
            lemma_relocated_fixed(x);
        }
        assert(x.last() == n[last - 1]);
        assert(n[last] =~= Seq::<char>::empty());
        assert(x.push(Seq::empty()) =~= n);
    } else {
        assert forall|i: int| 0 <= i && i + 1 < n.len() implies !(is_blank(#[trigger] n[i])
            && is_blank(n[i + 1])) by {
            if is_blank(n[i]) && is_blank(n[i + 1]) {
                assert(i + 2 == n.len());
            }
        }
        lemma_tidied_fixed(n);
        if !allow {
            lemma_relocated_fixed(n);
        }
    }
}

/// `tidied` leaves no two blank lines together, and its last line is blank
/// exactly when the last input line is.
pub proof fn lemma_tidied_runs(s: Seq<Seq<char>>)
    ensures
        forall|i: int|
            0 <= i && i + 1 < tidied(s).len() ==> !(is_blank(#[trigger] tidied(s)[i]) && is_blank(
                tidied(s)[i + 1],
            )),
        s.len() > 0 ==> tidied(s).len() > 0 && is_blank(tidied(s).last()) == is_blank(s.last()),
    decreases s.len(),
{
    if s.len() > 0 {
        let y = s.drop_last();
        lemma_tidied_runs(y);
        lemma_tidied_lines(s);
        lemma_backfilled(s.last());
        let t = tidied(s);
        let ty = tidied(y);
        if !(s.len() >= 2 && is_blank(s.last()) && is_blank(s[s.len() - 2])) {
            assert forall|i: int| 0 <= i && i + 1 < t.len() implies !(is_blank(#[trigger] t[i])
                && is_blank(t[i + 1])) by {
                if i + 1 < ty.len() {
                    assert(t[i] == ty[i]);
                    assert(t[i + 1] == ty[i + 1]);
                } else {
                    assert(t[i] == ty.last());
                    assert(y.last() == s[s.len() - 2]);
                }
            }
        } else {
            assert(y.last() == s[s.len() - 2]);
        }
    }
}

/// Where pending tasks may stay in the archive, normalizing a normalized
/// document changes nothing, whatever the document.
pub proof fn lemma_normalize_idempotent_when_allowed(d: Seq<Seq<char>>)
    ensures
        normalized(normalized(d, true), true) == normalized(d, true),
{
    let c = tidied(with_header(d));
    let n = normalized(d, true);
    lemma_tidied_runs(with_header(d));
    assert forall|i: int|
        0 <= i && i + 1 < n.len() && is_blank(#[trigger] n[i]) && is_blank(n[i + 1]) implies i
        + 2 == n.len() && n[i + 1].len() == 0 && n[i].len() > 0 by {
        if i + 1 < c.len() {
            assert(n[i] == c[i]);
            assert(n[i + 1] == c[i + 1]);
        } else {
            assert(n[i] == c[i]);
        }
    }
    lemma_normalize_idempotent(d, true);
}

/// How many lines `tidied` drops.
pub open spec fn dropped(s: Seq<Seq<char>>) -> nat
    decreases s.len(),
{
    if s.len() == 0 {
        0
    } else if s.len() >= 2 && is_blank(s.last()) && is_blank(s[s.len() - 2]) {
        dropped(s.drop_last()) + 1
    } else {
        dropped(s.drop_last())
    }
}

pub proof fn lemma_dropped_len(s: Seq<Seq<char>>)
    ensures
        tidied(s).len() + dropped(s) == s.len(),
    decreases s.len(),
{
    if s.len() > 0 {
        lemma_dropped_len(s.drop_last());
    }
}

/// Two blank lines together at `i` and `i + 1` make `tidied` drop a line
/// among the first `i + 2`.
pub proof fn lemma_dropped_pair(s: Seq<Seq<char>>, i: int, k: int)
    requires
        0 <= i,
        i + 2 <= k <= s.len(),
        is_blank(s[i]),
        is_blank(s[i + 1]),
    ensures
        dropped(s.take(k)) >= 1,
    decreases k,
{
    let t = s.take(k);
    assert(t.drop_last() =~= s.take(k - 1));
    if k == i + 2 {
        assert(t.last() == s[i + 1]);
        assert(t[t.len() - 2] == s[i]);
    } else {
        lemma_dropped_pair(s, i, k - 1);
    }
}

/// Where the archive header is not the last line and the last line is no
/// pending task, relocation keeps the last line last.
pub proof fn lemma_relocated_last(s: Seq<Seq<char>>)
    requires
        s.len() > 0,
        !is_pending(s.last()),
        !is_archive_header(s.last()),
    ensures
        relocated(s).len() > 0 && relocated(s).last() == s.last(),
{
    lemma_archive_pos_props(s);
    let h = archive_pos(s);
    if h < s.len() {
        let tail = s.skip(h + 1);
        assert(h < s.len() - 1);
        assert(tail.last() == s.last());
        let q = select(tail, false, false);
        assert(q == select(tail.drop_last(), false, false).push(tail.last()));
        assert(relocated(s).last() == q.last());
    }
}

/// The shape of a normalized document: its lines are backfilled already
/// and its last line is empty.
pub proof fn lemma_normalized_shape(d: Seq<Seq<char>>, allow_incomplete_in_archive: bool)
    ensures
        ({
            let n = normalized(d, allow_incomplete_in_archive);
            &&& n.len() > 0
            &&& n[0] == task_list_header()
            &&& n.last().len() == 0
            &&& forall|j: int| 0 <= j < n.len() ==> backfilled(#[trigger] n[j]) == n[j]
        }),
{
    let allow = allow_incomplete_in_archive;
    let w = with_header(d);
    let c = tidied(w);
    let m = if allow {
        c
    } else {
        relocated(c)
    };
    let n = normalized(d, allow);
    lemma_tidied_lines(w);
    lemma_relocated_lines(c);
    assert(w[0] == task_list_header());
    lemma_backfilled(w[0]);
    assert(task_list_header()[3] != archive_header()[3]);
    assert(m[0] == task_list_header());
    assert(n[0] == m[0]);
    assert forall|j: int| 0 <= j < n.len() implies backfilled(#[trigger] n[j]) == n[j] by {
        if j < m.len() {
            assert(n[j] == m[j]);
            let k = if allow {
                j
            } else {
                choose|k: int| 0 <= k < c.len() && m[j] == c[k]
            };
            let x = choose|x: int| 0 <= x < w.len() && c[k] == backfilled(w[x]);
            lemma_backfilled(w[x]);
        } else {
            lemma_kinds(n[j]);
        }
    }
}

/// With exactly one line dropped, where the two blank lines together are
/// not a final empty line after a blank line that is not empty, the last
/// line that `tidied` leaves is empty.
pub proof fn lemma_one_drop_ends_empty(n: Seq<Seq<char>>, i: int)
    requires
        n.len() > 0,
        n.last().len() == 0,
        forall|j: int| 0 <= j < n.len() ==> backfilled(#[trigger] n[j]) == n[j],
        0 <= i && i + 1 < n.len(),
        is_blank(n[i]),
        is_blank(n[i + 1]),
        !(i + 2 == n.len() && n[i + 1].len() == 0 && n[i].len() > 0),
        dropped(n) == 1,
    ensures
        tidied(n).len() > 0 && tidied(n).last().len() == 0,
{
    let y = n.drop_last();
    let t = tidied(n);
    lemma_tidied_lines(y);
    if is_blank(n.last()) && is_blank(n[n.len() - 2]) {
        assert(dropped(y) == 0);
        if i + 2 < n.len() {
            lemma_dropped_pair(y, i, y.len() as int);
            assert(y.take(y.len() as int) =~= y);
        }
        assert(n[i].len() == 0);
        if y.len() >= 2 && is_blank(y.last()) && is_blank(y[y.len() - 2]) {
            lemma_dropped_pair(y, y.len() - 2, y.len() as int);
            assert(y.take(y.len() as int) =~= y);
        }
        assert(y.last() == n[i]);
        assert(t.last() == backfilled(y.last()));
    } else {
        assert(t.last() == backfilled(n.last()));
        assert(backfilled(n[n.len() - 1]) == n[n.len() - 1]);
    }
}

/// Normalizing changes a normalized document whenever the first pass left
/// two blank lines together (other than a final empty line after a blank
/// line that is not empty): the precondition of the idempotence law excludes
/// exactly the documents on which it fails.
pub proof fn lemma_normalize_not_idempotent(d: Seq<Seq<char>>, allow_incomplete_in_archive: bool)
    requires
        !single_blank_runs(normalized(d, allow_incomplete_in_archive)),
    ensures
        normalized(normalized(d, allow_incomplete_in_archive), allow_incomplete_in_archive)
            != normalized(d, allow_incomplete_in_archive),
{
    let allow = allow_incomplete_in_archive;
    let n = normalized(d, allow);
    let i = choose|i: int|
        0 <= i && i + 1 < n.len() && is_blank(#[trigger] n[i]) && is_blank(n[i + 1]) && !(i + 2
            == n.len() && n[i + 1].len() == 0 && n[i].len() > 0);
    lemma_normalized_shape(d, allow);
    let t = tidied(n);
    lemma_dropped_len(n);
    lemma_dropped_pair(n, i, n.len() as int);
    assert(n.take(n.len() as int) =~= n);
    lemma_relocated_lines(t);
    assert(with_header(n) == n);
    let m2 = if allow {
        t
    } else {
        relocated(t)
    };
    assert(normalized(n, allow) == with_trailing(m2));
    assert(m2.len() == t.len());
    if dropped(n) == 1 {
        lemma_one_drop_ends_empty(n, i);
        lemma_kinds(t.last());
        assert(archive_header().len() == 8);
        if !allow {
            lemma_relocated_last(t);
        }
        assert(m2.last().len() == 0);
        assert(with_trailing(m2) == m2);
    }
    assert(normalized(n, allow).len() < n.len());
}

/// Adds the lines of `src[from..]` that are (with `keep`) or are not
/// (without) checklist lines in the given state.
fn copy_selected(out: &mut Vec<String>, src: &Vec<String>, from: usize, done: bool, keep: bool)
    requires
        from <= src.len(),
    ensures
        lines_of(final(out)@) == lines_of(old(out)@) + select(
            lines_of(src@).skip(from as int),
            done,
            keep,
        ),
{
    let ghost start = lines_of(out@);
    let ghost d = lines_of(src@);
    let mut i: usize = from;
    while i < src.len()
        invariant
            d == lines_of(src@),
            from <= i <= src.len(),
            lines_of(out@) == start + select(d.subrange(from as int, i as int), done, keep),
        decreases src.len() - i,
    {
        let ghost part = d.subrange(from as int, i + 1);
        assert(part.drop_last() =~= d.subrange(from as int, i as int));
        assert(part.last() == src@[i as int]@);
        let k = classify(src[i].as_str());
        let hit = if done {
            k == LineKind::Done
        } else {
            k == LineKind::Pending
        };
        if hit == keep {
            push_line(out, src[i].clone());
            assert(lines_of(out@) =~= start + select(part, done, keep));
        }
        i = i + 1;
    }
    assert(d.subrange(from as int, src.len() as int) =~= d.skip(from as int));
}

fn add_header(lines: &Vec<String>) -> (r: Vec<String>)
    ensures
        lines_of(r@) == with_header(lines_of(lines@)),
{
    let ghost d = lines_of(lines@);
    let mut out: Vec<String> = Vec::new();
    let header = task_list_header_line();
    if lines.len() == 0 || lines[0] != header {
        push_line(&mut out, header);
        push_line(&mut out, String::new());
    }
    copy_lines(&mut out, lines, 0, lines.len());
    proof {
        assert(d.subrange(0, d.len() as int) =~= d);
        assert(lines_of(out@) =~= with_header(d));
    }
    out
}

fn tidy(lines: &Vec<String>) -> (r: Vec<String>)
    ensures
        lines_of(r@) == tidied(lines_of(lines@)),
{
    let ghost d = lines_of(lines@);
    let mut out: Vec<String> = Vec::new();
    let mut prev_blank = false;
    let mut i: usize = 0;
    while i < lines.len()
        invariant
            d == lines_of(lines@),
            0 <= i <= lines.len(),
            lines_of(out@) == tidied(d.take(i as int)),
            prev_blank == (i > 0 && is_blank(d[i - 1])),
        decreases lines.len() - i,
    {
        let ghost part = d.take(i + 1);
        assert(part.drop_last() =~= d.take(i as int));
        assert(part.last() == d[i as int]);
        assert(i > 0 ==> part[part.len() - 2] == d[i - 1]);
        let b = blank(lines[i].as_str());
        if !(b && prev_blank) {
            push_line(&mut out, backfill_line(&lines[i]));
        }
        prev_blank = b;
        i = i + 1;
    }
    assert(d.take(d.len() as int) =~= d);
    out
}

fn relocate(lines: &Vec<String>) -> (r: Vec<String>)
    ensures
        lines_of(r@) == relocated(lines_of(lines@)),
{
    let ghost d = lines_of(lines@);
    let h = find_archive(lines);
    let mut out: Vec<String> = Vec::new();
    if h == lines.len() {
        copy_lines(&mut out, lines, 0, lines.len());
        assert(lines_of(out@) =~= d);
        return out;
    }
    copy_lines(&mut out, lines, 0, h);
    copy_selected(&mut out, lines, h + 1, false, true);
    push_line(&mut out, lines[h].clone());
    copy_selected(&mut out, lines, h + 1, false, false);
    assert(lines_of(out@) =~= relocated(d));
    out
}

fn add_trailing(out: &mut Vec<String>)
    ensures
        lines_of(final(out)@) == with_trailing(lines_of(old(out)@)),
{
    let n = out.len();
    if n > 0 && !out[n - 1].as_str().is_empty() {
        push_line(out, String::new());
    }
}

/// Whether two documents hold the same lines.
pub fn same_lines(a: &Vec<String>, b: &Vec<String>) -> (r: bool)
    ensures
        r == (lines_of(a@) == lines_of(b@)),
{
    if a.len() != b.len() {
        assert(lines_of(a@).len() != lines_of(b@).len());
        return false;
    }
    let mut i: usize = 0;
    while i < a.len()
        invariant
            a.len() == b.len(),
            0 <= i <= a.len(),
            forall|j: int| 0 <= j < i ==> #[trigger] lines_of(a@)[j] == lines_of(b@)[j],
        decreases a.len() - i,
    {
        if a[i] != b[i] {
            assert(lines_of(a@)[i as int] != lines_of(b@)[i as int]);
            return false;
        }
        i = i + 1;
    }
    assert(lines_of(a@) =~= lines_of(b@));
    true
}

/// Brings a document to its canonical form; the flag tells whether that
/// changed it.
pub fn normalize(lines: &Vec<String>, allow_incomplete_in_archive: bool) -> (r: (
    Vec<String>,
    bool,
))
    ensures
        lines_of(r.0@) == normalized(lines_of(lines@), allow_incomplete_in_archive),
        r.1 == (normalized(lines_of(lines@), allow_incomplete_in_archive) != lines_of(lines@)),
{
    let headed = add_header(lines);
    let tidy_lines = tidy(&headed);
    let mut out = if allow_incomplete_in_archive {
        tidy_lines
    } else {
        relocate(&tidy_lines)
    };
    add_trailing(&mut out);
    let changed = !same_lines(&out, lines);
    (out, changed)
}

} // verus!
