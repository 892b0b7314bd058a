//! The document as a sequence of lines, and the facts about it that the
//! operations share: counts of tasks and the place of the archive header.

use crate::line::{classify, is_archive_header, is_done, is_pending, LineKind};
use vstd::prelude::*;

verus! {

/// The lines of a document, as texts.
pub open spec fn lines_of(v: Seq<String>) -> Seq<Seq<char>> {
    v.map_values(|s: String| s@)
}

/// A checklist line in the given state: done, or else pending.
pub open spec fn in_state(l: Seq<char>, done: bool) -> bool {
    if done {
        is_done(l)
    } else {
        is_pending(l)
    }
}

/// How many lines of `d` are checklist lines in the given state.
pub open spec fn count_state(d: Seq<Seq<char>>, done: bool) -> nat
    decreases d.len(),
{
    if d.len() == 0 {
        0
    } else {
        count_state(d.drop_last(), done) + if in_state(d.last(), done) {
            1nat
        } else {
            0nat
        }
    }
}

pub open spec fn count_pending(d: Seq<Seq<char>>) -> nat {
    count_state(d, false)
}

pub open spec fn count_done(d: Seq<Seq<char>>) -> nat {
    count_state(d, true)
}

/// All checklist lines, pending, done and archived.
pub open spec fn count_tasks(d: Seq<Seq<char>>) -> nat {
    count_pending(d) + count_done(d)
}

/// The lines of `s`, in order, that are checklist lines in the given state
/// (with `keep`) or that are not (without).
pub open spec fn select(s: Seq<Seq<char>>, done: bool, keep: bool) -> Seq<Seq<char>>
    decreases s.len(),
{
    if s.len() == 0 {
        s
    } else if in_state(s.last(), done) == keep {
        select(s.drop_last(), done, keep).push(s.last())
    } else {
        select(s.drop_last(), done, keep)
    }
}

/// Each line that `select` keeps is in the state asked for and comes from `x`.
pub proof fn lemma_select_lines(x: Seq<Seq<char>>, done: bool, keep: bool)
    ensures
        select(x, done, keep).len() <= x.len(),
        forall|i: int|
            0 <= i < select(x, done, keep).len() ==> in_state(
                #[trigger] select(x, done, keep)[i],
                done,
            ) == keep,
        forall|i: int|
            0 <= i < select(x, done, keep).len() ==> exists|j: int|
                0 <= j < x.len() && #[trigger] select(x, done, keep)[i] == x[j],
    decreases x.len(),
{
    if x.len() > 0 {
        let y = x.drop_last();
        lemma_select_lines(y, done, keep);
        assert forall|i: int| 0 <= i < select(x, done, keep).len() implies exists|j: int|
            0 <= j < x.len() && #[trigger] select(x, done, keep)[i] == x[j] by {
            if i < select(y, done, keep).len() {
                let j = choose|j: int| 0 <= j < y.len() && select(y, done, keep)[i] == y[j];
                assert(x[j] == y[j]);
            } else {
                assert(select(x, done, keep)[i] == x[x.len() - 1]);
            }
        }
    }
}

/// Each line of `x` in the state asked for is kept by `select`.
pub proof fn lemma_select_keeps(x: Seq<Seq<char>>, done: bool, keep: bool)
    ensures
        forall|j: int|
            0 <= j < x.len() && in_state(x[j], done) == keep ==> select(x, done, keep).contains(
                #[trigger] x[j],
            ),
    decreases x.len(),
{
    if x.len() > 0 {
        let y = x.drop_last();
        lemma_select_keeps(y, done, keep);
        assert forall|j: int|
            0 <= j < x.len() && in_state(x[j], done) == keep implies select(
                x,
                done,
                keep,
            ).contains(#[trigger] x[j]) by {
            if j < y.len() {
                assert(x[j] == y[j]);
                let k = choose|k: int|
                    0 <= k < select(y, done, keep).len() && select(y, done, keep)[k] == y[j];
                if in_state(x.last(), done) == keep {
                    assert(select(x, done, keep)[k] == y[j]);
                }
            } else {
                assert(x[j] == x.last());
                assert(select(x, done, keep)[select(x, done, keep).len() - 1] == x[j]);
            }
        }
    }
}

/// The lines that `select` keeps and those it leaves out make up `x`.
pub proof fn lemma_select_partition_len(x: Seq<Seq<char>>, done: bool)
    ensures
        select(x, done, true).len() + select(x, done, false).len() == x.len(),
    decreases x.len(),
{
    if x.len() > 0 {
        lemma_select_partition_len(x.drop_last(), done);
    }
}

/// Where no line of `x` is in the state, `select` keeps all of them or none.
pub proof fn lemma_select_none(x: Seq<Seq<char>>, done: bool)
    requires
        forall|j: int| 0 <= j < x.len() ==> !in_state(#[trigger] x[j], done),
    ensures
        select(x, done, true).len() == 0,
        select(x, done, false) == x,
    decreases x.len(),
{
    if x.len() > 0 {
        let y = x.drop_last();
        assert forall|j: int| 0 <= j < y.len() implies !in_state(#[trigger] y[j], done) by {
            assert(y[j] == x[j]);
        }
        lemma_select_none(y, done);
        assert(x.last() == x[x.len() - 1]);
        assert(y.push(x.last()) =~= x);
    }
}

pub proof fn lemma_count_concat(a: Seq<Seq<char>>, b: Seq<Seq<char>>, done: bool)
    ensures
        count_state(a + b, done) == count_state(a, done) + count_state(b, done),
    decreases b.len(),
{
    if b.len() == 0 {
        assert(a + b =~= a);
    } else {
        lemma_count_concat(a, b.drop_last(), done);
        assert((a + b).drop_last() =~= a + b.drop_last());
    }
}

pub proof fn lemma_count_one(x: Seq<char>, done: bool)
    ensures
        count_state(seq![x], done) == if in_state(x, done) {
            1nat
        } else {
            0nat
        },
{
    assert(seq![x].drop_last() =~= Seq::<Seq<char>>::empty());
    assert(count_state(Seq::<Seq<char>>::empty(), done) == 0);
    assert(seq![x].last() == x);
}

/// Splitting `d` around its line `k`.
pub proof fn lemma_count_around(d: Seq<Seq<char>>, k: int, done: bool)
    requires
        0 <= k < d.len(),
    ensures
        count_state(d, done) == count_state(d.take(k), done) + count_state(seq![d[k]], done)
            + count_state(d.skip(k + 1), done),
{
    assert(d =~= d.take(k) + seq![d[k]] + d.skip(k + 1));
    lemma_count_concat(d.take(k) + seq![d[k]], d.skip(k + 1), done);
    lemma_count_concat(d.take(k), seq![d[k]], done);
}

/// Whatever state `select` sorts by, its two parts hold all the lines of `x`
/// in any state.
pub proof fn lemma_select_count(x: Seq<Seq<char>>, by: bool, done: bool)
    ensures
        count_state(select(x, by, true), done) + count_state(select(x, by, false), done)
            == count_state(x, done),
    decreases x.len(),
{
    if x.len() > 0 {
        let y = x.drop_last();
        lemma_select_count(y, by, done);
        let a = select(y, by, true);
        let b = select(y, by, false);
        assert(a.push(x.last()).drop_last() =~= a);
        assert(b.push(x.last()).drop_last() =~= b);
    }
}

/// `d[k]` is the `n`-th line in the given state, counting from 1 in document order.
pub open spec fn is_nth(d: Seq<Seq<char>>, k: int, n: int, done: bool) -> bool {
    0 <= k < d.len() && in_state(d[k], done) && count_state(d.take(k), done) + 1 == n
}

/// The index of the `n`-th line in the given state.
pub open spec fn nth_index(d: Seq<Seq<char>>, n: int, done: bool) -> int {
    choose|k: int| is_nth(d, k, n, done)
}

/// The index of the first archive header, or the length when there is none.
pub open spec fn archive_pos(d: Seq<Seq<char>>) -> int
    decreases d.len(),
{
    if d.len() == 0 {
        0
    } else if archive_pos(d.drop_last()) < d.len() - 1 {
        archive_pos(d.drop_last())
    } else if is_archive_header(d.last()) {
        d.len() - 1
    } else {
        d.len() as int
    }
}

pub open spec fn has_archive(d: Seq<Seq<char>>) -> bool {
    archive_pos(d) < d.len()
}

pub proof fn lemma_archive_pos_props(d: Seq<Seq<char>>)
    ensures
        0 <= archive_pos(d) <= d.len(),
        forall|j: int| 0 <= j < archive_pos(d) ==> !is_archive_header(#[trigger] d[j]),
        archive_pos(d) < d.len() ==> is_archive_header(d[archive_pos(d)]),
    decreases d.len(),
{
    if d.len() > 0 {
        lemma_archive_pos_props(d.drop_last());
        assert forall|j: int| 0 <= j < archive_pos(d) implies
            !is_archive_header(#[trigger] d[j]) by {
            if j < d.len() - 1 {
                assert(d[j] == d.drop_last()[j]);
            }
        }
    }
}

/// The first archive header stands at `i`, or there is none and `i` is the length.
pub proof fn lemma_archive_pos_at(d: Seq<Seq<char>>, i: int)
    requires
        0 <= i <= d.len(),
        forall|j: int| 0 <= j < i ==> !is_archive_header(#[trigger] d[j]),
        i == d.len() || is_archive_header(d[i]),
    ensures
        archive_pos(d) == i,
{
    lemma_archive_pos_props(d);
    if archive_pos(d) < i {
        assert(is_archive_header(d[archive_pos(d)]));
    } else if archive_pos(d) > i {
        assert(!is_archive_header(d[i]));
    }
}

/// The first archive header of a prefix is that of the whole, when it falls
/// inside the prefix.
pub proof fn lemma_archive_pos_take(d: Seq<Seq<char>>, k: int)
    requires
        0 <= k <= d.len(),
    ensures
        archive_pos(d.take(k)) == if archive_pos(d) < k {
            archive_pos(d)
        } else {
            k
        },
{
    lemma_archive_pos_props(d);
    let t = d.take(k);
    let p = if archive_pos(d) < k {
        archive_pos(d)
    } else {
        k
    };
    assert forall|j: int| 0 <= j < p implies !is_archive_header(#[trigger] t[j]) by {
        assert(t[j] == d[j]);
    }
    if p < k {
        assert(t[p] == d[p]);
    }
    lemma_archive_pos_at(t, p);
}

pub proof fn lemma_count_step(d: Seq<Seq<char>>, k: int, done: bool)
    requires
        0 <= k < d.len(),
    ensures
        count_state(d.take(k + 1), done) == count_state(d.take(k), done) + if in_state(
            d[k],
            done,
        ) {
            1nat
        } else {
            0nat
        },
{
    assert(d.take(k + 1).drop_last() =~= d.take(k));
}

pub proof fn lemma_count_full(d: Seq<Seq<char>>, done: bool)
    ensures
        count_state(d.take(d.len() as int), done) == count_state(d, done),
{
    assert(d.take(d.len() as int) =~= d);
}

pub proof fn lemma_count_monotone(d: Seq<Seq<char>>, i: int, j: int, done: bool)
    requires
        0 <= i <= j <= d.len(),
    ensures
        count_state(d.take(i), done) <= count_state(d.take(j), done),
    decreases j - i,
{
    if i < j {
        lemma_count_monotone(d, i, j - 1, done);
        lemma_count_step(d, j - 1, done);
    }
}

/// At most one line is the `n`-th in a given state.
pub proof fn lemma_nth_unique(d: Seq<Seq<char>>, k1: int, k2: int, n: int, done: bool)
    requires
        is_nth(d, k1, n, done),
        is_nth(d, k2, n, done),
    ensures
        k1 == k2,
{
    if k1 < k2 {
        lemma_count_step(d, k1, done);
        lemma_count_monotone(d, k1 + 1, k2, done);
    } else if k2 < k1 {
        lemma_count_step(d, k2, done);
        lemma_count_monotone(d, k2 + 1, k1, done);
    }
}

pub proof fn lemma_nth_index(d: Seq<Seq<char>>, k: int, n: int, done: bool)
    requires
        is_nth(d, k, n, done),
    ensures
        nth_index(d, n, done) == k,
{
    let c = nth_index(d, n, done);
    assert(is_nth(d, c, n, done));
    lemma_nth_unique(d, c, k, n, done);
}

/// For `1 <= n <= count` the `n`-th line in the state exists.
pub proof fn lemma_nth_exists(d: Seq<Seq<char>>, n: int, done: bool)
    requires
        1 <= n <= count_state(d, done),
    ensures
        is_nth(d, nth_index(d, n, done), n, done),
    decreases d.len(),
{
    let y = d.drop_last();
    if n <= count_state(y, done) {
        lemma_nth_exists(y, n, done);
        let k = nth_index(y, n, done);
        assert(d.take(k) =~= y.take(k));
        assert(is_nth(d, k, n, done));
    } else {
        let k = d.len() - 1;
        assert(d.take(k) =~= y);
        assert(is_nth(d, k, n, done));
    }
}

/// The `n`-th line in a state exists only for `1 <= n <= count`.
pub proof fn lemma_nth_in_range(d: Seq<Seq<char>>, k: int, n: int, done: bool)
    requires
        is_nth(d, k, n, done),
    ensures
        1 <= n <= count_state(d, done),
{
    lemma_count_step(d, k, done);
    lemma_count_monotone(d, k + 1, d.len() as int, done);
    lemma_count_full(d, done);
}

/// Adds one line at the end.
pub fn push_line(out: &mut Vec<String>, s: String)
    ensures
        lines_of(final(out)@) == lines_of(old(out)@).push(s@),
{
    out.push(s);
    proof {
        assert(lines_of(final(out)@) =~= lines_of(old(out)@).push(s@));
    }
}

/// Adds copies of `src[from..to]` at the end.
pub fn copy_lines(out: &mut Vec<String>, src: &Vec<String>, from: usize, to: usize)
    requires
        from <= to <= src.len(),
    ensures
        lines_of(final(out)@) == lines_of(old(out)@) + lines_of(src@).subrange(
            from as int,
            to as int,
        ),
{
    let ghost start = lines_of(out@);
    let mut i: usize = from;
    while i < to
        invariant
            from <= i <= to <= src.len(),
            lines_of(out@) == start + lines_of(src@).subrange(from as int, i as int),
        decreases to - i,
    {
        push_line(out, src[i].clone());
        proof {
            assert(lines_of(src@).subrange(from as int, i + 1) =~= lines_of(src@).subrange(
                from as int,
                i as int,
            ).push(src@[i as int]@));
            assert(start + lines_of(src@).subrange(from as int, i + 1) =~= (start + lines_of(
                src@,
            ).subrange(from as int, i as int)).push(src@[i as int]@));
        }
        i = i + 1;
    }
}

/// Looks for the `n`-th line in the given state: its index if there is one.
pub fn find_nth(lines: &Vec<String>, n: usize, done: bool) -> (r: Option<usize>)
    ensures
        match r {
            Some(k) => k < lines.len() && is_nth(lines_of(lines@), k as int, n as int, done),
            None => !(1 <= n <= count_state(lines_of(lines@), done)),
        },
{
    let ghost d = lines_of(lines@);
    if n == 0 {
        return None;
    }
    let mut seen: usize = 0;
    let mut i: usize = 0;
    while i < lines.len()
        invariant
            d == lines_of(lines@),
            0 <= i <= lines.len(),
            seen == count_state(d.take(i as int), done),
            seen < n,
        decreases lines.len() - i,
    {
        proof {
            lemma_count_step(d, i as int, done);
        }
        let k = classify(lines[i].as_str());
        let hit = if done {
            k == LineKind::Done
        } else {
            k == LineKind::Pending
        };
        if hit {
            seen = seen + 1;
            if seen == n {
                return Some(i);
            }
        }
        i = i + 1;
    }
    proof {
        lemma_count_full(d, done);
    }
    None
}

/// The index of the first archive header, or the length when there is none.
pub fn find_archive(lines: &Vec<String>) -> (r: usize)
    ensures
        r == archive_pos(lines_of(lines@)),
{
    let ghost d = lines_of(lines@);
    let mut i: usize = 0;
    while i < lines.len()
        invariant
            d == lines_of(lines@),
            0 <= i <= lines.len(),
            forall|j: int| 0 <= j < i ==> !is_archive_header(#[trigger] d[j]),
        decreases lines.len() - i,
    {
        if classify(lines[i].as_str()) == LineKind::ArchiveHeader {
            proof {
                lemma_archive_pos_at(d, i as int);
            }
            return i;
        }
        i = i + 1;
    }
    proof {
        lemma_archive_pos_at(d, i as int);
    }
    i
}

/// The text of a document: its lines joined by newlines.
pub open spec fn text_of(d: Seq<Seq<char>>) -> Seq<char>
    decreases d.len(),
{
    if d.len() == 0 {
        Seq::empty()
    } else if d.len() == 1 {
        d[0]
    } else {
        text_of(d.drop_last()) + seq!['\n'] + d.last()
    }
}

/// The text to store for a document.
pub fn document_text(lines: &Vec<String>) -> (r: String)
    ensures
        r@ == text_of(lines_of(lines@)),
{
    let ghost d = lines_of(lines@);
    let mut out = String::new();
    let mut i: usize = 0;
    while i < lines.len()
        invariant
            d == lines_of(lines@),
            0 <= i <= lines.len(),
            out@ == text_of(d.take(i as int)),
        decreases lines.len() - i,
    {
        assert(d.take(i + 1).drop_last() =~= d.take(i as int));
        assert(d.take(i + 1).last() == lines@[i as int]@);
        let ghost prev = out@;
        if i > 0 {
            let nl = "\n";
            proof {
                reveal_strlit("\n");
            }
            assert(nl@ =~= seq!['\n']);
            out.append(nl);
            assert(out@ =~= prev + seq!['\n']);
            out.append(lines[i].as_str());
            assert(out@ =~= prev + seq!['\n'] + lines@[i as int]@);
        } else {
            out.append(lines[i].as_str());
            assert(out@ =~= d.take(1)[0]);
        }
        i = i + 1;
    }
    assert(d.take(d.len() as int) =~= d);
    out
}

} // verus!
