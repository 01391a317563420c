//! What the words of a dumper come to: its lines, the report among them, and how long it may take.

use crate::stamp;
use crate::text;
use crate::unpack::flow;
use vstd::prelude::*;

verus! {

/// The time that is allowed is what the setting says in seconds, where that is a number that is not zero
/// and not too large, and ten minutes otherwise; it is never nothing.
pub proof fn settings_are_seconds(setting: Option<Seq<char>>, n: nat)
    ensures
        flow::allowed_secs(setting) >= 1,
        setting is None ==> flow::allowed_secs(setting) == 600,
        setting == Some(text::dec(n)) && 0 < n <= u64::MAX ==> flow::allowed_secs(setting) == n,
        setting == Some(text::dec(n)) && (n == 0 || n > u64::MAX) ==> flow::allowed_secs(setting) == 600,
{
    text::dec_reads_back(n);
    let s = text::dec(n);
    assert('0' <= s[0] <= '9');
    assert(text::unsigned(s) == s);
}

/// `s` is `t` without the white space around it.
pub open spec fn bare(t: Seq<char>, s: Seq<char>) -> bool {
    exists|i: int, j: int|
        0 <= i <= j <= t.len() && s == #[trigger] t.subrange(i, j) && (forall|k: int|
            0 <= k < i ==> text::is_white(#[trigger] t[k])) && (forall|k: int|
            j <= k < t.len() ==> text::is_white(#[trigger] t[k])) && (i < j ==> !text::is_white(t[i])
            && !text::is_white(t[j - 1]))
}

proof fn front_is_white(t: Seq<char>) -> (i: int)
    ensures
        0 <= i <= t.len(),
        text::unindented(t) == t.skip(i),
        forall|k: int| 0 <= k < i ==> text::is_white(#[trigger] t[k]),
        i < t.len() ==> !text::is_white(t[i]),
    decreases t.len(),
{
    if t.len() > 0 && text::is_white(t[0]) {
        let j = front_is_white(t.skip(1));
        assert(t.skip(1).skip(j) =~= t.skip(j + 1));
        assert forall|k: int| 0 <= k < j + 1 implies text::is_white(#[trigger] t[k]) by {
            if k > 0 {
                assert(t.skip(1)[k - 1] == t[k]);
            }
        }
        if j < t.skip(1).len() {
            assert(t.skip(1)[j] == t[j + 1]);
        }
        j + 1
    } else {
        assert(t.skip(0) =~= t);
        0
    }
}

proof fn back_is_white(t: Seq<char>) -> (j: int)
    ensures
        0 <= j <= t.len(),
        flow::untailed(t) == t.take(j),
        forall|k: int| j <= k < t.len() ==> text::is_white(#[trigger] t[k]),
        j > 0 ==> !text::is_white(t[j - 1]),
    decreases t.len(),
{
    if t.len() > 0 && text::is_white(t.last()) {
        let d = t.drop_last();
        let j = back_is_white(d);
        assert(d.take(j) =~= t.take(j));
        assert forall|k: int| j <= k < t.len() implies text::is_white(#[trigger] t[k]) by {
            if k < d.len() {
                assert(d[k] == t[k]);
            }
        }
        if j > 0 {
            assert(d[j - 1] == t[j - 1]);
        }
        j
    } else {
        assert(t.take(t.len() as int) =~= t);
        t.len() as int
    }
}

/// Trimming takes away the white space around a text, all of it and nothing else.
pub proof fn trimming_takes_the_white_space(t: Seq<char>)
    ensures
        bare(t, flow::trimmed(t)),
{
    let i = front_is_white(t);
    let u = t.skip(i);
    let j = back_is_white(u);
    assert(u.take(j) =~= t.subrange(i, i + j));
    assert forall|k: int| i + j <= k < t.len() implies text::is_white(#[trigger] t[k]) by {
        assert(u[k - i] == t[k]);
    }
    if j > 0 {
        assert(u[j - 1] == t[i + j - 1]);
        assert(u[0] == t[i]);
    }
    assert(flow::trimmed(t) == t.subrange(i, i + j));
}

proof fn line_stays(t: Seq<char>, line: Seq<char>)
    requires
        t.len() > 0,
        t.last() == '\n',
    ensures
        stamp::line_len(t + line) == stamp::line_len(t),
        stamp::line_len(t) < t.len(),
    decreases t.len(),
{
    let s = t + line;
    assert(s[0] == t[0]);
    if t[0] != '\n' {
        let u = t.skip(1);
        assert(u.len() > 0);
        assert(u.last() == t.last());
        line_stays(u, line);
        assert(s.skip(1) =~= u + line);
    }
}

proof fn lines_join(t: Seq<char>, line: Seq<char>)
    requires
        t.len() == 0 || t.last() == '\n',
    ensures
        flow::lines_of(t + line) == flow::lines_of(t) + flow::lines_of(line),
    decreases t.len(),
{
    let s = t + line;
    if t.len() == 0 {
        assert(s =~= line);
        assert(flow::lines_of(t) =~= Seq::<Seq<char>>::empty());
        assert(flow::lines_of(t) + flow::lines_of(line) =~= flow::lines_of(line));
    } else {
        line_stays(t, line);
        stamp::line_fits(t);
        let n = stamp::line_len(t);
        let u = t.skip(n + 1);
        if u.len() > 0 {
            assert(u.last() == t.last());
        }
        lines_join(u, line);
        assert(s.skip(n + 1) =~= u + line);
        assert(s.take(n) =~= t.take(n));
        if n > 0 {
            assert(s[n - 1] == t[n - 1]);
            assert(s.take(n - 1) =~= t.take(n - 1));
        }
        assert(flow::front_line(s) == flow::front_line(t));
        let first = seq![flow::front_line(t)];
        assert(first + (flow::lines_of(u) + flow::lines_of(line)) =~= (first + flow::lines_of(u))
            + flow::lines_of(line));
    }
}

/// Output that ends a line and one more line read as the lines of both.
pub proof fn output_reads_line_by_line(t: Seq<char>, line: Seq<char>)
    requires
        t.len() == 0 || t.last() == '\n',
        line.len() > 0,
        stamp::single(line),
    ensures
        flow::lines_of(t + line) == flow::lines_of(t).push(line),
{
    lines_join(t, line);
    stamp::line_ends(line, Seq::empty());
    assert(line.take(line.len() as int) =~= line);
    assert(flow::lines_of(line) =~= seq![line]);
    assert(flow::lines_of(t) + seq![line] =~= flow::lines_of(t).push(line));
}

/// The report in the output is its last line that opens an object, whatever stands before it and whatever
/// other lines follow it.
pub proof fn last_object_is_the_report(t: Seq<char>, line: Seq<char>)
    requires
        t.len() == 0 || t.last() == '\n',
        line.len() > 0,
        stamp::single(line),
    ensures
        flow::is_object(line) ==> flow::report_in(t + line) == Some(line),
        !flow::is_object(line) ==> flow::report_in(t + line) == flow::report_in(t),
{
    output_reads_line_by_line(t, line);
    let a = flow::lines_of(t);
    let b = flow::lines_of(t + line);
    let n = a.len() as int;
    assert(b[n] == line);
    shorter_is_same(a, b, n);
}

proof fn shorter_is_same(a: Seq<Seq<char>>, b: Seq<Seq<char>>, n: int)
    requires
        0 <= n <= a.len(),
        n <= b.len(),
        forall|k: int| 0 <= k < n ==> a[k] == b[k],
    ensures
        flow::last_object(a, n) == flow::last_object(b, n),
    decreases n,
{
    if n > 0 {
        shorter_is_same(a, b, n - 1);
    }
}

}
