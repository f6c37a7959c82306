//! Properties of the rewrite, proved over the step and run specifications.
use vstd::prelude::*;
use crate::hex::{hex_of, is_hex_digit, lemma_decode_encode};
use crate::line::{line_argument, next_space, trimmed_len, NEWLINE, SPACE};
use crate::rewrite::{
    is_event_tag, line_number, numbered_line, FilterError, Rewriter, TAG_ALLOC, TAG_DEFINE,
    TAG_FREE, TAG_TIME,
};
use crate::run::{rewrite, run_from};

verus! {

/// Every event line that is written carries the rebased index
/// `i - correction - 1`, which is at most one above the largest index written
/// before it; the largest written index then becomes the maximum of the two
/// and never decreases.
pub proof fn lemma_no_gap(s: Rewriter, line: Seq<u8>)
    requires
        s.step(line) is Ok,
        line.len() > 0,
        is_event_tag(line[0]),
        s.step(line)->Ok_0.1.len() > 0,
    ensures
        !s.skipping,
        line_number(line) is Some,
        line_number(line)->0 > s.correction,
        ({
            let n = line_number(line)->0 - s.correction - 1;
            let (next, written) = s.step(line)->Ok_0;
            &&& written == numbered_line(line[0], n as nat)
            &&& n <= s.largest_written + 1
            &&& next.largest_written == if n > s.largest_written { n } else { s.largest_written as int }
        }),
{
}

/// The largest written index never decreases.
pub proof fn lemma_largest_written_monotonic(s: Rewriter, line: Seq<u8>)
    requires
        s.step(line) is Ok,
    ensures
        s.step(line)->Ok_0.0.largest_written >= s.largest_written,
{
}

/// How the rewriter's counters stand after a trace whose largest referenced
/// allocation index is `m` (`-1` before any event): while discarding the
/// offset is that index; once emitting, the largest written index is the
/// number of allocations kept past the offset, less one.
pub open spec fn counters_match(s: Rewriter, m: int) -> bool {
    &&& m >= -1
    &&& s.skipping ==> s.correction == (if m > 0 { m } else { 0 }) && s.largest_written == 0
    &&& !s.skipping && m <= s.correction ==> s.largest_written == 0
    &&& !s.skipping && m > s.correction ==> s.largest_written == m - s.correction - 1
}

/// Before any line, the counters match a trace with no event.
pub proof fn lemma_counters_match_initial(skip_timestamp: u64, preserve_time: bool)
    ensures
        counters_match(Rewriter::initial(skip_timestamp, preserve_time), -1),
{
}

/// A line that is not an event keeps the counters matching.
pub proof fn lemma_counters_match_other(s: Rewriter, m: int, line: Seq<u8>)
    requires
        counters_match(s, m),
        s.step(line) is Ok,
        !(line.len() > 0 && is_event_tag(line[0])),
    ensures
        counters_match(s.step(line)->Ok_0.0, m),
{
}

/// On a trace where each event refers at most to one past the largest index
/// seen before (allocations are referenced first in declaration order), an
/// event is never refused for a gap, the counters keep matching, and while no
/// allocation past the offset has been seen the index written is 0: the
/// first event index written after the cut is 0.
pub proof fn lemma_zero_floor(s: Rewriter, m: int, line: Seq<u8>)
    requires
        counters_match(s, m),
        line.len() > 0,
        is_event_tag(line[0]),
        line_number(line) is Some,
        line_number(line)->0 <= m + 1,
    ensures
        s.step(line) is Ok,
        counters_match(s.step(line)->Ok_0.0, if line_number(line)->0 > m { line_number(line)->0 as int } else { m }),
        !s.skipping && m <= s.correction ==> s.step(line)->Ok_0.1.len() == 0 || s.step(line)->Ok_0.1
            == numbered_line(line[0], 0),
{
}

/// An event line refers at most to one past the largest index `m` seen before.
pub open spec fn event_in_order(m: int, line: Seq<u8>) -> bool {
    line.len() > 0 && is_event_tag(line[0]) && line_number(line) is Some ==> line_number(line)->0 <= m + 1
}

/// The largest index seen once `line` has been read.
pub open spec fn largest_seen(m: int, line: Seq<u8>) -> int {
    if line.len() > 0 && is_event_tag(line[0]) && line_number(line) is Some && line_number(line)->0 > m {
        line_number(line)->0 as int
    } else {
        m
    }
}

/// Every event line of `pending` followed by `rest` (split as `run_from`
/// splits it) is in order, starting from largest index `m`.
pub open spec fn events_in_order(m: int, pending: Seq<u8>, rest: Seq<u8>) -> bool
    decreases rest.len(),
{
    if rest.len() == 0 {
        pending.len() > 0 ==> event_in_order(m, pending)
    } else if rest[0] == NEWLINE {
        event_in_order(m, pending.push(NEWLINE)) && events_in_order(
            largest_seen(m, pending.push(NEWLINE)),
            Seq::empty(),
            rest.drop_first(),
        )
    } else {
        events_in_order(m, pending.push(rest[0]), rest.drop_first())
    }
}

proof fn lemma_step_in_order(s: Rewriter, m: int, line: Seq<u8>)
    requires
        counters_match(s, m),
        event_in_order(m, line),
    ensures
        s.step(line) != Err::<(Rewriter, Seq<u8>), FilterError>(FilterError::RebaseInvariantViolation),
        s.step(line) is Ok ==> counters_match(s.step(line)->Ok_0.0, largest_seen(m, line)),
{
    if line.len() > 0 && is_event_tag(line[0]) && line_number(line) is Some {
        lemma_zero_floor(s, m, line);
    } else if s.step(line) is Ok {
        lemma_counters_match_other(s, m, line);
    }
}

/// On a trace whose events refer to allocations in declaration order, a
/// rewrite from counters that match what was read never fails for a gap in
/// the rebased indices; from the start, the whole rewrite never does.
pub proof fn lemma_in_order_trace_has_no_gap(s: Rewriter, m: int, pending: Seq<u8>, rest: Seq<u8>)
    requires
        counters_match(s, m),
        events_in_order(m, pending, rest),
    ensures
        run_from(s, pending, rest) != Err::<(Rewriter, Seq<u8>), FilterError>(
            FilterError::RebaseInvariantViolation,
        ),
    decreases rest.len(),
{
    if rest.len() == 0 {
        if pending.len() > 0 {
            lemma_step_in_order(s, m, pending);
        }
    } else if rest[0] == NEWLINE {
        let line = pending.push(NEWLINE);
        lemma_step_in_order(s, m, line);
        if s.step(line) is Ok {
            let next = s.step(line)->Ok_0.0;
            lemma_in_order_trace_has_no_gap(next, largest_seen(m, line), Seq::empty(), rest.drop_first());
        }
    } else {
        lemma_in_order_trace_has_no_gap(s, m, pending.push(rest[0]), rest.drop_first());
    }
}

/// An event line whose index is at most the correction offset is dropped and
/// leaves the state as it was.
pub proof fn lemma_drop_below_offset(s: Rewriter, line: Seq<u8>)
    requires
        line.len() > 0,
        is_event_tag(line[0]),
        line_number(line) is Some,
        line_number(line)->0 <= s.correction,
    ensures
        s.step(line) == Ok::<(Rewriter, Seq<u8>), FilterError>((s, Seq::empty())),
{
}

/// Once the rewriter emits, it emits until the end and its correction offset
/// stays frozen, whatever bytes follow.
pub proof fn lemma_offset_frozen(s: Rewriter, pending: Seq<u8>, rest: Seq<u8>)
    requires
        !s.skipping,
        run_from(s, pending, rest) is Ok,
    ensures
        !run_from(s, pending, rest)->Ok_0.0.skipping,
        run_from(s, pending, rest)->Ok_0.0.correction == s.correction,
        run_from(s, pending, rest)->Ok_0.0.skip_timestamp == s.skip_timestamp,
    decreases rest.len(),
{
    if rest.len() > 0 {
        if rest[0] == NEWLINE {
            let (next, _) = s.step(pending.push(NEWLINE))->Ok_0;
            lemma_offset_frozen(next, Seq::empty(), rest.drop_first());
        } else {
            lemma_offset_frozen(s, pending.push(rest[0]), rest.drop_first());
        }
    }
}

/// A line whose tag is none of `c`, `a`, `+`, `-` is written exactly as read
/// and changes nothing, in every state.
pub proof fn lemma_pass_through(s: Rewriter, line: Seq<u8>)
    requires
        line.len() > 0,
        line[0] != TAG_TIME,
        line[0] != TAG_DEFINE,
        line[0] != TAG_ALLOC,
        line[0] != TAG_FREE,
    ensures
        s.step(line) == Ok::<(Rewriter, Seq<u8>), FilterError>((s, line)),
{
}

proof fn lemma_no_space_after(t: Seq<u8>, k: int)
    requires
        0 <= k <= t.len(),
        forall|j: int| k <= j < t.len() ==> #[trigger] t[j] != SPACE,
    ensures
        next_space(t, k) == t.len(),
    decreases t.len() - k,
{
    if k < t.len() {
        lemma_no_space_after(t, k + 1);
    }
}

/// The argument of a line written by the rewriter is the hex spelling of its
/// number, which reads back as that number.
pub proof fn lemma_numbered_line_number(tag: u8, n: u64)
    requires
        tag != SPACE,
    ensures
        line_argument(numbered_line(tag, n as nat)) == Some(hex_of(n as nat)),
        line_number(numbered_line(tag, n as nat)) == Some(n),
{
    let h = hex_of(n as nat);
    lemma_decode_encode(n);
    let line = numbered_line(tag, n as nat);
    let len = line.len() as int;
    assert(line[len - 1] == NEWLINE);
    assert(line[len - 2] == h[h.len() - 1]);
    assert(is_hex_digit(h[h.len() - 1]));
    assert(trimmed_len(line, len - 1) == len - 1);
    assert(trimmed_len(line, len) == len - 1);
    let t = line.subrange(0, len - 1);
    assert(t =~= seq![tag, SPACE] + h);
    assert(next_space(t, 1) == 1);
    assert(next_space(t, 0) == 1);
    assert forall|j: int| 2 <= j < t.len() implies #[trigger] t[j] != SPACE by {
        assert(t[j] == h[j - 2]);
        assert(is_hex_digit(h[j - 2]));
    }
    lemma_no_space_after(t, 2);
    assert(t.subrange(2, t.len() as int) =~= h);
}

/// With a zero skip threshold and rewriting of time on, the rewriter writes
/// back unchanged every line of an already rebased trace but its events: a
/// canonical time line (later than zero, or once emitting), a definition line
/// once emitting, and any other line. Event lines are excluded: `+ 0` is
/// always dropped.
pub proof fn lemma_zero_skip_reproduces(s: Rewriter, line: Seq<u8>, t: u64)
    requires
        s.skip_timestamp == 0,
        !s.preserve_time,
        line.len() > 0,
        !is_event_tag(line[0]),
        line[0] == TAG_TIME ==> line == numbered_line(TAG_TIME, t as nat) && (t > 0 || !s.skipping),
        line[0] == TAG_DEFINE ==> !s.skipping,
    ensures
        s.step(line) is Ok,
        s.step(line)->Ok_0.1 == line,
{
    if line[0] == TAG_TIME {
        lemma_numbered_line_number(TAG_TIME, t);
    }
}

} // verus!

verus! {

/// The lines of `pending` followed by `rest`, split as `run_from` splits them:
/// each ends after a newline, and a non-empty unterminated tail is a line.
pub open spec fn lines_from(pending: Seq<u8>, rest: Seq<u8>) -> Seq<Seq<u8>>
    decreases rest.len(),
{
    if rest.len() == 0 {
        if pending.len() == 0 {
            Seq::empty()
        } else {
            seq![pending]
        }
    } else if rest[0] == NEWLINE {
        seq![pending.push(NEWLINE)] + lines_from(Seq::empty(), rest.drop_first())
    } else {
        lines_from(pending.push(rest[0]), rest.drop_first())
    }
}

/// The lines of `bytes`.
pub open spec fn lines(bytes: Seq<u8>) -> Seq<Seq<u8>> {
    lines_from(Seq::empty(), bytes)
}

/// A line whose tag is none of `c`, `a`, `+`, `-`.
pub open spec fn is_other_line(l: Seq<u8>) -> bool {
    l.len() > 0 && l[0] != TAG_TIME && l[0] != TAG_DEFINE && l[0] != TAG_ALLOC && l[0] != TAG_FREE
}

/// The lines of `ls` that are other lines, in order.
pub open spec fn other_lines(ls: Seq<Seq<u8>>) -> Seq<Seq<u8>>
    decreases ls.len(),
{
    if ls.len() == 0 {
        Seq::empty()
    } else if is_other_line(ls[0]) {
        seq![ls[0]] + other_lines(ls.drop_first())
    } else {
        other_lines(ls.drop_first())
    }
}

proof fn lemma_other_lines_add(a: Seq<Seq<u8>>, b: Seq<Seq<u8>>)
    ensures
        other_lines(a + b) == other_lines(a) + other_lines(b),
    decreases a.len(),
{
    if a.len() == 0 {
        assert(a + b =~= b);
        assert(other_lines(a) + other_lines(b) =~= other_lines(b));
    } else {
        assert((a + b).drop_first() =~= a.drop_first() + b);
        assert((a + b)[0] == a[0]);
        lemma_other_lines_add(a.drop_first(), b);
        if is_other_line(a[0]) {
            assert(seq![a[0]] + (other_lines(a.drop_first()) + other_lines(b)) =~= (seq![a[0]]
                + other_lines(a.drop_first())) + other_lines(b));
        }
    }
}

proof fn lemma_lines_concat(p: Seq<u8>, a: Seq<u8>, b: Seq<u8>)
    requires
        a.len() > 0,
        a.last() == NEWLINE,
    ensures
        lines_from(p, a + b) == lines_from(p, a) + lines_from(Seq::empty(), b),
    decreases a.len(),
{
    assert((a + b)[0] == a[0]);
    assert((a + b).drop_first() =~= a.drop_first() + b);
    if a[0] == NEWLINE {
        if a.len() == 1 {
            assert(a.drop_first() + b =~= b);
            assert(lines_from(Seq::empty(), a.drop_first()) =~= Seq::<Seq<u8>>::empty());
            assert(lines_from(p, a) =~= seq![p.push(NEWLINE)]);
        } else {
            lemma_lines_concat(Seq::empty(), a.drop_first(), b);
            assert(seq![p.push(NEWLINE)] + (lines_from(Seq::empty(), a.drop_first()) + lines_from(
                Seq::empty(),
                b,
            )) =~= (seq![p.push(NEWLINE)] + lines_from(Seq::empty(), a.drop_first())) + lines_from(
                Seq::empty(),
                b,
            ));
        }
    } else {
        lemma_lines_concat(p.push(a[0]), a.drop_first(), b);
    }
}

/// Bytes with no newline but possibly the last form one line.
proof fn lemma_single_line(p: Seq<u8>, r: Seq<u8>)
    requires
        p.len() + r.len() > 0,
        forall|i: int| 0 <= i < r.len() - 1 ==> #[trigger] r[i] != NEWLINE,
    ensures
        lines_from(p, r) == seq![p + r],
    decreases r.len(),
{
    if r.len() == 0 {
        assert(p + r =~= p);
    } else if r[0] == NEWLINE {
        assert(r.len() == 1);
        assert(p.push(NEWLINE) =~= p + r);
        assert(lines_from(Seq::empty(), r.drop_first()) =~= Seq::<Seq<u8>>::empty());
        assert(seq![p + r] + Seq::<Seq<u8>>::empty() =~= seq![p + r]);
    } else {
        assert(p.push(r[0]) + r.drop_first() =~= p + r);
        lemma_single_line(p.push(r[0]), r.drop_first());
    }
}

proof fn lemma_step_other_lines(s: Rewriter, line: Seq<u8>)
    requires
        s.step(line) is Ok,
        line.len() > 0,
        forall|i: int| 0 <= i < line.len() - 1 ==> #[trigger] line[i] != NEWLINE,
    ensures
        other_lines(lines(s.step(line)->Ok_0.1)) == other_lines(seq![line]),
        line.last() == NEWLINE ==> s.step(line)->Ok_0.1.len() == 0 || s.step(line)->Ok_0.1.last()
            == NEWLINE,
{
    let written = s.step(line)->Ok_0.1;
    assert(seq![line].drop_first() =~= Seq::<Seq<u8>>::empty());
    assert(Seq::<u8>::empty() + line =~= line);
    lemma_single_line(Seq::empty(), line);
    if written.len() == 0 {
        assert(lines(written) =~= Seq::<Seq<u8>>::empty());
    } else if written == line {
    } else {
        let tag = line[0];
        let n: nat = if tag == TAG_TIME {
            (line_number(line)->0 - s.skip_timestamp) as nat
        } else {
            (line_number(line)->0 - s.correction - 1) as nat
        };
        assert(written == numbered_line(tag, n));
        let h = hex_of(n);
        lemma_hex_digits(n);
        assert forall|i: int| 0 <= i < written.len() - 1 implies #[trigger] written[i] != NEWLINE by {
            if i >= 2 {
                assert(written[i] == h[i - 2]);
            }
        }
        assert(Seq::<u8>::empty() + written =~= written);
        lemma_single_line(Seq::empty(), written);
        assert(seq![written].drop_first() =~= Seq::<Seq<u8>>::empty());
    }
}

proof fn lemma_hex_digits(n: nat)
    ensures
        forall|i: int| 0 <= i < hex_of(n).len() ==> is_hex_digit(#[trigger] hex_of(n)[i]),
{
    if n <= u64::MAX {
        lemma_decode_encode(n as u64);
    } else {
        lemma_hex_digits_any(n);
    }
}

proof fn lemma_hex_digits_any(n: nat)
    ensures
        forall|i: int| 0 <= i < hex_of(n).len() ==> is_hex_digit(#[trigger] hex_of(n)[i]),
    decreases n,
{
    if n >= 16 {
        lemma_hex_digits_any(n / 16);
        assert(forall|i: int| 0 <= i < hex_of(n / 16).len() ==> hex_of(n)[i] == hex_of(n / 16)[i]);
    }
}

proof fn lemma_run_other_lines(s: Rewriter, pending: Seq<u8>, rest: Seq<u8>)
    requires
        run_from(s, pending, rest) is Ok,
        forall|i: int| 0 <= i < pending.len() ==> #[trigger] pending[i] != NEWLINE,
    ensures
        other_lines(lines(run_from(s, pending, rest)->Ok_0.1)) == other_lines(lines_from(pending, rest)),
    decreases rest.len(),
{
    if rest.len() == 0 {
        if pending.len() == 0 {
            assert(lines(Seq::<u8>::empty()) =~= Seq::<Seq<u8>>::empty());
        } else {
            lemma_step_other_lines(s, pending);
        }
    } else if rest[0] == NEWLINE {
        let line = pending.push(NEWLINE);
        assert forall|i: int| 0 <= i < line.len() - 1 implies #[trigger] line[i] != NEWLINE by {
            assert(line[i] == pending[i]);
        }
        lemma_step_other_lines(s, line);
        let (next, written) = s.step(line)->Ok_0;
        lemma_run_other_lines(next, Seq::empty(), rest.drop_first());
        let tail = run_from(next, Seq::empty(), rest.drop_first())->Ok_0.1;
        if written.len() == 0 {
            assert(written + tail =~= tail);
        } else {
            lemma_lines_concat(Seq::empty(), written, tail);
        }
        lemma_other_lines_add(lines(written), lines(tail));
        lemma_other_lines_add(seq![line], lines_from(Seq::empty(), rest.drop_first()));
    } else {
        let p2 = pending.push(rest[0]);
        assert forall|i: int| 0 <= i < p2.len() implies #[trigger] p2[i] != NEWLINE by {
            if i < pending.len() {
                assert(p2[i] == pending[i]);
            }
        }
        lemma_run_other_lines(s, p2, rest.drop_first());
    }
}

/// Every line whose tag is none of `c`, `a`, `+`, `-` appears in the output of
/// a successful rewrite exactly as in the input, in the same order, and the
/// output holds no other such line, whatever the settings.
pub proof fn lemma_pass_through_run(skip_timestamp: u64, preserve_time: bool, input: Seq<u8>)
    requires
        rewrite(skip_timestamp, preserve_time, input) is Ok,
    ensures
        other_lines(lines(rewrite(skip_timestamp, preserve_time, input)->Ok_0.1)) == other_lines(
            lines(input),
        ),
{
    lemma_run_other_lines(Rewriter::initial(skip_timestamp, preserve_time), Seq::empty(), input);
}

} // verus!

verus! {

/// Each event line of `ls` refers at most to one past the largest index seen
/// before it, starting from `m`.
pub open spec fn indices_in_order(m: int, ls: Seq<Seq<u8>>) -> bool
    decreases ls.len(),
{
    ls.len() > 0 ==> event_in_order(m, ls[0]) && indices_in_order(largest_seen(m, ls[0]), ls.drop_first())
}

/// The largest index seen after the lines `ls`, starting from `m`.
pub open spec fn largest_after(m: int, ls: Seq<Seq<u8>>) -> int
    decreases ls.len(),
{
    if ls.len() == 0 {
        m
    } else {
        largest_after(largest_seen(m, ls[0]), ls.drop_first())
    }
}

proof fn lemma_indices_add(m: int, a: Seq<Seq<u8>>, b: Seq<Seq<u8>>)
    ensures
        indices_in_order(m, a + b) == (indices_in_order(m, a) && indices_in_order(largest_after(m, a), b)),
        largest_after(m, a + b) == largest_after(largest_after(m, a), b),
    decreases a.len(),
{
    if a.len() == 0 {
        assert(a + b =~= b);
    } else {
        assert((a + b).drop_first() =~= a.drop_first() + b);
        assert((a + b)[0] == a[0]);
        lemma_indices_add(largest_seen(m, a[0]), a.drop_first(), b);
    }
}

/// What one line writes is no line or exactly one; an event line written is
/// the rebased event.
proof fn lemma_step_written_lines(s: Rewriter, line: Seq<u8>)
    requires
        s.step(line) is Ok,
        line.len() > 0,
        forall|i: int| 0 <= i < line.len() - 1 ==> #[trigger] line[i] != NEWLINE,
    ensures
        ({
            let written = s.step(line)->Ok_0.1;
            &&& written.len() == 0 ==> lines(written) == Seq::<Seq<u8>>::empty()
            &&& written.len() > 0 ==> lines(written) == seq![written]
            &&& written.len() > 0 && is_event_tag(written[0]) ==> is_event_tag(line[0])
        }),
{
    let written = s.step(line)->Ok_0.1;
    assert(Seq::<u8>::empty() + line =~= line);
    lemma_single_line(Seq::empty(), line);
    if written.len() == 0 {
        assert(lines(written) =~= Seq::<Seq<u8>>::empty());
    } else if written == line {
    } else {
        let tag = line[0];
        let n: nat = if tag == TAG_TIME {
            (line_number(line)->0 - s.skip_timestamp) as nat
        } else {
            (line_number(line)->0 - s.correction - 1) as nat
        };
        assert(written == numbered_line(tag, n));
        let h = hex_of(n);
        lemma_hex_digits(n);
        assert forall|i: int| 0 <= i < written.len() - 1 implies #[trigger] written[i] != NEWLINE by {
            if i >= 2 {
                assert(written[i] == h[i - 2]);
            }
        }
        assert(Seq::<u8>::empty() + written =~= written);
        lemma_single_line(Seq::empty(), written);
    }
}

proof fn lemma_step_no_gap(s: Rewriter, line: Seq<u8>)
    requires
        s.step(line) is Ok,
        line.len() > 0,
        forall|i: int| 0 <= i < line.len() - 1 ==> #[trigger] line[i] != NEWLINE,
        s.skipping ==> s.largest_written == 0,
    ensures
        indices_in_order(s.largest_written as int, lines(s.step(line)->Ok_0.1)),
        largest_after(s.largest_written as int, lines(s.step(line)->Ok_0.1)) == s.step(line)->Ok_0.0.largest_written,
        s.step(line)->Ok_0.0.skipping ==> s.step(line)->Ok_0.0.largest_written == 0,
{
    let (next, written) = s.step(line)->Ok_0;
    lemma_step_written_lines(s, line);
    let l = s.largest_written as int;
    let none = Seq::<Seq<u8>>::empty();
    if written.len() == 0 {
        assert(lines(written) == none);
        assert(indices_in_order(l, none));
        assert(largest_after(l, none) == l);
        assert(next.largest_written == s.largest_written);
    } else {
        let ws = seq![written];
        assert(ws[0] == written);
        assert(ws.drop_first() =~= none);
        assert(lines(written) == ws);
        assert(indices_in_order(largest_seen(l, written), none));
        assert(largest_after(largest_seen(l, written), none) == largest_seen(l, written));
        if is_event_tag(written[0]) {
            lemma_no_gap(s, line);
            let n = (line_number(line)->0 - s.correction - 1) as u64;
            lemma_numbered_line_number(line[0], n);
            assert(line_number(written) == Some(n));
            assert(largest_seen(l, written) == next.largest_written);
        } else {
            assert(largest_seen(l, written) == l);
            assert(next.largest_written == s.largest_written);
        }
    }
}

proof fn lemma_run_no_gap(s: Rewriter, pending: Seq<u8>, rest: Seq<u8>)
    requires
        run_from(s, pending, rest) is Ok,
        forall|i: int| 0 <= i < pending.len() ==> #[trigger] pending[i] != NEWLINE,
        s.skipping ==> s.largest_written == 0,
    ensures
        indices_in_order(s.largest_written as int, lines(run_from(s, pending, rest)->Ok_0.1)),
    decreases rest.len(),
{
    if rest.len() == 0 {
        if pending.len() == 0 {
            assert(lines(Seq::<u8>::empty()) =~= Seq::<Seq<u8>>::empty());
        } else {
            lemma_step_no_gap(s, pending);
        }
    } else if rest[0] == NEWLINE {
        let line = pending.push(NEWLINE);
        assert forall|i: int| 0 <= i < line.len() - 1 implies #[trigger] line[i] != NEWLINE by {
            assert(line[i] == pending[i]);
        }
        lemma_step_no_gap(s, line);
        lemma_step_other_lines(s, line);
        let (next, written) = s.step(line)->Ok_0;
        lemma_run_no_gap(next, Seq::empty(), rest.drop_first());
        let tail = run_from(next, Seq::empty(), rest.drop_first())->Ok_0.1;
        if written.len() == 0 {
            assert(written + tail =~= tail);
            assert(lines(written) =~= Seq::<Seq<u8>>::empty());
        } else {
            lemma_lines_concat(Seq::empty(), written, tail);
        }
        lemma_indices_add(s.largest_written as int, lines(written), lines(tail));
    } else {
        let p2 = pending.push(rest[0]);
        assert forall|i: int| 0 <= i < p2.len() implies #[trigger] p2[i] != NEWLINE by {
            if i < pending.len() {
                assert(p2[i] == pending[i]);
            }
        }
        lemma_run_no_gap(s, p2, rest.drop_first());
    }
}

/// In the output of every successful rewrite, each event line carries an
/// index at most one above the largest index written before it (0 before
/// any).
pub proof fn lemma_no_gap_run(skip_timestamp: u64, preserve_time: bool, input: Seq<u8>)
    requires
        rewrite(skip_timestamp, preserve_time, input) is Ok,
    ensures
        indices_in_order(0, lines(rewrite(skip_timestamp, preserve_time, input)->Ok_0.1)),
{
    lemma_run_no_gap(Rewriter::initial(skip_timestamp, preserve_time), Seq::empty(), input);
}

} // verus!

verus! {

/// The largest index the output holds, given counters that match an input
/// whose largest index is `m`; `-1` while no event has been written.
pub open spec fn largest_output(s: Rewriter, m: int) -> int {
    if !s.skipping && m > s.correction {
        s.largest_written as int
    } else {
        -1
    }
}

proof fn lemma_step_zero_floor(s: Rewriter, m: int, line: Seq<u8>)
    requires
        s.step(line) is Ok,
        line.len() > 0,
        forall|i: int| 0 <= i < line.len() - 1 ==> #[trigger] line[i] != NEWLINE,
        counters_match(s, m),
        event_in_order(m, line),
    ensures
        indices_in_order(largest_output(s, m), lines(s.step(line)->Ok_0.1)),
        largest_after(largest_output(s, m), lines(s.step(line)->Ok_0.1)) == largest_output(
            s.step(line)->Ok_0.0,
            largest_seen(m, line),
        ),
        counters_match(s.step(line)->Ok_0.0, largest_seen(m, line)),
{
    let (next, written) = s.step(line)->Ok_0;
    lemma_step_written_lines(s, line);
    lemma_step_in_order(s, m, line);
    let l = largest_output(s, m);
    let none = Seq::<Seq<u8>>::empty();
    if written.len() == 0 {
        assert(lines(written) == none);
        assert(indices_in_order(l, none));
        assert(largest_after(l, none) == l);
    } else {
        let ws = seq![written];
        assert(ws[0] == written);
        assert(ws.drop_first() =~= none);
        assert(lines(written) == ws);
        assert(indices_in_order(largest_seen(l, written), none));
        assert(largest_after(largest_seen(l, written), none) == largest_seen(l, written));
        if is_event_tag(written[0]) {
            lemma_no_gap(s, line);
            let n = (line_number(line)->0 - s.correction - 1) as u64;
            lemma_numbered_line_number(line[0], n);
            assert(line_number(written) == Some(n));
        } else {
            assert(largest_seen(l, written) == l);
        }
    }
}

proof fn lemma_run_zero_floor(s: Rewriter, m: int, pending: Seq<u8>, rest: Seq<u8>)
    requires
        run_from(s, pending, rest) is Ok,
        forall|i: int| 0 <= i < pending.len() ==> #[trigger] pending[i] != NEWLINE,
        counters_match(s, m),
        events_in_order(m, pending, rest),
    ensures
        indices_in_order(largest_output(s, m), lines(run_from(s, pending, rest)->Ok_0.1)),
    decreases rest.len(),
{
    if rest.len() == 0 {
        if pending.len() == 0 {
            assert(lines(Seq::<u8>::empty()) =~= Seq::<Seq<u8>>::empty());
        } else {
            lemma_step_zero_floor(s, m, pending);
        }
    } else if rest[0] == NEWLINE {
        let line = pending.push(NEWLINE);
        assert forall|i: int| 0 <= i < line.len() - 1 implies #[trigger] line[i] != NEWLINE by {
            assert(line[i] == pending[i]);
        }
        lemma_step_zero_floor(s, m, line);
        lemma_step_other_lines(s, line);
        let (next, written) = s.step(line)->Ok_0;
        lemma_run_zero_floor(next, largest_seen(m, line), Seq::empty(), rest.drop_first());
        let tail = run_from(next, Seq::empty(), rest.drop_first())->Ok_0.1;
        if written.len() == 0 {
            assert(written + tail =~= tail);
            assert(lines(written) =~= Seq::<Seq<u8>>::empty());
        } else {
            lemma_lines_concat(Seq::empty(), written, tail);
        }
        lemma_indices_add(largest_output(s, m), lines(written), lines(tail));
    } else {
        let p2 = pending.push(rest[0]);
        assert forall|i: int| 0 <= i < p2.len() implies #[trigger] p2[i] != NEWLINE by {
            if i < pending.len() {
                assert(p2[i] == pending[i]);
            }
        }
        lemma_run_zero_floor(s, m, p2, rest.drop_first());
    }
}

/// On an input whose events refer to allocations in declaration order, the
/// rewrite never fails for a gap, and its output's events are in order
/// starting from nothing: the first event index written is 0, and each later
/// one is at most one above the largest before it.
pub proof fn lemma_zero_floor_run(skip_timestamp: u64, preserve_time: bool, input: Seq<u8>)
    requires
        events_in_order(-1, Seq::empty(), input),
    ensures
        rewrite(skip_timestamp, preserve_time, input) != Err::<(Rewriter, Seq<u8>), FilterError>(
            FilterError::RebaseInvariantViolation,
        ),
        rewrite(skip_timestamp, preserve_time, input) is Ok ==> indices_in_order(
            -1,
            lines(rewrite(skip_timestamp, preserve_time, input)->Ok_0.1),
        ),
{
    let s = Rewriter::initial(skip_timestamp, preserve_time);
    lemma_counters_match_initial(skip_timestamp, preserve_time);
    lemma_in_order_trace_has_no_gap(s, -1, Seq::empty(), input);
    if rewrite(skip_timestamp, preserve_time, input) is Ok {
        lemma_run_zero_floor(s, -1, Seq::empty(), input);
    }
}

} // verus!

verus! {

/// The lines of `ls` that are not time lines, in order.
pub open spec fn untimed_lines(ls: Seq<Seq<u8>>) -> Seq<Seq<u8>>
    decreases ls.len(),
{
    if ls.len() == 0 {
        Seq::empty()
    } else if ls[0].len() > 0 && ls[0][0] == TAG_TIME {
        untimed_lines(ls.drop_first())
    } else {
        seq![ls[0]] + untimed_lines(ls.drop_first())
    }
}

proof fn lemma_untimed_lines_add(a: Seq<Seq<u8>>, b: Seq<Seq<u8>>)
    ensures
        untimed_lines(a + b) == untimed_lines(a) + untimed_lines(b),
    decreases a.len(),
{
    if a.len() == 0 {
        assert(a + b =~= b);
        assert(untimed_lines(a) + untimed_lines(b) =~= untimed_lines(b));
    } else {
        assert((a + b).drop_first() =~= a.drop_first() + b);
        assert((a + b)[0] == a[0]);
        lemma_untimed_lines_add(a.drop_first(), b);
        if !(a[0].len() > 0 && a[0][0] == TAG_TIME) {
            assert(seq![a[0]] + (untimed_lines(a.drop_first()) + untimed_lines(b)) =~= (seq![a[0]]
                + untimed_lines(a.drop_first())) + untimed_lines(b));
        }
    }
}

/// `t` is `f` with time lines kept as read.
pub open spec fn preserving(t: Rewriter, f: Rewriter) -> bool {
    &&& t.preserve_time
    &&& !f.preserve_time
    &&& t.skip_timestamp == f.skip_timestamp
    &&& t.correction == f.correction
    &&& t.largest_written == f.largest_written
    &&& t.skipping == f.skipping
    &&& t.elapsed == f.elapsed
}

proof fn lemma_step_preserving(t: Rewriter, f: Rewriter, line: Seq<u8>)
    requires
        preserving(t, f),
        t.step(line) is Ok,
        f.step(line) is Ok,
        line.len() > 0,
        forall|i: int| 0 <= i < line.len() - 1 ==> #[trigger] line[i] != NEWLINE,
    ensures
        preserving(t.step(line)->Ok_0.0, f.step(line)->Ok_0.0),
        untimed_lines(lines(t.step(line)->Ok_0.1)) == untimed_lines(lines(f.step(line)->Ok_0.1)),
{
    lemma_step_written_lines(t, line);
    lemma_step_written_lines(f, line);
    let wt = t.step(line)->Ok_0.1;
    let wf = f.step(line)->Ok_0.1;
    let none = Seq::<Seq<u8>>::empty();
    assert(untimed_lines(none) == none);
    if line[0] == TAG_TIME {
        if wt.len() > 0 {
            assert(wt[0] == TAG_TIME);
            assert(seq![wt].drop_first() =~= none);
        }
        if wf.len() > 0 {
            assert(wf[0] == TAG_TIME);
            assert(seq![wf].drop_first() =~= none);
        }
    } else {
        assert(wt == wf);
    }
}

proof fn lemma_run_preserving(t: Rewriter, f: Rewriter, pending: Seq<u8>, rest: Seq<u8>)
    requires
        preserving(t, f),
        run_from(t, pending, rest) is Ok,
        run_from(f, pending, rest) is Ok,
        forall|i: int| 0 <= i < pending.len() ==> #[trigger] pending[i] != NEWLINE,
    ensures
        untimed_lines(lines(run_from(t, pending, rest)->Ok_0.1)) == untimed_lines(
            lines(run_from(f, pending, rest)->Ok_0.1),
        ),
    decreases rest.len(),
{
    if rest.len() == 0 {
        if pending.len() > 0 {
            lemma_step_preserving(t, f, pending);
        }
    } else if rest[0] == NEWLINE {
        let line = pending.push(NEWLINE);
        assert forall|i: int| 0 <= i < line.len() - 1 implies #[trigger] line[i] != NEWLINE by {
            assert(line[i] == pending[i]);
        }
        lemma_step_preserving(t, f, line);
        lemma_step_other_lines(t, line);
        lemma_step_other_lines(f, line);
        let (nt, wt) = t.step(line)->Ok_0;
        let (nf, wf) = f.step(line)->Ok_0;
        lemma_run_preserving(nt, nf, Seq::empty(), rest.drop_first());
        let tt = run_from(nt, Seq::empty(), rest.drop_first())->Ok_0.1;
        let tf = run_from(nf, Seq::empty(), rest.drop_first())->Ok_0.1;
        if wt.len() == 0 {
            assert(wt + tt =~= tt);
            assert(lines(wt) =~= Seq::<Seq<u8>>::empty());
        } else {
            lemma_lines_concat(Seq::empty(), wt, tt);
        }
        if wf.len() == 0 {
            assert(wf + tf =~= tf);
            assert(lines(wf) =~= Seq::<Seq<u8>>::empty());
        } else {
            lemma_lines_concat(Seq::empty(), wf, tf);
        }
        lemma_untimed_lines_add(lines(wt), lines(tt));
        lemma_untimed_lines_add(lines(wf), lines(tf));
    } else {
        let p2 = pending.push(rest[0]);
        assert forall|i: int| 0 <= i < p2.len() implies #[trigger] p2[i] != NEWLINE by {
            if i < pending.len() {
                assert(p2[i] == pending[i]);
            }
        }
        lemma_run_preserving(t, f, p2, rest.drop_first());
    }
}

/// Keeping time lines as read changes only the time lines: where both
/// rewrites succeed, their outputs agree once time lines are removed.
pub proof fn lemma_preserve_time_changes_only_time_lines(skip_timestamp: u64, input: Seq<u8>)
    requires
        rewrite(skip_timestamp, true, input) is Ok,
        rewrite(skip_timestamp, false, input) is Ok,
    ensures
        untimed_lines(lines(rewrite(skip_timestamp, true, input)->Ok_0.1)) == untimed_lines(
            lines(rewrite(skip_timestamp, false, input)->Ok_0.1),
        ),
{
    lemma_run_preserving(
        Rewriter::initial(skip_timestamp, true),
        Rewriter::initial(skip_timestamp, false),
        Seq::empty(),
        input,
    );
}

} // verus!

verus! {

/// Whether `l` is an event line whose index exceeds `c`.
pub open spec fn is_event_above(c: int, l: Seq<u8>) -> bool {
    l.len() > 0 && is_event_tag(l[0]) && line_number(l) is Some && line_number(l)->0 > c
}

/// How many lines of `ls` are event lines whose index exceeds `c`.
pub open spec fn events_above(c: int, ls: Seq<Seq<u8>>) -> nat
    decreases ls.len(),
{
    if ls.len() == 0 {
        0
    } else {
        (if is_event_above(c, ls[0]) { 1nat } else { 0nat }) + events_above(c, ls.drop_first())
    }
}

proof fn lemma_events_above_add(c: int, a: Seq<Seq<u8>>, b: Seq<Seq<u8>>)
    ensures
        events_above(c, a + b) == events_above(c, a) + events_above(c, b),
    decreases a.len(),
{
    if a.len() == 0 {
        assert(a + b =~= b);
    } else {
        assert((a + b).drop_first() =~= a.drop_first() + b);
        assert((a + b)[0] == a[0]);
        lemma_events_above_add(c, a.drop_first(), b);
    }
}

/// The correction offset never decreases over a run.
proof fn lemma_correction_grows(s: Rewriter, pending: Seq<u8>, rest: Seq<u8>)
    requires
        run_from(s, pending, rest) is Ok,
    ensures
        run_from(s, pending, rest)->Ok_0.0.correction >= s.correction,
    decreases rest.len(),
{
    if rest.len() > 0 {
        if rest[0] == NEWLINE {
            let (next, _) = s.step(pending.push(NEWLINE))->Ok_0;
            lemma_correction_grows(next, Seq::empty(), rest.drop_first());
        } else {
            lemma_correction_grows(s, pending.push(rest[0]), rest.drop_first());
        }
    }
}

proof fn lemma_step_events_above(s: Rewriter, line: Seq<u8>, c: int)
    requires
        s.step(line) is Ok,
        line.len() > 0,
        forall|i: int| 0 <= i < line.len() - 1 ==> #[trigger] line[i] != NEWLINE,
        c >= s.step(line)->Ok_0.0.correction,
        !s.skipping ==> c == s.correction,
    ensures
        events_above(-1, lines(s.step(line)->Ok_0.1)) == events_above(c, seq![line]),
{
    let written = s.step(line)->Ok_0.1;
    lemma_step_written_lines(s, line);
    let none = Seq::<Seq<u8>>::empty();
    let ls = seq![line];
    assert(ls[0] == line);
    assert(ls.drop_first() =~= none);
    assert(events_above(c, none) == 0);
    if written.len() > 0 {
        let ws = seq![written];
        assert(ws[0] == written);
        assert(ws.drop_first() =~= none);
        assert(lines(written) == ws);
        assert(events_above(-1, none) == 0);
        if is_event_tag(written[0]) {
            lemma_no_gap(s, line);
            let n = (line_number(line)->0 - s.correction - 1) as u64;
            lemma_numbered_line_number(line[0], n);
        }
    } else {
        assert(lines(written) =~= none);
    }
}

proof fn lemma_run_events_above(s: Rewriter, pending: Seq<u8>, rest: Seq<u8>)
    requires
        run_from(s, pending, rest) is Ok,
        forall|i: int| 0 <= i < pending.len() ==> #[trigger] pending[i] != NEWLINE,
    ensures
        events_above(-1, lines(run_from(s, pending, rest)->Ok_0.1)) == events_above(
            run_from(s, pending, rest)->Ok_0.0.correction as int,
            lines_from(pending, rest),
        ),
    decreases rest.len(),
{
    let c = run_from(s, pending, rest)->Ok_0.0.correction as int;
    if !s.skipping {
        lemma_offset_frozen(s, pending, rest);
    }
    if rest.len() == 0 {
        if pending.len() == 0 {
            assert(lines(Seq::<u8>::empty()) =~= Seq::<Seq<u8>>::empty());
        } else {
            lemma_step_events_above(s, pending, c);
        }
    } else if rest[0] == NEWLINE {
        let line = pending.push(NEWLINE);
        assert forall|i: int| 0 <= i < line.len() - 1 implies #[trigger] line[i] != NEWLINE by {
            assert(line[i] == pending[i]);
        }
        lemma_step_other_lines(s, line);
        let (next, written) = s.step(line)->Ok_0;
        lemma_correction_grows(next, Seq::empty(), rest.drop_first());
        lemma_step_events_above(s, line, c);
        lemma_run_events_above(next, Seq::empty(), rest.drop_first());
        let tail = run_from(next, Seq::empty(), rest.drop_first())->Ok_0.1;
        if written.len() == 0 {
            assert(written + tail =~= tail);
            assert(lines(written) =~= Seq::<Seq<u8>>::empty());
        } else {
            lemma_lines_concat(Seq::empty(), written, tail);
        }
        lemma_events_above_add(-1, lines(written), lines(tail));
        lemma_events_above_add(c, seq![line], lines_from(Seq::empty(), rest.drop_first()));
    } else {
        let p2 = pending.push(rest[0]);
        assert forall|i: int| 0 <= i < p2.len() implies #[trigger] p2[i] != NEWLINE by {
            if i < pending.len() {
                assert(p2[i] == pending[i]);
            }
        }
        lemma_run_events_above(s, p2, rest.drop_first());
    }
}

/// A successful rewrite writes exactly one event line for each input event
/// whose index exceeds the final correction offset, which is frozen from the
/// cut on: no event at or below it, nor any read while discarding, gives an
/// output line.
pub proof fn lemma_drop_below_offset_run(skip_timestamp: u64, preserve_time: bool, input: Seq<u8>)
    requires
        rewrite(skip_timestamp, preserve_time, input) is Ok,
    ensures
        events_above(-1, lines(rewrite(skip_timestamp, preserve_time, input)->Ok_0.1)) == events_above(
            rewrite(skip_timestamp, preserve_time, input)->Ok_0.0.correction as int,
            lines(input),
        ),
{
    lemma_run_events_above(Rewriter::initial(skip_timestamp, preserve_time), Seq::empty(), input);
}

} // verus!

verus! {

/// A time line with a well-formed number.
pub open spec fn is_time_line(l: Seq<u8>) -> bool {
    l.len() > 0 && l[0] == TAG_TIME && line_number(l) is Some
}

/// The lines of `ls` whose tag is `c`, in order.
pub open spec fn time_lines(ls: Seq<Seq<u8>>) -> Seq<Seq<u8>>
    decreases ls.len(),
{
    if ls.len() == 0 {
        Seq::empty()
    } else if ls[0].len() > 0 && ls[0][0] == TAG_TIME {
        seq![ls[0]] + time_lines(ls.drop_first())
    } else {
        time_lines(ls.drop_first())
    }
}

/// The time lines of `ls` from the first whose time exceeds `skip` on (from
/// the start if `cut`), each kept as read if `preserve`, else rewritten as
/// `c <t - skip>`.
pub open spec fn rebased_time_lines(cut: bool, skip: u64, preserve: bool, ls: Seq<Seq<u8>>) -> Seq<Seq<u8>>
    decreases ls.len(),
{
    if ls.len() == 0 {
        Seq::empty()
    } else if is_time_line(ls[0]) {
        let t = line_number(ls[0])->0;
        if cut || t > skip {
            seq![if preserve { ls[0] } else { numbered_line(TAG_TIME, (t - skip) as nat) }]
                + rebased_time_lines(true, skip, preserve, ls.drop_first())
        } else {
            rebased_time_lines(false, skip, preserve, ls.drop_first())
        }
    } else {
        rebased_time_lines(cut, skip, preserve, ls.drop_first())
    }
}

proof fn lemma_time_lines_add(a: Seq<Seq<u8>>, b: Seq<Seq<u8>>)
    ensures
        time_lines(a + b) == time_lines(a) + time_lines(b),
    decreases a.len(),
{
    if a.len() == 0 {
        assert(a + b =~= b);
        assert(time_lines(a) + time_lines(b) =~= time_lines(b));
    } else {
        assert((a + b).drop_first() =~= a.drop_first() + b);
        assert((a + b)[0] == a[0]);
        lemma_time_lines_add(a.drop_first(), b);
        if a[0].len() > 0 && a[0][0] == TAG_TIME {
            assert(seq![a[0]] + (time_lines(a.drop_first()) + time_lines(b)) =~= (seq![a[0]]
                + time_lines(a.drop_first())) + time_lines(b));
        }
    }
}

proof fn lemma_step_time_lines(s: Rewriter, line: Seq<u8>, ls: Seq<Seq<u8>>)
    requires
        s.step(line) is Ok,
        line.len() > 0,
        forall|i: int| 0 <= i < line.len() - 1 ==> #[trigger] line[i] != NEWLINE,
    ensures
        ({
            let (next, written) = s.step(line)->Ok_0;
            &&& next.preserve_time == s.preserve_time
            &&& next.skip_timestamp == s.skip_timestamp
            &&& rebased_time_lines(!s.skipping, s.skip_timestamp, s.preserve_time, seq![line] + ls) == time_lines(lines(written))
                + rebased_time_lines(!next.skipping, s.skip_timestamp, s.preserve_time, ls)
        }),
{
    let (next, written) = s.step(line)->Ok_0;
    lemma_step_written_lines(s, line);
    let none = Seq::<Seq<u8>>::empty();
    let all = seq![line] + ls;
    assert(all[0] == line);
    assert(all.drop_first() =~= ls);
    assert(time_lines(none) == none);
    if written.len() > 0 {
        let ws = seq![written];
        assert(ws[0] == written);
        assert(ws.drop_first() =~= none);
        assert(lines(written) == ws);
        if line[0] == TAG_TIME {
            assert(written == if s.preserve_time {
                line
            } else {
                numbered_line(TAG_TIME, (line_number(line)->0 - s.skip_timestamp) as nat)
            });
            assert(time_lines(ws) =~= ws);
        } else {
            assert(written[0] != TAG_TIME);
            assert(time_lines(ws) == none);
            assert(none + rebased_time_lines(!next.skipping, s.skip_timestamp, s.preserve_time, ls) =~= rebased_time_lines(
                !next.skipping,
                s.skip_timestamp,
                s.preserve_time,
                ls,
            ));
        }
    } else {
        assert(lines(written) =~= none);
        assert(none + rebased_time_lines(!next.skipping, s.skip_timestamp, s.preserve_time, ls) =~= rebased_time_lines(
            !next.skipping,
            s.skip_timestamp,
            s.preserve_time,
            ls,
        ));
    }
}

proof fn lemma_run_time_lines(s: Rewriter, pending: Seq<u8>, rest: Seq<u8>)
    requires
        run_from(s, pending, rest) is Ok,
        forall|i: int| 0 <= i < pending.len() ==> #[trigger] pending[i] != NEWLINE,
    ensures
        time_lines(lines(run_from(s, pending, rest)->Ok_0.1)) == rebased_time_lines(
            !s.skipping,
            s.skip_timestamp,
            s.preserve_time,
            lines_from(pending, rest),
        ),
    decreases rest.len(),
{
    let none = Seq::<Seq<u8>>::empty();
    if rest.len() == 0 {
        if pending.len() == 0 {
            assert(lines(Seq::<u8>::empty()) =~= none);
        } else {
            lemma_step_time_lines(s, pending, none);
            assert(seq![pending] + none =~= seq![pending]);
            let next = s.step(pending)->Ok_0.0;
            assert(rebased_time_lines(!next.skipping, s.skip_timestamp, s.preserve_time, none) == none);
            assert(time_lines(lines(s.step(pending)->Ok_0.1)) + none =~= time_lines(
                lines(s.step(pending)->Ok_0.1),
            ));
        }
    } else if rest[0] == NEWLINE {
        let line = pending.push(NEWLINE);
        assert forall|i: int| 0 <= i < line.len() - 1 implies #[trigger] line[i] != NEWLINE by {
            assert(line[i] == pending[i]);
        }
        lemma_step_other_lines(s, line);
        let (next, written) = s.step(line)->Ok_0;
        lemma_step_time_lines(s, line, lines_from(Seq::empty(), rest.drop_first()));
        lemma_run_time_lines(next, Seq::empty(), rest.drop_first());
        let tail = run_from(next, Seq::empty(), rest.drop_first())->Ok_0.1;
        if written.len() == 0 {
            assert(written + tail =~= tail);
            assert(lines(written) =~= none);
        } else {
            lemma_lines_concat(Seq::empty(), written, tail);
        }
        lemma_time_lines_add(lines(written), lines(tail));
    } else {
        let p2 = pending.push(rest[0]);
        assert forall|i: int| 0 <= i < p2.len() implies #[trigger] p2[i] != NEWLINE by {
            if i < pending.len() {
                assert(p2[i] == pending[i]);
            }
        }
        lemma_run_time_lines(s, p2, rest.drop_first());
    }
}

/// A successful rewrite writes no time line before the first one past the
/// threshold; from that one on it writes each time line `c t` as read if
/// time is preserved, else as `c <t - threshold>` in minimal hex.
pub proof fn lemma_time_lines_run(skip_timestamp: u64, preserve_time: bool, input: Seq<u8>)
    requires
        rewrite(skip_timestamp, preserve_time, input) is Ok,
    ensures
        time_lines(lines(rewrite(skip_timestamp, preserve_time, input)->Ok_0.1)) == rebased_time_lines(
            false,
            skip_timestamp,
            preserve_time,
            lines(input),
        ),
{
    lemma_run_time_lines(Rewriter::initial(skip_timestamp, preserve_time), Seq::empty(), input);
}

} // verus!
