//! Rewriting a whole trace held in memory.
use vstd::prelude::*;
use crate::line::NEWLINE;
use crate::rewrite::{FilterError, Rewriter};

verus! {

/// `r` with `prefix` put in front of its output.
pub open spec fn prepend_output(prefix: Seq<u8>, r: Result<(Rewriter, Seq<u8>), FilterError>) -> Result<(Rewriter, Seq<u8>), FilterError> {
    match r {
        Ok((s, o)) => Ok((s, prefix + o)),
        Err(e) => Err(e),
    }
}

/// Feeds the bytes `rest` to the rewriter in state `s`, where `pending` holds
/// the part of the current line read so far. A line ends after a newline, or
/// at the end of the input if it is not empty.
pub open spec fn run_from(s: Rewriter, pending: Seq<u8>, rest: Seq<u8>) -> Result<(Rewriter, Seq<u8>), FilterError>
    decreases rest.len(),
{
    if rest.len() == 0 {
        if pending.len() == 0 {
            Ok((s, Seq::empty()))
        } else {
            s.step(pending)
        }
    } else if rest[0] == NEWLINE {
        match s.step(pending.push(NEWLINE)) {
            Err(e) => Err(e),
            Ok((next, written)) => prepend_output(written, run_from(next, Seq::empty(), rest.drop_first())),
        }
    } else {
        run_from(s, pending.push(rest[0]), rest.drop_first())
    }
}

/// The final state and output of rewriting the trace `input`.
pub open spec fn rewrite(skip_timestamp: u64, preserve_time: bool, input: Seq<u8>) -> Result<(Rewriter, Seq<u8>), FilterError> {
    run_from(Rewriter::initial(skip_timestamp, preserve_time), Seq::empty(), input)
}

/// Rewrites a whole trace: drops what precedes `skip_timestamp` ms and
/// renumbers the allocation references that remain.
pub fn run_main(skip_timestamp: u64, preserve_time: bool, input: &[u8]) -> (r: Result<Vec<u8>, FilterError>)
    ensures
        match rewrite(skip_timestamp, preserve_time, input@) {
            Ok((_, written)) => r is Ok && r->Ok_0@ == written,
            Err(e) => r == Err::<Vec<u8>, FilterError>(e),
        },
{
    let mut state = Rewriter::new(skip_timestamp, preserve_time);
    let mut out: Vec<u8> = Vec::new();
    let n = input.len();
    let mut start: usize = 0;
    let mut i: usize = 0;
    assert(input@.subrange(0, 0) =~= Seq::<u8>::empty());
    assert(input@.subrange(0, n as int) =~= input@);
    while i < n
        invariant
            n == input@.len(),
            start <= i <= n,
            rewrite(skip_timestamp, preserve_time, input@) == prepend_output(
                out@,
                run_from(state, input@.subrange(start as int, i as int), input@.subrange(i as int, n as int)),
            ),
        decreases n - i,
    {
        let ghost rest = input@.subrange(i as int, n as int);
        let ghost pending = input@.subrange(start as int, i as int);
        assert(rest[0] == input@[i as int]);
        assert(rest.drop_first() =~= input@.subrange(i + 1, n as int));
        assert(pending.push(input@[i as int]) =~= input@.subrange(start as int, i + 1));
        if input[i] == NEWLINE {
            let line = vstd::slice::slice_subrange(input, start, i + 1);
            let ghost out_before = out@;
            let ghost state_before = state;
            match state.process_line(line, &mut out) {
                Ok(_) => {},
                Err(e) => {
                    return Err(e);
                },
            }
            proof {
                let (next, written) = state_before.step(line@)->Ok_0;
                assert(next == state);
                assert(out@ == out_before + written);
                let tail = run_from(state, Seq::empty(), rest.drop_first());
                assert(run_from(state_before, pending, rest) == prepend_output(written, tail));
                match tail {
                    Ok((s2, o2)) => {
                        assert(out_before + (written + o2) =~= out@ + o2);
                    },
                    Err(_) => {},
                }
            }
            start = i + 1;
            assert(input@.subrange(start as int, start as int) =~= Seq::<u8>::empty());
        } else {
            assert(run_from(state, pending, rest) == run_from(state, pending.push(input@[i as int]), rest.drop_first()));
        }
        i = i + 1;
    }
    if start < n {
        let line = vstd::slice::slice_subrange(input, start, n);
        let ghost out_before = out@;
        match state.process_line(line, &mut out) {
            Ok(_) => {},
            Err(e) => {
                return Err(e);
            },
        }
    } else {
        assert(out@ + Seq::<u8>::empty() =~= out@);
    }
    Ok(out)
}

} // verus!
