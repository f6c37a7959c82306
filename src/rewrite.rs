//! The line-by-line rewrite: skip window, index rebasing and pass-through.
use vstd::prelude::*;
use crate::hex::{hex_of, hex_value, is_hex_literal, parse_hex, write_hex};
use crate::line::{argument, line_argument, NEWLINE, SPACE};

verus! {

/// Why a trace could not be rewritten.
#[derive(Clone, Copy, Debug, PartialEq, Eq, Structural)]
pub enum FilterError {
    /// A numeric argument was missing, held a non-hex byte, or did not fit in 64 bits.
    MalformedNumber,
    /// A rebased allocation index would leave a gap above the largest one written.
    RebaseInvariantViolation,
    /// A time command after the cut lies before the skip threshold, so it
    /// cannot be rebased to a non-negative time.
    TimeBeforeCut,
}


/// Command letter of a time line (`c`).
pub const TAG_TIME: u8 = 99;
/// Command letter of an allocation event (`+`).
pub const TAG_ALLOC: u8 = 43;
/// Command letter of a free event (`-`).
pub const TAG_FREE: u8 = 45;
/// Command letter of an allocation definition (`a`).
pub const TAG_DEFINE: u8 = 97;

pub open spec fn is_event_tag(b: u8) -> bool {
    b == TAG_ALLOC || b == TAG_FREE
}

/// The hex number that a time or event line carries, if it is well formed.
pub open spec fn line_number(line: Seq<u8>) -> Option<u64> {
    match line_argument(line) {
        Some(a) => if is_hex_literal(a) {
            Some(hex_value(a) as u64)
        } else {
            None
        },
        None => None,
    }
}

/// The line `<tag> <hex n>` followed by a newline.
pub open spec fn numbered_line(tag: u8, n: nat) -> Seq<u8> {
    seq![tag, SPACE] + hex_of(n) + seq![NEWLINE]
}

/// The whole state of one rewrite: the two settings and the four counters.
#[derive(Clone, Copy, Debug)]
pub struct Rewriter {
    /// Elapsed time (ms) up to which the trace is discarded.
    pub skip_timestamp: u64,
    /// Write kept time lines as they are instead of rebasing them.
    pub preserve_time: bool,
    /// Highest allocation index referenced while discarding; frozen afterwards.
    pub correction: u64,
    /// Highest rebased allocation index written so far.
    pub largest_written: u64,
    /// Still in the discarding phase.
    pub skipping: bool,
    /// Elapsed time of the latest time line.
    pub elapsed: u64,
}

impl Rewriter {
    /// The state before any line was read.
    pub open spec fn initial(skip_timestamp: u64, preserve_time: bool) -> Rewriter {
        Rewriter {
            skip_timestamp,
            preserve_time,
            correction: 0,
            largest_written: 0,
            skipping: true,
            elapsed: 0,
        }
    }

    /// A time line carrying `t`: next state and output.
    pub open spec fn time_step(self, line: Seq<u8>, t: u64) -> Result<(Rewriter, Seq<u8>), FilterError> {
        let skipping = self.skipping && t <= self.skip_timestamp;
        let next = Rewriter {
            skip_timestamp: self.skip_timestamp,
            preserve_time: self.preserve_time,
            correction: self.correction,
            largest_written: self.largest_written,
            skipping,
            elapsed: t,
        };
        if skipping {
            Ok((next, Seq::empty()))
        } else if self.preserve_time {
            Ok((next, line))
        } else if t < self.skip_timestamp {
            Err(FilterError::TimeBeforeCut)
        } else {
            Ok((next, numbered_line(TAG_TIME, (t - self.skip_timestamp) as nat)))
        }
    }

    /// An event line with tag `tag` referencing allocation `i`: next state and output.
    pub open spec fn event_step(self, tag: u8, i: u64) -> Result<(Rewriter, Seq<u8>), FilterError> {
        if i <= self.correction {
            Ok((self, Seq::empty()))
        } else if self.skipping {
            Ok((Rewriter { correction: i, ..self }, Seq::empty()))
        } else {
            let n = i - self.correction - 1;
            if n > self.largest_written + 1 {
                Err(FilterError::RebaseInvariantViolation)
            } else {
                let largest = if n > self.largest_written { n as u64 } else { self.largest_written };
                Ok((Rewriter { largest_written: largest, ..self }, numbered_line(tag, n as nat)))
            }
        }
    }

    /// One line: next state and the bytes written for it.
    pub open spec fn step(self, line: Seq<u8>) -> Result<(Rewriter, Seq<u8>), FilterError> {
        if line.len() == 0 {
            Ok((self, line))
        } else if line[0] == TAG_TIME || is_event_tag(line[0]) {
            match line_number(line) {
                None => Err(FilterError::MalformedNumber),
                Some(v) => if line[0] == TAG_TIME {
                    self.time_step(line, v)
                } else {
                    self.event_step(line[0], v)
                },
            }
        } else if line[0] == TAG_DEFINE {
            Ok((self, if self.skipping { Seq::empty() } else { line }))
        } else {
            Ok((self, line))
        }
    }

    /// A rewriter that discards the trace up to `skip_timestamp` ms.
    pub fn new(skip_timestamp: u64, preserve_time: bool) -> (r: Rewriter)
        ensures
            r == Rewriter::initial(skip_timestamp, preserve_time),
    {
        Rewriter {
            skip_timestamp,
            preserve_time,
            correction: 0,
            largest_written: 0,
            skipping: true,
            elapsed: 0,
        }
    }

    /// Elapsed time of the latest time line read.
    pub fn elapsed(&self) -> (r: u64)
        ensures
            r == self.elapsed,
    {
        self.elapsed
    }

    /// Whether the rewriter is still discarding.
    pub fn is_skipping(&self) -> (r: bool)
        ensures
            r == self.skipping,
    {
        self.skipping
    }

    /// Handles one line, appending what it keeps to `out`. Returns whether this
    /// line ended the discarding phase. On error nothing changes.
    pub fn process_line(&mut self, line: &[u8], out: &mut Vec<u8>) -> (r: Result<bool, FilterError>)
        ensures
            match old(self).step(line@) {
                Ok((next, written)) => {
                    &&& r == Ok::<bool, FilterError>(old(self).skipping && !next.skipping)
                    &&& *final(self) == next
                    &&& final(out)@ == old(out)@ + written
                },
                Err(e) => {
                    &&& r == Err::<bool, FilterError>(e)
                    &&& *final(self) == *old(self)
                    &&& final(out)@ == old(out)@
                },
            },
    {
        let n = line.len();
        if n == 0 {
            assert(out@ =~= out@ + line@);
            return Ok(false);
        }
        let tag = line[0];
        if tag == TAG_TIME || tag == TAG_ALLOC || tag == TAG_FREE {
            let v = match argument(line) {
                None => {
                    return Err(FilterError::MalformedNumber);
                },
                Some(a) => match parse_hex(a) {
                    Ok(v) => v,
                    Err(e) => {
                        return Err(e);
                    },
                },
            };
            if tag == TAG_TIME {
                let skipping = self.skipping && v <= self.skip_timestamp;
                if !skipping && !self.preserve_time && v < self.skip_timestamp {
                    return Err(FilterError::TimeBeforeCut);
                }
                let was_skipping = self.skipping;
                self.elapsed = v;
                self.skipping = skipping;
                if skipping {
                    assert(out@ =~= out@ + Seq::<u8>::empty());
                } else if self.preserve_time {
                    append(out, line);
                } else {
                    let ghost before = out@;
                    out.push(TAG_TIME);
                    out.push(SPACE);
                    write_hex(out, v - self.skip_timestamp);
                    out.push(NEWLINE);
                    assert(out@ =~= before + numbered_line(TAG_TIME, (v - self.skip_timestamp) as nat));
                }
                Ok(was_skipping && !skipping)
            } else if v <= self.correction {
                assert(out@ =~= out@ + Seq::<u8>::empty());
                Ok(false)
            } else if self.skipping {
                self.correction = v;
                assert(out@ =~= out@ + Seq::<u8>::empty());
                Ok(false)
            } else {
                let rebased = v - self.correction - 1;
                if rebased > self.largest_written && rebased - self.largest_written > 1 {
                    return Err(FilterError::RebaseInvariantViolation);
                }
                let ghost before = out@;
                out.push(tag);
                out.push(SPACE);
                write_hex(out, rebased);
                out.push(NEWLINE);
                assert(out@ =~= before + numbered_line(tag, rebased as nat));
                if rebased > self.largest_written {
                    self.largest_written = rebased;
                }
                Ok(false)
            }
        } else if tag == TAG_DEFINE {
            if self.skipping {
                assert(out@ =~= out@ + Seq::<u8>::empty());
            } else {
                append(out, line);
            }
            Ok(false)
        } else {
            append(out, line);
            Ok(false)
        }
    }
}

/// Appends every byte of `bytes` to `out`.
pub fn append(out: &mut Vec<u8>, bytes: &[u8])
    ensures
        final(out)@ == old(out)@ + bytes@,
{
    let ghost before = out@;
    let mut i: usize = 0;
    while i < bytes.len()
        invariant
            0 <= i <= bytes@.len(),
            out@ == before + bytes@.subrange(0, i as int),
        decreases bytes@.len() - i,
    {
        out.push(bytes[i]);
        i = i + 1;
        assert(out@ =~= before + bytes@.subrange(0, i as int));
    }
    assert(bytes@.subrange(0, i as int) =~= bytes@);
}

} // verus!
