//! Finding the numeric argument of a trace line.
use vstd::prelude::*;

verus! {

pub const SPACE: u8 = 32;
pub const NEWLINE: u8 = 10;
pub const TAB: u8 = 9;
pub const FORM_FEED: u8 = 12;
pub const CARRIAGE_RETURN: u8 = 13;

/// ASCII whitespace as Rust's `u8::is_ascii_whitespace` defines it.
pub open spec fn is_ascii_whitespace(b: u8) -> bool {
    b == SPACE || b == TAB || b == NEWLINE || b == FORM_FEED || b == CARRIAGE_RETURN
}

/// The length of `s.subrange(0, n)` once trailing whitespace is removed.
pub open spec fn trimmed_len(s: Seq<u8>, n: int) -> int
    decreases n,
{
    if n <= 0 {
        0
    } else if is_ascii_whitespace(s[n - 1]) {
        trimmed_len(s, n - 1)
    } else {
        n
    }
}

/// The position of the first space at or after `k`, or `s.len()` if none.
pub open spec fn next_space(s: Seq<u8>, k: int) -> int
    decreases s.len() - k,
{
    if k >= s.len() {
        s.len() as int
    } else if s[k] == SPACE {
        k
    } else {
        next_space(s, k + 1)
    }
}

/// The second space-separated field of the line, trailing whitespace removed;
/// `None` when the line has no space.
pub open spec fn line_argument(line: Seq<u8>) -> Option<Seq<u8>> {
    let t = line.subrange(0, trimmed_len(line, line.len() as int));
    let p = next_space(t, 0);
    if p >= t.len() {
        None
    } else {
        Some(t.subrange(p + 1, next_space(t, p + 1)))
    }
}

fn find_space(s: &[u8], from: usize) -> (r: usize)
    requires
        from <= s@.len(),
    ensures
        r == next_space(s@, from as int),
        from <= r <= s@.len(),
{
    let mut i = from;
    while i < s.len()
        invariant
            from <= i <= s@.len(),
            next_space(s@, from as int) == next_space(s@, i as int),
        decreases s@.len() - i,
    {
        if s[i] == SPACE {
            return i;
        }
        i = i + 1;
    }
    i
}

/// The second space-separated field of `line`, trailing whitespace removed.
pub fn argument(line: &[u8]) -> (r: Option<&[u8]>)
    ensures
        match line_argument(line@) {
            Some(a) => r is Some && r->0@ == a,
            None => r is None,
        },
{
    let mut n = line.len();
    while n > 0 && is_ascii_whitespace_byte(line[n - 1])
        invariant
            0 <= n <= line@.len(),
            trimmed_len(line@, line@.len() as int) == trimmed_len(line@, n as int),
        decreases n,
    {
        n = n - 1;
    }
    let t = vstd::slice::slice_subrange(line, 0, n);
    let p = find_space(t, 0);
    if p >= t.len() {
        None
    } else {
        let q = find_space(t, p + 1);
        Some(vstd::slice::slice_subrange(t, p + 1, q))
    }
}

fn is_ascii_whitespace_byte(b: u8) -> (r: bool)
    ensures
        r == is_ascii_whitespace(b),
{
    b == SPACE || b == TAB || b == NEWLINE || b == FORM_FEED || b == CARRIAGE_RETURN
}

} // verus!
