//! Minimal-width lowercase hexadecimal numbers, as the trace format writes them.
use vstd::prelude::*;

verus! {

pub const CHAR_0: u8 = 48;
pub const CHAR_9: u8 = 57;
pub const LOWER_A: u8 = 97;
pub const LOWER_F: u8 = 102;
pub const UPPER_A: u8 = 65;
pub const UPPER_F: u8 = 70;

/// Whether `b` is an ASCII hex digit (either case).
pub open spec fn is_hex_digit(b: u8) -> bool {
    (CHAR_0 <= b && b <= CHAR_9) || (LOWER_A <= b && b <= LOWER_F) || (UPPER_A <= b && b <= UPPER_F)
}

/// The value of one hex digit; 0 for any other byte.
pub open spec fn digit_value(b: u8) -> nat {
    if CHAR_0 <= b && b <= CHAR_9 {
        (b - CHAR_0) as nat
    } else if LOWER_A <= b && b <= LOWER_F {
        (b - LOWER_A + 10) as nat
    } else if UPPER_A <= b && b <= UPPER_F {
        (b - UPPER_A + 10) as nat
    } else {
        0
    }
}

/// The number that the digits of `s` spell, most significant first.
pub open spec fn hex_value(s: Seq<u8>) -> nat
    decreases s.len(),
{
    if s.len() == 0 {
        0
    } else {
        hex_value(s.drop_last()) * 16 + digit_value(s.last())
    }
}

/// A well-formed hex literal: only digits, and a value that fits in 64 bits.
/// The empty literal has the value 0.
pub open spec fn is_hex_literal(s: Seq<u8>) -> bool {
    &&& forall|i: int| 0 <= i < s.len() ==> is_hex_digit(#[trigger] s[i])
    &&& hex_value(s) <= u64::MAX
}

/// The lowercase digit for `d < 16`.
pub open spec fn digit_char(d: nat) -> u8 {
    if d < 10 {
        (CHAR_0 + d) as u8
    } else {
        (LOWER_A + (d - 10)) as u8
    }
}

/// The minimal lowercase hex spelling of `n`; zero is written `0`.
pub open spec fn hex_of(n: nat) -> Seq<u8>
    decreases n,
{
    if n < 16 {
        seq![digit_char(n)]
    } else {
        hex_of(n / 16).push(digit_char(n % 16))
    }
}

/// A canonical literal: the one `hex_of` writes for its value.
pub open spec fn is_canonical_hex(s: Seq<u8>) -> bool {
    &&& s.len() > 0
    &&& is_hex_literal(s)
    &&& forall|i: int| 0 <= i < s.len() ==> !(UPPER_A <= #[trigger] s[i] && s[i] <= UPPER_F)
    &&& (s[0] == CHAR_0 ==> s.len() == 1)
}

proof fn lemma_hex_value_prefix_monotonic(s: Seq<u8>, j: int, k: int)
    requires
        0 <= j <= k <= s.len(),
    ensures
        hex_value(s.subrange(0, j)) <= hex_value(s.subrange(0, k)),
    decreases k - j,
{
    if j < k {
        lemma_hex_value_prefix_monotonic(s, j, k - 1);
        assert(s.subrange(0, k).drop_last() =~= s.subrange(0, k - 1));
    }
}

/// Reads a hex literal (digits `0-9a-fA-F`, no sign, no prefix).
pub fn parse_hex(input: &[u8]) -> (r: Result<u64, crate::rewrite::FilterError>)
    ensures
        match r {
            Ok(v) => is_hex_literal(input@) && v == hex_value(input@),
            Err(e) => !is_hex_literal(input@) && e == crate::rewrite::FilterError::MalformedNumber,
        },
{
    let n = input.len();
    let mut rv: u64 = 0;
    let mut i: usize = 0;
    while i < n
        invariant
            n == input@.len(),
            0 <= i <= n,
            rv == hex_value(input@.subrange(0, i as int)),
            forall|j: int| 0 <= j < i ==> is_hex_digit(#[trigger] input@[j]),
        decreases n - i,
    {
        let c = input[i];
        let d: u8 = if CHAR_0 <= c && c <= CHAR_9 {
            c - CHAR_0
        } else if LOWER_A <= c && c <= LOWER_F {
            c - LOWER_A + 10
        } else if UPPER_A <= c && c <= UPPER_F {
            c - UPPER_A + 10
        } else {
            assert(!is_hex_digit(input@[i as int]));
            return Err(crate::rewrite::FilterError::MalformedNumber);
        };
        assert(input@.subrange(0, i + 1).drop_last() =~= input@.subrange(0, i as int));
        if rv >= 0x1000_0000_0000_0000 {
            proof {
                lemma_hex_value_prefix_monotonic(input@, i + 1, n as int);
                assert(input@.subrange(0, n as int) =~= input@);
            }
            return Err(crate::rewrite::FilterError::MalformedNumber);
        }
        rv = rv * 16 + d as u64;
        i = i + 1;
    }
    assert(input@.subrange(0, n as int) =~= input@);
    Ok(rv)
}

/// Appends the minimal lowercase hex spelling of `input` to `out`.
pub fn write_hex(out: &mut Vec<u8>, input: u64)
    ensures
        final(out)@ == old(out)@ + hex_of(input as nat),
    decreases input,
{
    let ghost before = out@;
    if input >= 16 {
        write_hex(out, input / 16);
    }
    let d: u8 = (input % 16) as u8;
    let c: u8 = if d < 10 {
        CHAR_0 + d
    } else {
        LOWER_A + (d - 10)
    };
    out.push(c);
    assert(out@ =~= before + hex_of(input as nat));
}

} // verus!

verus! {

proof fn lemma_digit_char(d: nat)
    requires
        d < 16,
    ensures
        is_hex_digit(digit_char(d)),
        digit_value(digit_char(d)) == d,
        !(UPPER_A <= digit_char(d) && digit_char(d) <= UPPER_F),
        digit_char(d) == CHAR_0 <==> d == 0,
{
}

proof fn lemma_hex_of_shape(n: nat)
    ensures
        hex_of(n).len() > 0,
        forall|i: int| 0 <= i < hex_of(n).len() ==> is_hex_digit(#[trigger] hex_of(n)[i]),
        forall|i: int| 0 <= i < hex_of(n).len() ==> !(UPPER_A <= #[trigger] hex_of(n)[i] && hex_of(n)[i] <= UPPER_F),
        hex_of(n)[0] == CHAR_0 ==> n == 0,
        hex_value(hex_of(n)) == n,
    decreases n,
{
    if n < 16 {
        lemma_digit_char(n);
        assert(hex_of(n).drop_last() =~= Seq::<u8>::empty());
        assert(hex_value(Seq::<u8>::empty()) == 0);
        assert(hex_of(n).last() == digit_char(n));
    } else {
        lemma_hex_of_shape(n / 16);
        lemma_digit_char(n % 16);
        assert(hex_of(n).drop_last() =~= hex_of(n / 16));
        assert(hex_of(n).last() == digit_char(n % 16));
        assert(hex_value(hex_of(n)) == hex_value(hex_of(n / 16)) * 16 + n % 16);
        assert(forall|i: int| 0 <= i < hex_of(n / 16).len() ==> hex_of(n)[i] == hex_of(n / 16)[i]);
    }
}

/// Decoding what `write_hex` writes gives the number back, and what it
/// writes is a canonical literal.
pub proof fn lemma_decode_encode(n: u64)
    ensures
        is_canonical_hex(hex_of(n as nat)),
        hex_value(hex_of(n as nat)) == n,
{
    lemma_hex_of_shape(n as nat);
}

proof fn lemma_leading_digit_positive(s: Seq<u8>)
    requires
        s.len() > 0,
        is_hex_digit(s[0]),
        s[0] != CHAR_0,
    ensures
        hex_value(s) > 0,
    decreases s.len(),
{
    if s.len() > 1 {
        lemma_leading_digit_positive(s.drop_last());
    } else {
        assert(s.drop_last().len() == 0);
    }
}

/// Encoding the value of a canonical literal (lowercase, no leading zeros,
/// fits in 64 bits) gives the same literal back.
pub proof fn lemma_encode_decode(s: Seq<u8>)
    requires
        is_canonical_hex(s),
    ensures
        hex_of(hex_value(s)) == s,
    decreases s.len(),
{
    let d = s.last();
    assert(is_hex_digit(s[s.len() - 1]));
    assert(!(UPPER_A <= s[s.len() - 1] && s[s.len() - 1] <= UPPER_F));
    if s.len() == 1 {
        assert(s.drop_last() =~= Seq::<u8>::empty());
        assert(hex_value(Seq::<u8>::empty()) == 0);
        assert(hex_value(s) == digit_value(d));
        assert(hex_of(hex_value(s)) =~= s);
    } else {
        let p = s.drop_last();
        assert(p[0] == s[0]);
        assert(is_hex_digit(s[0]));
        lemma_leading_digit_positive(p);
        assert(is_canonical_hex(p)) by {
            assert forall|i: int| 0 <= i < p.len() implies is_hex_digit(#[trigger] p[i]) by {
                assert(p[i] == s[i]);
            }
            assert forall|i: int| 0 <= i < p.len() implies !(UPPER_A <= #[trigger] p[i] && p[i] <= UPPER_F) by {
                assert(p[i] == s[i]);
            }
        }
        lemma_encode_decode(p);
        let v = hex_value(s);
        assert(v / 16 == hex_value(p) && v % 16 == digit_value(d));
        assert(hex_of(v) =~= s);
    }
}

} // verus!
