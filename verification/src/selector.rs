//! The bit-range selector grammar: a string of the exact shape `[A:B]`
//! where `A` and `B` are each a decimal integer or the literal `MAX`
//! (which stands for 511). `A` names the high bound and `B` the low bound,
//! both inclusive. The parser is verified against the grammar's spec;
//! anything else yields `None`.

use vstd::prelude::*;
use vstd::string::*;

verus! {

/// True for an ASCII decimal digit.
pub open spec fn is_dec_digit(c: char) -> bool {
    48 <= c as u32 && c as u32 <= 57
}

/// The numeric value of a decimal digit.
pub open spec fn digit_val(c: char) -> int {
    c as u32 - 48
}

/// The value of a run of decimal digits, most significant first.
pub open spec fn digits_val(s: Seq<char>) -> int
    decreases s.len(),
{
    if s.len() == 0 {
        0
    } else {
        digits_val(s.drop_last()) * 10 + digit_val(s.last())
    }
}

/// Every character of `s` is a decimal digit.
pub open spec fn all_digits(s: Seq<char>) -> bool {
    forall|i: int| 0 <= i < s.len() ==> is_dec_digit(#[trigger] s[i])
}

/// The token is the literal `MAX`.
pub open spec fn is_max_token(s: Seq<char>) -> bool {
    s == seq!['M', 'A', 'X']
}

/// A valid bound token: the literal `MAX`, or a nonempty run of decimal
/// digits whose value fits a `usize`.
pub open spec fn token_ok(s: Seq<char>) -> bool {
    is_max_token(s) || (s.len() > 0 && all_digits(s) && digits_val(s) <= usize::MAX as int)
}

/// The value a bound token denotes: 511 for `MAX`, else its decimal value.
pub open spec fn token_val(s: Seq<char>) -> int {
    if is_max_token(s) {
        511
    } else {
        digits_val(s)
    }
}

/// The position of the first colon at or after `i`, or -1 if none.
pub open spec fn first_colon_from(s: Seq<char>, i: int) -> int
    decreases s.len() - i,
{
    if i < 0 || i >= s.len() {
        -1
    } else if s[i] == ':' {
        i
    } else {
        first_colon_from(s, i + 1)
    }
}

/// The parse of a bit-range selector. It succeeds exactly on strings of the
/// shape `[A:B]` with valid bound tokens `A` and `B`, and yields
/// `(value of A, value of B)`: the high and the low bound.
pub open spec fn spec_parse_selector(s: Seq<char>) -> Option<(usize, usize)> {
    let n = s.len() as int;
    let c = first_colon_from(s, 0);
    if n >= 2 && s[0] == '[' && s[n - 1] == ']' && 2 <= c <= n - 3 && token_ok(
        s.subrange(1, c),
    ) && token_ok(s.subrange(c + 1, n - 1)) {
        Some(
            (
                token_val(s.subrange(1, c)) as usize,
                token_val(s.subrange(c + 1, n - 1)) as usize,
            ),
        )
    } else {
        None
    }
}

/// The value of a digit run never shrinks as the run extends to the right.
proof fn lemma_digits_val_monotone(s: Seq<char>, k: int)
    requires
        all_digits(s),
        0 <= k <= s.len(),
    ensures
        digits_val(s) >= digits_val(s.take(k)),
        digits_val(s.take(k)) >= 0,
    decreases s.len() - k,
{
    if k == s.len() {
        assert(s.take(k) =~= s);
        lemma_digits_val_nonneg(s);
    } else {
        lemma_digits_val_monotone(s, k + 1);
        assert(s.take(k + 1).drop_last() =~= s.take(k));
        assert(s.take(k + 1).last() == s[k]);
        lemma_digits_val_nonneg(s.take(k));
    }
}

/// The value of an all-digit run is nonnegative.
proof fn lemma_digits_val_nonneg(s: Seq<char>)
    requires
        all_digits(s),
    ensures
        digits_val(s) >= 0,
    decreases s.len(),
{
    if s.len() > 0 {
        assert(all_digits(s.drop_last()));
        lemma_digits_val_nonneg(s.drop_last());
    }
}

/// Parses the token in `s[from .. to]`: `Some` of its value exactly when it
/// is a valid bound token.
fn token_value(s: &str, from: usize, to: usize) -> (r: Option<usize>)
    requires
        from <= to <= s@.len(),
    ensures
        token_ok(s@.subrange(from as int, to as int)) ==> r == Some(
            token_val(s@.subrange(from as int, to as int)) as usize,
        ),
        !token_ok(s@.subrange(from as int, to as int)) ==> r is None,
{
    let ghost sub = s@.subrange(from as int, to as int);
    if to - from == 3 {
        let c0 = s.get_char(from);
        let c1 = s.get_char(from + 1);
        let c2 = s.get_char(from + 2);
        if c0 == 'M' && c1 == 'A' && c2 == 'X' {
            proof {
                assert(sub =~= seq!['M', 'A', 'X']);
            }
            return Some(511);
        }
        proof {
            assert(!is_max_token(sub));
        }
    } else {
        proof {
            assert(seq!['M', 'A', 'X'].len() == 3);
            assert(sub.len() != 3);
            assert(!is_max_token(sub));
        }
    }
    if from == to {
        return None;
    }
    let mut acc: usize = 0;
    let mut i: usize = from;
    while i < to
        invariant
            from <= i <= to <= s@.len(),
            from < to,
            sub == s@.subrange(from as int, to as int),
            !is_max_token(sub),
            all_digits(sub.take(i - from)),
            acc as int == digits_val(sub.take(i - from)),
        decreases to - i,
    {
        let c = s.get_char(i);
        let u = c as u32;
        if u < 48 || u > 57 {
            proof {
                assert(sub[i - from] == s@[i as int]);
                assert(!all_digits(sub));
            }
            return None;
        }
        let d = (u - 48) as usize;
        proof {
            assert(sub.take(i + 1 - from).drop_last() =~= sub.take(i - from));
            assert(sub.take(i + 1 - from).last() == sub[i - from]);
            assert(sub[i - from] == s@[i as int]);
        }
        if acc > (usize::MAX - d) / 10 {
            proof {
                vstd::arithmetic::div_mod::lemma_fundamental_div_mod(
                    (usize::MAX - d) as int,
                    10,
                );
                assert(acc * 10 + d > usize::MAX);
                assert(digits_val(sub.take(i + 1 - from)) > usize::MAX as int);
                lemma_digits_val_monotone_cond(sub, i + 1 - from);
            }
            return None;
        }
        proof {
            vstd::arithmetic::div_mod::lemma_fundamental_div_mod((usize::MAX - d) as int, 10);
            assert(acc * 10 + d <= usize::MAX);
        }
        acc = acc * 10 + d;
        i = i + 1;
    }
    proof {
        assert(sub.take(to - from) =~= sub);
        assert(token_ok(sub));
        assert(token_val(sub) == digits_val(sub));
    }
    Some(acc)
}

/// If the whole token is made of digits, its value exceeds the value of any
/// prefix; so once a prefix overflows a `usize`, the token is invalid.
proof fn lemma_digits_val_monotone_cond(s: Seq<char>, k: int)
    requires
        0 <= k <= s.len(),
        digits_val(s.take(k)) > usize::MAX as int,
    ensures
        !token_ok(s) || is_max_token(s),
{
    if all_digits(s) {
        lemma_digits_val_monotone(s, k);
    }
}

/// Parses a bit-range selector string; the verified counterpart of the
/// grammar in `spec_parse_selector`.
pub fn parse_selector(s: &str) -> (r: Option<(usize, usize)>)
    ensures
        r == spec_parse_selector(s@),
{
    let n = s.unicode_len();
    if n < 5 {
        return None;
    }
    if s.get_char(0) != '[' {
        return None;
    }
    if s.get_char(n - 1) != ']' {
        return None;
    }
    let mut c: usize = 0;
    loop
        invariant
            0 <= c <= n,
            n == s@.len(),
            n >= 5,
            forall|j: int| 0 <= j < c ==> s@[j] != ':',
        ensures
            first_colon_from(s@, 0) == (if c < n {
                c as int
            } else {
                -1
            }),
            c < n ==> s@[c as int] == ':',
        decreases n - c,
    {
        if c == n {
            proof {
                lemma_first_colon_skip_full(s@, c as int);
            }
            break;
        }
        if s.get_char(c) == ':' {
            proof {
                lemma_first_colon_skip_full(s@, c as int);
            }
            break;
        }
        c = c + 1;
    }
    if c == n {
        return None;
    }
    if c < 2 || n - c < 3 {
        return None;
    }
    let hi = token_value(s, 1, c);
    let lo = token_value(s, c + 1, n - 1);
    match (hi, lo) {
        (Some(a), Some(b)) => Some((a, b)),
        _ => None,
    }
}

/// The first colon of `s` is at `i` when nothing before `i` is a colon and
/// either `i` is past the end (no colon at all) or `s[i]` is a colon.
proof fn lemma_first_colon_skip_full(s: Seq<char>, i: int)
    requires
        0 <= i <= s.len(),
        forall|j: int| 0 <= j < i ==> s[j] != ':',
        i < s.len() ==> s[i] == ':',
    ensures
        first_colon_from(s, 0) == (if i < s.len() {
            i
        } else {
            -1
        }),
{
    lemma_first_colon_stall(s, 0, i);
}

/// Helper: advancing the scan start over non-colons keeps the result.
proof fn lemma_first_colon_stall(s: Seq<char>, lo: int, i: int)
    requires
        0 <= lo <= i <= s.len(),
        forall|j: int| lo <= j < i ==> s[j] != ':',
        i < s.len() ==> s[i] == ':',
    ensures
        first_colon_from(s, lo) == (if i < s.len() {
            i
        } else {
            -1
        }),
    decreases i - lo,
{
    if lo < i {
        lemma_first_colon_stall(s, lo + 1, i);
    }
}

} // verus!
