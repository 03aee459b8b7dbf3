//! Which texts are numbers.

use vstd::prelude::*;
use crate::text::chars_of;

verus! {

/// The ten decimal digits.
pub open spec fn is_digit(c: char) -> bool {
    '0' <= c && c <= '9'
}

/// Every character of `s` from `from` up to `to` is a digit.
pub open spec fn digits_between(s: Seq<char>, from: int, to: int) -> bool {
    forall|i: int| from <= i < to ==> is_digit(#[trigger] s[i])
}

/// Whether a sign stands at `at`: 1 if so, else 0.
pub open spec fn sign_at(s: Seq<char>, at: int) -> int {
    if 0 <= at < s.len() && (s[at] == '+' || s[at] == '-') {
        1
    } else {
        0
    }
}

/// `s` from `from` up to `to` is a mantissa: digits with at most one dot
/// among them, before, between or after them, and at least one digit.
pub open spec fn mantissa_between(s: Seq<char>, from: int, to: int) -> bool {
    ||| from < to && digits_between(s, from, to)
    ||| exists|dot: int|
        from <= dot < to && #[trigger] s[dot] == '.' && to - from > 1 && digits_between(
            s,
            from,
            dot,
        ) && digits_between(s, dot + 1, to)
}

/// `s` from `from` up to `to` is an exponent: the letter `e` in either case,
/// an optional sign, and at least one digit.
pub open spec fn exponent_between(s: Seq<char>, from: int, to: int) -> bool {
    let digits = from + 1 + sign_at(s, from + 1);
    &&& from < to
    &&& (s[from] == 'e' || s[from] == 'E')
    &&& digits < to
    &&& digits_between(s, digits, to)
}

/// `s` from `from` to its end is a mantissa, with or without an exponent
/// behind it.
pub open spec fn number_from(s: Seq<char>, from: int) -> bool {
    exists|end: int|
        from <= end <= s.len() && #[trigger] mantissa_between(s, from, end) && (end == s.len()
            || exponent_between(s, end, s.len() as int))
}

/// `s` from `from` to its end is `word`, each letter in either case.
pub open spec fn spells(s: Seq<char>, from: int, lower: Seq<char>, upper: Seq<char>) -> bool {
    &&& s.len() - from == lower.len()
    &&& forall|i: int|
        0 <= i < lower.len() ==> #[trigger] s[from + i] == lower[i] || s[from + i] == upper[i]
}

/// `s` from `from` to its end names infinity or not-a-number.
pub open spec fn special_from(s: Seq<char>, from: int) -> bool {
    ||| spells(s, from, seq!['i', 'n', 'f'], seq!['I', 'N', 'F'])
    ||| spells(s, from, seq!['n', 'a', 'n'], seq!['N', 'A', 'N'])
    ||| spells(
        s,
        from,
        seq!['i', 'n', 'f', 'i', 'n', 'i', 't', 'y'],
        seq!['I', 'N', 'F', 'I', 'N', 'I', 'T', 'Y'],
    )
}

/// The texts that stand for a floating-point number: an optional sign, then
/// either a decimal number (digits, at most one dot, an optional exponent) or
/// one of the words `inf`, `infinity` and `nan` in any mix of cases. Nothing
/// may stand before or behind, so the empty text, a lone sign and a lone dot
/// are no numbers.
pub open spec fn is_float_literal(s: Seq<char>) -> bool {
    number_from(s, sign_at(s, 0)) || special_from(s, sign_at(s, 0))
}

/// Counts the digits that start at `from`.
fn digit_run(chars: &Vec<char>, from: usize) -> (n: usize)
    requires
        from <= chars.len(),
    ensures
        from + n <= chars.len(),
        digits_between(chars@, from as int, from + n),
        from + n < chars.len() ==> !is_digit(chars[from + n]),
{
    let mut end: usize = from;
    while end < chars.len() && chars[end] >= '0' && chars[end] <= '9'
        invariant
            from <= end <= chars.len(),
            digits_between(chars@, from as int, end as int),
        decreases chars.len() - end,
    {
        end += 1;
    }
    end - from
}

/// Whether the characters from `from` on are the given word, each letter in
/// either case.
fn spells_at(chars: &Vec<char>, from: usize, lower: &Vec<char>, upper: &Vec<char>) -> (r: bool)
    requires
        from <= chars.len(),
        lower.len() == upper.len(),
    ensures
        r == spells(chars@, from as int, lower@, upper@),
{
    if chars.len() - from != lower.len() {
        return false;
    }
    let mut i: usize = 0;
    while i < lower.len()
        invariant
            from <= chars.len(),
            chars.len() - from == lower.len(),
            lower.len() == upper.len(),
            i <= lower.len(),
            forall|j: int|
                0 <= j < i ==> #[trigger] chars@[from + j] == lower@[j] || chars@[from + j]
                    == upper@[j],
        decreases lower.len() - i,
    {
        if chars[from + i] != lower[i] && chars[from + i] != upper[i] {
            return false;
        }
        i += 1;
    }
    true
}

/// Whether the characters from `from` on name infinity or not-a-number.
fn special_at(chars: &Vec<char>, from: usize) -> (r: bool)
    requires
        from <= chars.len(),
    ensures
        r == special_from(chars@, from as int),
{
    let inf_lower = vec!['i', 'n', 'f'];
    let inf_upper = vec!['I', 'N', 'F'];
    let nan_lower = vec!['n', 'a', 'n'];
    let nan_upper = vec!['N', 'A', 'N'];
    let infinity_lower = vec!['i', 'n', 'f', 'i', 'n', 'i', 't', 'y'];
    let infinity_upper = vec!['I', 'N', 'F', 'I', 'N', 'I', 'T', 'Y'];
    proof {
        assert(inf_lower@ =~= seq!['i', 'n', 'f']);
        assert(inf_upper@ =~= seq!['I', 'N', 'F']);
        assert(nan_lower@ =~= seq!['n', 'a', 'n']);
        assert(nan_upper@ =~= seq!['N', 'A', 'N']);
        assert(infinity_lower@ =~= seq!['i', 'n', 'f', 'i', 'n', 'i', 't', 'y']);
        assert(infinity_upper@ =~= seq!['I', 'N', 'F', 'I', 'N', 'I', 'T', 'Y']);
    }
    spells_at(chars, from, &inf_lower, &inf_upper) || spells_at(chars, from, &nan_lower, &nan_upper)
        || spells_at(chars, from, &infinity_lower, &infinity_upper)
}

/// Where a mantissa that starts at `from` ends, and whether one is there.
/// `run` is where the digits that start at `from` end, `end` where the digits
/// behind a dot at `run` end (`run` itself without a dot there). A mantissa
/// that is followed by the end of the text or by an exponent ends at `end`.
proof fn lemma_mantissa_end(s: Seq<char>, from: int, run: int, end: int, k: int)
    requires
        0 <= from <= run <= end <= s.len(),
        digits_between(s, from, run),
        run < s.len() ==> !is_digit(s[run]),
        run < s.len() && s[run] == '.' ==> digits_between(s, run + 1, end) && run < end && (end
            < s.len() ==> !is_digit(s[end])),
        !(run < s.len() && s[run] == '.') ==> end == run,
        from <= k <= s.len(),
        mantissa_between(s, from, k),
        k == s.len() || s[k] == 'e' || s[k] == 'E',
    ensures
        k == end,
        end - from > 1 || (end - from == 1 && run == end),
{
    if from < k && digits_between(s, from, k) {
        if k > run {
            assert(is_digit(s[run]));
        }
        if k < run {
            assert(is_digit(s[k]));
        }
    } else {
        let dot = choose|dot: int|
            from <= dot < k && #[trigger] s[dot] == '.' && k - from > 1 && digits_between(
                s,
                from,
                dot,
            ) && digits_between(s, dot + 1, k);
        if dot > run {
            assert(is_digit(s[run]));
        }
        if dot < run {
            assert(is_digit(s[dot]));
        }
        if k > end {
            assert(is_digit(s[end]));
        }
        if k < end {
            assert(is_digit(s[k]));
        }
    }
}

/// Whether `s` stands for a floating-point number.
pub fn float_literal(s: &str) -> (r: bool)
    ensures
        r == is_float_literal(s@),
{
    let chars = chars_of(s);
    let n = chars.len();
    let from: usize = if n > 0 && (chars[0] == '+' || chars[0] == '-') {
        1
    } else {
        0
    };
    if special_at(&chars, from) {
        return true;
    }
    let run: usize = from + digit_run(&chars, from);
    let dotted = run < n && chars[run] == '.';
    let end: usize = if dotted {
        run + 1 + digit_run(&chars, run + 1)
    } else {
        run
    };
    let digits: usize = if dotted {
        end - from - 1
    } else {
        end - from
    };
    let tail_ok = if end == n {
        true
    } else if chars[end] == 'e' || chars[end] == 'E' {
        let signed = end + 1 < n && (chars[end + 1] == '+' || chars[end + 1] == '-');
        let first: usize = if signed {
            end + 2
        } else {
            end + 1
        };
        let count = digit_run(&chars, first);
        proof {
            if count > 0 && first + count == n {
                assert(exponent_between(chars@, end as int, n as int));
            }
            if exponent_between(chars@, end as int, n as int) {
                if first + count < n {
                    assert(is_digit(chars@[first + count]));
                }
            }
        }
        count > 0 && first + count == n
    } else {
        false
    };
    proof {
        let t = chars@;
        if digits > 0 && tail_ok {
            if dotted {
                assert(t[run as int] == '.');
            }
            assert(mantissa_between(t, from as int, end as int));
            assert(number_from(t, from as int));
        }
        if number_from(t, from as int) {
            let k = choose|k: int|
                from <= k <= t.len() && #[trigger] mantissa_between(t, from as int, k) && (k
                    == t.len() || exponent_between(t, k, t.len() as int));
            lemma_mantissa_end(t, from as int, run as int, end as int, k);
        }
    }
    digits > 0 && tail_ok
}

} // verus!
