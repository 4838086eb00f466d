//! The numbers of a mesh file, as text.
//!
//! A coordinate is a decimal literal that the caller converts to a binary32
//! number; the library decides only whether it is one. A vertex index is a
//! decimal integer, which the library reads.

use vstd::prelude::*;

verus! {

/// Whether `c` is one of the digits `0` to `9`.
pub open spec fn is_digit(c: char) -> bool {
    0x30 <= c as u32 <= 0x39
}

/// The digit `c` as a number.
pub open spec fn digit_value(c: char) -> nat {
    (c as u32 - 0x30) as nat
}

/// Where the run of digits that starts at `from` ends: the first position
/// from there on that holds no digit, or the length of `s`.
pub open spec fn digits_end(s: Seq<char>, from: int) -> int
    decreases s.len() - from,
{
    if from < 0 || from >= s.len() || !is_digit(s[from]) {
        from
    } else {
        digits_end(s, from + 1)
    }
}

/// `c` is the letter `letter`, in either case; `letter` is a small letter.
pub open spec fn is_letter(c: char, letter: char) -> bool {
    c == letter || c as u32 + 0x20 == letter as u32
}

/// `s` spells `word` in letters of either case; `word` is in small letters.
pub open spec fn spells(s: Seq<char>, word: Seq<char>) -> bool {
    s.len() == word.len() && forall|i: int| 0 <= i < s.len() ==> is_letter(#[trigger] s[i], word[i])
}

/// `s` is an exponent: the letter `e`, an optional sign, and digits, of
/// which there is at least one.
pub open spec fn is_exponent(s: Seq<char>) -> bool {
    &&& s.len() >= 2
    &&& is_letter(s[0], 'e')
    &&& {
        let from: int = if s[1] == '+' || s[1] == '-' {
            2
        } else {
            1
        };
        from < s.len() && digits_end(s, from) == s.len()
    }
}

/// `s` is an unsigned decimal number: digits, optionally with a point among,
/// before or behind them, of which there is at least one, and optionally an
/// exponent behind that.
pub open spec fn is_number(s: Seq<char>) -> bool {
    let point = digits_end(s, 0);
    let pointed = point < s.len() && s[point] == '.';
    let end = if pointed {
        digits_end(s, point + 1)
    } else {
        point
    };
    let digits = if pointed {
        end - 1
    } else {
        end
    };
    digits > 0 && (end == s.len() || is_exponent(s.skip(end)))
}

/// `s` is one of the words for what is no finite number: `inf`,
/// `infinity` or `nan`, in letters of either case.
pub open spec fn is_special(s: Seq<char>) -> bool {
    ||| spells(s, seq!['i', 'n', 'f'])
    ||| spells(s, seq!['i', 'n', 'f', 'i', 'n', 'i', 't', 'y'])
    ||| spells(s, seq!['n', 'a', 'n'])
}

/// `s` is a literal of a floating-point number: an optional sign, and then
/// a decimal number or one of the special words.
pub open spec fn is_float_literal(s: Seq<char>) -> bool {
    let body = if s.len() > 0 && (s[0] == '+' || s[0] == '-') {
        s.skip(1)
    } else {
        s
    };
    is_special(body) || is_number(body)
}

/// Whether `c` is a digit.
fn digit(c: char) -> (r: bool)
    ensures
        r == is_digit(c),
{
    let u: u32 = c as u32;
    0x30 <= u && u <= 0x39
}

/// Whether `c` is the small letter `letter` or its capital.
fn letter(c: char, small: char) -> (r: bool)
    requires
        0x61 <= small as u32 <= 0x7a,
    ensures
        r == is_letter(c, small),
{
    let u: u32 = c as u32;
    let l: u32 = small as u32;
    c == small || u == l - 0x20
}

/// The end of the run of digits of `s` that starts at `from`.
fn skip_digits(s: &Vec<char>, from: usize) -> (r: usize)
    requires
        from <= s@.len(),
    ensures
        r == digits_end(s@, from as int),
        from <= r <= s@.len(),
{
    let mut i: usize = from;
    while i < s.len() && digit(s[i])
        invariant
            from <= i <= s@.len(),
            digits_end(s@, from as int) == digits_end(s@, i as int),
        decreases s@.len() - i,
    {
        i = i + 1;
    }
    i
}

/// Whether `s` from `from` on spells `word`, which is in small letters.
fn spells_from<const N: usize>(s: &Vec<char>, from: usize, word: &[char; N]) -> (r: bool)
    requires
        from <= s@.len(),
        forall|i: int| 0 <= i < N ==> 0x61 <= (#[trigger] word@[i]) as u32 <= 0x7a,
    ensures
        r == spells(s@.skip(from as int), word@),
{
    if s.len() - from != N {
        return false;
    }
    let ghost rest = s@.skip(from as int);
    let mut i: usize = 0;
    while i < N
        invariant
            from <= s@.len() <= usize::MAX,
            s@.len() - from == N,
            word@.len() == N,
            rest == s@.skip(from as int),
            i <= N,
            forall|k: int| 0 <= k < N ==> 0x61 <= (#[trigger] word@[k]) as u32 <= 0x7a,
            forall|k: int| 0 <= k < i ==> is_letter(#[trigger] rest[k], word@[k]),
        decreases N - i,
    {
        proof {
            assert(rest[i as int] == s@[from + i]);
        }
        if !letter(s[from + i], word[i]) {
            return false;
        }
        i = i + 1;
    }
    true
}

/// Whether the characters of `s` are a literal of a floating-point number,
/// such as `12`, `-1.5`, `.5e-3`, `1.E4`, `inf` or `NaN`.
pub fn float_literal(s: &Vec<char>) -> (r: bool)
    ensures
        r == is_float_literal(s@),
{
    let start: usize = if s.len() > 0 && (s[0] == '+' || s[0] == '-') {
        1
    } else {
        0
    };
    let ghost body = s@.skip(start as int);
    let inf = ['i', 'n', 'f'];
    let infinity = ['i', 'n', 'f', 'i', 'n', 'i', 't', 'y'];
    let nan = ['n', 'a', 'n'];
    proof {
        assert(s@.skip(0) =~= s@);
        assert(inf@ =~= seq!['i', 'n', 'f']);
        assert(infinity@ =~= seq!['i', 'n', 'f', 'i', 'n', 'i', 't', 'y']);
        assert(nan@ =~= seq!['n', 'a', 'n']);
    }
    if spells_from(s, start, &inf) {
        return true;
    }
    if spells_from(s, start, &infinity) {
        return true;
    }
    if spells_from(s, start, &nan) {
        return true;
    }
    let point = skip_digits(s, start);
    proof {
        lemma_digits_end_of_suffix(s@, start as int, start as int);
    }
    let pointed = point < s.len() && s[point] == '.';
    let end = if pointed {
        skip_digits(s, point + 1)
    } else {
        point
    };
    proof {
        assert(body[point - start] == s@[point as int] || point >= s@.len());
        if pointed {
            lemma_digits_end_of_suffix(s@, start as int, point + 1);
        }
    }
    let digits = if pointed {
        end - start - 1
    } else {
        end - start
    };
    if digits == 0 {
        return false;
    }
    if end == s.len() {
        return true;
    }
    let ghost tail = s@.skip(end as int);
    proof {
        assert(tail =~= body.skip(end - start));
    }
    if s.len() - end < 2 || !letter(s[end], 'e') {
        proof {
            if tail.len() >= 2 {
                assert(tail[0] == s@[end as int]);
            }
        }
        return false;
    }
    let from: usize = if s[end + 1] == '+' || s[end + 1] == '-' {
        end + 2
    } else {
        end + 1
    };
    proof {
        assert(tail[0] == s@[end as int]);
        assert(tail[1] == s@[end + 1]);
    }
    if from >= s.len() {
        return false;
    }
    let last = skip_digits(s, from);
    proof {
        lemma_digits_end_of_suffix(s@, end as int, from as int);
    }
    last == s.len()
}

/// A run of digits ends at the same character whether it is looked for in a
/// text or in what is left of the text behind its first `cut` characters.
pub proof fn lemma_digits_end_of_suffix(s: Seq<char>, cut: int, from: int)
    requires
        0 <= cut <= from <= s.len(),
    ensures
        digits_end(s.skip(cut), from - cut) == digits_end(s, from) - cut,
    decreases s.len() - from,
{
    let rest = s.skip(cut);
    if from < s.len() {
        assert(rest[from - cut] == s[from]);
        if is_digit(s[from]) {
            lemma_digits_end_of_suffix(s, cut, from + 1);
        }
    }
}

/// The number that the digits of `s` write in base ten.
pub open spec fn decimal_value(s: Seq<char>) -> nat
    decreases s.len(),
{
    if s.len() == 0 {
        0
    } else {
        decimal_value(s.drop_last()) * 10 + digit_value(s.last())
    }
}

/// `s` is the literal of an index: digits, of which there is at least one,
/// behind an optional `+`.
pub open spec fn is_index_literal(s: Seq<char>) -> bool {
    let from: int = if s.len() > 0 && s[0] == '+' {
        1
    } else {
        0
    };
    from < s.len() && digits_end(s, from) == s.len()
}

/// The index that `s` writes, where `s` is the literal of one that fits the
/// machine's word.
pub open spec fn index_value(s: Seq<char>) -> Option<usize> {
    let digits = if s.len() > 0 && s[0] == '+' {
        s.skip(1)
    } else {
        s
    };
    if is_index_literal(s) && decimal_value(digits) <= usize::MAX {
        Some(decimal_value(digits) as usize)
    } else {
        None
    }
}

/// More digits do not write a smaller number.
pub proof fn lemma_decimal_value_grows(s: Seq<char>, n: int)
    requires
        0 <= n <= s.len(),
    ensures
        decimal_value(s.take(n)) <= decimal_value(s),
    decreases s.len() - n,
{
    if n < s.len() {
        lemma_decimal_value_grows(s, n + 1);
        assert(s.take(n + 1).drop_last() =~= s.take(n));
    } else {
        assert(s.take(n) =~= s);
    }
}

/// Reads the first `end` characters of `s` as an index.
pub fn parse_index(s: &Vec<char>, end: usize) -> (r: Option<usize>)
    requires
        end <= s@.len(),
    ensures
        r == index_value(s@.take(end as int)),
{
    let ghost field = s@.take(end as int);
    let start: usize = if end > 0 && s[0] == '+' {
        1
    } else {
        0
    };
    let ghost digits = field.skip(start as int);
    proof {
        assert(field.skip(0) =~= field);
        if end > 0 {
            assert(field[0] == s@[0]);
        }
    }
    if start >= end {
        return None;
    }
    let mut value: usize = 0;
    let mut i: usize = start;
    while i < end
        invariant
            start <= i <= end <= s@.len(),
            field == s@.take(end as int),
            digits == field.skip(start as int),
            start == (if field.len() > 0 && field[0] == '+' {
                1int
            } else {
                0int
            }),
            field.skip(0) == field,
            digits_end(field, start as int) == digits_end(field, i as int),
            value == decimal_value(digits.take(i - start)),
        decreases end - i,
    {
        let c = s[i];
        proof {
            assert(field[i as int] == c);
            assert(digits.take(i + 1 - start).drop_last() =~= digits.take(i - start));
            assert(digits.take(i + 1 - start).last() == c);
        }
        if !digit(c) {
            return None;
        }
        let d: usize = (c as u32 - 0x30) as usize;
        let scaled = match value.checked_mul(10) {
            Some(x) => x,
            None => {
                proof {
                    lemma_decimal_value_grows(digits, i + 1 - start);
                }
                return None;
            },
        };
        value = match scaled.checked_add(d) {
            Some(x) => x,
            None => {
                proof {
                    lemma_decimal_value_grows(digits, i + 1 - start);
                }
                return None;
            },
        };
        i = i + 1;
    }
    proof {
        assert(digits.take(i - start) =~= digits);
    }
    Some(value)
}

} // verus!
