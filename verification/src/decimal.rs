//! Decimal text for integers: how numbers are written into keys and stored
//! fields, and how they are read back.

use vstd::prelude::*;

verus! {

/// The character that stands for the digit `d`.
pub open spec fn digit_char(d: int) -> char {
    if d == 0 {
        '0'
    } else if d == 1 {
        '1'
    } else if d == 2 {
        '2'
    } else if d == 3 {
        '3'
    } else if d == 4 {
        '4'
    } else if d == 5 {
        '5'
    } else if d == 6 {
        '6'
    } else if d == 7 {
        '7'
    } else if d == 8 {
        '8'
    } else {
        '9'
    }
}

/// Whether `c` is one of the ten digits.
pub open spec fn is_digit(c: char) -> bool {
    '0' <= c && c <= '9'
}

/// The value of a digit character.
pub open spec fn digit_value(c: char) -> int {
    c as int - '0' as int
}

/// The digits of `n`, most significant first, without leading zeros.
pub open spec fn digits(n: nat) -> Seq<char>
    decreases n,
{
    if n < 10 {
        seq![digit_char(n as int)]
    } else {
        digits(n / 10).push(digit_char((n % 10) as int))
    }
}

/// The decimal text of `n`: a minus sign for a negative number, then its digits.
pub open spec fn decimal(n: int) -> Seq<char> {
    if n < 0 {
        seq!['-'] + digits((-n) as nat)
    } else {
        digits(n as nat)
    }
}

/// Whether `s` holds digits only.
pub open spec fn all_digits(s: Seq<char>) -> bool {
    forall|i: int| 0 <= i < s.len() ==> is_digit(#[trigger] s[i])
}

/// The number that a run of digits denotes; leading zeros count for nothing.
pub open spec fn digits_value(s: Seq<char>) -> nat
    decreases s.len(),
{
    if s.len() == 0 {
        0
    } else {
        (digits_value(s.drop_last()) * 10 + digit_value(s.last())) as nat
    }
}

/// The integer that `s` denotes: an optional `+` or `-`, then one digit or
/// more and nothing else. Any other text denotes no integer.
pub open spec fn parse_int(s: Seq<char>) -> Option<int> {
    if s.len() > 0 && (s[0] == '-' || s[0] == '+') {
        let rest = s.subrange(1, s.len() as int);
        if rest.len() > 0 && all_digits(rest) {
            if s[0] == '-' {
                Some(-(digits_value(rest) as int))
            } else {
                Some(digits_value(rest) as int)
            }
        } else {
            None
        }
    } else if s.len() > 0 && all_digits(s) {
        Some(digits_value(s) as int)
    } else {
        None
    }
}

/// What `s` denotes as an `i32`: its integer, where that fits.
pub open spec fn parse_i32_spec(s: Seq<char>) -> Option<i32> {
    match parse_int(s) {
        Some(v) => if i32::MIN <= v <= i32::MAX {
            Some(v as i32)
        } else {
            None
        },
        None => None,
    }
}

/// The character of a digit is a digit, and has the digit as its value.
pub proof fn lemma_digit_char(d: int)
    requires
        0 <= d < 10,
    ensures
        is_digit(digit_char(d)),
        digit_value(digit_char(d)) == d,
{
}

/// The digits of a number are digits, at least one, and denote the number.
pub proof fn lemma_digits(n: nat)
    ensures
        digits(n).len() > 0,
        all_digits(digits(n)),
        digits_value(digits(n)) == n,
    decreases n,
{
    if n < 10 {
        lemma_digit_char(n as int);
        let s = digits(n);
        assert(s.drop_last() =~= Seq::<char>::empty());
        assert(digits_value(s.drop_last()) == 0);
    } else {
        lemma_digits(n / 10);
        lemma_digit_char((n % 10) as int);
        let s = digits(n);
        assert(s.drop_last() =~= digits(n / 10));
    }
}

/// Reading back the decimal text of a number gives the number.
pub proof fn lemma_parse_decimal(n: int)
    ensures
        parse_int(decimal(n)) == Some(n),
{
    if n < 0 {
        lemma_digits((-n) as nat);
        let s = decimal(n);
        assert(s.subrange(1, s.len() as int) =~= digits((-n) as nat));
    } else {
        lemma_digits(n as nat);
    }
}

/// The decimal text of a number holds no underscore.
pub proof fn lemma_decimal_has_no_underscore(n: int)
    ensures
        !decimal(n).contains('_'),
{
    if n < 0 {
        lemma_digits((-n) as nat);
    } else {
        lemma_digits(n as nat);
    }
    let s = decimal(n);
    if s.contains('_') {
        let i = choose|i: int| 0 <= i < s.len() && s[i] == '_';
        if n < 0 {
            if i > 0 {
                assert(is_digit(digits((-n) as nat)[i - 1]));
            }
        } else {
            assert(is_digit(s[i]));
        }
    }
}

/// The value of a run of digits is no less than that of any of its prefixes.
pub proof fn lemma_prefix_value(s: Seq<char>, k: int)
    requires
        all_digits(s),
        0 <= k <= s.len(),
    ensures
        digits_value(s.take(k)) <= digits_value(s),
    decreases s.len() - k,
{
    if k == s.len() {
        assert(s.take(k) =~= s);
    } else {
        lemma_prefix_value(s, k + 1);
        let t = s.take(k + 1);
        assert(t.drop_last() =~= s.take(k));
        assert(is_digit(s[k]));
        assert(t.last() == s[k]);
    }
}

/// The text of one digit.
fn digit_text(d: u32) -> (r: &'static str)
    requires
        d < 10,
    ensures
        r@ == seq![digit_char(d as int)],
{
    proof {
        reveal_strlit("0");
        reveal_strlit("1");
        reveal_strlit("2");
        reveal_strlit("3");
        reveal_strlit("4");
        reveal_strlit("5");
        reveal_strlit("6");
        reveal_strlit("7");
        reveal_strlit("8");
        reveal_strlit("9");
    }
    let r = if d == 0 {
        "0"
    } else if d == 1 {
        "1"
    } else if d == 2 {
        "2"
    } else if d == 3 {
        "3"
    } else if d == 4 {
        "4"
    } else if d == 5 {
        "5"
    } else if d == 6 {
        "6"
    } else if d == 7 {
        "7"
    } else if d == 8 {
        "8"
    } else {
        "9"
    };
    assert(r@ =~= seq![digit_char(d as int)]);
    r
}

/// Appends the digits of `n` to `out`.
fn push_digits(out: &mut String, n: u32)
    ensures
        final(out)@ == old(out)@ + digits(n as nat),
    decreases n,
{
    if n >= 10 {
        push_digits(out, n / 10);
    }
    out.append(digit_text(n % 10));
    assert(final(out)@ =~= old(out)@ + digits(n as nat));
}

/// Appends the decimal text of `n` to `out`.
pub fn push_decimal(out: &mut String, n: i32)
    ensures
        final(out)@ == old(out)@ + decimal(n as int),
{
    if n < 0 {
        proof {
            reveal_strlit("-");
        }
        out.append("-");
        // The magnitude of the least `i32` does not fit in an `i32`.
        let magnitude: u32 = if n == i32::MIN {
            2147483648u32
        } else {
            (-n) as u32
        };
        push_digits(out, magnitude);
        assert(final(out)@ =~= old(out)@ + decimal(n as int));
    } else {
        push_digits(out, n as u32);
    }
}

/// The decimal text of `n`.
pub fn format_i32(n: i32) -> (r: String)
    ensures
        r@ == decimal(n as int),
{
    let mut out = String::new();
    push_decimal(&mut out, n);
    assert(out@ =~= decimal(n as int));
    out
}

/// The characters of `s`, in order.
pub fn chars_of(s: &str) -> (v: Vec<char>)
    ensures
        v@ == s@,
{
    let mut v: Vec<char> = Vec::new();
    for c in it: s.chars()
        invariant
            v@ == it.seq().take(it.index() as int),
            it.seq() == s@,
    {
        v.push(c);
        assert(v@ =~= it.seq().take(it.index() + 1));
    }
    assert(v@ =~= s@);
    v
}

/// Reads the characters of `v` from `from` up to `to` as an `i32`.
pub fn parse_i32_between(v: &Vec<char>, from: usize, to: usize) -> (r: Option<i32>)
    requires
        from <= to <= v.len(),
    ensures
        r == parse_i32_spec(v@.subrange(from as int, to as int)),
{
    let ghost s = v@.subrange(from as int, to as int);
    if from == to {
        return None;
    }
    let signed = v[from] == '-' || v[from] == '+';
    let negative = v[from] == '-';
    let start: usize = if signed {
        from + 1
    } else {
        from
    };
    let ghost body = v@.subrange(start as int, to as int);
    proof {
        assert(s[0] == v@[from as int]);
        if signed {
            assert(body =~= s.subrange(1, s.len() as int));
        } else {
            assert(body =~= s);
        }
    }
    if start == to {
        return None;
    }
    assert(body.len() > 0);
    assert(!all_digits(body) ==> parse_int(s) is None);
    assert(all_digits(body) ==> parse_int(s) == Some(
        if negative {
            -(digits_value(body) as int)
        } else {
            digits_value(body) as int
        },
    ));
    let mut acc: i64 = 0;
    let mut i: usize = start;
    while i < to
        invariant
            start <= i <= to <= v.len(),
            body == v@.subrange(start as int, to as int),
            s == v@.subrange(from as int, to as int),
            !all_digits(body) ==> parse_int(s) is None,
            all_digits(body) ==> parse_int(s) == Some(
                if negative {
                    -(digits_value(body) as int)
                } else {
                    digits_value(body) as int
                },
            ),
            all_digits(body.take(i - start)),
            acc == digits_value(body.take(i - start)),
            0 <= acc <= 2147483648,
        decreases to - i,
    {
        let c = v[i];
        assert(body[i - start] == c);
        if !(c >= '0' && c <= '9') {
            assert(!is_digit(body[i - start]));
            return None;
        }
        let d: i64 = (c as u32 - '0' as u32) as i64;
        let next: i64 = acc * 10 + d;
        proof {
            let t = body.take(i - start + 1);
            assert(t.drop_last() =~= body.take(i - start));
            assert(t.last() == c);
            assert(all_digits(t));
            assert(digits_value(t) == next);
            if all_digits(body) {
                lemma_prefix_value(body, i - start + 1);
            }
        }
        if next > 2147483648 {
            return None;
        }
        acc = next;
        i = i + 1;
    }
    assert(body.take(to - start) =~= body);
    if negative {
        Some((-acc) as i32)
    } else if acc <= 2147483647 {
        Some(acc as i32)
    } else {
        None
    }
}

/// Reads `s` as an `i32`: an optional sign, then digits and nothing else,
/// within the range of the type.
pub fn parse_i32(s: &str) -> (r: Option<i32>)
    ensures
        r == parse_i32_spec(s@),
{
    let v = chars_of(s);
    assert(v@.subrange(0, v@.len() as int) =~= s@);
    parse_i32_between(&v, 0, v.len())
}

/// Formatting an `i32` and reading the text back gives the number.
pub proof fn lemma_parse_i32_decimal(n: i32)
    ensures
        parse_i32_spec(decimal(n as int)) == Some(n),
{
    lemma_parse_decimal(n as int);
}

} // verus!
