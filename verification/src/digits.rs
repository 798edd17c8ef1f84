use vstd::prelude::*;

verus! {

/// Whether `c` is a decimal digit.
pub open spec fn is_digit(c: char) -> bool {
    '0' <= c && c <= '9'
}

/// The numeric value of a digit character.
pub open spec fn digit_val(c: char) -> int {
    c as int - '0' as int
}

/// The digit character for a value below ten.
pub open spec fn spec_digit(d: int) -> char {
    if d == 0 {
        '0'
    } else if d == 1 {
        '1'
    } else if d == 2 {
        '2'
    } else if d == 3 {
        '3'
    } else if d == 4 {
        '4'
    } else if d == 5 {
        '5'
    } else if d == 6 {
        '6'
    } else if d == 7 {
        '7'
    } else if d == 8 {
        '8'
    } else {
        '9'
    }
}

/// The canonical decimal numeral of a natural number: no sign, no leading
/// zero except for zero itself.
pub open spec fn spec_nat_digits(n: nat) -> Seq<char>
    decreases n,
{
    if n < 10 {
        seq![spec_digit(n as int)]
    } else {
        spec_nat_digits(n / 10).push(spec_digit((n % 10) as int))
    }
}

/// The canonical decimal numeral of an integer: a `-` sign for negative
/// numbers, then the numeral of the magnitude.
pub open spec fn spec_int_digits(n: int) -> Seq<char> {
    if n < 0 {
        seq!['-'] + spec_nat_digits((-n) as nat)
    } else {
        spec_nat_digits(n as nat)
    }
}

/// The value of a digit string, most significant digit first.
pub open spec fn digits_val(s: Seq<char>) -> int
    decreases s.len(),
{
    if s.len() == 0 {
        0
    } else {
        digits_val(s.drop_last()) * 10 + digit_val(s.last())
    }
}

/// Whether every character of `s` is a decimal digit.
pub open spec fn all_digits(s: Seq<char>) -> bool {
    forall|i: int| 0 <= i < s.len() ==> is_digit(#[trigger] s[i])
}

/// What it means for a character sequence to parse as an `i64`: an optional
/// `+` or `-` sign, then at least one digit, the signed value fitting in the
/// type. Leading zeros are accepted.
pub open spec fn spec_parse_i64(s: Seq<char>) -> Option<i64> {
    let signed = s.len() > 0 && (s[0] == '-' || s[0] == '+');
    let body = if signed {
        s.drop_first()
    } else {
        s
    };
    let negative = s.len() > 0 && s[0] == '-';
    if body.len() == 0 || !all_digits(body) {
        None
    } else {
        let v = if negative {
            -digits_val(body)
        } else {
            digits_val(body)
        };
        if i64::MIN <= v <= i64::MAX {
            Some(v as i64)
        } else {
            None
        }
    }
}

/// A digit string denotes a value no smaller than zero.
pub proof fn lemma_digits_val_nonneg(s: Seq<char>)
    requires
        all_digits(s),
    ensures
        digits_val(s) >= 0,
    decreases s.len(),
{
    if s.len() > 0 {
        assert(all_digits(s.drop_last())) by {
            assert(forall|i: int|
                0 <= i < s.len() - 1 ==> s.drop_last()[i] == #[trigger] s[i] && is_digit(s[i]));
        }
        lemma_digits_val_nonneg(s.drop_last());
        assert(is_digit(s.last()));
    }
}

/// The canonical numeral holds digits only — in particular no sign, no
/// whitespace, no line break and no `#`.
pub proof fn lemma_nat_digits_are_digits(n: nat)
    ensures
        all_digits(spec_nat_digits(n)),
        spec_nat_digits(n).len() > 0,
    decreases n,
{
    if n < 10 {
    } else {
        lemma_nat_digits_are_digits(n / 10);
        let s = spec_nat_digits(n / 10);
        let w = s.push(spec_digit((n % 10) as int));
        assert forall|i: int| 0 <= i < w.len() implies is_digit(#[trigger] w[i]) by {
            if i < s.len() {
                assert(w[i] == s[i]);
            }
        }
    }
}

/// Parsing the canonical numeral of a natural number gives the number back.
pub proof fn lemma_nat_digits_val(n: nat)
    ensures
        digits_val(spec_nat_digits(n)) == n,
    decreases n,
{
    if n < 10 {
        let s = spec_nat_digits(n);
        assert(s.len() == 1);
        assert(s.drop_last() =~= Seq::<char>::empty());
        assert(digits_val(s) == digits_val(Seq::<char>::empty()) * 10 + digit_val(s.last()));
        assert(digit_val(spec_digit(n as int)) == n);
    } else {
        lemma_nat_digits_val(n / 10);
        let s = spec_nat_digits(n / 10);
        let w = s.push(spec_digit((n % 10) as int));
        assert(w.drop_last() =~= s);
        assert(w.last() == spec_digit((n % 10) as int));
        assert(digit_val(spec_digit((n % 10) as int)) == n % 10);
    }
}

/// Parsing the canonical numeral of any `i64` gives the number back.
pub proof fn lemma_parse_int_digits(n: i64)
    ensures
        spec_parse_i64(spec_int_digits(n as int)) == Some(n),
{
    if n >= 0 {
        let s = spec_nat_digits(n as nat);
        lemma_nat_digits_are_digits(n as nat);
        lemma_nat_digits_val(n as nat);
        assert(is_digit(s[0]));
        assert(s[0] != '-' && s[0] != '+');
    } else {
        let m = (-(n as int)) as nat;
        let s = spec_int_digits(n as int);
        let body = spec_nat_digits(m);
        lemma_nat_digits_are_digits(m);
        lemma_nat_digits_val(m);
        assert(s[0] == '-');
        assert(s.drop_first() =~= body);
    }
}

/// Growing a digit string cannot shrink its value.
pub proof fn lemma_digits_val_take_mono(s: Seq<char>, m: int)
    requires
        all_digits(s),
        0 <= m <= s.len(),
    ensures
        digits_val(s.take(m)) <= digits_val(s),
    decreases s.len(),
{
    lemma_digits_val_nonneg(s);
    if m < s.len() {
        let t = s.drop_last();
        assert(all_digits(t)) by {
            assert(forall|i: int| 0 <= i < t.len() ==> t[i] == #[trigger] s[i] && is_digit(s[i]));
        }
        assert(s.take(m) =~= t.take(m));
        lemma_digits_val_take_mono(t, m);
        lemma_digits_val_nonneg(t);
        assert(is_digit(s.last()));
        assert(digits_val(s) == digits_val(t) * 10 + digit_val(s.last()));
        assert(digits_val(t) * 10 >= digits_val(t));
    } else {
        assert(s.take(m) =~= s);
    }
}

/// Reads an `i64` from the characters of `s` between `start` and `end`:
/// an optional sign, then decimal digits. Exactly the inputs admitted by
/// `spec_parse_i64` succeed; anything malformed or out of range gives `None`.
pub fn parse_i64_range(s: &str, start: usize, end: usize) -> (r: Option<i64>)
    requires
        start <= end <= s@.len(),
    ensures
        r == spec_parse_i64(s@.subrange(start as int, end as int)),
{
    let ghost tok = s@.subrange(start as int, end as int);
    if start == end {
        return None;
    }
    let c0 = s.get_char(start);
    proof {
        assert(tok[0] == c0);
    }
    let negative = c0 == '-';
    let signed = negative || c0 == '+';
    let body_start: usize = if signed {
        start + 1
    } else {
        start
    };
    let ghost body = s@.subrange(body_start as int, end as int);
    proof {
        if signed {
            assert(body =~= tok.drop_first());
        } else {
            assert(body =~= tok);
        }
    }
    if body_start == end {
        return None;
    }
    let mut acc: u64 = 0;
    let mut i = body_start;
    while i < end
        invariant
            body_start <= i <= end <= s@.len(),
            tok == s@.subrange(start as int, end as int),
            tok.len() > 0,
            negative == (tok[0] == '-'),
            body == (if tok[0] == '-' || tok[0] == '+' {
                tok.drop_first()
            } else {
                tok
            }),
            body.len() > 0,
            body == s@.subrange(body_start as int, end as int),
            all_digits(body.take(i - body_start)),
            acc == digits_val(body.take(i - body_start)),
        decreases end - i,
    {
        let c = s.get_char(i);
        let code = c as u32;
        proof {
            assert(body[i - body_start] == c);
        }
        if code < 48 || code > 57 {
            proof {
                assert((c as int) < ('0' as int) || (c as int) > ('9' as int));
                assert(!is_digit(c));
                assert(!all_digits(body));
            }
            return None;
        }
        let d: u64 = (code - 48) as u64;
        proof {
            assert(is_digit(c));
            assert(d == digit_val(c));
        }
        if acc > (u64::MAX - d) / 10 {
            // The value read so far already exceeds what fits in an `i64`:
            // the whole token denotes something even larger, so it is
            // rejected just as an in-range check would reject it.
            proof {
                let pre = body.take(i - body_start);
                let cur = body.take(i + 1 - body_start);
                assert(cur.drop_last() =~= pre);
                assert(cur.last() == c);
                assert(all_digits(cur)) by {
                    assert(forall|j: int|
                        0 <= j < cur.len() - 1 ==> cur[j] == #[trigger] pre[j] && is_digit(pre[j]));
                }
                assert(digits_val(cur) == acc * 10 + d);
                assert(acc * 10 + d > u64::MAX) by (nonlinear_arith)
                    requires
                        acc > (u64::MAX - d) / 10,
                        d < 10,
                ;
                if all_digits(body) {
                    lemma_digits_val_take_mono(body, i + 1 - body_start);
                    assert(digits_val(body) >= digits_val(cur));
                    assert(digits_val(body) > i64::MAX);
                    assert(-digits_val(body) < i64::MIN);
                }
            }
            return None;
        }
        acc = acc * 10 + d;
        proof {
            let pre = body.take(i - body_start);
            let cur = body.take(i + 1 - body_start);
            assert(cur.drop_last() =~= pre);
            assert(cur.last() == c);
            assert(all_digits(cur)) by {
                assert(forall|j: int|
                    0 <= j < cur.len() - 1 ==> cur[j] == #[trigger] pre[j] && is_digit(pre[j]));
            }
        }
        i += 1;
    }
    proof {
        assert(body.take(end - body_start) =~= body);
        assert(all_digits(body));
        assert(acc == digits_val(body));
    }
    if negative {
        if acc > 9223372036854775808u64 {
            return None;
        }
        if acc == 9223372036854775808u64 {
            return Some(i64::MIN);
        }
        Some(-(acc as i64))
    } else {
        if acc > 9223372036854775807u64 {
            return None;
        }
        Some(acc as i64)
    }
}

/// The digit character for a value below ten, as a string slice.
fn digit_str(d: u64) -> (r: &'static str)
    requires
        d < 10,
    ensures
        r@ =~= seq![spec_digit(d as int)],
{
    proof {
        reveal_strlit("0");
        reveal_strlit("1");
        reveal_strlit("2");
        reveal_strlit("3");
        reveal_strlit("4");
        reveal_strlit("5");
        reveal_strlit("6");
        reveal_strlit("7");
        reveal_strlit("8");
        reveal_strlit("9");
    }
    if d == 0 {
        "0"
    } else if d == 1 {
        "1"
    } else if d == 2 {
        "2"
    } else if d == 3 {
        "3"
    } else if d == 4 {
        "4"
    } else if d == 5 {
        "5"
    } else if d == 6 {
        "6"
    } else if d == 7 {
        "7"
    } else if d == 8 {
        "8"
    } else {
        "9"
    }
}

/// Appends the canonical numeral of `m` to `out`.
fn append_nat_digits(out: &mut String, m: u64)
    ensures
        final(out)@ == old(out)@ + spec_nat_digits(m as nat),
    decreases m,
{
    if m < 10 {
        out.append(digit_str(m));
        proof {
            assert(out@ =~= old(out)@ + spec_nat_digits(m as nat));
        }
    } else {
        append_nat_digits(out, m / 10);
        out.append(digit_str(m % 10));
        proof {
            assert(out@ =~= old(out)@ + spec_nat_digits(m as nat));
        }
    }
}

/// Appends the canonical numeral of `n` to `out`.
pub fn append_int_digits(out: &mut String, n: i64)
    ensures
        final(out)@ == old(out)@ + spec_int_digits(n as int),
{
    if n >= 0 {
        append_nat_digits(out, n as u64);
    } else {
        proof {
            reveal_strlit("-");
        }
        out.append("-");
        // The magnitude of `n`, computed without overflowing at i64::MIN.
        let m: u64 = ((-(n + 1)) as u64) + 1;
        proof {
            assert(m == (-(n as int)) as nat);
        }
        append_nat_digits(out, m);
        proof {
            assert(out@ =~= old(out)@ + spec_int_digits(n as int));
        }
    }
}

} // verus!
