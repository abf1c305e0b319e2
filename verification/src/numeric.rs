//! Decimal rendering and reading of `u32` values.
//!
//! A numeric option stores its value as a string cell like every other
//! option; it is rendered to decimal at registration time and read back at
//! read time.  Reading accepts what Rust's unsigned decimal grammar accepts:
//! an optional leading `+`, then one or more digits, with the value fitting
//! the target type.

use vstd::prelude::*;
use vstd::arithmetic::div_mod::lemma_fundamental_div_mod;
use vstd::string::StringExecFns;

verus! {

/// Whether `c` is a decimal digit.
pub open spec fn is_dec_digit(c: char) -> bool {
    '0' <= c && c <= '9'
}

/// The numeric value of the digit `c`.
pub open spec fn digit_val(c: char) -> int {
    c as int - '0' as int
}

/// The digit character for `d`, for `0 <= d <= 9`.
pub open spec fn digit_char(d: int) -> char {
    (d + '0' as int) as char
}

/// Whether every character of `s` is a decimal digit.
pub open spec fn all_dec_digits(s: Seq<char>) -> bool {
    forall|i: int| 0 <= i < s.len() ==> is_dec_digit(#[trigger] s[i])
}

/// The numeric value of a digit string, most significant digit first.
pub open spec fn seq_dec_val(s: Seq<char>) -> int
    decreases s.len(),
{
    if s.len() == 0 {
        0
    } else {
        seq_dec_val(s.drop_last()) * 10 + digit_val(s.last())
    }
}

/// The canonical decimal rendering of `n`: no sign, no leading zeros.
pub open spec fn dec_digits_of(n: int) -> Seq<char>
    decreases n,
{
    if n < 10 {
        seq![digit_char(n)]
    } else {
        dec_digits_of(n / 10).push(digit_char(n % 10))
    }
}

/// The digit part of `s` under the unsigned decimal grammar: everything after
/// an optional leading `+`.
pub open spec fn dec_digits_part(s: Seq<char>) -> Seq<char> {
    if s.len() > 0 && s[0] == '+' {
        s.drop_first()
    } else {
        s
    }
}

/// Whether `s` is accepted as a `u32`: a nonempty digit string after the
/// optional sign, with a value that fits.
pub open spec fn u32_accepts(s: Seq<char>) -> bool {
    let d = dec_digits_part(s);
    &&& d.len() > 0
    &&& all_dec_digits(d)
    &&& seq_dec_val(d) <= u32::MAX
}

/// The value `s` is read as, when accepted.
pub open spec fn u32_value_of(s: Seq<char>) -> int {
    seq_dec_val(dec_digits_part(s))
}

/// A digit string has a nonnegative value.
pub proof fn lemma_seq_dec_val_nonneg(s: Seq<char>)
    requires
        all_dec_digits(s),
    ensures
        seq_dec_val(s) >= 0,
    decreases s.len(),
{
    if s.len() > 0 {
        assert(all_dec_digits(s.drop_last()));
        lemma_seq_dec_val_nonneg(s.drop_last());
    }
}

/// Extending a digit string by one digit never shrinks its value.
pub proof fn lemma_seq_dec_val_extend(s: Seq<char>)
    requires
        all_dec_digits(s),
        s.len() > 0,
    ensures
        seq_dec_val(s) >= seq_dec_val(s.drop_last()),
{
    assert(all_dec_digits(s.drop_last()));
    lemma_seq_dec_val_nonneg(s.drop_last());
}

/// The value of any prefix of a digit string is at most the whole value.
pub proof fn lemma_seq_dec_val_prefix(s: Seq<char>, n: int)
    requires
        all_dec_digits(s),
        0 <= n <= s.len(),
    ensures
        seq_dec_val(s.subrange(0, n)) <= seq_dec_val(s),
    decreases s.len() - n,
{
    if n < s.len() {
        lemma_seq_dec_val_prefix(s, n + 1);
        let p = s.subrange(0, n + 1);
        assert(all_dec_digits(p));
        assert(p.drop_last() =~= s.subrange(0, n));
        lemma_seq_dec_val_extend(p);
    } else {
        assert(s.subrange(0, n) =~= s);
    }
}

/// The canonical rendering consists of digits and reads back as `n`.
pub proof fn lemma_dec_digits_of_val(n: int)
    requires
        0 <= n,
    ensures
        all_dec_digits(dec_digits_of(n)),
        seq_dec_val(dec_digits_of(n)) == n,
        dec_digits_of(n).len() > 0,
        dec_digits_of(n)[0] != '+',
    decreases n,
{
    if n < 10 {
        let s = seq![digit_char(n)];
        assert(s.drop_last() =~= Seq::<char>::empty());
        assert(seq_dec_val(Seq::<char>::empty()) == 0);
        assert(s.last() == digit_char(n));
        assert(seq_dec_val(s) == digit_val(digit_char(n)));
    } else {
        lemma_fundamental_div_mod(n, 10);
        lemma_dec_digits_of_val(n / 10);
        let s = dec_digits_of(n);
        assert(s.drop_last() =~= dec_digits_of(n / 10));
        assert(s.last() == digit_char(n % 10));
        assert(digit_val(digit_char(n % 10)) == n % 10);
        assert forall|i: int| 0 <= i < s.len() implies is_dec_digit(#[trigger] s[i]) by {
            if i < s.len() - 1 {
                assert(s[i] == dec_digits_of(n / 10)[i]);
            }
        }
    }
}

/// Law: the decimal codec round-trips — rendering any `u32` and reading it
/// back yields the same value.
pub proof fn lemma_dec_round_trip(n: u32)
    ensures
        u32_accepts(dec_digits_of(n as int)),
        u32_value_of(dec_digits_of(n as int)) == n,
{
    lemma_dec_digits_of_val(n as int);
    let s = dec_digits_of(n as int);
    assert(dec_digits_part(s) =~= s);
}

/// The digit character for `d`, as a one-character string slice.
fn digit_str(d: u32) -> (r: &'static str)
    requires
        d < 10,
    ensures
        r@ =~= seq![digit_char(d as int)],
{
    proof {
        reveal_strlit("0");
        reveal_strlit("1");
        reveal_strlit("2");
        reveal_strlit("3");
        reveal_strlit("4");
        reveal_strlit("5");
        reveal_strlit("6");
        reveal_strlit("7");
        reveal_strlit("8");
        reveal_strlit("9");
    }
    if d == 0 {
        "0"
    } else if d == 1 {
        "1"
    } else if d == 2 {
        "2"
    } else if d == 3 {
        "3"
    } else if d == 4 {
        "4"
    } else if d == 5 {
        "5"
    } else if d == 6 {
        "6"
    } else if d == 7 {
        "7"
    } else if d == 8 {
        "8"
    } else {
        "9"
    }
}

/// Renders `n` in decimal, canonically.
pub fn u32_to_dec(n: u32) -> (r: String)
    ensures
        r@ == dec_digits_of(n as int),
    decreases n,
{
    if n < 10 {
        let r = digit_str(n).to_owned();
        proof {
            assert(r@ =~= dec_digits_of(n as int));
        }
        r
    } else {
        let mut s = u32_to_dec(n / 10);
        s.append(digit_str(n % 10));
        proof {
            assert(s@ =~= dec_digits_of(n as int));
        }
        s
    }
}

/// Reads `s` as a `u32`.  Returns `Some` exactly on the strings the unsigned
/// decimal grammar accepts with a value that fits, and `None` otherwise.
pub fn parse_u32(s: &str) -> (r: Option<u32>)
    ensures
        r is Some <==> u32_accepts(s@),
        r is Some ==> r->0 == u32_value_of(s@),
{
    let n = s.unicode_len();
    let mut start: usize = 0;
    if n > 0 && s.get_char(0) == '+' {
        start = 1;
    }
    let ghost d = dec_digits_part(s@);
    proof {
        assert(d =~= s@.subrange(start as int, n as int));
    }
    if start == n {
        return None;
    }
    let mut acc: u32 = 0;
    let mut i: usize = start;
    while i < n
        invariant
            start <= i <= n,
            start < n,
            n == s@.len(),
            d == dec_digits_part(s@),
            d == s@.subrange(start as int, n as int),
            all_dec_digits(s@.subrange(start as int, i as int)),
            acc == seq_dec_val(s@.subrange(start as int, i as int)),
        decreases n - i,
    {
        let c = s.get_char(i);
        if !(c >= '0' && c <= '9') {
            proof {
                assert(d[i - start] == s@[i as int]);
                assert(!is_dec_digit(d[i - start]));
            }
            return None;
        }
        let digit: u32 = (c as u32) - 48;
        proof {
            assert(digit == digit_val(c));
        }
        if acc > u32::MAX / 10 || (acc == u32::MAX / 10 && digit > u32::MAX % 10) {
            proof {
                let p = s@.subrange(start as int, i + 1);
                assert(p.drop_last() =~= s@.subrange(start as int, i as int));
                assert(p.last() == c);
                assert(seq_dec_val(p) == acc * 10 + digit);
                assert(seq_dec_val(p) > u32::MAX);
                if u32_accepts(s@) {
                    assert(p =~= d.subrange(0, i + 1 - start));
                    lemma_seq_dec_val_prefix(d, i + 1 - start);
                }
            }
            return None;
        }
        proof {
            let p = s@.subrange(start as int, i + 1);
            assert(p.drop_last() =~= s@.subrange(start as int, i as int));
            assert(p.last() == c);
            assert(all_dec_digits(p));
            assert(seq_dec_val(p) == acc * 10 + digit);
        }
        acc = acc * 10 + digit;
        i = i + 1;
    }
    proof {
        assert(s@.subrange(start as int, i as int) =~= d);
    }
    Some(acc)
}

} // verus!
