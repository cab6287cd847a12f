//! Decimal notation: spec-level meaning of digit strings, and verified
//! printing and reading of `u32` and `i32` values.
use vstd::prelude::*;
use vstd::string::StringExecFns;

verus! {

/// A decimal digit character.
pub open spec fn is_digit(c: char) -> bool {
    48 <= c as u32 <= 57
}

/// The numeric value of a digit character.
pub open spec fn digit_val(c: char) -> int {
    c as u32 - 48
}

/// The digit character with the given value (for `0 <= d <= 9`).
pub open spec fn digit_char(d: int) -> char {
    if d == 0 {
        '0'
    } else if d == 1 {
        '1'
    } else if d == 2 {
        '2'
    } else if d == 3 {
        '3'
    } else if d == 4 {
        '4'
    } else if d == 5 {
        '5'
    } else if d == 6 {
        '6'
    } else if d == 7 {
        '7'
    } else {
        if d == 8 {
            '8'
        } else {
            '9'
        }
    }
}

/// The decimal rendering of a natural number, most significant digit first,
/// with no sign and no leading zeros (except for zero itself).
pub open spec fn dec_nat(n: nat) -> Seq<char>
    decreases n,
{
    if n < 10 {
        seq![digit_char(n as int)]
    } else {
        dec_nat(n / 10).push(digit_char((n % 10) as int))
    }
}

/// The decimal rendering of an integer: a `-` sign for negative values,
/// then the digits of the magnitude.
pub open spec fn dec_int(g: int) -> Seq<char> {
    if g < 0 {
        seq!['-'] + dec_nat((-g) as nat)
    } else {
        dec_nat(g as nat)
    }
}

/// A nonempty run of digit characters.
pub open spec fn all_digits(s: Seq<char>) -> bool {
    s.len() >= 1 && forall|k: int| 0 <= k < s.len() ==> is_digit(#[trigger] s[k])
}

/// The value of a digit string read in base ten.
pub open spec fn digits_val(s: Seq<char>) -> int
    decreases s.len(),
{
    if s.len() == 0 {
        0
    } else {
        10 * digits_val(s.drop_last()) + digit_val(s.last())
    }
}

/// The digit part of an unsigned decimal token: an optional leading `+`
/// is dropped.
pub open spec fn u32_digits(t: Seq<char>) -> Seq<char> {
    if t.len() > 0 && t[0] == '+' {
        t.drop_first()
    } else {
        t
    }
}

/// Whether a token reads as a `u32`: digits after the optional sign, with a
/// value in range.
pub open spec fn u32_token_valid(t: Seq<char>) -> bool {
    all_digits(u32_digits(t)) && digits_val(u32_digits(t)) <= u32::MAX
}

/// The value of a `u32` token.
pub open spec fn u32_token_val(t: Seq<char>) -> int {
    digits_val(u32_digits(t))
}

/// The digit part of a signed decimal token: an optional leading `+` or `-`
/// is dropped.
pub open spec fn i32_digits(t: Seq<char>) -> Seq<char> {
    if t.len() > 0 && (t[0] == '+' || t[0] == '-') {
        t.drop_first()
    } else {
        t
    }
}

/// Whether a signed token denotes a negative value.
pub open spec fn i32_negative(t: Seq<char>) -> bool {
    t.len() > 0 && t[0] == '-'
}

/// The signed value of an `i32` token.
pub open spec fn i32_token_val(t: Seq<char>) -> int {
    if i32_negative(t) {
        -digits_val(i32_digits(t))
    } else {
        digits_val(i32_digits(t))
    }
}

/// Whether a token reads as an `i32`: digits after the optional sign, with a
/// value in range.
pub open spec fn i32_token_valid(t: Seq<char>) -> bool {
    all_digits(i32_digits(t)) && i32::MIN <= i32_token_val(t) <= i32::MAX
}

/// A digit string has a nonnegative value.
pub proof fn lemma_digits_val_nonneg(s: Seq<char>)
    requires
        forall|k: int| 0 <= k < s.len() ==> is_digit(#[trigger] s[k]),
    ensures
        digits_val(s) >= 0,
    decreases s.len(),
{
    if s.len() > 0 {
        lemma_digits_val_nonneg(s.drop_last());
    }
}

/// Extending a digit string to the right can only grow its value.
pub proof fn lemma_digits_val_prefix(s: Seq<char>, k: int)
    requires
        0 <= k <= s.len(),
        forall|j: int| 0 <= j < s.len() ==> is_digit(#[trigger] s[j]),
    ensures
        digits_val(s.take(k)) <= digits_val(s),
    decreases s.len() - k,
{
    if k == s.len() {
        assert(s.take(k) =~= s);
    } else {
        lemma_digits_val_prefix(s, k + 1);
        assert(s.take(k + 1).drop_last() =~= s.take(k));
        assert(s.take(k + 1).last() == s[k]);
        lemma_digits_val_nonneg(s.take(k));
        assert(digits_val(s.take(k + 1)) == 10 * digits_val(s.take(k)) + digit_val(s[k]));
    }
}

/// The decimal rendering of a natural number is a nonempty digit string
/// whose value is that number.
pub proof fn lemma_dec_nat(n: nat)
    ensures
        all_digits(dec_nat(n)),
        digits_val(dec_nat(n)) == n,
    decreases n,
{
    if n < 10 {
        assert(dec_nat(n) =~= seq![digit_char(n as int)]);
        assert(dec_nat(n).drop_last() =~= Seq::<char>::empty());
        assert(digits_val(Seq::<char>::empty()) == 0);
        assert(dec_nat(n).last() == digit_char(n as int));
        assert(digits_val(dec_nat(n)) == 10 * digits_val(dec_nat(n).drop_last()) + digit_val(
            dec_nat(n).last(),
        ));
        assert(digit_val(digit_char(n as int)) == n);
    } else {
        lemma_dec_nat(n / 10);
        assert(dec_nat(n).drop_last() =~= dec_nat(n / 10));
        assert(dec_nat(n).last() == digit_char((n % 10) as int));
        assert(digits_val(dec_nat(n)) == 10 * digits_val(dec_nat(n / 10)) + digit_val(
            digit_char((n % 10) as int),
        ));
        assert(digit_val(digit_char((n % 10) as int)) == n % 10);
        assert(forall|k: int|
            0 <= k < dec_nat(n).len() ==> is_digit(#[trigger] dec_nat(n)[k])) by {
            assert(forall|k: int|
                0 <= k < dec_nat(n / 10).len() ==> is_digit(#[trigger] dec_nat(n / 10)[k]));
        }
    }
}

/// A digit character is not a line break, a comment mark, a space, or a
/// sign.
pub proof fn lemma_digit_not_special(c: char)
    requires
        is_digit(c),
    ensures
        !crate::text::is_space(c),
        c != '\n',
        c != '#',
        c != '+',
        c != '-',
{
}

/// The decimal rendering of an `i32`-ranged integer reads back as exactly
/// that integer, and holds no space, line break, or comment mark.
pub proof fn lemma_dec_int_reads(g: int)
    requires
        i32::MIN <= g <= i32::MAX,
    ensures
        i32_token_valid(dec_int(g)),
        i32_token_val(dec_int(g)) == g,
        dec_int(g).len() >= 1,
        forall|k: int|
            0 <= k < dec_int(g).len() ==> !crate::text::is_space(#[trigger] dec_int(g)[k])
                && dec_int(g)[k] != '\n' && dec_int(g)[k] != '#',
{
    if g < 0 {
        lemma_dec_nat((-g) as nat);
        let m = dec_nat((-g) as nat);
        let t = dec_int(g);
        assert(t == seq!['-'] + m);
        assert(t[0] == '-');
        assert(t.drop_first() =~= m);
        assert(i32_digits(t) == m);
        assert(i32_negative(t));
        assert(i32_token_val(t) == -digits_val(m));
        assert forall|k: int|
            0 <= k < t.len() implies !crate::text::is_space(#[trigger] t[k]) && t[k] != '\n' && t[k]
            != '#' by {
            if k > 0 {
                assert(t[k] == m[k - 1]);
                lemma_digit_not_special(m[k - 1]);
            }
        }
    } else {
        lemma_dec_nat(g as nat);
        let t = dec_int(g);
        assert(t == dec_nat(g as nat));
        assert(is_digit(t[0]));
        lemma_digit_not_special(t[0]);
        assert(i32_digits(t) == t);
        assert(!i32_negative(t));
        assert forall|k: int|
            0 <= k < t.len() implies !crate::text::is_space(#[trigger] t[k]) && t[k] != '\n' && t[k]
            != '#' by {
            lemma_digit_not_special(t[k]);
        }
    }
}

/// The decimal rendering of a `u32`-ranged natural number reads back as
/// exactly that number.
pub proof fn lemma_dec_nat_reads(n: nat)
    requires
        n <= u32::MAX,
    ensures
        u32_token_valid(dec_nat(n)),
        u32_token_val(dec_nat(n)) == n,
        forall|k: int|
            0 <= k < dec_nat(n).len() ==> !crate::text::is_space(#[trigger] dec_nat(n)[k])
                && dec_nat(n)[k] != '\n' && dec_nat(n)[k] != '#',
{
    lemma_dec_nat(n);
    let t = dec_nat(n);
    assert(is_digit(t[0]));
    lemma_digit_not_special(t[0]);
    assert(u32_digits(t) == t);
    assert forall|k: int|
        0 <= k < t.len() implies !crate::text::is_space(#[trigger] t[k]) && t[k] != '\n' && t[k]
        != '#' by {
        lemma_digit_not_special(t[k]);
    }
}

/// Executable test for a digit character, returning its value.
pub fn digit_of(c: char) -> (r: Option<u32>)
    ensures
        match r {
            Some(d) => is_digit(c) && d == digit_val(c) && d <= 9,
            None => !is_digit(c),
        },
{
    let u: u32 = c as u32;
    if 48 <= u && u <= 57 {
        Some(u - 48)
    } else {
        None
    }
}

/// The one-character string for a digit value.
pub fn digit_str(d: u32) -> (r: &'static str)
    requires
        d <= 9,
    ensures
        r@ == seq![digit_char(d as int)],
{
    proof {
        reveal_strlit("0");
        reveal_strlit("1");
        reveal_strlit("2");
        reveal_strlit("3");
        reveal_strlit("4");
        reveal_strlit("5");
        reveal_strlit("6");
        reveal_strlit("7");
        reveal_strlit("8");
        reveal_strlit("9");
    }
    let r: &'static str = if d == 0 {
        "0"
    } else if d == 1 {
        "1"
    } else if d == 2 {
        "2"
    } else if d == 3 {
        "3"
    } else if d == 4 {
        "4"
    } else if d == 5 {
        "5"
    } else if d == 6 {
        "6"
    } else if d == 7 {
        "7"
    } else if d == 8 {
        "8"
    } else {
        "9"
    };
    proof {
        assert(r@ =~= seq![digit_char(d as int)]);
    }
    r
}

/// Appends the decimal rendering of `n` to `s`.
pub fn push_dec_u32(s: &mut String, n: u32)
    ensures
        final(s)@ == old(s)@ + dec_nat(n as nat),
    decreases n,
{
    if n < 10 {
        let d = digit_str(n);
        s.append(d);
        proof {
            assert(old(s)@ + d@ =~= old(s)@ + dec_nat(n as nat));
        }
    } else {
        push_dec_u32(s, n / 10);
        let ghost mid = s@;
        let d = digit_str(n % 10);
        s.append(d);
        proof {
            assert(dec_nat(n as nat) == dec_nat((n as nat) / 10).push(
                digit_char(((n as nat) % 10) as int),
            ));
            assert(mid + d@ =~= old(s)@ + dec_nat(n as nat));
        }
    }
}

/// Appends the decimal rendering of `g`, with a `-` sign when negative.
pub fn push_dec_i32(s: &mut String, g: i32)
    ensures
        final(s)@ == old(s)@ + dec_int(g as int),
{
    if g < 0 {
        proof {
            reveal_strlit("-");
        }
        s.append("-");
        let ghost mid = s@;
        let wide: i64 = g as i64;
        let mag: u32 = (-wide) as u32;
        push_dec_u32(s, mag);
        proof {
            assert(mag as nat == (-(g as int)) as nat);
            assert(mid =~= old(s)@ + seq!['-']);
            assert(old(s)@ + seq!['-'] + dec_nat(mag as nat) =~= old(s)@ + dec_int(g as int));
        }
    } else {
        push_dec_u32(s, g as u32);
    }
}

/// Reads a token as a `u32`; `None` exactly when the token does not read as
/// one.
pub fn read_u32_token(t: &Vec<char>) -> (r: Option<u32>)
    ensures
        match r {
            Some(v) => u32_token_valid(t@) && v == u32_token_val(t@),
            None => !u32_token_valid(t@),
        },
{
    let start: usize = if t.len() > 0 && t[0] == '+' {
        1
    } else {
        0
    };
    let ghost d = u32_digits(t@);
    proof {
        assert(d =~= t@.skip(start as int));
    }
    if t.len() == start {
        return None;
    }
    let mut acc: u64 = 0;
    let mut j: usize = start;
    while j < t.len()
        invariant
            start <= j <= t@.len(),
            d == t@.skip(start as int),
            forall|k: int| 0 <= k < j - start ==> is_digit(#[trigger] d[k]),
            acc == digits_val(d.take(j - start)),
            acc <= u32::MAX,
        decreases t@.len() - j,
    {
        let c = t[j];
        proof {
            assert(d[j - start] == t@[j as int]);
        }
        match digit_of(c) {
            None => {
                return None;
            },
            Some(dv) => {
                proof {
                    assert(d.take(j - start + 1).drop_last() =~= d.take(j - start));
                    assert(d.take(j - start + 1).last() == d[j - start]);
                }
                let next: u64 = acc * 10 + dv as u64;
                proof {
                    assert(digits_val(d.take(j - start + 1)) == 10 * digits_val(d.take(j - start))
                        + digit_val(c));
                }
                if next > u32::MAX as u64 {
                    proof {
                        if all_digits(d) {
                            lemma_digits_val_prefix(d, j - start + 1);
                        }
                    }
                    return None;
                }
                acc = next;
            },
        }
        j = j + 1;
    }
    proof {
        assert(d.take(d.len() as int) =~= d);
    }
    Some(acc as u32)
}

/// Reads a token as an `i32`; `None` exactly when the token does not read as
/// one.
pub fn read_i32_token(t: &Vec<char>) -> (r: Option<i32>)
    ensures
        match r {
            Some(v) => i32_token_valid(t@) && v == i32_token_val(t@),
            None => !i32_token_valid(t@),
        },
{
    let neg: bool = t.len() > 0 && t[0] == '-';
    let start: usize = if t.len() > 0 && (t[0] == '+' || t[0] == '-') {
        1
    } else {
        0
    };
    let ghost d = i32_digits(t@);
    proof {
        assert(d =~= t@.skip(start as int));
        assert(neg == i32_negative(t@));
    }
    if t.len() == start {
        return None;
    }
    let mut acc: u64 = 0;
    let mut j: usize = start;
    while j < t.len()
        invariant
            start <= j <= t@.len(),
            d == t@.skip(start as int),
            forall|k: int| 0 <= k < j - start ==> is_digit(#[trigger] d[k]),
            acc == digits_val(d.take(j - start)),
            acc <= 0x8000_0000,
        decreases t@.len() - j,
    {
        let c = t[j];
        proof {
            assert(d[j - start] == t@[j as int]);
        }
        match digit_of(c) {
            None => {
                return None;
            },
            Some(dv) => {
                proof {
                    assert(d.take(j - start + 1).drop_last() =~= d.take(j - start));
                    assert(d.take(j - start + 1).last() == d[j - start]);
                }
                let next: u64 = acc * 10 + dv as u64;
                proof {
                    assert(digits_val(d.take(j - start + 1)) == 10 * digits_val(d.take(j - start))
                        + digit_val(c));
                }
                if next > 0x8000_0000 {
                    proof {
                        if all_digits(d) {
                            lemma_digits_val_prefix(d, j - start + 1);
                        }
                    }
                    return None;
                }
                acc = next;
            },
        }
        j = j + 1;
    }
    proof {
        assert(d.take(d.len() as int) =~= d);
    }
    if neg {
        if acc == 0x8000_0000 {
            Some(i32::MIN)
        } else {
            Some(-((acc as u32) as i32))
        }
    } else {
        if acc > 0x7FFF_FFFF {
            None
        } else {
            Some(acc as u32 as i32)
        }
    }
}

} // verus!
