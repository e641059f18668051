//! Specification-level model of base-10 digit strings: their numeric value,
//! zero stripping and padding, and the minimal rendering of a natural number.
use vstd::prelude::*;

verus! {

/// `c` is one of the characters `'0'` through `'9'`.
pub open spec fn is_digit(c: char) -> bool {
    '0' <= c && c <= '9'
}

/// Numeric value of a single digit character.
pub open spec fn digit_val(c: char) -> nat {
    (c as int - '0' as int) as nat
}

/// Every character of `s` is a decimal digit.
pub open spec fn is_digit_seq(s: Seq<char>) -> bool {
    forall|i: int| 0 <= i < s.len() ==> is_digit(#[trigger] s[i])
}

/// The natural number that the digit string `s` denotes, most significant
/// digit first; the empty string denotes 0.
pub open spec fn digits_val(s: Seq<char>) -> nat
    decreases s.len(),
{
    if s.len() == 0 {
        0
    } else {
        digits_val(s.drop_last()) * 10 + digit_val(s.last())
    }
}

/// `10^n`.
pub open spec fn pow10(n: nat) -> nat
    decreases n,
{
    if n == 0 {
        1
    } else {
        10 * pow10((n - 1) as nat)
    }
}

/// `n` copies of the character `c`.
pub open spec fn char_repeat(c: char, n: nat) -> Seq<char> {
    Seq::new(n, |i: int| c)
}

/// `s` without its trailing `'0'` characters.
pub open spec fn strip_trailing_zeros(s: Seq<char>) -> Seq<char>
    decreases s.len(),
{
    if s.len() > 0 && s.last() == '0' {
        strip_trailing_zeros(s.drop_last())
    } else {
        s
    }
}

/// `s` without its leading `'0'` characters, except that the last character
/// always remains, so a string of zeros collapses to `"0"`.
pub open spec fn strip_leading_zeros(s: Seq<char>) -> Seq<char>
    decreases s.len(),
{
    if s.len() > 1 && s[0] == '0' {
        strip_leading_zeros(s.skip(1))
    } else {
        s
    }
}

/// The digit character of a value below 10.
pub open spec fn digit_char(n: nat) -> char {
    if n == 0 {
        '0'
    } else if n == 1 {
        '1'
    } else if n == 2 {
        '2'
    } else if n == 3 {
        '3'
    } else if n == 4 {
        '4'
    } else if n == 5 {
        '5'
    } else if n == 6 {
        '6'
    } else if n == 7 {
        '7'
    } else if n == 8 {
        '8'
    } else {
        '9'
    }
}

/// Minimal base-10 rendering of `n`: no leading zeros, and `"0"` for 0.
pub open spec fn dec_digits_of(n: nat) -> Seq<char>
    decreases n,
{
    if n < 10 {
        seq![digit_char(n)]
    } else {
        dec_digits_of(n / 10).push(digit_char(n % 10))
    }
}

/// Powers of ten are positive.
pub proof fn lemma_pow10_pos(n: nat)
    ensures
        pow10(n) >= 1,
    decreases n,
{
    if n > 0 {
        lemma_pow10_pos((n - 1) as nat);
    }
}

/// `10^a * 10^b == 10^(a + b)`.
pub proof fn lemma_pow10_adds(a: nat, b: nat)
    ensures
        pow10(a) * pow10(b) == pow10(a + b),
    decreases a,
{
    if a == 0 {
        assert(pow10(a) == 1);
        assert(a + b == b);
    } else {
        lemma_pow10_adds((a - 1) as nat, b);
        let p = pow10((a - 1) as nat);
        let q = pow10(b);
        assert(pow10(a) == 10 * p);
        assert((a + b - 1) as nat == (a - 1) as nat + b);
        assert(pow10(a + b) == 10 * pow10((a - 1) as nat + b));
        assert((10 * p) * q == 10 * (p * q)) by (nonlinear_arith);
        assert(pow10(a) * q == (10 * p) * q);
        assert(10 * (p * q) == 10 * pow10((a - 1) as nat + b));
        assert(pow10(a) * pow10(b) == pow10(a + b));
    }
}

/// Reading a concatenation of digit strings: the left part is shifted up
/// by one decimal place per right-hand digit.
#[verifier::rlimit(30)]
pub proof fn lemma_digits_val_concat(a: Seq<char>, b: Seq<char>)
    ensures
        digits_val(a + b) == digits_val(a) * pow10(b.len()) + digits_val(b),
    decreases b.len(),
{
    if b.len() == 0 {
        assert(a + b =~= a);
        assert(pow10(0) == 1);
        assert(digits_val(b) == 0);
    } else {
        let b0 = b.drop_last();
        assert((a + b).drop_last() =~= a + b0);
        assert((a + b).last() == b.last());
        lemma_digits_val_concat(a, b0);
        let x = digits_val(a);
        let p = pow10(b0.len());
        assert(digits_val(a + b) == digits_val(a + b0) * 10 + digit_val(b.last()));
        assert(digits_val(b) == digits_val(b0) * 10 + digit_val(b.last()));
        assert((x * p + digits_val(b0)) * 10 + digit_val(b.last()) == x * (p * 10) + (digits_val(
            b0,
        ) * 10 + digit_val(b.last()))) by (nonlinear_arith);
        assert(pow10(b.len()) == 10 * p);
        assert(x * (p * 10) == x * pow10(b.len()));
    }
}

/// A run of `'0'` characters denotes zero.
pub proof fn lemma_digits_val_zeros(n: nat)
    ensures
        digits_val(char_repeat('0', n)) == 0,
    decreases n,
{
    if n > 0 {
        assert(char_repeat('0', n).drop_last() =~= char_repeat('0', (n - 1) as nat));
        lemma_digits_val_zeros((n - 1) as nat);
        assert(digit_val('0') == 0);
    }
}

/// Stripping trailing zeros divides out the corresponding power of ten.
#[verifier::rlimit(30)]
pub proof fn lemma_digits_val_strip_trailing(s: Seq<char>)
    ensures
        strip_trailing_zeros(s).len() <= s.len(),
        digits_val(s) == digits_val(strip_trailing_zeros(s)) * pow10(
            (s.len() - strip_trailing_zeros(s).len()) as nat,
        ),
    decreases s.len(),
{
    if s.len() > 0 && s.last() == '0' {
        lemma_digits_val_strip_trailing(s.drop_last());
        let d0 = s.drop_last();
        let t = strip_trailing_zeros(s);
        assert(t == strip_trailing_zeros(d0));
        let k = (d0.len() - t.len()) as nat;
        assert(digit_val('0') == 0);
        assert(digits_val(s) == digits_val(d0) * 10);
        assert(digits_val(d0) == digits_val(t) * pow10(k));
        assert((digits_val(t) * pow10(k)) * 10 == digits_val(t) * (pow10(k) * 10))
            by (nonlinear_arith);
        assert(pow10(k + 1) == 10 * pow10(k));
        assert(digits_val(t) * (pow10(k) * 10) == digits_val(t) * pow10(k + 1));
        assert((s.len() - t.len()) as nat == k + 1);
        assert(digits_val(s) == digits_val(t) * pow10(k + 1));
        assert(digits_val(s) == digits_val(strip_trailing_zeros(s)) * pow10(
            (s.len() - strip_trailing_zeros(s).len()) as nat,
        ));
    } else {
        assert(strip_trailing_zeros(s) == s);
        assert(pow10(0) == 1);
        assert((s.len() - strip_trailing_zeros(s).len()) as nat == 0);
        assert(digits_val(s) == digits_val(strip_trailing_zeros(s)) * pow10(
            (s.len() - strip_trailing_zeros(s).len()) as nat,
        ));
    }
}

/// Leading zeros carry no value.
pub proof fn lemma_digits_val_strip_leading(s: Seq<char>)
    ensures
        digits_val(strip_leading_zeros(s)) == digits_val(s),
        strip_leading_zeros(s).len() >= 1 || s.len() == 0,
        strip_leading_zeros(s).len() <= s.len(),
        is_digit_seq(s) ==> is_digit_seq(strip_leading_zeros(s)),
    decreases s.len(),
{
    if s.len() > 1 && s[0] == '0' {
        lemma_digits_val_strip_leading(s.skip(1));
        assert(s =~= seq!['0'] + s.skip(1));
        lemma_digits_val_concat(seq!['0'], s.skip(1));
        assert(seq!['0'].drop_last() =~= Seq::<char>::empty());
        assert(digits_val(seq!['0']) == digits_val(Seq::<char>::empty()) * 10 + digit_val('0'));
        assert(digits_val(seq!['0']) == 0);
        if is_digit_seq(s) {
            assert forall|j: int| 0 <= j < s.skip(1).len() implies is_digit(
                #[trigger] s.skip(1)[j],
            ) by {
                assert(s.skip(1)[j] == s[j + 1]);
            }
        }
    }
}

/// A digit string of value zero is all `'0'` characters.
pub proof fn lemma_digits_val_zero_all_zeros(s: Seq<char>)
    requires
        is_digit_seq(s),
        digits_val(s) == 0,
    ensures
        forall|j: int| 0 <= j < s.len() ==> s[j] == '0',
    decreases s.len(),
{
    if s.len() > 0 {
        assert(digits_val(s) == digits_val(s.drop_last()) * 10 + digit_val(s.last()));
        assert(digits_val(s.drop_last()) == 0);
        assert(digit_val(s.last()) == 0);
        assert(is_digit(s.last()));
        assert(s.last() == '0');
        assert forall|j: int| 0 <= j < s.drop_last().len() implies is_digit(
            #[trigger] s.drop_last()[j],
        ) by {
            assert(s.drop_last()[j] == s[j]);
        }
        lemma_digits_val_zero_all_zeros(s.drop_last());
        assert forall|j: int| 0 <= j < s.len() implies s[j] == '0' by {
            if j < s.len() - 1 {
                assert(s.drop_last()[j] == '0');
                assert(s[j] == s.drop_last()[j]);
            } else {
                assert(s[j] == s.last());
            }
        }
    }
}

/// The minimal rendering of a number reads back as that number.
pub proof fn lemma_dec_digits_of_val(n: nat)
    ensures
        digits_val(dec_digits_of(n)) == n,
    decreases n,
{
    if n < 10 {
        let s = dec_digits_of(n);
        assert(s == seq![digit_char(n)]);
        assert(s.drop_last() =~= Seq::<char>::empty());
        assert(s.last() == digit_char(n));
        assert(digit_val(digit_char(n)) == n);
        assert(digits_val(s) == digits_val(Seq::<char>::empty()) * 10 + n);
    } else {
        lemma_dec_digits_of_val(n / 10);
        let p = dec_digits_of(n / 10);
        let s = dec_digits_of(n);
        assert(s == p.push(digit_char(n % 10)));
        assert(s.drop_last() =~= p);
        assert(s.last() == digit_char(n % 10));
        assert(s.len() == p.len() + 1);
        assert(digit_val(digit_char(n % 10)) == n % 10);
        assert(digits_val(s) == digits_val(p) * 10 + n % 10);
    }
}

/// The minimal rendering of a number is a non-empty digit string.
pub proof fn lemma_dec_digits_of_shape(n: nat)
    ensures
        is_digit_seq(dec_digits_of(n)),
        dec_digits_of(n).len() >= 1,
    decreases n,
{
    if n < 10 {
        assert(is_digit(digit_char(n)));
    } else {
        lemma_dec_digits_of_shape(n / 10);
        let s = dec_digits_of(n);
        let p = dec_digits_of(n / 10);
        assert(s == p.push(digit_char(n % 10)));
        assert forall|i: int| 0 <= i < s.len() implies is_digit(#[trigger] s[i]) by {
            if i < p.len() {
                assert(s[i] == p[i]);
            } else {
                assert(s[i] == digit_char(n % 10));
            }
        }
    }
}

} // verus!
