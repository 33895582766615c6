//! Decimal rendering of fixed-point amounts.
//!
//! Amounts in this crate are integers counted in a fixed unit (hundredths of a
//! rupee for prices and strikes, ten-thousandths for option greeks). The
//! functions here turn such integers into the text the terminal shows.
use vstd::prelude::*;
use vstd::string::StringExecFns;

verus! {

/// The character of a decimal digit.
pub open spec fn digit_char(d: int) -> char {
    if d == 0 { '0' }
    else if d == 1 { '1' }
    else if d == 2 { '2' }
    else if d == 3 { '3' }
    else if d == 4 { '4' }
    else if d == 5 { '5' }
    else if d == 6 { '6' }
    else if d == 7 { '7' }
    else if d == 8 { '8' }
    else { '9' }
}

/// The decimal digits of a natural number, most significant first, without
/// leading zeros ("0" for zero).
pub open spec fn nat_digits(n: nat) -> Seq<char>
    decreases n,
{
    if n < 10 {
        seq![digit_char(n as int)]
    } else {
        nat_digits(n / 10).push(digit_char((n % 10) as int))
    }
}

/// The last `k` decimal digits of `n`, padded with leading zeros.
pub open spec fn padded_digits(n: nat, k: nat) -> Seq<char>
    decreases k,
{
    if k == 0 {
        Seq::empty()
    } else {
        padded_digits(n / 10, (k - 1) as nat).push(digit_char((n % 10) as int))
    }
}

/// A sequence of characters with its trailing '0's removed.
pub open spec fn strip_trailing_zeros(s: Seq<char>) -> Seq<char>
    decreases s.len(),
{
    if s.len() > 0 && s.last() == '0' {
        strip_trailing_zeros(s.drop_last())
    } else {
        s
    }
}

pub open spec fn pow10(k: nat) -> nat
    decreases k,
{
    if k == 0 { 1 } else { 10 * pow10((k - 1) as nat) }
}

pub open spec fn abs(v: int) -> nat {
    if v < 0 { (-v) as nat } else { v as nat }
}

pub open spec fn sign_prefix(v: int) -> Seq<char> {
    if v < 0 { seq!['-'] } else { Seq::empty() }
}

/// `v / 10^places` written with exactly `places` decimals, as Rust's
/// `{:.places$}` writes a number.
pub open spec fn fixed_text(v: int, places: nat) -> Seq<char> {
    let a = abs(v);
    let int_part = nat_digits(a / pow10(places));
    if places == 0 {
        sign_prefix(v) + int_part
    } else {
        sign_prefix(v) + int_part + seq!['.'] + padded_digits(a % pow10(places), places)
    }
}

/// `v / 10^places` written in the shortest form, as Rust's `{}` writes a
/// number: no decimal point when the value is whole, otherwise the needed
/// decimals only.
pub open spec fn plain_text(v: int, places: nat) -> Seq<char> {
    let a = abs(v);
    let int_part = nat_digits(a / pow10(places));
    let frac = a % pow10(places);
    if frac == 0 {
        sign_prefix(v) + int_part
    } else {
        sign_prefix(v) + int_part + seq!['.'] + strip_trailing_zeros(padded_digits(frac, places))
    }
}

/// Digits grouped in pairs from the right, separated by ','.
pub open spec fn group_pairs(s: Seq<char>) -> Seq<char>
    decreases s.len(),
{
    if s.len() <= 2 {
        s
    } else {
        group_pairs(s.subrange(0, s.len() - 2)) + seq![','] + s.subrange(s.len() - 2, s.len() as int)
    }
}

/// Digits grouped in the Indian numbering system: the last three digits, then
/// pairs (1,00,000).
pub open spec fn indian_grouping(s: Seq<char>) -> Seq<char> {
    if s.len() <= 3 {
        s
    } else {
        group_pairs(s.subrange(0, s.len() - 3)) + seq![','] + s.subrange(s.len() - 3, s.len() as int)
    }
}

/// The currency text of an amount in hundredths of a rupee: the sign, the
/// rupee sign and the whole rupees in Indian grouping (fractions dropped).
pub open spec fn indian_currency_text(v: int) -> Seq<char> {
    sign_prefix(v) + seq!['₹'] + indian_grouping(nat_digits(abs(v) / 100))
}

pub proof fn lemma_nat_digits_len(n: nat)
    ensures
        nat_digits(n).len() >= 1,
    decreases n,
{
    if n >= 10 {
        lemma_nat_digits_len(n / 10);
    }
}

/// `String::push`. Claimed: the string's characters gain `c` at the end.
#[verifier::external_body]
pub(crate) fn push_char(s: &mut String, c: char)
    ensures
        final(s)@ == old(s)@.push(c),
{
    s.push(c);
}

pub fn digit(d: u128) -> (c: char)
    requires
        d < 10,
    ensures
        c == digit_char(d as int),
{
    match d {
        0 => '0',
        1 => '1',
        2 => '2',
        3 => '3',
        4 => '4',
        5 => '5',
        6 => '6',
        7 => '7',
        8 => '8',
        _ => '9',
    }
}

/// Appends the decimal digits of `n`.
pub fn push_nat_digits(s: &mut String, n: u128)
    ensures
        final(s)@ == old(s)@ + nat_digits(n as nat),
    decreases n,
{
    if n >= 10 {
        push_nat_digits(s, n / 10);
    }
    push_char(s, digit(n % 10));
    assert(final(s)@ =~= old(s)@ + nat_digits(n as nat));
}

/// Appends the last `k` digits of `n`, zero-padded.
pub fn push_padded_digits(s: &mut String, n: u128, k: u32)
    ensures
        final(s)@ == old(s)@ + padded_digits(n as nat, k as nat),
    decreases k,
{
    if k > 0 {
        push_padded_digits(s, n / 10, k - 1);
        push_char(s, digit(n % 10));
        assert(final(s)@ =~= old(s)@ + padded_digits(n as nat, k as nat));
    } else {
        assert(final(s)@ =~= old(s)@ + padded_digits(n as nat, k as nat));
    }
}

pub fn pow10_exec(k: u32) -> (r: u128)
    requires
        k <= 30,
    ensures
        r == pow10(k as nat),
    decreases k,
{
    if k == 0 {
        1
    } else {
        let p = pow10_exec(k - 1);
        proof {
            lemma_pow10_bound((k - 1) as nat);
        }
        10 * p
    }
}

pub proof fn lemma_pow10_bound(k: nat)
    requires
        k <= 30,
    ensures
        1 <= pow10(k) <= pow10(30),
        pow10(30) == 1_000_000_000_000_000_000_000_000_000_000,
    decreases k,
{
    reveal_with_fuel(pow10, 31);
    if k > 0 {
        lemma_pow10_bound((k - 1) as nat);
        lemma_pow10_mono((k - 1) as nat, 29);
    }
}

pub proof fn lemma_pow10_mono(a: nat, b: nat)
    requires
        a <= b,
    ensures
        pow10(a) <= pow10(b),
    decreases b,
{
    if a < b {
        lemma_pow10_mono(a, (b - 1) as nat);
    }
}

pub fn abs_i128(v: i128) -> (r: u128)
    ensures
        r == abs(v as int),
{
    if v < 0 {
        if v == i128::MIN {
            (i128::MAX as u128) + 1
        } else {
            (-v) as u128
        }
    } else {
        v as u128
    }
}

/// Removes trailing '0's from a sequence held in a vector.
fn strip_zeros_vec(v: &mut Vec<char>)
    ensures
        final(v)@ == strip_trailing_zeros(old(v)@),
    decreases old(v)@.len(),
{
    let n = v.len();
    if n > 0 && v[n - 1] == '0' {
        let ghost before = v@;
        v.pop();
        assert(v@ =~= before.drop_last());
        strip_zeros_vec(v);
    }
}

/// Writes `v / 10^places` with exactly `places` decimals (Rust's `{:.2}` for
/// two places).
pub fn fixed_string(v: i128, places: u32) -> (s: String)
    requires
        places <= 30,
    ensures
        s@ == fixed_text(v as int, places as nat),
{
    let mut s = String::new();
    if v < 0 {
        push_char(&mut s, '-');
    }
    let a = abs_i128(v);
    let p = pow10_exec(places);
    proof {
        lemma_pow10_bound(places as nat);
    }
    push_nat_digits(&mut s, a / p);
    if places > 0 {
        push_char(&mut s, '.');
        push_padded_digits(&mut s, a % p, places);
    }
    assert(s@ =~= fixed_text(v as int, places as nat));
    s
}

/// Writes `v / 10^places` as Rust's `{}` writes a number: whole values
/// without a decimal point, others with the needed decimals only.
pub fn plain_string(v: i128, places: u32) -> (s: String)
    requires
        places <= 30,
    ensures
        s@ == plain_text(v as int, places as nat),
{
    let mut s = String::new();
    if v < 0 {
        push_char(&mut s, '-');
    }
    let a = abs_i128(v);
    let p = pow10_exec(places);
    proof {
        lemma_pow10_bound(places as nat);
    }
    push_nat_digits(&mut s, a / p);
    let frac = a % p;
    if frac != 0 {
        push_char(&mut s, '.');
        let mut tmp = String::new();
        push_padded_digits(&mut tmp, frac, places);
        let mut cs = chars_of(&tmp);
        strip_zeros_vec(&mut cs);
        push_chars(&mut s, &cs);
    }
    assert(s@ =~= plain_text(v as int, places as nat));
    s
}

/// `str::chars` collected into a vector. Claimed: the vector holds the
/// string's characters in order.
#[verifier::external_body]
pub(crate) fn chars_of(s: &String) -> (r: Vec<char>)
    ensures
        r@ == s@,
{
    s.chars().collect()
}

/// Appends the characters `cs[0..n]`.
pub fn push_chars_upto(s: &mut String, cs: &Vec<char>, n: usize)
    requires
        n <= cs@.len(),
    ensures
        final(s)@ == old(s)@ + cs@.subrange(0, n as int),
{
    let mut i: usize = 0;
    while i < n
        invariant
            i <= n <= cs@.len(),
            s@ == old(s)@ + cs@.subrange(0, i as int),
        decreases n - i,
    {
        push_char(s, cs[i]);
        i += 1;
        assert(s@ =~= old(s)@ + cs@.subrange(0, i as int));
    }
}

/// Appends all characters of `cs`.
pub fn push_chars(s: &mut String, cs: &Vec<char>)
    ensures
        final(s)@ == old(s)@ + cs@,
{
    push_chars_upto(s, cs, cs.len());
    assert(cs@.subrange(0, cs@.len() as int) =~= cs@);
}

/// Appends `group_pairs(cs[0..n])`.
fn push_group_pairs(out: &mut String, cs: &Vec<char>, n: usize)
    requires
        n <= cs@.len(),
    ensures
        final(out)@ == old(out)@ + group_pairs(cs@.subrange(0, n as int)),
    decreases n,
{
    let ghost pre = cs@.subrange(0, n as int);
    if n <= 2 {
        push_chars_upto(out, cs, n);
    } else {
        push_group_pairs(out, cs, n - 2);
        push_char(out, ',');
        push_char(out, cs[n - 2]);
        push_char(out, cs[n - 1]);
        assert(pre.subrange(0, pre.len() - 2) =~= cs@.subrange(0, n - 2));
        assert(pre.subrange(pre.len() - 2, pre.len() as int) =~= seq![cs@[n - 2], cs@[n - 1]]);
        assert(final(out)@ =~= old(out)@ + group_pairs(pre));
    }
}

/// Formats an amount (in hundredths of a rupee) as Indian currency: the
/// sign, the rupee sign and whole rupees grouped as 1,00,000.
pub fn format_indian_currency(val: i64) -> (s: String)
    ensures
        s@ == indian_currency_text(val as int),
{
    let a = abs_i128(val as i128);
    let mut digits_s = String::new();
    push_nat_digits(&mut digits_s, a / 100);
    let ds = chars_of(&digits_s);
    let ghost d = nat_digits(abs(val as int) / 100);
    assert(ds@ == d);
    let mut out = String::new();
    if val < 0 {
        push_char(&mut out, '-');
    }
    push_char(&mut out, '₹');
    let len = ds.len();
    if len <= 3 {
        push_chars(&mut out, &ds);
        assert(indian_grouping(d) == d);
    } else {
        push_group_pairs(&mut out, &ds, len - 3);
        push_char(&mut out, ',');
        push_char(&mut out, ds[len - 3]);
        push_char(&mut out, ds[len - 2]);
        push_char(&mut out, ds[len - 1]);
        assert(d.subrange(d.len() - 3, d.len() as int) =~= seq![d[len - 3], d[len - 2], d[len - 1]]);
    }
    assert(out@ =~= indian_currency_text(val as int));
    out
}

/// Appends a string literal or another string slice.
pub fn push_str(s: &mut String, t: &str)
    ensures
        final(s)@ == old(s)@ + t@,
{
    s.append(t);
}

/// The character is a decimal digit.
pub open spec fn is_digit(c: char) -> bool {
    '0' <= c <= '9'
}

/// Every character is a decimal digit.
pub open spec fn all_digits(s: Seq<char>) -> bool {
    forall|i: int| 0 <= i < s.len() ==> is_digit(#[trigger] s[i])
}

/// The number a string of decimal digits writes, most significant first.
pub open spec fn digits_value(s: Seq<char>) -> int
    decreases s.len(),
{
    if s.len() == 0 {
        0
    } else {
        10 * digits_value(s.drop_last()) + (s.last() as int - '0' as int)
    }
}

proof fn lemma_digit_char(d: int)
    requires
        0 <= d <= 9,
    ensures
        is_digit(digit_char(d)),
        digit_char(d) as int - '0' as int == d,
{
}

proof fn lemma_push_digit(s: Seq<char>, d: int)
    requires
        0 <= d <= 9,
        all_digits(s),
    ensures
        all_digits(s.push(digit_char(d))),
        digits_value(s.push(digit_char(d))) == 10 * digits_value(s) + d,
{
    lemma_digit_char(d);
    assert(s.push(digit_char(d)).drop_last() =~= s);
    assert forall|i: int| 0 <= i < s.push(digit_char(d)).len() implies is_digit(
        #[trigger] s.push(digit_char(d))[i],
    ) by {
        if i < s.len() {
            assert(s.push(digit_char(d))[i] == s[i]);
        }
    }
}

/// The digits of a natural number read back as the number, with no leading
/// zero.
pub proof fn law_nat_digits_read_back(n: nat)
    ensures
        nat_digits(n).len() >= 1,
        all_digits(nat_digits(n)),
        digits_value(nat_digits(n)) == n,
        nat_digits(n)[0] == '0' ==> n == 0,
    decreases n,
{
    if n < 10 {
        lemma_digit_char(n as int);
        assert(seq![digit_char(n as int)].drop_last() =~= Seq::<char>::empty());
        assert(digits_value(Seq::<char>::empty()) == 0);
        assert(digits_value(nat_digits(n)) == digit_char(n as int) as int - '0' as int);
    } else {
        law_nat_digits_read_back(n / 10);
        lemma_push_digit(nat_digits(n / 10), (n % 10) as int);
        vstd::arithmetic::div_mod::lemma_fundamental_div_mod(n as int, 10);
        assert(nat_digits(n)[0] == nat_digits(n / 10)[0]);
    }
}

/// The `k` padded digits of `n` read back as `n` modulo `10^k`.
pub proof fn law_padded_digits_read_back(n: nat, k: nat)
    ensures
        padded_digits(n, k).len() == k,
        all_digits(padded_digits(n, k)),
        digits_value(padded_digits(n, k)) == n % pow10(k),
    decreases k,
{
    if k > 0 {
        law_padded_digits_read_back(n / 10, (k - 1) as nat);
        lemma_push_digit(padded_digits(n / 10, (k - 1) as nat), (n % 10) as int);
        lemma_pow10_positive((k - 1) as nat);
        vstd::arithmetic::div_mod::lemma_breakdown(n as int, 10, pow10((k - 1) as nat) as int);
    } else {
        assert(n % 1 == 0);
    }
}

proof fn lemma_pow10_positive(k: nat)
    ensures
        pow10(k) >= 1,
    decreases k,
{
    if k > 0 {
        lemma_pow10_positive((k - 1) as nat);
    }
}

/// An amount written with fixed decimals reads back exactly: a minus sign
/// exactly when it is negative, then the whole part's digits with no
/// leading zero, then (for `places > 0`) a point and exactly `places`
/// digits; the whole part times `10^places` plus the decimals gives the
/// amount's magnitude.
pub proof fn law_fixed_text_reads_back(v: int, places: nat)
    ensures
        ({
            let t = fixed_text(v, places);
            let sgn: int = if v < 0 { 1 } else { 0 };
            let dot: int = if places == 0 { 0 } else { 1 };
            let whole = t.subrange(sgn, t.len() - places - dot);
            let frac = t.subrange(t.len() - places, t.len() as int);
            &&& t.len() >= sgn + 1 + dot + places
            &&& (v < 0 <==> t[0] == '-')
            &&& all_digits(whole) && (whole[0] == '0' ==> whole.len() == 1)
            &&& places > 0 ==> t[t.len() - places - 1] == '.'
            &&& all_digits(frac)
            &&& digits_value(whole) * pow10(places) + digits_value(frac) == abs(v)
        }),
{
    let a = abs(v);
    let p = pow10(places);
    lemma_pow10_positive(places);
    let i = nat_digits(a / p);
    let f = padded_digits(a % p, places);
    law_nat_digits_read_back(a / p);
    law_padded_digits_read_back(a % p, places);
    let t = fixed_text(v, places);
    let sgn: int = if v < 0 { 1 } else { 0 };
    let dot: int = if places == 0 { 0 } else { 1 };
    if places == 0 {
        assert(t == sign_prefix(v) + i);
        assert(f =~= Seq::<char>::empty());
        assert(t.subrange(t.len() - places, t.len() as int) =~= f);
    } else {
        assert(t == sign_prefix(v) + i + seq!['.'] + f);
        assert(t.subrange(t.len() - places, t.len() as int) =~= f);
    }
    assert(t.subrange(sgn, t.len() - places - dot) =~= i);
    assert(i[0] == t[sgn]);
    assert(is_digit(i[0]));
    vstd::arithmetic::div_mod::lemma_fundamental_div_mod(a as int, p as int);
    vstd::arithmetic::div_mod::lemma_mod_bound(a as int, p as int);
    vstd::arithmetic::div_mod::lemma_small_mod((a % p) as nat, p);
    assert((a / p) * p == p * (a / p)) by (nonlinear_arith);
}

proof fn lemma_strip_trailing_zeros(s: Seq<char>)
    requires
        all_digits(s),
    ensures
        strip_trailing_zeros(s).len() <= s.len(),
        strip_trailing_zeros(s) == s.subrange(0, strip_trailing_zeros(s).len() as int),
        strip_trailing_zeros(s).len() > 0 ==> strip_trailing_zeros(s).last() != '0',
        all_digits(strip_trailing_zeros(s)),
        digits_value(s) == digits_value(strip_trailing_zeros(s)) * pow10(
            (s.len() - strip_trailing_zeros(s).len()) as nat,
        ),
    decreases s.len(),
{
    let r = strip_trailing_zeros(s);
    if s.len() > 0 && s.last() == '0' {
        let t = s.drop_last();
        assert forall|i: int| 0 <= i < t.len() implies is_digit(#[trigger] t[i]) by {
            assert(t[i] == s[i]);
        }
        lemma_strip_trailing_zeros(t);
        assert(r == strip_trailing_zeros(t));
        assert(r =~= s.subrange(0, r.len() as int));
        let k = (t.len() - r.len()) as nat;
        assert((s.len() - r.len()) as nat == k + 1);
        assert(pow10(k + 1) == 10 * pow10(k));
        assert(digits_value(s) == 10 * digits_value(t));
        assert(digits_value(t) == digits_value(r) * pow10(k));
        assert(10 * (digits_value(r) * pow10(k)) == digits_value(r) * (10 * pow10(k)))
            by (nonlinear_arith);
        assert(digits_value(s) == digits_value(r) * pow10(k + 1));
    } else {
        assert(s.subrange(0, s.len() as int) =~= s);
        assert(r == s);
        assert(pow10(0) == 1);
        assert(digits_value(r) * 1 == digits_value(r));
    }
}

/// An amount written in the shortest form reads back exactly: a minus sign
/// exactly when it is negative; a whole amount is its digits alone, with no
/// leading zero; any other has a point followed by at most `places` digits,
/// the last not '0', and the whole part times `10^places` plus the decimals
/// scaled to `places` digits gives the amount's magnitude.
pub proof fn law_plain_text_reads_back(v: int, places: nat)
    ensures
        ({
            let t = plain_text(v, places);
            let sgn: int = if v < 0 { 1 } else { 0 };
            &&& t.len() > sgn
            &&& (v < 0 <==> t[0] == '-')
            &&& abs(v) % pow10(places) == 0 ==> all_digits(t.subrange(sgn, t.len() as int))
                && digits_value(t.subrange(sgn, t.len() as int)) * pow10(places) == abs(v) && (
            t[sgn] == '0' ==> t.len() == sgn + 1)
            &&& abs(v) % pow10(places) != 0 ==> exists|w: int|
                sgn < w < t.len() - 1 && #[trigger] t[w] == '.' && t.len() - 1 - w <= places
                    && all_digits(t.subrange(sgn, w)) && (t[sgn] == '0' ==> w == sgn + 1)
                    && all_digits(t.subrange(w + 1, t.len() as int)) && t.last() != '0'
                    && digits_value(t.subrange(sgn, w)) * pow10(places) + digits_value(
                    t.subrange(w + 1, t.len() as int),
                ) * pow10((places - (t.len() - 1 - w)) as nat) == abs(v)
        }),
{
    let a = abs(v);
    let p = pow10(places);
    lemma_pow10_positive(places);
    let i = nat_digits(a / p);
    let frac = a % p;
    law_nat_digits_read_back(a / p);
    law_padded_digits_read_back(frac, places);
    vstd::arithmetic::div_mod::lemma_fundamental_div_mod(a as int, p as int);
    vstd::arithmetic::div_mod::lemma_mod_bound(a as int, p as int);
    vstd::arithmetic::div_mod::lemma_small_mod(frac as nat, p);
    assert((a / p) * p == p * (a / p)) by (nonlinear_arith);
    let t = plain_text(v, places);
    let sgn: int = if v < 0 { 1 } else { 0 };
    assert(i[0] == t[sgn]);
    assert(is_digit(i[0]));
    if frac == 0 {
        assert(t == sign_prefix(v) + i);
        assert(t.subrange(sgn, t.len() as int) =~= i);
    } else {
        let f = padded_digits(frac, places);
        let g = strip_trailing_zeros(f);
        lemma_strip_trailing_zeros(f);
        if g.len() == 0 {
            assert(digits_value(g) == 0);
            assert(digits_value(f) == 0) by {
                assert(digits_value(g) * pow10((f.len() - g.len()) as nat) == 0);
            }
        }
        assert(g.len() > 0);
        assert(t == sign_prefix(v) + i + seq!['.'] + g);
        let w = sgn + i.len();
        assert(t[w] == '.');
        assert(t.subrange(sgn, w) =~= i);
        assert(t.subrange(w + 1, t.len() as int) =~= g);
        assert(t.last() == g.last());
        assert(t.len() - 1 - w == g.len());
    }
}

/// The characters of `s` other than ','.
pub open spec fn without_commas(s: Seq<char>) -> Seq<char>
    decreases s.len(),
{
    if s.len() == 0 {
        s
    } else if s.last() == ',' {
        without_commas(s.drop_last())
    } else {
        without_commas(s.drop_last()).push(s.last())
    }
}

proof fn lemma_without_commas_concat(a: Seq<char>, b: Seq<char>)
    ensures
        without_commas(a + b) == without_commas(a) + without_commas(b),
    decreases b.len(),
{
    if b.len() == 0 {
        assert(a + b =~= a);
        assert(without_commas(b) =~= Seq::<char>::empty());
        assert(without_commas(a) + without_commas(b) =~= without_commas(a));
    } else {
        lemma_without_commas_concat(a, b.drop_last());
        assert((a + b).drop_last() =~= a + b.drop_last());
        assert((a + b).last() == b.last());
        if b.last() != ',' {
            assert(without_commas(a) + without_commas(b.drop_last()).push(b.last()) =~= (without_commas(
                a,
            ) + without_commas(b.drop_last())).push(b.last()));
        }
    }
}

proof fn lemma_without_commas_comma()
    ensures
        without_commas(seq![',']) == Seq::<char>::empty(),
{
    let s = seq![','];
    assert(s.len() == 1);
    assert(s.last() == ',');
    assert(s.drop_last() =~= Seq::<char>::empty());
    assert(without_commas(Seq::<char>::empty()) == Seq::<char>::empty());
}

proof fn lemma_without_commas_digits(s: Seq<char>)
    requires
        all_digits(s),
    ensures
        without_commas(s) == s,
    decreases s.len(),
{
    if s.len() > 0 {
        let t = s.drop_last();
        assert forall|i: int| 0 <= i < t.len() implies is_digit(#[trigger] t[i]) by {
            assert(t[i] == s[i]);
        }
        lemma_without_commas_digits(t);
        assert(is_digit(s[s.len() - 1]));
        assert(t.push(s.last()) =~= s);
    }
}

/// Pairs grouped from the right put a comma at every third place from the
/// right end, counting from 0, at the places 2, 5, 8, ...; dropping the
/// commas gives the digits back.
proof fn lemma_group_pairs(s: Seq<char>)
    requires
        all_digits(s),
        s.len() >= 1,
    ensures
        group_pairs(s).len() >= 1,
        group_pairs(s)[0] != ',',
        without_commas(group_pairs(s)) == s,
        forall|c: int|
            0 <= c < group_pairs(s).len() ==> (#[trigger] group_pairs(s)[c] == ',' <==> (group_pairs(s).len()
                - 1 - c) % 3 == 2),
    decreases s.len(),
{
    let g = group_pairs(s);
    if s.len() <= 2 {
        lemma_without_commas_digits(s);
        assert forall|c: int| 0 <= c < g.len() implies (#[trigger] g[c] == ',' <==> (g.len() - 1 - c) % 3
            == 2) by {
            assert(is_digit(s[c]));
        }
    } else {
        let pre = s.subrange(0, s.len() - 2);
        let last = s.subrange(s.len() - 2, s.len() as int);
        assert forall|i: int| 0 <= i < pre.len() implies is_digit(#[trigger] pre[i]) by {
            assert(pre[i] == s[i]);
        }
        assert forall|i: int| 0 <= i < last.len() implies is_digit(#[trigger] last[i]) by {
            assert(last[i] == s[s.len() - 2 + i]);
        }
        lemma_group_pairs(pre);
        let gp = group_pairs(pre);
        assert(g == gp + seq![','] + last);
        lemma_without_commas_digits(last);
        lemma_without_commas_concat(gp + seq![','], last);
        lemma_without_commas_concat(gp, seq![',']);
        lemma_without_commas_comma();
        assert(pre + last =~= s);
        assert(gp + Seq::<char>::empty() =~= gp);
        assert(g[0] == gp[0]);
        assert forall|c: int| 0 <= c < g.len() implies (#[trigger] g[c] == ',' <==> (g.len() - 1 - c) % 3
            == 2) by {
            if c < gp.len() {
                assert(g[c] == gp[c]);
                assert(g.len() - 1 - c == (gp.len() - 1 - c) + 3);
            } else if c == gp.len() {
                assert(g[c] == ',');
            } else {
                assert(g[c] == last[c - gp.len() - 1]);
                assert(is_digit(last[c - gp.len() - 1]));
            }
        }
    }
}

/// Indian grouping puts a comma at every third place from the right end,
/// never first or last; dropping the commas gives the digits back.
proof fn lemma_indian_grouping(d: Seq<char>)
    requires
        all_digits(d),
        d.len() >= 1,
    ensures
        indian_grouping(d).len() >= 1,
        indian_grouping(d)[0] != ',',
        without_commas(indian_grouping(d)) == d,
        forall|c: int|
            0 <= c < indian_grouping(d).len() ==> (#[trigger] indian_grouping(d)[c] == ',' <==> (c
                < indian_grouping(d).len() - 1 && (indian_grouping(d).len() - 1 - c) % 3 == 0)),
{
    let ig = indian_grouping(d);
    if d.len() <= 3 {
        lemma_without_commas_digits(d);
        assert forall|c: int| 0 <= c < ig.len() implies (#[trigger] ig[c] == ',' <==> (c < ig.len() - 1
            && (ig.len() - 1 - c) % 3 == 0)) by {
            assert(is_digit(d[c]));
        }
    } else {
        let pre = d.subrange(0, d.len() - 3);
        let last = d.subrange(d.len() - 3, d.len() as int);
        assert forall|i: int| 0 <= i < pre.len() implies is_digit(#[trigger] pre[i]) by {
            assert(pre[i] == d[i]);
        }
        assert forall|i: int| 0 <= i < last.len() implies is_digit(#[trigger] last[i]) by {
            assert(last[i] == d[d.len() - 3 + i]);
        }
        lemma_group_pairs(pre);
        let gp = group_pairs(pre);
        assert(ig == gp + seq![','] + last);
        lemma_without_commas_digits(last);
        lemma_without_commas_concat(gp + seq![','], last);
        lemma_without_commas_concat(gp, seq![',']);
        lemma_without_commas_comma();
        assert(pre + last =~= d);
        assert(gp + Seq::<char>::empty() =~= gp);
        assert(ig[0] == gp[0]);
        assert forall|c: int| 0 <= c < ig.len() implies (#[trigger] ig[c] == ',' <==> (c < ig.len() - 1
            && (ig.len() - 1 - c) % 3 == 0)) by {
            if c < gp.len() {
                assert(ig[c] == gp[c]);
                assert(ig.len() - 1 - c == (gp.len() - 1 - c) + 4);
            } else if c == gp.len() {
                assert(ig[c] == ',');
            } else {
                assert(ig[c] == last[c - gp.len() - 1]);
                assert(is_digit(last[c - gp.len() - 1]));
            }
        }
    }
}

/// Currency text reads back: a minus sign exactly for a negative amount,
/// the rupee sign, then the whole rupees' digits with a comma at every
/// third place from the right end (after three digits, then after every
/// two, as in 1,00,000), never first; without the commas the digits are the
/// whole rupees' digits.
pub proof fn law_currency_text_groups(v: int)
    ensures
        ({
            let t = indian_currency_text(v);
            let sgn: int = if v < 0 { 1 } else { 0 };
            let g = t.subrange(sgn + 1, t.len() as int);
            &&& t.len() > sgn + 1
            &&& (v < 0 <==> t[0] == '-')
            &&& t[sgn] == '₹'
            &&& g[0] != ','
            &&& without_commas(g) == nat_digits(abs(v) / 100)
            &&& forall|c: int|
                0 <= c < g.len() ==> (#[trigger] g[c] == ',' <==> (c < g.len() - 1 && (g.len() - 1 - c)
                    % 3 == 0))
        }),
{
    let d = nat_digits(abs(v) / 100);
    law_nat_digits_read_back(abs(v) / 100);
    lemma_indian_grouping(d);
    let t = indian_currency_text(v);
    let sgn: int = if v < 0 { 1 } else { 0 };
    let g = t.subrange(sgn + 1, t.len() as int);
    let ig = indian_grouping(d);
    assert(t == sign_prefix(v) + seq!['₹'] + ig);
    assert(g =~= ig);
}

} // verus!
