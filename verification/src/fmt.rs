//! Text for the live display: numbers with thousands separators and run
//! times as "Y years D days HH:MM:SS".

use vstd::prelude::*;

verus! {

/// The ASCII digit for `d < 10`.
pub open spec fn digit_char(d: nat) -> char {
    if d == 0 {
        '0'
    } else if d == 1 {
        '1'
    } else if d == 2 {
        '2'
    } else if d == 3 {
        '3'
    } else if d == 4 {
        '4'
    } else if d == 5 {
        '5'
    } else if d == 6 {
        '6'
    } else if d == 7 {
        '7'
    } else if d == 8 {
        '8'
    } else {
        '9'
    }
}

/// The decimal digits of `n`, most significant first, without leading zeros
/// ("0" for zero).
pub open spec fn decimal(n: nat) -> Seq<char>
    decreases n,
{
    if n < 10 {
        seq![digit_char(n)]
    } else {
        decimal(n / 10).push(digit_char(n % 10))
    }
}

/// `n < 1000` written with exactly three digits.
pub open spec fn three_digits(n: nat) -> Seq<char> {
    seq![digit_char(n / 100), digit_char((n / 10) % 10), digit_char(n % 10)]
}

/// `n < 100` written with at least two digits (a leading zero below 10).
pub open spec fn two_digits(n: nat) -> Seq<char> {
    if n < 10 {
        seq!['0', digit_char(n)]
    } else {
        decimal(n)
    }
}

/// `n` in decimal with a comma between groups of three digits, counted from
/// the right: 1234567 is "1,234,567".
pub open spec fn comma_spec(n: nat) -> Seq<char>
    decreases n,
{
    if n < 1000 {
        decimal(n)
    } else {
        comma_spec(n / 1000) + seq![','] + three_digits(n % 1000)
    }
}

pub const SECS_MIN: u64 = 60;

pub const SECS_HOUR: u64 = 3600;

pub const SECS_DAY: u64 = 86_400;

/// A 365-day year.
pub const SECS_YEAR: u64 = 31_536_000;

/// The value of a decimal digit character (0 for any other character).
pub open spec fn digit_value(c: char) -> nat {
    if c == '1' {
        1
    } else if c == '2' {
        2
    } else if c == '3' {
        3
    } else if c == '4' {
        4
    } else if c == '5' {
        5
    } else if c == '6' {
        6
    } else if c == '7' {
        7
    } else if c == '8' {
        8
    } else if c == '9' {
        9
    } else {
        0
    }
}

/// `c` is one of '0' to '9'.
pub open spec fn is_digit(c: char) -> bool {
    c == '0' || c == '1' || c == '2' || c == '3' || c == '4' || c == '5' || c == '6' || c == '7' || c == '8' || c == '9'
}

/// The number a string of digits reads as, most significant first.
pub open spec fn digits_value(s: Seq<char>) -> nat
    decreases s.len(),
{
    if s.len() == 0 {
        0
    } else {
        digits_value(s.drop_last()) * 10 + digit_value(s.last())
    }
}

/// A digit character reads back as its digit.
proof fn lemma_digit_round_trip(d: nat)
    requires
        d < 10,
    ensures
        digit_value(digit_char(d)) == d,
        is_digit(digit_char(d)),
        d > 0 ==> digit_char(d) != '0',
{
}

/// The decimal text of `n` is made of digits, reads back as `n`, and starts
/// with a zero only for `n == 0`.
pub proof fn lemma_decimal_reads_back(n: nat)
    ensures
        digits_value(decimal(n)) == n,
        forall|i: int| 0 <= i < decimal(n).len() ==> is_digit(#[trigger] decimal(n)[i]),
        n > 0 ==> decimal(n)[0] != '0',
    decreases n,
{
    if n < 10 {
        lemma_digit_round_trip(n);
        assert(decimal(n).drop_last() =~= Seq::<char>::empty());
        assert(digits_value(Seq::<char>::empty()) == 0);
        assert(digits_value(decimal(n)) == digits_value(decimal(n).drop_last()) * 10 + digit_value(decimal(n).last()));
    } else {
        lemma_decimal_reads_back(n / 10);
        lemma_digit_round_trip(n % 10);
        vstd::arithmetic::div_mod::lemma_fundamental_div_mod(n as int, 10);
        let d = decimal(n);
        assert(d.drop_last() =~= decimal(n / 10));
        assert(d.last() == digit_char(n % 10));
        assert forall|i: int| 0 <= i < d.len() implies is_digit(#[trigger] d[i]) by {
            if i < d.len() - 1 {
                assert(d[i] == decimal(n / 10)[i]);
            }
        }
        assert(d[0] == decimal(n / 10)[0]);
        assert(digits_value(d) == digits_value(d.drop_last()) * 10 + digit_value(d.last()));
    }
}

/// Two-digit text is two digits long and reads back as the number.
pub proof fn lemma_two_digits_reads_back(n: nat)
    requires
        n < 100,
    ensures
        two_digits(n).len() == 2,
        digits_value(two_digits(n)) == n,
        forall|i: int| 0 <= i < 2 ==> is_digit(#[trigger] two_digits(n)[i]),
{
    lemma_decimal_reads_back(n);
    if n < 10 {
        let t = two_digits(n);
        lemma_digit_round_trip(n);
        assert(t.drop_last() =~= seq!['0']);
        assert(seq!['0'].drop_last() =~= Seq::<char>::empty());
        assert(digits_value(Seq::<char>::empty()) == 0);
        assert(digits_value(seq!['0']) == digits_value(seq!['0'].drop_last()) * 10 + digit_value('0'));
        assert(digits_value(t) == digits_value(t.drop_last()) * 10 + digit_value(t.last()));
    } else {
        lemma_decimal_reads_back(n / 10);
        assert(decimal(n / 10).len() == 1);
    }
}

/// The text "Y years D days HH:MM:SS" of the given parts.
pub open spec fn duration_text(years: nat, days: nat, hours: nat, mins: nat, secs: nat) -> Seq<char> {
    decimal(years) + seq![' ', 'y', 'e', 'a', 'r', 's', ' '] + decimal(days) + seq![
        ' ',
        'd',
        'a',
        'y',
        's',
        ' ',
    ] + two_digits(hours) + seq![':'] + two_digits(mins) + seq![':'] + two_digits(secs)
}

/// "Y years D days HH:MM:SS" for a number of seconds, with 365-day years.
pub open spec fn duration_spec(secs: nat) -> Seq<char> {
    let years = secs / (SECS_YEAR as nat);
    let r1 = secs % (SECS_YEAR as nat);
    let days = r1 / (SECS_DAY as nat);
    let r2 = r1 % (SECS_DAY as nat);
    let hours = r2 / (SECS_HOUR as nat);
    let r3 = r2 % (SECS_HOUR as nat);
    let mins = r3 / (SECS_MIN as nat);
    let s = r3 % (SECS_MIN as nat);
    duration_text(years, days, hours, mins, s)
}

/// The parts of a duration read back to its number of seconds: a count of
/// 365-day years, then days below 365, hours below 24, minutes and seconds
/// below 60.
pub open spec fn duration_parts(total: nat, years: nat, days: nat, hours: nat, mins: nat, secs: nat) -> bool {
    &&& days < 365
    &&& hours < 24
    &&& mins < 60
    &&& secs < 60
    &&& years * 31_536_000 + days * 86_400 + hours * 3_600 + mins * 60 + secs == total
}

/// The text of a duration shows the parts that read back to it: whatever
/// years, days, hours, minutes and seconds (in their ranges) add up to the
/// given seconds are the ones written.
pub proof fn lemma_duration_reads_back(total: nat, years: nat, days: nat, hours: nat, mins: nat, secs: nat)
    requires
        duration_parts(total, years, days, hours, mins, secs),
    ensures
        duration_spec(total) == duration_text(years, days, hours, mins, secs),
{
    let t = total as int;
    let r3 = mins * 60 + secs;
    let r2 = hours * 3_600 + r3;
    let r1 = days * 86_400 + r2;
    assert(0 <= r3 < 3_600);
    assert(0 <= r2 < 86_400);
    assert(0 <= r1 < 31_536_000);
    vstd::arithmetic::div_mod::lemma_fundamental_div_mod_converse(t, 31_536_000, years as int, r1 as int);
    vstd::arithmetic::div_mod::lemma_fundamental_div_mod_converse(r1 as int, 86_400, days as int, r2 as int);
    vstd::arithmetic::div_mod::lemma_fundamental_div_mod_converse(r2 as int, 3_600, hours as int, r3 as int);
    vstd::arithmetic::div_mod::lemma_fundamental_div_mod_converse(r3 as int, 60, mins as int, secs as int);
}

/// The string that holds exactly the given characters
/// (`String::from_iter` over them).
#[verifier::external_body]
fn string_from_chars(chars: &Vec<char>) -> (s: String)
    ensures
        s@ == chars@,
{
    String::from_iter(chars.iter())
}

fn digit(d: u64) -> (c: char)
    requires
        d < 10,
    ensures
        c == digit_char(d as nat),
{
    if d == 0 {
        '0'
    } else if d == 1 {
        '1'
    } else if d == 2 {
        '2'
    } else if d == 3 {
        '3'
    } else if d == 4 {
        '4'
    } else if d == 5 {
        '5'
    } else if d == 6 {
        '6'
    } else if d == 7 {
        '7'
    } else if d == 8 {
        '8'
    } else {
        '9'
    }
}

/// Appends the decimal digits of `n`.
fn push_decimal(out: &mut Vec<char>, n: u64)
    ensures
        final(out)@ == old(out)@ + decimal(n as nat),
    decreases n,
{
    if n < 10 {
        out.push(digit(n));
    } else {
        push_decimal(out, n / 10);
        out.push(digit(n % 10));
        assert(final(out)@ =~= old(out)@ + decimal(n as nat));
    }
}

/// Appends `n < 1000` as three digits.
fn push_three_digits(out: &mut Vec<char>, n: u64)
    requires
        n < 1000,
    ensures
        final(out)@ == old(out)@ + three_digits(n as nat),
{
    out.push(digit(n / 100));
    out.push(digit((n / 10) % 10));
    out.push(digit(n % 10));
    assert(out@ =~= old(out)@ + three_digits(n as nat));
}

/// Appends `n` with thousands separators.
fn push_comma(out: &mut Vec<char>, n: u64)
    ensures
        final(out)@ == old(out)@ + comma_spec(n as nat),
    decreases n,
{
    if n < 1000 {
        push_decimal(out, n);
    } else {
        push_comma(out, n / 1000);
        out.push(',');
        push_three_digits(out, n % 1000);
        assert(out@ =~= old(out)@ + comma_spec(n as nat));
    }
}

/// Appends `n < 100` with at least two digits.
fn push_two_digits(out: &mut Vec<char>, n: u64)
    requires
        n < 100,
    ensures
        final(out)@ == old(out)@ + two_digits(n as nat),
{
    if n < 10 {
        out.push('0');
        out.push(digit(n));
        assert(out@ =~= old(out)@ + two_digits(n as nat));
    } else {
        push_decimal(out, n);
    }
}

/// `n` with a comma between each group of three digits, counted from the
/// right.
pub fn comma(n: u64) -> (s: String)
    ensures
        s@ == comma_spec(n as nat),
{
    let mut out: Vec<char> = Vec::new();
    push_comma(&mut out, n);
    assert(out@ =~= comma_spec(n as nat));
    string_from_chars(&out)
}

/// A number of seconds as "Y years D days HH:MM:SS" (365-day years).
pub fn fmt_duration(secs: u64) -> (s: String)
    ensures
        s@ == duration_spec(secs as nat),
        forall|y: nat, d: nat, h: nat, m: nat, c: nat|
            duration_parts(secs as nat, y, d, h, m, c) ==> s@ == #[trigger] duration_text(y, d, h, m, c),
{
    let years = secs / SECS_YEAR;
    let r1 = secs % SECS_YEAR;
    let days = r1 / SECS_DAY;
    let r2 = r1 % SECS_DAY;
    let hours = r2 / SECS_HOUR;
    let r3 = r2 % SECS_HOUR;
    let mins = r3 / SECS_MIN;
    let s = r3 % SECS_MIN;
    let mut out: Vec<char> = Vec::new();
    push_decimal(&mut out, years);
    out.push(' ');
    out.push('y');
    out.push('e');
    out.push('a');
    out.push('r');
    out.push('s');
    out.push(' ');
    push_decimal(&mut out, days);
    out.push(' ');
    out.push('d');
    out.push('a');
    out.push('y');
    out.push('s');
    out.push(' ');
    push_two_digits(&mut out, hours);
    out.push(':');
    push_two_digits(&mut out, mins);
    out.push(':');
    push_two_digits(&mut out, s);
    assert(out@ =~= duration_spec(secs as nat));
    proof {
        assert forall|y: nat, d: nat, h: nat, m: nat, c: nat|
            duration_parts(secs as nat, y, d, h, m, c) implies out@ == #[trigger] duration_text(y, d, h, m, c) by {
            lemma_duration_reads_back(secs as nat, y, d, h, m, c);
        }
    }
    string_from_chars(&out)
}


/// The characters of `s` other than commas.
pub open spec fn strip_commas(s: Seq<char>) -> Seq<char>
    decreases s.len(),
{
    if s.len() == 0 {
        s
    } else if s.last() == ',' {
        strip_commas(s.drop_last())
    } else {
        strip_commas(s.drop_last()).push(s.last())
    }
}

proof fn lemma_strip_concat(a: Seq<char>, b: Seq<char>)
    ensures
        strip_commas(a + b) == strip_commas(a) + strip_commas(b),
    decreases b.len(),
{
    if b.len() == 0 {
        assert(a + b =~= a);
        assert(strip_commas(b) =~= Seq::<char>::empty());
        assert(strip_commas(a) + strip_commas(b) =~= strip_commas(a));
    } else {
        lemma_strip_concat(a, b.drop_last());
        assert((a + b).drop_last() =~= a + b.drop_last());
        assert((a + b).last() == b.last());
        if b.last() == ',' {
        } else {
            assert(strip_commas(a) + strip_commas(b.drop_last()).push(b.last()) =~= (strip_commas(a)
                + strip_commas(b.drop_last())).push(b.last()));
        }
    }
}

proof fn lemma_digit_not_comma(d: nat)
    ensures
        digit_char(d) != ',',
{
}

proof fn lemma_strip_digits(s: Seq<char>)
    requires
        forall|i: int| 0 <= i < s.len() ==> #[trigger] s[i] != ',',
    ensures
        strip_commas(s) == s,
    decreases s.len(),
{
    if s.len() > 0 {
        lemma_strip_digits(s.drop_last());
        assert(strip_commas(s.drop_last()).push(s.last()) =~= s);
    }
}

proof fn lemma_decimal_no_comma(n: nat)
    ensures
        forall|i: int| 0 <= i < decimal(n).len() ==> #[trigger] decimal(n)[i] != ',',
    decreases n,
{
    lemma_digit_not_comma(n % 10);
    lemma_digit_not_comma(n);
    if n >= 10 {
        lemma_decimal_no_comma(n / 10);
        assert forall|i: int| 0 <= i < decimal(n).len() implies #[trigger] decimal(n)[i] != ',' by {
            if i < decimal(n / 10).len() {
                assert(decimal(n)[i] == decimal(n / 10)[i]);
            }
        }
    }
}

/// The last three digits split off: `decimal(n)` is `decimal(n / 1000)`
/// followed by the three digits of `n % 1000`, for `n >= 1000`.
proof fn lemma_decimal_split(n: nat)
    requires
        n >= 1000,
    ensures
        decimal(n) == decimal(n / 1000) + three_digits(n % 1000),
{
    let a = n / 10;
    let b = a / 10;
    let c = b / 10;
    assert(c == n / 1000) by {
        vstd::arithmetic::div_mod::lemma_div_denominator(n as int, 10, 10);
        vstd::arithmetic::div_mod::lemma_div_denominator(n as int, 100, 10);
    }
    assert(b == n / 100) by {
        vstd::arithmetic::div_mod::lemma_div_denominator(n as int, 10, 10);
    }
    // the three digits of n % 1000
    let r = n % 1000;
    vstd::arithmetic::div_mod::lemma_fundamental_div_mod(n as int, 1000);
    vstd::arithmetic::div_mod::lemma_fundamental_div_mod(n as int, 100);
    vstd::arithmetic::div_mod::lemma_fundamental_div_mod(n as int, 10);
    assert(r / 100 == b % 10 && (r / 10) % 10 == a % 10 && r % 10 == n % 10) by (nonlinear_arith)
        requires
            n == 1000 * c + r,
            0 <= r < 1000,
            b == n / 100,
            c == n / 1000,
            a == n / 10,
            n >= 0,
    {
        vstd::arithmetic::div_mod::lemma_fundamental_div_mod(n as int, 100);
        vstd::arithmetic::div_mod::lemma_fundamental_div_mod(n as int, 10);
        vstd::arithmetic::div_mod::lemma_fundamental_div_mod(b as int, 10);
        vstd::arithmetic::div_mod::lemma_fundamental_div_mod(a as int, 10);
        vstd::arithmetic::div_mod::lemma_fundamental_div_mod(r as int, 100);
        vstd::arithmetic::div_mod::lemma_fundamental_div_mod(r as int, 10);
        vstd::arithmetic::div_mod::lemma_fundamental_div_mod((r / 10) as int, 10);
    }
    assert(a >= 100 && b >= 10) by {
        vstd::arithmetic::div_mod::lemma_div_is_ordered(1000, n as int, 10);
        vstd::arithmetic::div_mod::lemma_div_is_ordered(100, a as int, 10);
    }
    assert(decimal(n) == decimal(a).push(digit_char(n % 10)));
    assert(decimal(a) == decimal(b).push(digit_char(a % 10)));
    assert(decimal(b) == decimal(c).push(digit_char(b % 10)));
    assert(decimal(n) =~= decimal(c) + three_digits(r));
}

/// Removing the separators from `comma(n)` leaves the decimal digits of `n`.
pub proof fn lemma_comma_digits(n: nat)
    ensures
        strip_commas(comma_spec(n)) == decimal(n),
    decreases n,
{
    if n < 1000 {
        lemma_decimal_no_comma(n);
        lemma_strip_digits(decimal(n));
    } else {
        lemma_comma_digits(n / 1000);
        let head = comma_spec(n / 1000);
        let tail = three_digits(n % 1000);
        lemma_strip_concat(head + seq![','], tail);
        lemma_strip_concat(head, seq![',']);
        assert(strip_commas(seq![',']) =~= Seq::<char>::empty()) by {
            let one = seq![','];
            assert(one.len() == 1);
            assert(one.last() == ',');
            assert(one.drop_last() =~= Seq::<char>::empty());
            assert(strip_commas(one.drop_last()) =~= Seq::<char>::empty());
        }
        lemma_digit_not_comma((n % 1000) / 100);
        lemma_digit_not_comma(((n % 1000) / 10) % 10);
        lemma_digit_not_comma((n % 1000) % 10);
        lemma_strip_digits(tail);
        lemma_decimal_split(n);
        assert(strip_commas(head) + Seq::<char>::empty() =~= strip_commas(head));
    }
}

} // verus!
