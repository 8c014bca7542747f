//! Names of the per-day documents and of the published snapshot.
use vstd::prelude::*;
use crate::calendar::CalendarDay;

verus! {

/// The character of a decimal digit.
pub open spec fn digit_char(n: nat) -> char {
    if n == 0 { '0' }
    else if n == 1 { '1' }
    else if n == 2 { '2' }
    else if n == 3 { '3' }
    else if n == 4 { '4' }
    else if n == 5 { '5' }
    else if n == 6 { '6' }
    else if n == 7 { '7' }
    else if n == 8 { '8' }
    else { '9' }
}

/// Decimal notation of a natural number, without leading zeros.
pub open spec fn decimal(n: nat) -> Seq<char>
    decreases n,
{
    if n < 10 {
        seq![digit_char(n)]
    } else {
        decimal(n / 10).push(digit_char(n % 10))
    }
}

/// `k` zero characters.
pub open spec fn zeros(k: nat) -> Seq<char> {
    Seq::new(k, |i: int| '0')
}

/// `s` with leading zeros added up to `width` characters.
pub open spec fn zero_padded(s: Seq<char>, width: nat) -> Seq<char> {
    if s.len() < width { zeros((width - s.len()) as nat) + s } else { s }
}

/// A year zero-padded to four characters, the sign of a negative year
/// counting as one of them (`0007`, `2024`, `-044`, `12345`).
pub open spec fn year_text(y: int) -> Seq<char> {
    if y < 0 {
        seq!['-'] + zero_padded(decimal((-y) as nat), 3)
    } else {
        zero_padded(decimal(y as nat), 4)
    }
}

/// A number below one hundred written with exactly two digits.
pub open spec fn two_digits(n: nat) -> Seq<char> {
    seq![digit_char(n / 10), digit_char(n % 10)]
}

pub open spec fn json_suffix() -> Seq<char> {
    seq!['.', 'j', 's', 'o', 'n']
}

/// `YYYY-MM-DD.json`: year zero-padded to four characters, month and day to two.
pub open spec fn day_key_spec(d: CalendarDay) -> Seq<char> {
    year_text(d.year as int) + seq!['-'] + two_digits(d.month as nat) + seq!['-']
        + two_digits(d.day as nat) + json_suffix()
}

/// `last-<days>-days-play-counts.json`.
pub open spec fn snapshot_name_spec(days: nat) -> Seq<char> {
    seq!['l', 'a', 's', 't', '-'] + decimal(days) + seq![
        '-', 'd', 'a', 'y', 's', '-', 'p', 'l', 'a', 'y', '-', 'c', 'o', 'u', 'n', 't', 's',
    ] + json_suffix()
}

fn digit_str(n: u64) -> (r: &'static str)
    requires
        n < 10,
    ensures
        r@ == seq![digit_char(n as nat)],
{
    proof {
        reveal_strlit("0");
        reveal_strlit("1");
        reveal_strlit("2");
        reveal_strlit("3");
        reveal_strlit("4");
        reveal_strlit("5");
        reveal_strlit("6");
        reveal_strlit("7");
        reveal_strlit("8");
        reveal_strlit("9");
    }
    if n == 0 { "0" }
    else if n == 1 { "1" }
    else if n == 2 { "2" }
    else if n == 3 { "3" }
    else if n == 4 { "4" }
    else if n == 5 { "5" }
    else if n == 6 { "6" }
    else if n == 7 { "7" }
    else if n == 8 { "8" }
    else { "9" }
}

fn push_decimal(s: &mut String, n: u64)
    ensures
        final(s)@ == old(s)@ + decimal(n as nat),
    decreases n,
{
    if n >= 10 {
        push_decimal(s, n / 10);
    }
    s.append(digit_str(n % 10));
    assert(final(s)@ =~= old(s)@ + decimal(n as nat));
}

fn decimal_len(n: u64) -> (r: u64)
    ensures
        r == decimal(n as nat).len(),
        r <= n as int + 1,
    decreases n,
{
    if n < 10 {
        1
    } else {
        decimal_len(n / 10) + 1
    }
}

fn push_zero_padded(s: &mut String, n: u64, width: u64)
    ensures
        final(s)@ == old(s)@ + zero_padded(decimal(n as nat), width as nat),
{
    let len = decimal_len(n);
    proof {
        reveal_strlit("0");
    }
    let mut i: u64 = len;
    while i < width
        invariant
            len == decimal(n as nat).len(),
            len <= i,
            i <= width || i == len,
            s@ == old(s)@ + zeros((i - len) as nat),
        decreases width - i,
    {
        proof {
            reveal_strlit("0");
        }
        s.append("0");
        assert(s@ =~= old(s)@ + zeros((i + 1 - len) as nat));
        i = i + 1;
    }
    push_decimal(s, n);
    assert(s@ =~= old(s)@ + zero_padded(decimal(n as nat), width as nat));
}

fn push_two_digits(s: &mut String, n: u32)
    requires
        n < 100,
    ensures
        final(s)@ == old(s)@ + two_digits(n as nat),
{
    s.append(digit_str((n / 10) as u64));
    s.append(digit_str((n % 10) as u64));
    assert(final(s)@ =~= old(s)@ + two_digits(n as nat));
}

/// The name of the document that holds the plays of day `d`.
pub fn day_key(d: &CalendarDay) -> (r: String)
    requires
        d.wf(),
    ensures
        r@ == day_key_spec(*d),
{
    let mut s = String::new();
    if d.year < 0 {
        s.append("-");
        push_zero_padded(&mut s, (-(d.year as i64)) as u64, 3);
    } else {
        push_zero_padded(&mut s, d.year as u64, 4);
    }
    s.append("-");
    push_two_digits(&mut s, d.month);
    s.append("-");
    push_two_digits(&mut s, d.day);
    s.append(".json");
    proof {
        reveal_strlit("-");
        reveal_strlit(".json");
    }
    assert(s@ =~= day_key_spec(*d));
    s
}

/// The name under which the ranking of a window of `days` days is published.
pub fn snapshot_name(days: u64) -> (r: String)
    ensures
        r@ == snapshot_name_spec(days as nat),
{
    let mut s = String::from_str("last-");
    push_decimal(&mut s, days);
    s.append("-days-play-counts.json");
    proof {
        reveal_strlit("last-");
        reveal_strlit("-days-play-counts.json");
    }
    assert(s@ =~= snapshot_name_spec(days as nat));
    s
}


proof fn lemma_digit_injective(a: nat, b: nat)
    requires
        a < 10,
        b < 10,
        digit_char(a) == digit_char(b),
    ensures
        a == b,
{
}

proof fn lemma_decimal_shape(n: nat)
    ensures
        decimal(n).len() >= 1,
        n < 10 <==> decimal(n).len() == 1,
        decimal(n)[0] != '-',
    decreases n,
{
    if n >= 10 {
        lemma_decimal_shape(n / 10);
    }
}

proof fn lemma_decimal_injective(a: nat, b: nat)
    requires
        decimal(a) == decimal(b),
    ensures
        a == b,
    decreases a,
{
    lemma_decimal_shape(a);
    lemma_decimal_shape(b);
    if a < 10 {
        lemma_digit_injective(a, b);
    } else {
        let (da, db) = (decimal(a), decimal(b));
        assert(da.last() == db.last());
        lemma_digit_injective(a % 10, b % 10);
        assert(da.drop_last() =~= decimal(a / 10));
        assert(db.drop_last() =~= decimal(b / 10));
        lemma_decimal_injective(a / 10, b / 10);
    }
}

/// The value of a character as a decimal digit.
pub open spec fn digit_value(c: char) -> nat {
    if c == '1' { 1 }
    else if c == '2' { 2 }
    else if c == '3' { 3 }
    else if c == '4' { 4 }
    else if c == '5' { 5 }
    else if c == '6' { 6 }
    else if c == '7' { 7 }
    else if c == '8' { 8 }
    else if c == '9' { 9 }
    else { 0 }
}

/// The number that a string of decimal digits denotes.
pub open spec fn digits_value(s: Seq<char>) -> nat
    decreases s.len(),
{
    if s.len() == 0 {
        0
    } else {
        digits_value(s.drop_last()) * 10 + digit_value(s.last())
    }
}

proof fn lemma_decimal_value(n: nat)
    ensures
        digits_value(decimal(n)) == n,
    decreases n,
{
    if n >= 10 {
        lemma_decimal_value(n / 10);
        assert(decimal(n).drop_last() =~= decimal(n / 10));
        assert(digit_value(digit_char(n % 10)) == n % 10);
        assert((n / 10) * 10 + n % 10 == n);
        let d = decimal(n);
        assert(d.last() == digit_char(n % 10));
        assert(digits_value(d) == digits_value(d.drop_last()) * 10 + digit_value(d.last()));
    } else {
        assert(decimal(n).drop_last() =~= Seq::<char>::empty());
        assert(digit_value(digit_char(n)) == n);
        let d = decimal(n);
        assert(digits_value(d) == digits_value(d.drop_last()) * 10 + digit_value(d.last()));
    }
}

proof fn lemma_zeros_value(k: nat, s: Seq<char>)
    ensures
        digits_value(zeros(k) + s) == digits_value(s),
    decreases s.len(), k,
{
    if s.len() == 0 {
        assert(zeros(k) + s =~= zeros(k));
        if k > 0 {
            assert(zeros(k).drop_last() =~= zeros((k - 1) as nat) + s);
            lemma_zeros_value((k - 1) as nat, s);
        }
    } else {
        assert((zeros(k) + s).drop_last() =~= zeros(k) + s.drop_last());
        lemma_zeros_value(k, s.drop_last());
    }
}

proof fn lemma_padded_value(n: nat, width: nat)
    ensures
        digits_value(zero_padded(decimal(n), width)) == n,
        zero_padded(decimal(n), width).len() >= 1,
        zero_padded(decimal(n), width)[0] != '-',
{
    lemma_decimal_value(n);
    lemma_decimal_shape(n);
    if decimal(n).len() < width {
        lemma_zeros_value((width - decimal(n).len()) as nat, decimal(n));
    }
}

proof fn lemma_year_text_injective(a: int, b: int)
    requires
        year_text(a) == year_text(b),
    ensures
        a == b,
{
    lemma_padded_value((-a) as nat, 3);
    lemma_padded_value((-b) as nat, 3);
    lemma_padded_value(a as nat, 4);
    lemma_padded_value(b as nat, 4);
    if a < 0 && b < 0 {
        assert(zero_padded(decimal((-a) as nat), 3) =~= year_text(a).drop_first());
        assert(zero_padded(decimal((-b) as nat), 3) =~= year_text(b).drop_first());
    } else if a < 0 {
        assert(year_text(a)[0] == '-');
    } else if b < 0 {
        assert(year_text(b)[0] == '-');
    }
}

proof fn lemma_two_digits_injective(a: nat, b: nat)
    requires
        a < 100,
        b < 100,
        two_digits(a) == two_digits(b),
    ensures
        a == b,
{
    assert(two_digits(a)[0] == two_digits(b)[0]);
    assert(two_digits(a)[1] == two_digits(b)[1]);
    lemma_digit_injective(a / 10, b / 10);
    lemma_digit_injective(a % 10, b % 10);
}

/// Distinct days have distinct document names.
pub proof fn lemma_day_key_injective(a: CalendarDay, b: CalendarDay)
    requires
        a.wf(),
        b.wf(),
        day_key_spec(a) == day_key_spec(b),
    ensures
        a == b,
{
    let ya = year_text(a.year as int);
    let yb = year_text(b.year as int);
    let ta = seq!['-'] + two_digits(a.month as nat) + seq!['-'] + two_digits(a.day as nat) + json_suffix();
    let tb = seq!['-'] + two_digits(b.month as nat) + seq!['-'] + two_digits(b.day as nat) + json_suffix();
    assert(day_key_spec(a) =~= ya + ta);
    assert(day_key_spec(b) =~= yb + tb);
    assert(ta.len() == 11 && tb.len() == 11);
    let ka = day_key_spec(a);
    assert(ya =~= ka.subrange(0, ka.len() - 11));
    assert(yb =~= ka.subrange(0, ka.len() - 11));
    lemma_year_text_injective(a.year as int, b.year as int);
    assert(ta =~= ka.subrange(ka.len() - 11, ka.len() as int));
    assert(tb =~= ka.subrange(ka.len() - 11, ka.len() as int));
    assert(two_digits(a.month as nat) =~= ta.subrange(1, 3));
    assert(two_digits(b.month as nat) =~= tb.subrange(1, 3));
    assert(two_digits(a.day as nat) =~= ta.subrange(4, 6));
    assert(two_digits(b.day as nat) =~= tb.subrange(4, 6));
    lemma_two_digits_injective(a.month as nat, b.month as nat);
    lemma_two_digits_injective(a.day as nat, b.day as nat);
}

} // verus!
