use vstd::prelude::*;
use vstd::string::*;
use crate::text::{all_digits, digits_value, is_digit, is_word, parse_unsigned_spec};

verus! {

/// The ASCII digit for `d`, for `d < 10`.
pub open spec fn digit_char(d: nat) -> char {
    (d + 48) as char
}

/// The decimal digits of `n`, most significant first, without leading zeros.
pub open spec fn decimal(n: nat) -> Seq<char>
    decreases n,
{
    if n < 10 {
        seq![digit_char(n)]
    } else {
        decimal(n / 10).push(digit_char(n % 10))
    }
}

/// `n` in decimal, zero-padded to at least two digits (the `{:02}` format).
pub open spec fn two_digits(n: nat) -> Seq<char> {
    if n < 10 {
        seq!['0', digit_char(n)]
    } else {
        decimal(n)
    }
}

/// `HH:MM:SS` for a number of seconds: hours are not wrapped at a day and
/// take as many digits as they need beyond two.
pub open spec fn duration_text(secs: nat) -> Seq<char> {
    two_digits(secs / 3600) + seq![':'] + two_digits((secs % 3600) / 60) + seq![':'] + two_digits(
        secs % 60,
    )
}

fn digit_str(d: u64) -> (s: &'static str)
    requires
        d < 10,
    ensures
        s@ == seq![digit_char(d as nat)],
{
    proof {
        reveal_strlit("0");
        reveal_strlit("1");
        reveal_strlit("2");
        reveal_strlit("3");
        reveal_strlit("4");
        reveal_strlit("5");
        reveal_strlit("6");
        reveal_strlit("7");
        reveal_strlit("8");
        reveal_strlit("9");
    }
    if d == 0 {
        "0"
    } else if d == 1 {
        "1"
    } else if d == 2 {
        "2"
    } else if d == 3 {
        "3"
    } else if d == 4 {
        "4"
    } else if d == 5 {
        "5"
    } else if d == 6 {
        "6"
    } else if d == 7 {
        "7"
    } else if d == 8 {
        "8"
    } else {
        "9"
    }
}

fn push_decimal(out: &mut String, n: u64)
    ensures
        final(out)@ == old(out)@ + decimal(n as nat),
    decreases n,
{
    if n >= 10 {
        push_decimal(out, n / 10);
    }
    out.append(digit_str(n % 10));
    proof {
        assert(old(out)@ + decimal(n as nat) =~= old(out)@ + (if n >= 10 {
            decimal((n / 10) as nat)
        } else {
            Seq::<char>::empty()
        }) + seq![digit_char((n % 10) as nat)]);
    }
}

fn push_two_digits(out: &mut String, n: u64)
    ensures
        final(out)@ == old(out)@ + two_digits(n as nat),
{
    if n < 10 {
        proof {
            reveal_strlit("0");
        }
        out.append("0");
    }
    push_decimal(out, n);
    proof {
        if n < 10 {
            assert(seq!['0'] + decimal(n as nat) =~= two_digits(n as nat));
        }
    }
}

/// Formats a number of seconds as `HH:MM:SS` (hours zero-padded to two
/// digits, and longer past 99 hours).
pub fn format_duration(secs: u64) -> (s: String)
    ensures
        s@ == duration_text(secs as nat),
{
    let hours = secs / 3600;
    let minutes = (secs % 3600) / 60;
    let seconds = secs % 60;
    let mut out = String::new();
    proof {
        reveal_strlit(":");
    }
    push_two_digits(&mut out, hours);
    out.append(":");
    push_two_digits(&mut out, minutes);
    out.append(":");
    push_two_digits(&mut out, seconds);
    assert(out@ =~= duration_text(secs as nat));
    out
}

proof fn lemma_digit_char(d: nat)
    requires
        d < 10,
    ensures
        is_digit(digit_char(d)),
        crate::text::digit_value(digit_char(d)) == d,
{
}

/// `decimal(n)` is a non-empty run of digits that spells `n`.
pub proof fn lemma_decimal_reads_back(n: nat)
    ensures
        decimal(n).len() >= 1,
        all_digits(decimal(n)),
        digits_value(decimal(n)) == n,
        n < 10 ==> decimal(n).len() == 1,
        10 <= n < 100 ==> decimal(n).len() == 2,
        n >= 10 ==> decimal(n).len() >= 2,
    decreases n,
{
    lemma_digit_char(n % 10);
    let d = decimal(n);
    if n < 10 {
        assert(d.drop_last() =~= Seq::<char>::empty());
        assert(digits_value(d.drop_last()) == 0);
        assert(n % 10 == n);
    } else {
        lemma_decimal_reads_back(n / 10);
        assert(d.drop_last() =~= decimal(n / 10));
        assert(d.last() == digit_char(n % 10));
        assert(n == (n / 10) * 10 + n % 10);
        assert forall|i: int| 0 <= i < d.len() implies is_digit(#[trigger] d[i]) by {
            if i < d.len() - 1 {
                assert(d[i] == decimal(n / 10)[i]);
            }
        }
    }
}

/// `two_digits(n)` is a run of at least two digits that spells `n`, and
/// exactly two below 100.
pub proof fn lemma_two_digits_reads_back(n: nat)
    ensures
        two_digits(n).len() >= 2,
        all_digits(two_digits(n)),
        digits_value(two_digits(n)) == n,
        n < 100 ==> two_digits(n).len() == 2,
{
    lemma_decimal_reads_back(n);
    lemma_digit_char(n % 10);
    if n < 10 {
        let t = two_digits(n);
        let z = seq!['0'];
        assert(t.drop_last() =~= z);
        assert(z.drop_last() =~= Seq::<char>::empty());
        assert(digits_value(z.drop_last()) == 0);
        assert(crate::text::digit_value('0') == 0);
        assert(digits_value(z) == 0);
        assert(n % 10 == n);
    } else {
        assert(n / 10 >= 1);
    }
}

/// What `format_duration` prints reads back as the number of seconds it was
/// given: hours (two digits or more), `:`, minutes (two digits, below 60),
/// `:`, seconds (two digits, below 60), with `hours * 3600 + minutes * 60 +
/// seconds` equal to the input. So no two durations print the same.
pub proof fn lemma_duration_text_reads_back(secs: nat)
    ensures
        ({
            let t = duration_text(secs);
            let n = t.len() as int;
            let h = t.take(n - 6);
            let m = t.subrange(n - 5, n - 3);
            let s = t.subrange(n - 2, n);
            &&& n >= 8
            &&& t[n - 6] == ':'
            &&& t[n - 3] == ':'
            &&& all_digits(h) && all_digits(m) && all_digits(s)
            &&& digits_value(m) < 60 && digits_value(s) < 60
            &&& digits_value(h) * 3600 + digits_value(m) * 60 + digits_value(s) == secs
        }),
{
    let hours = secs / 3600;
    let minutes = (secs % 3600) / 60;
    let seconds = secs % 60;
    lemma_two_digits_reads_back(hours);
    lemma_two_digits_reads_back(minutes);
    lemma_two_digits_reads_back(seconds);
    let hh = two_digits(hours);
    let mm = two_digits(minutes);
    let ss = two_digits(seconds);
    let t = duration_text(secs);
    let n = t.len() as int;
    assert(t =~= hh + seq![':'] + mm + seq![':'] + ss);
    assert(t.take(n - 6) =~= hh);
    assert(t.subrange(n - 5, n - 3) =~= mm);
    assert(t.subrange(n - 2, n) =~= ss);
    assert(hours * 3600 + minutes * 60 + seconds == secs) by (nonlinear_arith)
        requires
            hours == secs / 3600,
            minutes == (secs % 3600) / 60,
            seconds == secs % 60,
    ;
}

/// Parsing reads back what `decimal` writes: the digits of `n` parse to `n`
/// in any unsigned type large enough for it, and to nothing in a smaller one;
/// and they form a word.
pub proof fn lemma_parse_decimal(n: nat, max: u64)
    ensures
        parse_unsigned_spec(decimal(n), max) == (if n <= max {
            Some(n as u64)
        } else {
            None::<u64>
        }),
        is_word(decimal(n)),
{
    lemma_decimal_reads_back(n);
    let d = decimal(n);
    assert(is_digit(d[0]));
    assert forall|i: int| 0 <= i < d.len() implies !crate::text::is_ws(#[trigger] d[i]) by {
        assert(is_digit(d[i]));
    }
}

} // verus!
