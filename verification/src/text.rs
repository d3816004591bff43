use vstd::prelude::*;

verus! {

/// The characters of `s`, in order.
pub fn chars_of(s: &str) -> (v: Vec<char>)
    ensures
        v@ == s@,
{
    let mut v: Vec<char> = Vec::new();
    for c in it: s.chars()
        invariant
            v@ == it.seq().take(it.index() as int),
    {
        v.push(c);
    }
    v
}

/// Unicode `White_Space`, the property behind `char::is_whitespace`.
pub open spec fn is_ws(c: char) -> bool {
    ||| ('\t' <= c && c <= '\r')
    ||| c == ' '
    ||| c == '\u{85}'
    ||| c == '\u{A0}'
    ||| c == '\u{1680}'
    ||| ('\u{2000}' <= c && c <= '\u{200A}')
    ||| c == '\u{2028}'
    ||| c == '\u{2029}'
    ||| c == '\u{202F}'
    ||| c == '\u{205F}'
    ||| c == '\u{3000}'
}

/// Whether `c` is Unicode whitespace.
pub fn is_whitespace(c: char) -> (b: bool)
    ensures
        b == is_ws(c),
{
    ('\t' <= c && c <= '\r') || c == ' ' || c == '\u{85}' || c == '\u{A0}' || c == '\u{1680}'
        || ('\u{2000}' <= c && c <= '\u{200A}') || c == '\u{2028}' || c == '\u{2029}'
        || c == '\u{202F}' || c == '\u{205F}' || c == '\u{3000}'
}

/// `s` without its leading whitespace.
pub open spec fn trim_start(s: Seq<char>) -> Seq<char>
    decreases s.len(),
{
    if s.len() > 0 && is_ws(s[0]) {
        trim_start(s.drop_first())
    } else {
        s
    }
}

/// `s` without its trailing whitespace.
pub open spec fn trim_end(s: Seq<char>) -> Seq<char>
    decreases s.len(),
{
    if s.len() > 0 && is_ws(s.last()) {
        trim_end(s.drop_last())
    } else {
        s
    }
}

/// `s` without leading and trailing whitespace (`str::trim`).
pub open spec fn trim(s: Seq<char>) -> Seq<char> {
    trim_end(trim_start(s))
}

/// The longest prefix of `s` that holds no whitespace.
pub open spec fn word_prefix(s: Seq<char>) -> Seq<char>
    decreases s.len(),
{
    if s.len() > 0 && !is_ws(s[0]) {
        seq![s[0]] + word_prefix(s.drop_first())
    } else {
        Seq::empty()
    }
}

/// The words of `s`, in order: its maximal runs of characters that are not
/// whitespace (`str::split_whitespace`).
pub open spec fn words(s: Seq<char>) -> Seq<Seq<char>>
    decreases s.len(),
{
    let t = trim_start(s);
    if t.len() == 0 {
        Seq::empty()
    } else {
        proof {
            lemma_trim_start_bounds(s);
        }
        seq![word_prefix(t)] + words(t.skip(word_prefix(t).len() as int))
    }
}

pub proof fn lemma_trim_start_bounds(s: Seq<char>)
    ensures
        trim_start(s).len() <= s.len(),
        trim_start(s).len() > 0 ==> !is_ws(trim_start(s)[0]),
        trim_start(s).len() > 0 ==> word_prefix(trim_start(s)).len() >= 1,
        word_prefix(trim_start(s)).len() <= trim_start(s).len(),
    decreases s.len(),
{
    if s.len() > 0 && is_ws(s[0]) {
        lemma_trim_start_bounds(s.drop_first());
    }
    let t = trim_start(s);
    lemma_word_prefix_len(t);
    if t.len() > 0 {
        assert(word_prefix(t) == seq![t[0]] + word_prefix(t.drop_first()));
    }
}

pub proof fn lemma_word_prefix_len(s: Seq<char>)
    ensures
        word_prefix(s).len() <= s.len(),
    decreases s.len(),
{
    if s.len() > 0 && !is_ws(s[0]) {
        lemma_word_prefix_len(s.drop_first());
    }
}

/// Skipping a run of whitespace that ends at a non-whitespace character (or
/// at the end) is what `trim_start` does.
proof fn lemma_trim_start_skip(s: Seq<char>, i: int, j: int)
    requires
        0 <= i <= j <= s.len(),
        forall|m: int| i <= m < j ==> is_ws(#[trigger] s[m]),
        j == s.len() || !is_ws(s[j]),
    ensures
        trim_start(s.skip(i)) == s.skip(j),
    decreases j - i,
{
    if i < j {
        assert(s.skip(i).drop_first() =~= s.skip(i + 1));
        lemma_trim_start_skip(s, i + 1, j);
    } else {
        assert(s.skip(i) =~= s.skip(j));
    }
}

/// A run of non-whitespace characters that ends at whitespace (or at the end)
/// is what `word_prefix` takes.
proof fn lemma_word_prefix_skip(s: Seq<char>, j: int, k: int)
    requires
        0 <= j <= k <= s.len(),
        forall|m: int| j <= m < k ==> !is_ws(#[trigger] s[m]),
        k == s.len() || is_ws(s[k]),
    ensures
        word_prefix(s.skip(j)) == s.subrange(j, k),
    decreases k - j,
{
    if j < k {
        assert(s.skip(j).drop_first() =~= s.skip(j + 1));
        lemma_word_prefix_skip(s, j + 1, k);
        assert(seq![s[j]] + s.subrange(j + 1, k) =~= s.subrange(j, k));
    } else {
        assert(s.subrange(j, k) =~= Seq::<char>::empty());
    }
}

/// Copies `s[lo..hi]`.
pub fn copy_range(s: &Vec<char>, lo: usize, hi: usize) -> (r: Vec<char>)
    requires
        lo <= hi <= s.len(),
    ensures
        r@ == s@.subrange(lo as int, hi as int),
{
    let mut r: Vec<char> = Vec::new();
    let mut i = lo;
    while i < hi
        invariant
            lo <= i <= hi <= s.len(),
            r@ == s@.subrange(lo as int, i as int),
        decreases hi - i,
    {
        r.push(s[i]);
        i = i + 1;
    }
    r
}

/// The words of `s` (`str::split_whitespace`).
pub fn split_whitespace(s: &Vec<char>) -> (ws: Vec<Vec<char>>)
    ensures
        ws.deep_view() == words(s@),
{
    let n = s.len();
    let mut out: Vec<Vec<char>> = Vec::new();
    let mut i: usize = 0;
    assert(s@.skip(0) =~= s@);
    assert(out.deep_view() + words(s@) =~= words(s@));
    loop
        invariant
            n == s.len(),
            i <= n,
            words(s@) == out.deep_view() + words(s@.skip(i as int)),
        decreases n - i,
    {
        let mut j = i;
        while j < n && is_whitespace(s[j])
            invariant
                i <= j <= n,
                n == s.len(),
                forall|m: int| i <= m < j ==> is_ws(#[trigger] s@[m]),
            decreases n - j,
        {
            j = j + 1;
        }
        proof {
            lemma_trim_start_skip(s@, i as int, j as int);
        }
        if j == n {
            assert(s@.skip(j as int) =~= Seq::<char>::empty());
            assert(out.deep_view() + Seq::<Seq<char>>::empty() =~= out.deep_view());
            return out;
        }
        let mut k = j;
        while k < n && !is_whitespace(s[k])
            invariant
                j <= k <= n,
                n == s.len(),
                forall|m: int| j <= m < k ==> !is_ws(#[trigger] s@[m]),
            decreases n - k,
        {
            k = k + 1;
        }
        proof {
            lemma_word_prefix_skip(s@, j as int, k as int);
            assert(s@.skip(j as int).skip(k - j) =~= s@.skip(k as int));
        }
        let w = copy_range(s, j, k);
        let ghost before = out.deep_view();
        let ghost before_v = out@;
        out.push(w);
        proof {
            assert(out@ == before_v.push(w));
            assert(w.deep_view() =~= w@);
            assert(out.deep_view() =~= before.push(w@));
            assert(before + words(s@.skip(i as int)) =~= out.deep_view() + words(s@.skip(k as int)));
        }
        i = k;
    }
}

proof fn lemma_trim_end_take(t: Seq<char>, j: int, k: int)
    requires
        0 <= j <= k <= t.len(),
        forall|m: int| j <= m < k ==> is_ws(#[trigger] t[m]),
        j == 0 || !is_ws(t[j - 1]),
    ensures
        trim_end(t.take(k)) == t.take(j),
    decreases k - j,
{
    if j < k {
        assert(t.take(k).drop_last() =~= t.take(k - 1));
        lemma_trim_end_take(t, j, k - 1);
    }
}

/// The bounds of `s` with leading and trailing whitespace removed (`str::trim`).
pub fn trim_bounds(s: &Vec<char>) -> (r: (usize, usize))
    ensures
        r.0 <= r.1 <= s.len(),
        s@.subrange(r.0 as int, r.1 as int) == trim(s@),
{
    let n = s.len();
    let mut lo: usize = 0;
    while lo < n && is_whitespace(s[lo])
        invariant
            lo <= n,
            n == s.len(),
            forall|m: int| 0 <= m < lo ==> is_ws(#[trigger] s@[m]),
        decreases n - lo,
    {
        lo = lo + 1;
    }
    let mut hi: usize = n;
    while hi > lo && is_whitespace(s[hi - 1])
        invariant
            lo <= hi <= n,
            n == s.len(),
            forall|m: int| hi <= m < n ==> is_ws(#[trigger] s@[m]),
        decreases hi,
    {
        hi = hi - 1;
    }
    proof {
        lemma_trim_start_skip(s@, 0, lo as int);
        assert(s@.skip(0) =~= s@);
        let t = s@.skip(lo as int);
        assert forall|m: int| hi - lo <= m < n - lo implies is_ws(#[trigger] t[m]) by {
            assert(t[m] == s@[m + lo]);
        }
        lemma_trim_end_take(t, hi - lo, n - lo);
        assert(t.take(n - lo) =~= t);
        assert(t.take(hi - lo) =~= s@.subrange(lo as int, hi as int));
    }
    (lo, hi)
}

/// Whether `c` is an ASCII decimal digit.
pub open spec fn is_digit(c: char) -> bool {
    '0' <= c && c <= '9'
}

/// Whether every character of `s` is an ASCII decimal digit.
pub open spec fn all_digits(s: Seq<char>) -> bool {
    forall|i: int| 0 <= i < s.len() ==> is_digit(#[trigger] s[i])
}

/// The value of an ASCII digit.
pub open spec fn digit_value(c: char) -> nat {
    (c as int - '0' as int) as nat
}

/// The number that the decimal digits `s` spell (0 for no digits).
pub open spec fn digits_value(s: Seq<char>) -> nat
    decreases s.len(),
{
    if s.len() == 0 {
        0
    } else {
        digits_value(s.drop_last()) * 10 + digit_value(s.last())
    }
}

/// What `str::parse` reads as an unsigned integer: an optional `+`, then
/// one or more ASCII digits; `None` for anything else.
pub open spec fn unsigned_value(s: Seq<char>) -> Option<nat> {
    let d = if s.len() > 0 && s[0] == '+' {
        s.drop_first()
    } else {
        s
    };
    if d.len() > 0 && all_digits(d) {
        Some(digits_value(d))
    } else {
        None
    }
}

/// What `str::parse` reads as a signed integer: an optional `+` or `-`,
/// then one or more ASCII digits; `None` for anything else.
pub open spec fn signed_value(s: Seq<char>) -> Option<int> {
    if s.len() > 0 && s[0] == '-' {
        let d = s.drop_first();
        if d.len() > 0 && all_digits(d) {
            Some(-(digits_value(d) as int))
        } else {
            None
        }
    } else {
        match unsigned_value(s) {
            Some(v) => Some(v as int),
            None => None,
        }
    }
}

/// `s.parse()` into an unsigned integer type whose largest value is `max`:
/// the value when it is well formed and at most `max`.
pub open spec fn parse_unsigned_spec(s: Seq<char>, max: u64) -> Option<u64> {
    match unsigned_value(s) {
        Some(v) => if v <= max {
            Some(v as u64)
        } else {
            None
        },
        None => None,
    }
}

/// `s.parse::<i32>()`.
pub open spec fn parse_i32_spec(s: Seq<char>) -> Option<i32> {
    match signed_value(s) {
        Some(v) => if i32::MIN <= v <= i32::MAX {
            Some(v as i32)
        } else {
            None
        },
        None => None,
    }
}

proof fn lemma_digits_value_prefix(s: Seq<char>, j: int)
    requires
        0 <= j <= s.len(),
    ensures
        digits_value(s.take(j)) <= digits_value(s),
    decreases s.len() - j,
{
    if j < s.len() {
        lemma_digits_value_prefix(s, j + 1);
        assert(s.take(j + 1).drop_last() =~= s.take(j));
    } else {
        assert(s.take(j) =~= s);
    }
}

/// The value of the digits `s[lo..]` when there is at least one, all are
/// digits and the value is at most `max`.
fn digits_at_most(s: &Vec<char>, lo: usize, max: u64) -> (r: Option<u64>)
    requires
        lo <= s.len(),
    ensures
        r == (if s@.skip(lo as int).len() > 0 && all_digits(s@.skip(lo as int)) && digits_value(
            s@.skip(lo as int),
        ) <= max {
            Some(digits_value(s@.skip(lo as int)) as u64)
        } else {
            None
        }),
{
    let n = s.len();
    let ghost d = s@.skip(lo as int);
    if lo == n {
        return None;
    }
    let mut acc: u64 = 0;
    let mut i = lo;
    while i < n
        invariant
            lo <= i <= n,
            n == s.len(),
            d == s@.skip(lo as int),
            all_digits(d.take(i - lo)),
            acc as nat == digits_value(d.take(i - lo)),
            acc <= max,
        decreases n - i,
    {
        let c = s[i];
        if !('0' <= c && c <= '9') {
            assert(!is_digit(d[i - lo]));
            return None;
        }
        let dv = (c as u32 - '0' as u32) as u64;
        let next: u128 = acc as u128 * 10 + dv as u128;
        assert(d.take(i - lo + 1).drop_last() =~= d.take(i - lo));
        assert(next == digits_value(d.take(i - lo + 1)));
        if next > max as u128 {
            proof {
                lemma_digits_value_prefix(d, i - lo + 1);
            }
            return None;
        }
        acc = next as u64;
        i = i + 1;
        assert forall|m: int| 0 <= m < i - lo implies is_digit(#[trigger] d.take(i - lo)[m]) by {
            if m < i - lo - 1 {
                assert(d.take(i - lo)[m] == d.take(i - lo - 1)[m]);
            }
        }
    }
    assert(d.take(n - lo) =~= d);
    Some(acc)
}

/// `s.parse()` into an unsigned integer type whose largest value is `max`.
pub fn parse_unsigned(s: &Vec<char>, max: u64) -> (r: Option<u64>)
    ensures
        r == parse_unsigned_spec(s@, max),
{
    let lo: usize = if s.len() > 0 && s[0] == '+' {
        1
    } else {
        0
    };
    proof {
        if lo == 1 {
            assert(s@.skip(1) =~= s@.drop_first());
        } else {
            assert(s@.skip(0) =~= s@);
        }
    }
    digits_at_most(s, lo, max)
}

/// `s.parse::<u64>()`.
pub fn parse_u64(s: &Vec<char>) -> (r: Option<u64>)
    ensures
        r == parse_unsigned_spec(s@, u64::MAX),
{
    parse_unsigned(s, u64::MAX)
}

/// `s.parse::<u32>()`.
pub fn parse_u32(s: &Vec<char>) -> (r: Option<u32>)
    ensures
        r == (match parse_unsigned_spec(s@, u32::MAX as u64) {
            Some(v) => Some(v as u32),
            None => None,
        }),
{
    match parse_unsigned(s, 0xFFFF_FFFFu64) {
        Some(v) => Some(v as u32),
        None => None,
    }
}

/// `s.parse::<usize>()`.
pub fn parse_usize(s: &Vec<char>) -> (r: Option<usize>)
    ensures
        r == (match parse_unsigned_spec(s@, usize::MAX as u64) {
            Some(v) => Some(v as usize),
            None => None,
        }),
{
    match parse_unsigned(s, usize::MAX as u64) {
        Some(v) => Some(v as usize),
        None => None,
    }
}

/// `s.parse::<i32>()`.
pub fn parse_i32(s: &Vec<char>) -> (r: Option<i32>)
    ensures
        r == parse_i32_spec(s@),
{
    if s.len() > 0 && s[0] == '-' {
        proof {
            assert(s@.skip(1) =~= s@.drop_first());
        }
        match digits_at_most(s, 1, 0x8000_0000u64) {
            Some(m) => Some((0i64 - m as i64) as i32),
            None => None,
        }
    } else {
        match parse_unsigned(s, 0x7FFF_FFFFu64) {
            Some(v) => Some(v as i32),
            None => None,
        }
    }
}

/// Whether `w` is a word: non-empty and free of whitespace.
pub open spec fn is_word(w: Seq<char>) -> bool {
    w.len() > 0 && forall|i: int| 0 <= i < w.len() ==> !is_ws(#[trigger] w[i])
}

/// The words `ws` written out with one space between neighbours.
pub open spec fn spaced(ws: Seq<Seq<char>>) -> Seq<char>
    decreases ws.len(),
{
    if ws.len() == 0 {
        Seq::empty()
    } else if ws.len() == 1 {
        ws[0]
    } else {
        ws[0] + seq![' '] + spaced(ws.skip(1))
    }
}

proof fn lemma_words_after_space(rest: Seq<char>)
    ensures
        words(seq![' '] + rest) == words(rest),
{
    let s = seq![' '] + rest;
    assert(s.drop_first() =~= rest);
    assert(trim_start(s) == trim_start(rest));
}

/// Words written out with single spaces read back as the same words.
pub proof fn lemma_words_of_spaced(ws: Seq<Seq<char>>)
    requires
        ws.len() >= 1,
        forall|i: int| 0 <= i < ws.len() ==> is_word(#[trigger] ws[i]),
    ensures
        words(spaced(ws)) == ws,
    decreases ws.len(),
{
    let w = ws[0];
    assert(is_word(w));
    let s = spaced(ws);
    let n = w.len() as int;
    assert forall|m: int| 0 <= m < n implies !is_ws(#[trigger] s[m]) by {
        assert(s[m] == w[m]);
    }
    lemma_trim_start_skip(s, 0, 0);
    assert(s.skip(0) =~= s);
    if ws.len() == 1 {
        assert(s == w);
        lemma_word_prefix_skip(s, 0, n);
        assert(s.subrange(0, n) =~= w);
        assert(s.skip(n) =~= Seq::<char>::empty());
        assert(words(Seq::<char>::empty()) =~= Seq::<Seq<char>>::empty());
        assert(words(s) =~= seq![w]);
        assert(ws =~= seq![w]);
    } else {
        let rest = ws.skip(1);
        assert forall|i: int| 0 <= i < rest.len() implies is_word(#[trigger] rest[i]) by {
            assert(rest[i] == ws[i + 1]);
        }
        lemma_words_of_spaced(rest);
        assert(s[n] == ' ');
        lemma_word_prefix_skip(s, 0, n);
        assert(s.subrange(0, n) =~= w);
        assert(s.skip(n) =~= seq![' '] + spaced(rest));
        lemma_words_after_space(spaced(rest));
        assert(words(s) == seq![w] + words(s.skip(n)));
        assert(seq![w] + rest =~= ws);
    }
}

/// Trimming removes exactly the whitespace around a run that starts and
/// ends with a character that is not whitespace.
pub proof fn lemma_trim_padded(pre: Seq<char>, w: Seq<char>, post: Seq<char>)
    requires
        w.len() > 0,
        !is_ws(w[0]),
        !is_ws(w.last()),
        forall|i: int| 0 <= i < pre.len() ==> is_ws(#[trigger] pre[i]),
        forall|i: int| 0 <= i < post.len() ==> is_ws(#[trigger] post[i]),
    ensures
        trim(pre + w + post) == w,
{
    let s = pre + w + post;
    let p = pre.len() as int;
    assert forall|m: int| 0 <= m < p implies is_ws(#[trigger] s[m]) by {
        assert(s[m] == pre[m]);
    }
    assert(s[p] == w[0]);
    lemma_trim_start_skip(s, 0, p);
    assert(s.skip(0) =~= s);
    let t = s.skip(p);
    assert(t =~= w + post);
    let k = t.len() as int;
    let j = w.len() as int;
    assert forall|m: int| j <= m < k implies is_ws(#[trigger] t[m]) by {
        assert(t[m] == post[m - j]);
    }
    assert(t[j - 1] == w.last());
    lemma_trim_end_take(t, j, k);
    assert(t.take(k) =~= t);
    assert(t.take(j) =~= w);
}

/// Signed parsing reads a run of digits, with or without a leading minus,
/// as the number it spells with that sign.
pub proof fn lemma_signed_digits(d: Seq<char>)
    requires
        d.len() > 0,
        all_digits(d),
    ensures
        signed_value(d) == Some(digits_value(d) as int),
        signed_value(seq!['-'] + d) == Some(-(digits_value(d) as int)),
{
    assert(is_digit(d[0]));
    assert((seq!['-'] + d).drop_first() =~= d);
}

} // verus!
