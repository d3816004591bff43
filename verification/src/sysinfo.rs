use vstd::prelude::*;
use crate::duration::{decimal, lemma_parse_decimal};
use crate::text::{is_word, spaced, lemma_words_of_spaced, lemma_trim_padded, lemma_signed_digits, is_ws, chars_of, copy_range, parse_i32, parse_i32_spec, parse_u64, parse_unsigned_spec, split_whitespace, trim, trim_bounds, words};

verus! {

/// The text of `s` before its first newline (all of `s` when there is none).
pub open spec fn first_line(s: Seq<char>) -> Seq<char>
    decreases s.len(),
{
    if s.len() > 0 && s[0] != '\n' {
        seq![s[0]] + first_line(s.drop_first())
    } else {
        Seq::empty()
    }
}

pub proof fn lemma_first_line_len(s: Seq<char>)
    ensures
        first_line(s).len() <= s.len(),
    decreases s.len(),
{
    if s.len() > 0 && s[0] != '\n' {
        lemma_first_line_len(s.drop_first());
    }
}

/// The pieces of `s` between newlines, in order. Reading the words of each
/// piece gives what reading the words of each of `str::lines` gives: a
/// carriage return before a newline is whitespace, and the empty piece after
/// a final newline has no words.
pub open spec fn line_pieces(s: Seq<char>) -> Seq<Seq<char>>
    decreases s.len(),
{
    if first_line(s).len() >= s.len() {
        seq![s]
    } else {
        proof {
            lemma_first_line_len(s);
        }
        seq![first_line(s)] + line_pieces(s.skip(first_line(s).len() + 1int))
    }
}

proof fn lemma_first_line_skip(s: Seq<char>, i: int, k: int)
    requires
        0 <= i <= k <= s.len(),
        forall|m: int| i <= m < k ==> #[trigger] s[m] != '\n',
        k == s.len() || s[k] == '\n',
    ensures
        first_line(s.skip(i)) == s.subrange(i, k),
    decreases k - i,
{
    if i < k {
        assert(s.skip(i).drop_first() =~= s.skip(i + 1));
        lemma_first_line_skip(s, i + 1, k);
        assert(seq![s[i]] + s.subrange(i + 1, k) =~= s.subrange(i, k));
    } else {
        assert(s.subrange(i, k) =~= Seq::<char>::empty());
    }
}

/// The first index at or after `i` that holds a newline, or the length.
fn next_newline(s: &Vec<char>, i: usize) -> (k: usize)
    requires
        i <= s.len(),
    ensures
        i <= k <= s.len(),
        forall|m: int| i <= m < k ==> #[trigger] s@[m] != '\n',
        k == s.len() || s@[k as int] == '\n',
{
    let mut k = i;
    while k < s.len() && s[k] != '\n'
        invariant
            i <= k <= s.len(),
            forall|m: int| i <= m < k ==> #[trigger] s@[m] != '\n',
        decreases s.len() - k,
    {
        k = k + 1;
    }
    k
}

/// `s` without its trailing colons (`trim_end_matches(':')`).
pub open spec fn trim_end_colons(s: Seq<char>) -> Seq<char>
    decreases s.len(),
{
    if s.len() > 0 && s.last() == ':' {
        trim_end_colons(s.drop_last())
    } else {
        s
    }
}

/// The length of `w` without its trailing colons.
fn trimmed_colons_len(w: &Vec<char>) -> (l: usize)
    ensures
        l <= w.len(),
        w@.take(l as int) == trim_end_colons(w@),
{
    let mut l = w.len();
    assert(w@.take(l as int) =~= w@);
    while l > 0 && w[l - 1] == ':'
        invariant
            l <= w.len(),
            trim_end_colons(w@.take(l as int)) == trim_end_colons(w@),
        decreases l,
    {
        assert(w@.take(l as int).drop_last() =~= w@.take(l - 1));
        l = l - 1;
    }
    l
}

/// Whether `w[..l]` is `key`.
fn prefix_is(w: &Vec<char>, l: usize, key: &Vec<char>) -> (b: bool)
    requires
        l <= w.len(),
    ensures
        b == (w@.take(l as int) == key@),
{
    if l != key.len() {
        return false;
    }
    let mut i: usize = 0;
    while i < l
        invariant
            l == key.len(),
            l <= w.len(),
            i <= l,
            forall|m: int| 0 <= m < i ==> w@[m] == key@[m],
        decreases l - i,
    {
        if w[i] != key[i] {
            assert(w@.take(l as int)[i as int] != key@[i as int]);
            return false;
        }
        i = i + 1;
    }
    assert(w@.take(l as int) =~= key@);
    true
}

pub open spec fn mem_total_key() -> Seq<char> {
    seq!['M', 'e', 'm', 'T', 'o', 't', 'a', 'l']
}

pub open spec fn mem_available_key() -> Seq<char> {
    seq!['M', 'e', 'm', 'A', 'v', 'a', 'i', 'l', 'a', 'b', 'l', 'e']
}

/// The number a word spells as a `u64`, or 0 when it spells none.
pub open spec fn u64_or_zero(w: Seq<char>) -> nat {
    match parse_unsigned_spec(w, u64::MAX) {
        Some(v) => v as nat,
        None => 0,
    }
}

/// What one line of `/proc/meminfo` does to the (total, available) byte
/// counts: a line of at least two words whose first word, without trailing
/// colons, is `MemTotal` or `MemAvailable` sets that count to its second
/// word (a number of kB, 0 when unreadable) times 1024. `None` when that
/// product does not fit in a `u64`.
pub open spec fn meminfo_step(line: Seq<char>, acc: (u64, u64)) -> Option<(u64, u64)> {
    let parts = words(line);
    if parts.len() < 2 {
        Some(acc)
    } else {
        let key = trim_end_colons(parts[0]);
        let bytes = u64_or_zero(parts[1]) * 1024;
        if key == mem_total_key() {
            if bytes <= u64::MAX {
                Some((bytes as u64, acc.1))
            } else {
                None
            }
        } else if key == mem_available_key() {
            if bytes <= u64::MAX {
                Some((acc.0, bytes as u64))
            } else {
                None
            }
        } else {
            Some(acc)
        }
    }
}

/// The (total, available) byte counts after reading `lines` in order from `acc`.
pub open spec fn meminfo_scan(lines: Seq<Seq<char>>, acc: (u64, u64)) -> Option<(u64, u64)>
    decreases lines.len(),
{
    if lines.len() == 0 {
        Some(acc)
    } else {
        match meminfo_step(lines[0], acc) {
            Some(next) => meminfo_scan(lines.skip(1), next),
            None => None,
        }
    }
}

/// (used, total) bytes of memory that `/proc/meminfo` text reports: used is
/// total minus available, or 0 when available exceeds total.
pub open spec fn memory_info(text: Seq<char>) -> Option<(u64, u64)> {
    match meminfo_scan(line_pieces(text), (0, 0)) {
        Some(acc) => Some((if acc.0 >= acc.1 { (acc.0 - acc.1) as u64 } else { 0 }, acc.0)),
        None => None,
    }
}

/// Reads (used, total) bytes of memory from the text of `/proc/meminfo`.
/// `None` when a `MemTotal` or `MemAvailable` value in bytes does not fit
/// in a `u64`.
pub fn get_memory_info(meminfo: &str) -> (r: Option<(u64, u64)>)
    ensures
        r == memory_info(meminfo@),
{
    proof {
        reveal_strlit("MemTotal");
        reveal_strlit("MemAvailable");
    }
    let total_key = chars_of("MemTotal");
    let available_key = chars_of("MemAvailable");
    assert(total_key@ =~= mem_total_key());
    assert(available_key@ =~= mem_available_key());
    let s = chars_of(meminfo);
    let ghost text = s@;
    let n = s.len();
    let mut total: u64 = 0;
    let mut available: u64 = 0;
    let mut i: usize = 0;
    assert(text.skip(0) =~= text);
    loop
        invariant
            n == s.len(),
            text == s@,
            text == meminfo@,
            i <= n,
            total_key@ == mem_total_key(),
            available_key@ == mem_available_key(),
            meminfo_scan(line_pieces(text), (0, 0)) == meminfo_scan(
                line_pieces(text.skip(i as int)),
                (total, available),
            ),
        decreases n - i,
    {
        let k = next_newline(&s, i);
        let ghost rest = text.skip(i as int);
        proof {
            lemma_first_line_skip(text, i as int, k as int);
            assert(first_line(rest) == text.subrange(i as int, k as int));
            if k < n {
                assert(rest.skip(k - i + 1) =~= text.skip(k + 1));
                assert(line_pieces(rest) == seq![text.subrange(i as int, k as int)] + line_pieces(
                    text.skip(k + 1),
                ));
                assert(line_pieces(rest).skip(1) =~= line_pieces(text.skip(k + 1)));
            } else {
                assert(rest =~= text.subrange(i as int, k as int));
                assert(line_pieces(rest) == seq![rest]);
                assert(line_pieces(rest).skip(1) =~= Seq::<Seq<char>>::empty());
            }
        }
        let line = copy_range(&s, i, k);
        let ghost acc = (total, available);
        let parts = split_whitespace(&line);
        if parts.len() >= 2 {
            assert(parts.deep_view()[0] == parts[0]@);
            assert(parts.deep_view()[1] == parts[1]@);
            let l = trimmed_colons_len(&parts[0]);
            let is_total = prefix_is(&parts[0], l, &total_key);
            let is_available = prefix_is(&parts[0], l, &available_key);
            if is_total || is_available {
                let kb = match parse_u64(&parts[1]) {
                    Some(v) => v,
                    None => 0,
                };
                assert(kb as nat == u64_or_zero(parts[1]@));
                match kb.checked_mul(1024) {
                    Some(bytes) => {
                        if is_total {
                            total = bytes;
                        } else {
                            available = bytes;
                        }
                    },
                    None => {
                        assert(meminfo_step(line@, acc) is None);
                        assert(meminfo_scan(line_pieces(rest), acc) is None);
                        return None;
                    },
                }
            }
        }
        assert(meminfo_step(line@, acc) == Some((total, available)));
        assert(meminfo_scan(line_pieces(rest), acc) == meminfo_scan(
            line_pieces(rest).skip(1),
            (total, available),
        ));
        if k == n {
            assert(meminfo_scan(Seq::<Seq<char>>::empty(), (total, available)) == Some(
                (total, available),
            ));
            let used = total.saturating_sub(available);
            return Some((used, total));
        }
        i = k + 1;
    }
}

/// (busy, total) jiffies that the first line of `/proc/stat` reports: total
/// is the sum of its second to fifth words (user, nice, system, idle; each
/// 0 when unreadable), busy is total minus idle; (0, 0) when the line has
/// fewer than five words. `None` when the sum does not fit in a `u64`.
pub open spec fn cpu_times_spec(text: Seq<char>) -> Option<(u64, u64)> {
    let parts = words(first_line(text));
    if parts.len() < 5 {
        Some((0, 0))
    } else {
        let total = u64_or_zero(parts[1]) + u64_or_zero(parts[2]) + u64_or_zero(parts[3])
            + u64_or_zero(parts[4]);
        if total <= u64::MAX {
            Some(((total - u64_or_zero(parts[4])) as u64, total as u64))
        } else {
            None
        }
    }
}

/// Reads (busy, total) jiffies from the text of `/proc/stat`; the CPU usage
/// is busy / total, and 0 when total is 0.
pub fn cpu_times(stat: &str) -> (r: Option<(u64, u64)>)
    ensures
        r == cpu_times_spec(stat@),
{
    let s = chars_of(stat);
    let k = next_newline(&s, 0);
    proof {
        lemma_first_line_skip(s@, 0, k as int);
        assert(s@.skip(0) =~= s@);
    }
    let line = copy_range(&s, 0, k);
    let parts = split_whitespace(&line);
    if parts.len() < 5 {
        return Some((0, 0));
    }
    assert(parts.deep_view()[1] == parts[1]@);
    assert(parts.deep_view()[2] == parts[2]@);
    assert(parts.deep_view()[3] == parts[3]@);
    assert(parts.deep_view()[4] == parts[4]@);
    let user = match parse_u64(&parts[1]) {
        Some(v) => v,
        None => 0,
    };
    let nice = match parse_u64(&parts[2]) {
        Some(v) => v,
        None => 0,
    };
    let system = match parse_u64(&parts[3]) {
        Some(v) => v,
        None => 0,
    };
    let idle = match parse_u64(&parts[4]) {
        Some(v) => v,
        None => 0,
    };
    let t1 = match user.checked_add(nice) {
        Some(t) => t,
        None => {
            return None;
        },
    };
    let t2 = match t1.checked_add(system) {
        Some(t) => t,
        None => {
            return None;
        },
    };
    let total = match t2.checked_add(idle) {
        Some(t) => t,
        None => {
            return None;
        },
    };
    Some((total - idle, total))
}

/// A temperature in thousandths of a degree as a kernel thermal file holds
/// it: the text, trimmed of surrounding whitespace, read as an `i32`.
pub fn parse_millidegrees(content: &str) -> (r: Option<i32>)
    ensures
        r == parse_i32_spec(trim(content@)),
{
    let s = chars_of(content);
    let (lo, hi) = trim_bounds(&s);
    let t = copy_range(&s, lo, hi);
    parse_i32(&t)
}

/// The memory in use never exceeds the total.
pub proof fn lemma_used_within_total(text: Seq<char>)
    ensures
        memory_info(text) matches Some(r) ==> r.0 <= r.1,
{
}

/// The busy time never exceeds the total, so the usage lies in `[0, 100]` %.
pub proof fn lemma_busy_within_total(text: Seq<char>)
    ensures
        cpu_times_spec(text) matches Some(r) ==> r.0 <= r.1,
{
}

/// The lines `ls` joined by newlines: the text whose pieces they are.
pub open spec fn join_lines(ls: Seq<Seq<char>>) -> Seq<char>
    decreases ls.len(),
{
    if ls.len() == 0 {
        Seq::empty()
    } else if ls.len() == 1 {
        ls[0]
    } else {
        ls[0] + seq!['\n'] + join_lines(ls.skip(1))
    }
}

/// Whether no line of `ls` holds a newline.
pub open spec fn no_newlines(ls: Seq<Seq<char>>) -> bool {
    forall|i: int, j: int| 0 <= i < ls.len() && 0 <= j < ls[i].len() ==> #[trigger] ls[i][j] != '\n'
}

/// Splitting joined lines gives the lines back.
pub proof fn lemma_pieces_of_joined(ls: Seq<Seq<char>>)
    requires
        ls.len() >= 1,
        no_newlines(ls),
    ensures
        line_pieces(join_lines(ls)) == ls,
    decreases ls.len(),
{
    let t = join_lines(ls);
    let l = ls[0];
    assert forall|m: int| 0 <= m < l.len() implies #[trigger] t[m] != '\n' by {
        assert(ls[0][m] != '\n');
        if ls.len() > 1 {
            assert(t[m] == l[m]);
        }
    }
    if ls.len() == 1 {
        lemma_first_line_skip(t, 0, t.len() as int);
        assert(t.skip(0) =~= t);
        assert(t.subrange(0, t.len() as int) =~= t);
        assert(line_pieces(t) =~= seq![t]);
        assert(ls =~= seq![l]);
    } else {
        let rest = ls.skip(1);
        assert forall|i: int, j: int| 0 <= i < rest.len() && 0 <= j < rest[i].len() implies #[trigger] rest[i][j]
            != '\n' by {
            assert(rest[i] == ls[i + 1]);
            assert(ls[i + 1][j] != '\n');
        }
        assert(t[l.len() as int] == '\n');
        lemma_first_line_skip(t, 0, l.len() as int);
        assert(t.skip(0) =~= t);
        assert(t.subrange(0, l.len() as int) =~= l);
        assert(t.skip(l.len() + 1int) =~= join_lines(rest));
        lemma_pieces_of_joined(rest);
        assert(line_pieces(t) == seq![l] + line_pieces(join_lines(rest)));
        assert(seq![l] + rest =~= ls);
    }
}

/// Whether a line sets neither count: it has fewer than two words, or its
/// first word, without trailing colons, is neither `MemTotal` nor
/// `MemAvailable`.
pub open spec fn sets_no_count(line: Seq<char>) -> bool {
    words(line).len() < 2 || (trim_end_colons(words(line)[0]) != mem_total_key() && trim_end_colons(
        words(line)[0],
    ) != mem_available_key())
}

/// Whether a line sets the available count.
pub open spec fn sets_available(line: Seq<char>) -> bool {
    words(line).len() >= 2 && trim_end_colons(words(line)[0]) == mem_available_key()
}

proof fn lemma_scan_skips_line(p: Seq<Seq<char>>, l: Seq<char>, r: Seq<Seq<char>>, acc: (u64, u64))
    requires
        sets_no_count(l),
    ensures
        meminfo_scan(p + seq![l] + r, acc) == meminfo_scan(p + r, acc),
    decreases p.len(),
{
    if p.len() == 0 {
        assert(p + seq![l] + r =~= seq![l] + r);
        assert(p + r =~= r);
        assert((seq![l] + r).skip(1) =~= r);
        assert((seq![l] + r)[0] == l);
    } else {
        assert((p + seq![l] + r)[0] == p[0]);
        assert((p + r)[0] == p[0]);
        assert((p + seq![l] + r).skip(1) =~= p.skip(1) + seq![l] + r);
        assert((p + r).skip(1) =~= p.skip(1) + r);
        match meminfo_step(p[0], acc) {
            Some(next) => {
                lemma_scan_skips_line(p.skip(1), l, r, next);
            },
            None => {},
        }
    }
}

/// Lines that set neither count do not change the reading: adding one to a
/// `/proc/meminfo` text anywhere gives the same (used, total).
pub proof fn lemma_other_lines_ignored(ls1: Seq<Seq<char>>, l: Seq<char>, ls2: Seq<Seq<char>>)
    requires
        ls1.len() + ls2.len() >= 1,
        no_newlines(ls1 + seq![l] + ls2),
        sets_no_count(l),
    ensures
        memory_info(join_lines(ls1 + seq![l] + ls2)) == memory_info(join_lines(ls1 + ls2)),
{
    let all = ls1 + seq![l] + ls2;
    let without = ls1 + ls2;
    assert forall|i: int, j: int| 0 <= i < without.len() && 0 <= j < without[i].len() implies #[trigger] without[i][j]
        != '\n' by {
        if i < ls1.len() {
            assert(without[i] == all[i]);
        } else {
            assert(without[i] == all[i + 1]);
        }
    }
    lemma_pieces_of_joined(all);
    lemma_pieces_of_joined(without);
    lemma_scan_skips_line(ls1, l, ls2, (0, 0));
}

proof fn lemma_scan_keeps_available(lines: Seq<Seq<char>>, acc: (u64, u64))
    requires
        acc.1 == 0,
        forall|i: int| 0 <= i < lines.len() ==> !sets_available(#[trigger] lines[i]),
    ensures
        meminfo_scan(lines, acc) matches Some(r) ==> r.1 == 0,
    decreases lines.len(),
{
    if lines.len() > 0 {
        assert(!sets_available(lines[0]));
        assert forall|i: int| 0 <= i < lines.skip(1).len() implies !sets_available(#[trigger] lines.skip(1)[i]) by {
            assert(lines.skip(1)[i] == lines[i + 1]);
        }
        match meminfo_step(lines[0], acc) {
            Some(next) => {
                lemma_scan_keeps_available(lines.skip(1), next);
            },
            None => {},
        }
    }
}

/// Without a `MemAvailable` line all memory counts as used: used == total.
pub proof fn lemma_no_available_means_all_used(text: Seq<char>)
    requires
        forall|i: int| 0 <= i < line_pieces(text).len() ==> !sets_available(#[trigger] line_pieces(text)[i]),
    ensures
        memory_info(text) matches Some(r) ==> r.0 == r.1,
{
    lemma_scan_keeps_available(line_pieces(text), (0, 0));
}

/// Words written out with spaces hold no newline.
proof fn lemma_spaced_no_newline(ws: Seq<Seq<char>>)
    requires
        forall|i: int| 0 <= i < ws.len() ==> is_word(#[trigger] ws[i]),
    ensures
        forall|m: int| 0 <= m < spaced(ws).len() ==> #[trigger] spaced(ws)[m] != '\n',
    decreases ws.len(),
{
    if ws.len() >= 1 {
        let w = ws[0];
        assert(is_word(w));
        assert forall|m: int| 0 <= m < w.len() implies #[trigger] w[m] != '\n' by {
            assert(!is_ws(w[m]));
        }
        if ws.len() > 1 {
            let rest = ws.skip(1);
            assert forall|i: int| 0 <= i < rest.len() implies is_word(#[trigger] rest[i]) by {
                assert(rest[i] == ws[i + 1]);
            }
            lemma_spaced_no_newline(rest);
            let s = spaced(ws);
            assert forall|m: int| 0 <= m < s.len() implies #[trigger] s[m] != '\n' by {
                if m < w.len() {
                    assert(s[m] == w[m]);
                } else if m > w.len() {
                    assert(s[m] == spaced(rest)[m - w.len() - 1]);
                }
            }
        }
    }
}

/// A `/proc/meminfo` line: `key:`, the value in decimal, `kB`.
pub open spec fn meminfo_line(key: Seq<char>, kb: nat) -> Seq<char> {
    spaced(seq![key + seq![':'], decimal(kb), seq!['k', 'B']])
}

proof fn lemma_meminfo_line_words(key: Seq<char>, kb: nat)
    requires
        key == mem_total_key() || key == mem_available_key(),
    ensures
        words(meminfo_line(key, kb)) == seq![key + seq![':'], decimal(kb), seq!['k', 'B']],
        trim_end_colons(key + seq![':']) == key,
        u64_or_zero(decimal(kb)) == (if kb <= u64::MAX {
            kb
        } else {
            0
        }),
        forall|m: int| 0 <= m < meminfo_line(key, kb).len() ==> #[trigger] meminfo_line(key, kb)[m] != '\n',
{
    let ws = seq![key + seq![':'], decimal(kb), seq!['k', 'B']];
    lemma_parse_decimal(kb, u64::MAX);
    let k = key + seq![':'];
    assert(is_word(k)) by {
        assert forall|i: int| 0 <= i < k.len() implies !is_ws(#[trigger] k[i]) by {
            if i < key.len() {
                assert(k[i] == key[i]);
            }
        }
    }
    assert(is_word(seq!['k', 'B']));
    assert forall|i: int| 0 <= i < ws.len() implies is_word(#[trigger] ws[i]) by {}
    lemma_words_of_spaced(ws);
    lemma_spaced_no_newline(ws);
    assert(k.drop_last() =~= key);
    assert(k.last() == ':');
    if key == mem_total_key() {
        assert(key.last() == 'l');
    } else {
        assert(key.last() == 'e');
    }
    assert(trim_end_colons(key) == key);
    assert(trim_end_colons(k) == trim_end_colons(key));
}

proof fn lemma_scan_skips_lines(mid: Seq<Seq<char>>, r: Seq<Seq<char>>, acc: (u64, u64))
    requires
        forall|i: int| 0 <= i < mid.len() ==> sets_no_count(#[trigger] mid[i]),
    ensures
        meminfo_scan(mid + r, acc) == meminfo_scan(r, acc),
    decreases mid.len(),
{
    if mid.len() == 0 {
        assert(mid + r =~= r);
    } else {
        assert(sets_no_count(mid[0]));
        assert((mid + r)[0] == mid[0]);
        assert((mid + r).skip(1) =~= mid.skip(1) + r);
        assert forall|i: int| 0 <= i < mid.skip(1).len() implies sets_no_count(#[trigger] mid.skip(1)[i]) by {
            assert(mid.skip(1)[i] == mid[i + 1]);
        }
        assert(meminfo_step(mid[0], acc) == Some(acc));
        lemma_scan_skips_lines(mid.skip(1), r, acc);
    }
}

/// What `get_memory_info` reads from a `/proc/meminfo` text whose lines are
/// `MemTotal: T kB`, any lines that set neither count, and `MemAvailable: A
/// kB`: the total is `T * 1024` bytes and the available count `A * 1024`
/// bytes, both exactly, so used is their difference (0 when available
/// exceeds total); no reading when `T * 1024` or `A * 1024` exceeds a `u64`.
/// (`T` and `A` are values a `u64` holds: larger ones do not parse and
/// count as 0.)
pub proof fn lemma_meminfo_counts(t: nat, mid: Seq<Seq<char>>, a: nat)
    requires
        t <= u64::MAX,
        a <= u64::MAX,
        forall|i: int| 0 <= i < mid.len() ==> sets_no_count(#[trigger] mid[i]),
        no_newlines(mid),
    ensures
        memory_info(
            join_lines(
                seq![meminfo_line(mem_total_key(), t)] + mid + seq![meminfo_line(mem_available_key(), a)],
            ),
        ) == (if t * 1024 <= u64::MAX && a * 1024 <= u64::MAX {
            Some(
                (
                    if t >= a {
                        (t * 1024 - a * 1024) as u64
                    } else {
                        0u64
                    },
                    (t * 1024) as u64,
                ),
            )
        } else {
            None::<(u64, u64)>
        }),
{
    let tl = meminfo_line(mem_total_key(), t);
    let al = meminfo_line(mem_available_key(), a);
    lemma_meminfo_line_words(mem_total_key(), t);
    lemma_meminfo_line_words(mem_available_key(), a);
    let ls = seq![tl] + mid + seq![al];
    assert forall|i: int, j: int| 0 <= i < ls.len() && 0 <= j < ls[i].len() implies #[trigger] ls[i][j]
        != '\n' by {
        if i == 0 {
            assert(ls[i] == tl);
        } else if i < ls.len() - 1 {
            assert(ls[i] == mid[i - 1]);
        } else {
            assert(ls[i] == al);
        }
    }
    lemma_pieces_of_joined(ls);
    assert(mem_total_key() != mem_available_key());
    let total_bytes = t * 1024;
    assert(ls[0] == tl);
    assert(ls.skip(1) =~= mid + seq![al]);
    if t * 1024 <= u64::MAX {
        let acc = ((t * 1024) as u64, 0u64);
        assert(meminfo_step(tl, (0, 0)) == Some(acc));
        lemma_scan_skips_lines(mid, seq![al], acc);
        assert(seq![al].skip(1) =~= Seq::<Seq<char>>::empty());
        assert(meminfo_scan(ls, (0, 0)) == meminfo_scan(mid + seq![al], acc));
        assert(seq![al][0] == al);
        if a * 1024 <= u64::MAX {
            let fin = ((t * 1024) as u64, (a * 1024) as u64);
            assert(meminfo_step(al, acc) == Some(fin));
            assert(meminfo_scan(seq![al], acc) == meminfo_scan(Seq::<Seq<char>>::empty(), fin));
            assert(meminfo_scan(ls, (0, 0)) == Some(fin));
        } else {
            assert(meminfo_step(al, acc) is None);
            assert(meminfo_scan(ls, (0, 0)) is None);
        }
    } else {
        assert(meminfo_step(tl, (0, 0)) is None);
        assert(meminfo_scan(ls, (0, 0)) is None);
    }
}

/// What `cpu_times` reads from a `/proc/stat` text whose first line is a
/// label followed by the user, nice, system and idle counts in decimal (and
/// possibly more words): busy is `user + nice + system` and total adds
/// `idle`, exactly; no reading only when that total exceeds a `u64`. (Each
/// count is one a `u64` holds: larger ones do not parse and count as 0.)
pub proof fn lemma_cpu_counts(
    label: Seq<char>,
    user: nat,
    nice: nat,
    system: nat,
    idle: nat,
    more: Seq<Seq<char>>,
    rest: Seq<char>,
)
    requires
        is_word(label),
        forall|i: int| 0 <= i < more.len() ==> is_word(#[trigger] more[i]),
        user <= u64::MAX,
        nice <= u64::MAX,
        system <= u64::MAX,
        idle <= u64::MAX,
    ensures
        ({
            let line = spaced(
                seq![label, decimal(user), decimal(nice), decimal(system), decimal(idle)] + more,
            );
            let total = user + nice + system + idle;
            cpu_times_spec(line + seq!['\n'] + rest) == (if total <= u64::MAX {
                Some(((user + nice + system) as u64, total as u64))
            } else {
                None::<(u64, u64)>
            })
        }),
{
    let ws = seq![label, decimal(user), decimal(nice), decimal(system), decimal(idle)] + more;
    lemma_parse_decimal(user, u64::MAX);
    lemma_parse_decimal(nice, u64::MAX);
    lemma_parse_decimal(system, u64::MAX);
    lemma_parse_decimal(idle, u64::MAX);
    assert forall|i: int| 0 <= i < ws.len() implies is_word(#[trigger] ws[i]) by {
        if i >= 5 {
            assert(ws[i] == more[i - 5]);
        }
    }
    lemma_words_of_spaced(ws);
    lemma_spaced_no_newline(ws);
    let line = spaced(ws);
    let text = line + seq!['\n'] + rest;
    let n = line.len() as int;
    assert forall|m: int| 0 <= m < n implies #[trigger] text[m] != '\n' by {
        assert(text[m] == line[m]);
    }
    lemma_first_line_skip(text, 0, n);
    assert(text.skip(0) =~= text);
    assert(text.subrange(0, n) =~= line);
    assert(ws[1] == decimal(user) && ws[2] == decimal(nice) && ws[3] == decimal(system) && ws[4]
        == decimal(idle));
}

/// A first line of fewer than five words reads as (0, 0): no usage.
pub proof fn lemma_cpu_short_line(ws: Seq<Seq<char>>, rest: Seq<char>)
    requires
        1 <= ws.len() < 5,
        forall|i: int| 0 <= i < ws.len() ==> is_word(#[trigger] ws[i]),
    ensures
        cpu_times_spec(spaced(ws) + seq!['\n'] + rest) == Some((0u64, 0u64)),
{
    lemma_words_of_spaced(ws);
    lemma_spaced_no_newline(ws);
    let line = spaced(ws);
    let text = line + seq!['\n'] + rest;
    let n = line.len() as int;
    assert forall|m: int| 0 <= m < n implies #[trigger] text[m] != '\n' by {
        assert(text[m] == line[m]);
    }
    lemma_first_line_skip(text, 0, n);
    assert(text.skip(0) =~= text);
    assert(text.subrange(0, n) =~= line);
}

/// A thermal file holding a temperature in thousandths of a degree, in
/// decimal with or without a minus sign and with any whitespace around it,
/// reads as that number, exactly, whenever an `i32` holds it.
pub proof fn lemma_millidegrees(pre: Seq<char>, m: nat, post: Seq<char>)
    requires
        forall|i: int| 0 <= i < pre.len() ==> is_ws(#[trigger] pre[i]),
        forall|i: int| 0 <= i < post.len() ==> is_ws(#[trigger] post[i]),
    ensures
        parse_i32_spec(trim(pre + decimal(m) + post)) == (if m <= i32::MAX {
            Some(m as i32)
        } else {
            None::<i32>
        }),
        parse_i32_spec(trim(pre + (seq!['-'] + decimal(m)) + post)) == (if m <= 0x8000_0000 {
            Some((-(m as int)) as i32)
        } else {
            None::<i32>
        }),
{
    let d = decimal(m);
    crate::duration::lemma_decimal_reads_back(m);
    lemma_parse_decimal(m, u64::MAX);
    assert(crate::text::is_digit(d[0]));
    assert(crate::text::is_digit(d.last()));
    lemma_trim_padded(pre, d, post);
    let nd = seq!['-'] + d;
    assert(nd.last() == d.last());
    lemma_trim_padded(pre, nd, post);
    lemma_signed_digits(d);
}

} // verus!
