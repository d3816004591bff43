use vstd::prelude::*;
use vstd::string::*;
use crate::text::{chars_of, parse_u32, parse_usize, parse_unsigned_spec};

verus! {

/// Test duration in hours when `--hours` is absent or unreadable.
pub const DEFAULT_HOURS: u32 = 36;

/// Number of CPU workers when `--threads` is absent or unreadable.
pub const DEFAULT_THREADS: usize = 4;

/// Memory per worker in MB when `--memory-mb` is absent or unreadable.
pub const DEFAULT_MEMORY_MB: usize = 512;

/// The settings of a burn-in run.
#[derive(Debug, Clone, Copy)]
pub struct Args {
    /// How long the test runs, in hours.
    pub hours: u32,
    /// How many CPU stress workers run.
    pub threads: usize,
    /// How many megabytes the memory worker cycles through.
    pub memory_mb: usize,
    /// Whether workers print diagnostics.
    pub verbose: bool,
}

pub open spec fn hours_flag() -> Seq<char> {
    seq!['-', '-', 'h', 'o', 'u', 'r', 's']
}

pub open spec fn threads_flag() -> Seq<char> {
    seq!['-', '-', 't', 'h', 'r', 'e', 'a', 'd', 's']
}

pub open spec fn memory_flag() -> Seq<char> {
    seq!['-', '-', 'm', 'e', 'm', 'o', 'r', 'y', '-', 'm', 'b']
}

pub open spec fn verbose_flag() -> Seq<char> {
    seq!['-', '-', 'v', 'e', 'r', 'b', 'o', 's', 'e']
}

/// The value `s` spells as a `u32`, or `fallback`.
pub open spec fn u32_or(s: Seq<char>, fallback: u32) -> u32 {
    match parse_unsigned_spec(s, u32::MAX as u64) {
        Some(v) => v as u32,
        None => fallback,
    }
}

/// The value `s` spells as a `usize`, or `fallback`.
pub open spec fn usize_or(s: Seq<char>, fallback: usize) -> usize {
    match parse_unsigned_spec(s, usize::MAX as u64) {
        Some(v) => v as usize,
        None => fallback,
    }
}

/// The settings before any argument is read: 36 hours, 4 workers, 512 MB,
/// quiet.
pub open spec fn default_args() -> Args {
    Args {
        hours: DEFAULT_HOURS,
        threads: DEFAULT_THREADS,
        memory_mb: DEFAULT_MEMORY_MB,
        verbose: false,
    }
}

/// Whether `w` is an option that takes the next argument as its value.
pub open spec fn takes_value(w: Seq<char>) -> bool {
    w == hours_flag() || w == threads_flag() || w == memory_flag()
}

/// `a` with the field of the option `opt` (one that takes a value) set from
/// the word `v`: the number it spells in the field's type, or the default.
pub open spec fn with_value(a: Args, opt: Seq<char>, v: Seq<char>) -> Args {
    if opt == hours_flag() {
        Args { hours: u32_or(v, DEFAULT_HOURS), ..a }
    } else if opt == threads_flag() {
        Args { threads: usize_or(v, DEFAULT_THREADS), ..a }
    } else {
        Args { memory_mb: usize_or(v, DEFAULT_MEMORY_MB), ..a }
    }
}

/// Reads the arguments `rest` from the first on into `a`: `--hours`,
/// `--threads` and `--memory-mb` take the next argument as their value
/// (falling back to the default when it is not a number of the field's
/// type, and doing nothing when there is no next argument), `--verbose`
/// switches on diagnostics, anything else is skipped. Later settings win.
pub open spec fn apply_args(a: Args, rest: Seq<Seq<char>>) -> Args
    decreases rest.len(),
{
    if rest.len() == 0 {
        a
    } else if takes_value(rest[0]) {
        if rest.len() >= 2 {
            apply_args(with_value(a, rest[0], rest[1]), rest.skip(2))
        } else {
            a
        }
    } else if rest[0] == verbose_flag() {
        apply_args(Args { verbose: true, ..a }, rest.skip(1))
    } else {
        apply_args(a, rest.skip(1))
    }
}

/// The settings after reading all of `p` from `a`, when reading ends exactly
/// at the end of `p`; `None` when the last word of `p` is an option still
/// waiting for its value. The word after such a `p` is read as an option.
pub open spec fn settled(a: Args, p: Seq<Seq<char>>) -> Option<Args>
    decreases p.len(),
{
    if p.len() == 0 {
        Some(a)
    } else if takes_value(p[0]) {
        if p.len() >= 2 {
            settled(with_value(a, p[0], p[1]), p.skip(2))
        } else {
            None
        }
    } else if p[0] == verbose_flag() {
        settled(Args { verbose: true, ..a }, p.skip(1))
    } else {
        settled(a, p.skip(1))
    }
}

/// Reading `p + r` is reading `p`, then `r` from where `p` left the settings.
pub proof fn lemma_read_in_two(a: Args, p: Seq<Seq<char>>, r: Seq<Seq<char>>)
    requires
        settled(a, p) is Some,
    ensures
        apply_args(a, p + r) == apply_args(settled(a, p)->0, r),
        apply_args(a, p) == settled(a, p)->0,
    decreases p.len(),
{
    if p.len() > 0 {
        let n: int = if takes_value(p[0]) {
            2
        } else {
            1
        };
        assert((p + r)[0] == p[0]);
        if n == 2 {
            assert((p + r)[1] == p[1]);
        }
        assert((p + r).skip(n) =~= p.skip(n) + r);
        if takes_value(p[0]) {
            lemma_read_in_two(with_value(a, p[0], p[1]), p.skip(2), r);
        } else if p[0] == verbose_flag() {
            lemma_read_in_two(Args { verbose: true, ..a }, p.skip(1), r);
        } else {
            lemma_read_in_two(a, p.skip(1), r);
        }
    } else {
        assert(p + r =~= r);
    }
}

/// The settings that the command line `argv` (program name first) selects.
pub open spec fn args_from(argv: Seq<Seq<char>>) -> Args {
    if argv.len() == 0 {
        default_args()
    } else {
        apply_args(default_args(), argv.skip(1))
    }
}

/// Whether `w` is one of the options the command line understands.
pub open spec fn is_option(w: Seq<char>) -> bool {
    w == hours_flag() || w == threads_flag() || w == memory_flag() || w == verbose_flag()
}

/// Words that are not options leave the settings as they are.
pub proof fn lemma_non_options_are_skipped(a: Args, rest: Seq<Seq<char>>)
    requires
        forall|i: int| 0 <= i < rest.len() ==> !is_option(#[trigger] rest[i]),
    ensures
        apply_args(a, rest) == a,
    decreases rest.len(),
{
    if rest.len() > 0 {
        assert(!is_option(rest[0]));
        assert forall|i: int| 0 <= i < rest.skip(1).len() implies !is_option(#[trigger] rest.skip(1)[i]) by {
            assert(rest.skip(1)[i] == rest[i + 1]);
        }
        lemma_non_options_are_skipped(a, rest.skip(1));
    }
}

/// A command line without options selects the defaults: 36 hours, 4
/// workers, 512 MB, quiet.
pub proof fn lemma_defaults_without_options(argv: Seq<Seq<char>>)
    requires
        forall|i: int| 1 <= i < argv.len() ==> !is_option(#[trigger] argv[i]),
    ensures
        args_from(argv) == default_args(),
{
    if argv.len() > 0 {
        assert forall|i: int| 0 <= i < argv.skip(1).len() implies !is_option(#[trigger] argv.skip(1)[i]) by {
            assert(argv.skip(1)[i] == argv[i + 1]);
        }
        lemma_non_options_are_skipped(default_args(), argv.skip(1));
    }
}

impl Args {
    /// Reads the settings from the command line `argv`, whose first element
    /// is the program name.
    pub fn parse(argv: &Vec<String>) -> (a: Args)
        ensures
            a == args_from(argv.deep_view()),
    {
        proof {
            reveal_strlit("--hours");
            reveal_strlit("--threads");
            reveal_strlit("--memory-mb");
            reveal_strlit("--verbose");
        }
        let hours_s = String::from_str("--hours");
        let threads_s = String::from_str("--threads");
        let memory_s = String::from_str("--memory-mb");
        let verbose_s = String::from_str("--verbose");
        assert(hours_s@ =~= hours_flag());
        assert(threads_s@ =~= threads_flag());
        assert(memory_s@ =~= memory_flag());
        assert(verbose_s@ =~= verbose_flag());

        let ghost all = argv.deep_view();
        let mut a = Args {
            hours: DEFAULT_HOURS,
            threads: DEFAULT_THREADS,
            memory_mb: DEFAULT_MEMORY_MB,
            verbose: false,
        };
        let n = argv.len();
        let mut i: usize = 1;
        if n == 0 {
            return a;
        }
        while i < n
            invariant
                1 <= i <= n,
                n == argv.len(),
                all == argv.deep_view(),
                all.len() == n,
                hours_s@ == hours_flag(),
                threads_s@ == threads_flag(),
                memory_s@ == memory_flag(),
                verbose_s@ == verbose_flag(),
                args_from(all) == apply_args(a, all.skip(i as int)),
            decreases n - i,
        {
            let ghost rest = all.skip(i as int);
            assert(rest[0] == argv[i as int]@);
            let arg = &argv[i];
            if *arg == hours_s || *arg == threads_s || *arg == memory_s {
                if i + 1 < n {
                    assert(rest[1] == argv[i + 1]@);
                    assert(rest.skip(2) =~= all.skip(i + 2));
                    let value = chars_of(argv[i + 1].as_str());
                    if *arg == hours_s {
                        a.hours = match parse_u32(&value) {
                            Some(v) => v,
                            None => DEFAULT_HOURS,
                        };
                    } else if *arg == threads_s {
                        a.threads = match parse_usize(&value) {
                            Some(v) => v,
                            None => DEFAULT_THREADS,
                        };
                    } else {
                        a.memory_mb = match parse_usize(&value) {
                            Some(v) => v,
                            None => DEFAULT_MEMORY_MB,
                        };
                    }
                    i = i + 2;
                } else {
                    assert(rest.len() == 1);
                    return a;
                }
            } else {
                assert(rest.skip(1) =~= all.skip(i + 1));
                if *arg == verbose_s {
                    a.verbose = true;
                }
                i = i + 1;
            }
        }
        assert(all.skip(i as int) =~= Seq::<Seq<char>>::empty());
        a
    }
}

/// The program name does not matter: command lines that differ only in
/// their first word select the same settings.
pub proof fn lemma_program_name_ignored(argv: Seq<Seq<char>>, argv2: Seq<Seq<char>>)
    requires
        argv.len() == argv2.len(),
        forall|i: int| 1 <= i < argv.len() ==> argv[i] == argv2[i],
    ensures
        args_from(argv) == args_from(argv2),
{
    if argv.len() > 0 {
        assert(argv.skip(1) =~= argv2.skip(1));
    }
}

/// The last setting wins, and an option left without a value changes
/// nothing: after a command line `a` that leaves no option waiting for its
/// value, adding an option `f` that takes a value sets that field from `v`
/// and keeps every other setting of `a`; adding `f` alone keeps all of them.
pub proof fn lemma_last_setting_wins(a: Seq<Seq<char>>, f: Seq<char>, v: Seq<char>)
    requires
        a.len() >= 1,
        settled(default_args(), a.skip(1)) is Some,
        takes_value(f),
    ensures
        args_from(a + seq![f, v]) == with_value(args_from(a), f, v),
        args_from(a + seq![f]) == args_from(a),
{
    let p = a.skip(1);
    lemma_read_in_two(default_args(), p, seq![f, v]);
    lemma_read_in_two(default_args(), p, seq![f]);
    assert((a + seq![f, v]).skip(1) =~= p + seq![f, v]);
    assert((a + seq![f]).skip(1) =~= p + seq![f]);
    let b = settled(default_args(), p)->0;
    assert(seq![f, v].skip(2) =~= Seq::<Seq<char>>::empty());
    assert(apply_args(b, seq![f, v]) == apply_args(with_value(b, f, v), seq![f, v].skip(2)));
}

/// A word that is not an option, put where an option is read, is skipped:
/// inserting it after a command line `a` that leaves no option waiting for
/// its value changes no setting.
pub proof fn lemma_unknown_word_ignored(
    a: Seq<Seq<char>>,
    t: Seq<char>,
    r: Seq<Seq<char>>,
)
    requires
        a.len() >= 1,
        settled(default_args(), a.skip(1)) is Some,
        !is_option(t),
    ensures
        args_from(a + seq![t] + r) == args_from(a + r),
{
    let p = a.skip(1);
    lemma_read_in_two(default_args(), p, seq![t] + r);
    lemma_read_in_two(default_args(), p, r);
    assert((a + seq![t] + r).skip(1) =~= p + (seq![t] + r));
    assert((a + r).skip(1) =~= p + r);
    assert((seq![t] + r).skip(1) =~= r);
    assert((seq![t] + r)[0] == t);
}

/// What a value option does to the settings: after a command line `a`
/// that leaves no option waiting for its value, `--hours v` sets the hours to
/// the `u32` that `v` spells, or to 36 when `v` spells none, whatever the
/// hours were before; `--threads v` and `--memory-mb v` likewise set the
/// workers and the megabytes to the `usize` that `v` spells, or to 4 and 512.
/// Every other setting stays as `a` left it.
pub proof fn lemma_option_values(a: Seq<Seq<char>>, v: Seq<char>)
    requires
        a.len() >= 1,
        settled(default_args(), a.skip(1)) is Some,
    ensures
        ({
            let before = args_from(a);
            let after = args_from(a + seq![hours_flag(), v]);
            &&& after.hours == (match parse_unsigned_spec(v, 0xFFFF_FFFFu64) {
                Some(n) => n as u32,
                None => 36u32,
            })
            &&& after.threads == before.threads
            &&& after.memory_mb == before.memory_mb
            &&& after.verbose == before.verbose
        }),
        ({
            let before = args_from(a);
            let after = args_from(a + seq![threads_flag(), v]);
            &&& after.threads == (match parse_unsigned_spec(v, usize::MAX as u64) {
                Some(n) => n as usize,
                None => 4usize,
            })
            &&& after.hours == before.hours
            &&& after.memory_mb == before.memory_mb
            &&& after.verbose == before.verbose
        }),
        ({
            let before = args_from(a);
            let after = args_from(a + seq![memory_flag(), v]);
            &&& after.memory_mb == (match parse_unsigned_spec(v, usize::MAX as u64) {
                Some(n) => n as usize,
                None => 512usize,
            })
            &&& after.hours == before.hours
            &&& after.threads == before.threads
            &&& after.verbose == before.verbose
        }),
{
    lemma_last_setting_wins(a, hours_flag(), v);
    lemma_last_setting_wins(a, threads_flag(), v);
    lemma_last_setting_wins(a, memory_flag(), v);
    assert(hours_flag() != threads_flag());
    assert(threads_flag()[2] != memory_flag()[2]);
    assert(hours_flag()[2] != memory_flag()[2]);
}

/// `--verbose` switches diagnostics on and keeps every other setting.
pub proof fn lemma_verbose_option(a: Seq<Seq<char>>)
    requires
        a.len() >= 1,
        settled(default_args(), a.skip(1)) is Some,
    ensures
        args_from(a + seq![verbose_flag()]).verbose,
        args_from(a + seq![verbose_flag()]).hours == args_from(a).hours,
        args_from(a + seq![verbose_flag()]).threads == args_from(a).threads,
        args_from(a + seq![verbose_flag()]).memory_mb == args_from(a).memory_mb,
{
    let p = a.skip(1);
    let r = seq![verbose_flag()];
    assert(!takes_value(verbose_flag())) by {
        assert(verbose_flag()[2] != hours_flag()[2]);
        assert(verbose_flag()[2] != threads_flag()[2]);
        assert(verbose_flag()[2] != memory_flag()[2]);
    }
    lemma_read_in_two(default_args(), p, r);
    assert((a + r).skip(1) =~= p + r);
    assert(r.skip(1) =~= Seq::<Seq<char>>::empty());
    let b = settled(default_args(), p)->0;
    assert(r[0] == verbose_flag());
    assert(apply_args(b, r) == apply_args(Args { verbose: true, ..b }, r.skip(1)));
    assert(args_from(a) == b);
}

} // verus!
