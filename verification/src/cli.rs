//! The command line.

use crate::number;
use crate::text;
use vstd::prelude::*;

verus! {

/// The time between two snapshots where none is given, in milliseconds.
pub const DEFAULT_INTERVAL_MS: u64 = 2000;

/// How long a single snapshot waits for a first reading to compare with, in milliseconds.
pub const ONCE_CPU_WARMUP_MS: u64 = 350;

/// What the program was asked to do.
#[derive(Clone, Copy, Debug, PartialEq, Eq, Structural)]
pub enum Invocation {
    /// Say how it is used.
    Help,
    /// Print one snapshot.
    Once,
    /// Print a snapshot again and again.
    Repeat {
        /// The time between two of them.
        interval_ms: u64,
    },
}

/// What the arguments `args` ask for, after those before them asked for `once` and
/// `interval_ms`. The argument after `--interval-ms` is its value, whatever it is; a missing
/// or unreadable value is the default. Unknown arguments say nothing.
pub open spec fn asked(args: Seq<Seq<char>>, once: bool, interval_ms: u64) -> Invocation
    decreases args.len(),
{
    if args.len() == 0 {
        if once {
            Invocation::Once
        } else {
            Invocation::Repeat { interval_ms }
        }
    } else if args[0] == "--once"@ {
        asked(args.skip(1), true, interval_ms)
    } else if args[0] == "--interval-ms"@ {
        if args.len() == 1 {
            asked(args.skip(1), once, DEFAULT_INTERVAL_MS)
        } else {
            asked(args.skip(2), once, number::as_u64(args[1]).unwrap_or(DEFAULT_INTERVAL_MS))
        }
    } else if args[0] == "--help"@ || args[0] == "-h"@ {
        Invocation::Help
    } else {
        asked(args.skip(1), once, interval_ms)
    }
}

/// The contents of arguments, one by one.
pub open spec fn spelled(args: Seq<String>) -> Seq<Seq<char>> {
    args.map_values(|a: String| a@)
}

/// Reads the arguments that follow the program's name.
pub fn parse_args(args: &Vec<String>) -> (r: Invocation)
    ensures
        r == asked(spelled(args@), false, DEFAULT_INTERVAL_MS),
        r == asked(spelled(args@), false, 2000),
{
    let ghost all = spelled(args@);
    let mut once: bool = false;
    let mut interval_ms: u64 = DEFAULT_INTERVAL_MS;
    let mut i: usize = 0;
    assert(all.skip(0) =~= all);
    while i < args.len()
        invariant
            all == spelled(args@),
            i <= args@.len(),
            asked(all, false, DEFAULT_INTERVAL_MS) == asked(all.skip(i as int), once, interval_ms),
        decreases args@.len() - i,
    {
        let a: Vec<char> = text::chars_of(args[i].as_str());
        let ghost rest = all.skip(i as int);
        proof {
            assert(rest[0] == a@);
            assert(rest.skip(1) =~= all.skip(i + 1));
        }
        if text::same_text(&a, "--once") {
            once = true;
            i = i + 1;
        } else if text::same_text(&a, "--interval-ms") {
            if i + 1 == args.len() {
                interval_ms = DEFAULT_INTERVAL_MS;
                i = i + 1;
            } else {
                assert(rest.skip(2) =~= all.skip(i + 2));
                assert(rest[1] == args@[i + 1]@);
                let v: Vec<char> = text::chars_of(args[i + 1].as_str());
                interval_ms = number::parse_u64(&v).unwrap_or(DEFAULT_INTERVAL_MS);
                i = i + 2;
            }
        } else if text::same_text(&a, "--help") || text::same_text(&a, "-h") {
            return Invocation::Help;
        } else {
            i = i + 1;
        }
    }
    assert(all.skip(i as int) =~= Seq::empty());
    if once {
        Invocation::Once
    } else {
        Invocation::Repeat { interval_ms }
    }
}

/// How long to wait between a first reading, which is not shown, and the snapshot: only a
/// single snapshot waits, and only where there is no earlier reading to compare with.
pub fn warm_up_ms(invocation: Invocation, has_cpu_reading: bool) -> (r: Option<u64>)
    ensures
        r == (if invocation is Once && !has_cpu_reading {
            Some(ONCE_CPU_WARMUP_MS)
        } else {
            None
        }),
        r matches Some(ms) ==> ms == 350,
{
    match invocation {
        Invocation::Once => if has_cpu_reading {
            None
        } else {
            Some(ONCE_CPU_WARMUP_MS)
        },
        _ => None,
    }
}

/// Once help is asked for, no further argument takes that back.
pub proof fn help_is_final(
    args: Seq<Seq<char>>,
    more: Seq<Seq<char>>,
    once: bool,
    interval_ms: u64,
)
    requires
        asked(args, once, interval_ms) is Help,
    ensures
        asked(args + more, once, interval_ms) is Help,
    decreases args.len(),
{
    if args.len() > 0 {
        let all = args + more;
        assert(all[0] == args[0]);
        assert(all.skip(1) =~= args.skip(1) + more);
        if args[0] == "--once"@ {
            help_is_final(args.skip(1), more, true, interval_ms);
        } else if args[0] == "--interval-ms"@ {
            if args.len() == 1 {
                assert(!(asked(args.skip(1), once, DEFAULT_INTERVAL_MS) is Help));
            } else {
                assert(all[1] == args[1]);
                assert(all.skip(2) =~= args.skip(2) + more);
                help_is_final(
                    args.skip(2),
                    more,
                    once,
                    number::as_u64(args[1]).unwrap_or(DEFAULT_INTERVAL_MS),
                );
            }
        } else if args[0] == "--help"@ || args[0] == "-h"@ {
        } else {
            help_is_final(args.skip(1), more, once, interval_ms);
        }
    }
}

/// Arguments say what they say one after the other: `--once` asks for a single snapshot, help
/// ends the reading, and anything else that is unknown is passed over.
pub proof fn arguments_are_read_in_turn(
    arg: Seq<char>,
    rest: Seq<Seq<char>>,
    once: bool,
    interval_ms: u64,
)
    ensures
        asked(Seq::empty(), true, interval_ms) == Invocation::Once,
        asked(Seq::empty(), false, interval_ms) == (Invocation::Repeat { interval_ms }),
        arg == "--once"@ ==> asked(seq![arg] + rest, once, interval_ms) == asked(
            rest,
            true,
            interval_ms,
        ),
        arg == "--help"@ || arg == "-h"@ ==> asked(seq![arg] + rest, once, interval_ms)
            == Invocation::Help,
        arg != "--once"@ && arg != "--interval-ms"@ && arg != "--help"@ && arg != "-h"@ ==> asked(
            seq![arg] + rest,
            once,
            interval_ms,
        ) == asked(rest, once, interval_ms),
{
    lemma_options_differ();
    let all = seq![arg] + rest;
    assert(all[0] == arg);
    assert(all.skip(1) =~= rest);
}

/// The options are different texts.
proof fn lemma_options_differ()
    ensures
        "--once"@ != "--interval-ms"@,
        "--once"@ != "--help"@,
        "--once"@ != "-h"@,
        "--interval-ms"@ != "--help"@,
        "--interval-ms"@ != "-h"@,
{
    reveal_strlit("--once");
    reveal_strlit("--interval-ms");
    reveal_strlit("--help");
    reveal_strlit("-h");
    assert("--once"@.len() == 6 && "--interval-ms"@.len() == 13 && "-h"@.len() == 2);
    assert("--once"@[2] == 'o' && "--help"@[2] == 'h' && "--help"@.len() == 6);
}

/// The argument after `--interval-ms` is the interval in milliseconds, whatever was said
/// before; one that is no number, or that is missing, is two seconds.
pub proof fn interval_is_read(
    v: Seq<char>,
    n: nat,
    rest: Seq<Seq<char>>,
    once: bool,
    interval_ms: u64,
)
    ensures
        n <= 0xffff_ffff_ffff_ffff ==> asked(
            seq!["--interval-ms"@, number::decimal(n)] + rest,
            once,
            interval_ms,
        ) == asked(rest, once, n as u64),
        number::as_u64(v) matches Some(ms) ==> asked(
            seq!["--interval-ms"@, v] + rest,
            once,
            interval_ms,
        ) == asked(rest, once, ms),
        number::as_u64(v) is None ==> asked(seq!["--interval-ms"@, v] + rest, once, interval_ms)
            == asked(rest, once, 2000),
        asked(seq!["--interval-ms"@], once, interval_ms) == asked(Seq::empty(), once, 2000),
{
    lemma_options_differ();
    number::decimal_is_read(n);
    let a = seq!["--interval-ms"@, number::decimal(n)] + rest;
    let b = seq!["--interval-ms"@, v] + rest;
    let c = seq!["--interval-ms"@];
    assert(a[0] == "--interval-ms"@ && a[1] == number::decimal(n) && a.skip(2) =~= rest);
    assert(b[0] == "--interval-ms"@ && b[1] == v && b.skip(2) =~= rest);
    assert(c[0] == "--interval-ms"@ && c.skip(1) =~= Seq::empty());
}

/// Arguments are spelled as they are given, each at its place.
pub proof fn arguments_are_spelled(args: Seq<String>, i: int)
    ensures
        spelled(args).len() == args.len(),
        0 <= i < args.len() ==> spelled(args)[i] == args[i]@,
{
}

} // verus!
