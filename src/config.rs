//! The settings of one run, read from the command line.

use vstd::prelude::*;
use crate::numbers::views;
use crate::order::str_eq;

verus! {

/// The settings of one run.
pub struct Config {
    /// The directory to work on; also the prefix of every new name.
    pub path: String,
    /// Which digit run of a path becomes the episode number.
    pub nth_number: Option<usize>,
    /// Print the new names instead of renaming.
    pub test_run: bool,
    /// Print the digit runs of each path instead of renaming.
    pub get_numbers: bool,
    /// Print the usage text and nothing else.
    pub help: bool,
}

/// Whether `c` is one of the ASCII digits `0` to `9`.
pub open spec fn is_ascii_digit(c: char) -> bool {
    '0' <= c && c <= '9'
}

/// The number that a string of ASCII digits writes in base ten.
pub open spec fn decimal_value(s: Seq<char>) -> nat
    decreases s.len(),
{
    if s.len() == 0 {
        0
    } else {
        decimal_value(s.drop_last()) * 10 + (s.last() as int - '0' as int) as nat
    }
}

/// `s` without one leading `+`.
pub open spec fn unsigned_part(s: Seq<char>) -> Seq<char> {
    if s.len() > 0 && s[0] == '+' {
        s.drop_first()
    } else {
        s
    }
}

/// Every character of `s` is an ASCII digit.
pub open spec fn all_ascii_digits(s: Seq<char>) -> bool {
    forall|i: int| 0 <= i < s.len() ==> is_ascii_digit(#[trigger] s[i])
}

/// What `str::parse::<usize>` gives: an optional `+`, then one or more ASCII
/// digits whose value fits a `usize`; `None` for anything else.
pub open spec fn parse_usize(s: Seq<char>) -> Option<usize> {
    let d = unsigned_part(s);
    if d.len() > 0 && all_ascii_digits(d) && decimal_value(d) <= usize::MAX {
        Some(decimal_value(d) as usize)
    } else {
        None
    }
}

/// The argument after the first occurrence of `flag`, if `flag` occurs and
/// is not the last argument.
pub open spec fn flag_value(flag: Seq<char>, args: Seq<Seq<char>>) -> Option<Seq<char>>
    decreases args.len(),
{
    if args.len() == 0 {
        None
    } else if args[0] == flag {
        if args.len() > 1 {
            Some(args[1])
        } else {
            None
        }
    } else {
        flag_value(flag, args.drop_first())
    }
}

/// The position that `flag` selects in `args`: the number after its first
/// occurrence; `None` when the flag is missing, last, or not followed by a
/// number.
pub open spec fn position_of(flag: Seq<char>, args: Seq<Seq<char>>) -> Option<usize> {
    match flag_value(flag, args) {
        Some(v) => parse_usize(v),
        None => None,
    }
}

proof fn lemma_decimal_value_grows(s: Seq<char>, i: int)
    requires
        0 <= i <= s.len(),
        forall|j: int| 0 <= j < s.len() ==> is_ascii_digit(#[trigger] s[j]),
    ensures
        decimal_value(s.take(i)) <= decimal_value(s),
    decreases s.len() - i,
{
    if i < s.len() {
        lemma_decimal_value_grows(s, i + 1);
        assert(s.take(i + 1).drop_last() =~= s.take(i));
    } else {
        assert(s.take(i) =~= s);
    }
}

/// Reads a `usize` as `str::parse` does.
pub fn parse_position(s: &str) -> (r: Option<usize>)
    ensures
        r == parse_usize(s@),
{
    let n = s.unicode_len();
    let mut i: usize = 0;
    if n > 0 && s.get_char(0) == '+' {
        i = 1;
    }
    let ghost d = s@.skip(i as int);
    assert(d =~= unsigned_part(s@));
    if i == n {
        return None;
    }
    let start = i;
    let mut acc: usize = 0;
    assert(d.take(0) =~= Seq::<char>::empty());
    while i < n
        invariant
            start <= i <= n,
            start < n,
            n == s@.len(),
            d == s@.skip(start as int),
            d == unsigned_part(s@),
            forall|j: int| 0 <= j < i - start ==> is_ascii_digit(#[trigger] d[j]),
            acc as nat == decimal_value(d.take(i - start)),
        decreases n - i,
    {
        let c = s.get_char(i);
        assert(c == d[i - start]);
        if !('0' <= c && c <= '9') {
            assert(!is_ascii_digit(d[i - start]));
            return None;
        }
        let digit = (c as u32 - '0' as u32) as usize;
        assert(d.take(i - start + 1).drop_last() =~= d.take(i - start));
        if acc > usize::MAX / 10 || acc * 10 > usize::MAX - digit {
            proof {
                if acc > usize::MAX / 10 {
                    assert(acc * 10 + digit > usize::MAX) by (nonlinear_arith)
                        requires
                            acc > usize::MAX / 10,
                    ;
                }
                assert(decimal_value(d.take(i - start + 1)) > usize::MAX);
                if all_ascii_digits(d) {
                    lemma_decimal_value_grows(d, i - start + 1);
                }
            }
            return None;
        }
        acc = acc * 10 + digit;
        i = i + 1;
    }
    assert(d.take(n - start) =~= d);
    Some(acc)
}

/// The first index at which `flag` stands in `args`.
fn find_flag(flag: &str, args: &[String]) -> (r: Option<usize>)
    ensures
        match r {
            Some(i) => i < args@.len() && flag_value(flag@, views(args@)) == (if i + 1 < args@.len() {
                Some(args@[i + 1]@)
            } else {
                None::<Seq<char>>
            }),
            None => flag_value(flag@, views(args@)) is None,
        },
{
    let mut i: usize = 0;
    assert(views(args@).skip(0) =~= views(args@));
    while i < args.len()
        invariant
            i <= args@.len(),
            flag_value(flag@, views(args@)) == flag_value(flag@, views(args@).skip(i as int)),
        decreases args@.len() - i,
    {
        let ghost rest = views(args@).skip(i as int);
        assert(rest[0] == args@[i as int]@);
        if str_eq(args[i].as_str(), flag) {
            if i + 1 < args.len() {
                assert(rest[1] == args@[i + 1]@);
            }
            return Some(i);
        }
        assert(rest.drop_first() =~= views(args@).skip(i + 1));
        i = i + 1;
    }
    None
}

/// The position that `argument` selects in `args`; `None` when the flag is
/// missing, is the last argument, or is not followed by a number.
pub fn parse_cli_args(argument: &str, args: &[String]) -> (r: Option<usize>)
    ensures
        r == position_of(argument@, views(args@)),
{
    assert(views(args@).skip(0) =~= views(args@));
    match find_flag(argument, args) {
        Some(i) => {
            if i < args.len() - 1 {
                parse_position(args[i + 1].as_str())
            } else {
                None
            }
        },
        None => None,
    }
}

/// Whether `flag` is one of `args`.
pub fn has_arg(flag: &str, args: &[String]) -> (r: bool)
    ensures
        r == views(args@).contains(flag@),
{
    let mut i: usize = 0;
    while i < args.len()
        invariant
            i <= args@.len(),
            forall|j: int| 0 <= j < i ==> args@[j]@ != flag@,
        decreases args@.len() - i,
    {
        if str_eq(args[i].as_str(), flag) {
            assert(views(args@)[i as int] == flag@);
            return true;
        }
        i = i + 1;
    }
    assert forall|j: int| 0 <= j < views(args@).len() implies views(args@)[j] != flag@ by {
        assert(views(args@)[j] == args@[j]@);
    }
    false
}

/// The position asked for: `-p` when it gives one, else `--position`.
pub open spec fn selected_position(args: Seq<Seq<char>>) -> Option<usize> {
    if position_of("-p"@, args) is Some {
        position_of("-p"@, args)
    } else {
        position_of("--position"@, args)
    }
}

/// Whether `args` hold the short or the long form of a flag.
pub open spec fn has_either(short: Seq<char>, long: Seq<char>, args: Seq<Seq<char>>) -> bool {
    args.contains(short) || args.contains(long)
}

/// The settings that `args` ask for. The last argument is the directory;
/// flags count wherever they stand. `None` when there is no argument at all.
pub fn parse_config(args: &[String]) -> (r: Option<Config>)
    ensures
        r is None <==> args@.len() == 0,
        r matches Some(c) ==> {
            &&& c.path@ == args@.last()@
            &&& c.nth_number == selected_position(views(args@))
            &&& c.test_run == has_either("-t"@, "--test"@, views(args@))
            &&& c.get_numbers == has_either("-g"@, "--get_numbers"@, views(args@))
            &&& c.help == has_either("-h"@, "--help"@, views(args@))
        },
{
    if args.len() == 0 {
        return None;
    }
    let position_short = parse_cli_args("-p", args);
    let position_long = parse_cli_args("--position", args);
    Some(
        Config {
            path: args[args.len() - 1].clone(),
            nth_number: if position_short.is_some() {
                position_short
            } else {
                position_long
            },
            test_run: has_arg("-t", args) || has_arg("--test", args),
            get_numbers: has_arg("-g", args) || has_arg("--get_numbers", args),
            help: has_arg("-h", args) || has_arg("--help", args),
        },
    )
}

} // verus!
