//! The new name of a file: `<directory path>E<number>.<extension>`.

use vstd::prelude::*;
use crate::config::Config;
use crate::numbers::{digit_runs, is_digit, lemma_digit_runs_concat, lemma_digit_runs_number_first};

verus! {

/// What follows the last `.` of `s`; all of `s` when it holds no `.`.
pub open spec fn extension_of(s: Seq<char>) -> Seq<char>
    decreases s.len(),
{
    if s.len() == 0 {
        s
    } else if s.last() == '.' {
        seq![]
    } else {
        extension_of(s.drop_last()).push(s.last())
    }
}

/// The name built from a directory path, a number and an extension.
pub open spec fn title_of(path: Seq<char>, number: Seq<char>, extension: Seq<char>) -> Seq<char> {
    path + seq!['E'] + number + seq!['.'] + extension
}

/// The extension of a path: the text after its last `.`, or the whole path
/// when it holds no `.`.
pub fn get_file_extention(filepath: &str) -> (r: String)
    ensures
        r@ == extension_of(filepath@),
{
    let n = filepath.unicode_len();
    let mut start: usize = 0;
    let mut i: usize = 0;
    assert(filepath@.take(0) =~= Seq::<char>::empty());
    while i < n
        invariant
            n == filepath@.len(),
            start <= i <= n,
            extension_of(filepath@.take(i as int)) =~= filepath@.subrange(start as int, i as int),
        decreases n - i,
    {
        let c = filepath.get_char(i);
        assert(filepath@.take(i + 1).drop_last() =~= filepath@.take(i as int));
        if c == '.' {
            start = i + 1;
        }
        i = i + 1;
    }
    assert(filepath@.take(n as int) =~= filepath@);
    String::from_str(filepath.substring_char(start, n))
}

/// The new name `<config.path>E<number>.<file_extention>`.
pub fn format_title(file_extention: &str, number: &str, config: &Config) -> (r: String)
    ensures
        r@ == title_of(config.path@, number@, file_extention@),
{
    let mut r = config.path.clone();
    r.append("E");
    r.append(number);
    r.append(".");
    r.append(file_extention);
    proof {
        reveal_strlit("E");
        reveal_strlit(".");
        assert(r@ =~= title_of(config.path@, number@, file_extention@));
    }
    r
}

/// A path without `.` is its own extension; a path that ends in `.` has an
/// empty extension.
pub proof fn lemma_extension_boundaries(s: Seq<char>)
    ensures
        (forall|i: int| 0 <= i < s.len() ==> s[i] != '.') ==> extension_of(s) == s,
        s.len() > 0 && s.last() == '.' ==> extension_of(s) == Seq::<char>::empty(),
    decreases s.len(),
{
    if s.len() > 0 {
        lemma_extension_boundaries(s.drop_last());
        if forall|i: int| 0 <= i < s.len() ==> s[i] != '.' {
            assert(s.last() != '.');
            assert(s.drop_last().push(s.last()) =~= s);
        }
    }
}

/// Reading the numbers back from a new name gives those of the directory
/// path, then the number it was built with, unchanged (leading zeros and
/// all), then those of the extension. So the number stands at the index
/// equal to the count of runs in the directory path.
pub proof fn lemma_title_round_trip(path: Seq<char>, number: Seq<char>, extension: Seq<char>)
    requires
        number.len() > 0,
        forall|i: int| 0 <= i < number.len() ==> is_digit(#[trigger] number[i]),
    ensures
        digit_runs(title_of(path, number, extension)) == digit_runs(path) + seq![number]
            + digit_runs(extension),
        digit_runs(title_of(path, number, extension))[digit_runs(path).len() as int] == number,
{
    let dot = seq!['.'] + extension;
    let rest = seq!['E'] + (number + dot);
    assert(!is_digit('.'));
    assert(!is_digit('E'));
    assert(title_of(path, number, extension) =~= path + rest);
    lemma_digit_runs_concat(path, rest);
    assert(rest.drop_first() =~= number + dot);
    lemma_digit_runs_number_first(number, dot);
    assert(dot.drop_first() =~= extension);
    assert(digit_runs(title_of(path, number, extension)) =~= digit_runs(path) + seq![number]
        + digit_runs(extension));
}

} // verus!
