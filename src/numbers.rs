//! Digit runs: the maximal blocks of decimal digits in a path, left to right.

use vstd::prelude::*;

verus! {

/// Whether a character outside ASCII belongs to Unicode's decimal-digit
/// category (Nd), which regex's `\d` matches.
pub uninterp spec fn is_wide_decimal_digit(c: char) -> bool;

/// A decimal digit as regex's `\d` sees it: `0` to `9` in ASCII, and the
/// Nd characters beyond it.
pub open spec fn is_digit(c: char) -> bool {
    if (c as int) < 128 {
        '0' <= c && c <= '9'
    } else {
        is_wide_decimal_digit(c)
    }
}

/// How many digits `s` starts with.
pub open spec fn lead_digits(s: Seq<char>) -> nat
    decreases s.len(),
{
    if s.len() > 0 && is_digit(s[0]) {
        1 + lead_digits(s.drop_first())
    } else {
        0
    }
}

/// The maximal digit runs of `s`, in the order in which they appear.
pub open spec fn digit_runs(s: Seq<char>) -> Seq<Seq<char>>
    decreases s.len(),
    via digit_runs_decreases
{
    if s.len() == 0 {
        seq![]
    } else if !is_digit(s[0]) {
        digit_runs(s.drop_first())
    } else {
        seq![s.take(lead_digits(s) as int)] + digit_runs(s.skip(lead_digits(s) as int))
    }
}

#[via_fn]
proof fn digit_runs_decreases(s: Seq<char>) {
    if s.len() > 0 && is_digit(s[0]) {
        lemma_lead_digits_bound(s);
    }
}

/// The leading run is no longer than `s`, and each of its characters is a digit.
pub proof fn lemma_lead_digits_bound(s: Seq<char>)
    ensures
        lead_digits(s) <= s.len(),
        forall|i: int| 0 <= i < lead_digits(s) ==> is_digit(#[trigger] s[i]),
        lead_digits(s) < s.len() ==> !is_digit(s[lead_digits(s) as int]),
        s.len() > 0 && is_digit(s[0]) ==> lead_digits(s) >= 1,
    decreases s.len(),
{
    if s.len() > 0 && is_digit(s[0]) {
        lemma_lead_digits_bound(s.drop_first());
        assert forall|i: int| 0 <= i < lead_digits(s) implies is_digit(#[trigger] s[i]) by {
            if i > 0 {
                assert(s[i] == s.drop_first()[i - 1]);
            }
        }
    }
}

/// A run that is followed by a non-digit ends where `a` ends.
pub proof fn lemma_lead_digits_concat(a: Seq<char>, s: Seq<char>)
    requires
        s.len() > 0,
        !is_digit(s[0]),
    ensures
        lead_digits(a + s) == lead_digits(a),
    decreases a.len(),
{
    if a.len() == 0 {
        assert(a + s =~= s);
    } else {
        assert((a + s).drop_first() =~= a.drop_first() + s);
        lemma_lead_digits_concat(a.drop_first(), s);
    }
}

/// A string of digits is one whole run.
pub proof fn lemma_lead_digits_all(n: Seq<char>)
    requires
        forall|i: int| 0 <= i < n.len() ==> is_digit(#[trigger] n[i]),
    ensures
        lead_digits(n) == n.len(),
    decreases n.len(),
{
    if n.len() > 0 {
        lemma_lead_digits_all(n.drop_first());
    }
}

/// Digit runs split where a non-digit begins the second part.
pub proof fn lemma_digit_runs_concat(a: Seq<char>, s: Seq<char>)
    requires
        s.len() > 0,
        !is_digit(s[0]),
    ensures
        digit_runs(a + s) == digit_runs(a) + digit_runs(s),
    decreases a.len(),
{
    if a.len() == 0 {
        assert(a + s =~= s);
        assert(digit_runs(a) + digit_runs(s) =~= digit_runs(s));
    } else if !is_digit(a[0]) {
        assert((a + s).drop_first() =~= a.drop_first() + s);
        lemma_digit_runs_concat(a.drop_first(), s);
    } else {
        let k = lead_digits(a) as int;
        lemma_lead_digits_concat(a, s);
        lemma_lead_digits_bound(a);
        assert((a + s).take(k) =~= a.take(k));
        assert((a + s).skip(k) =~= a.skip(k) + s);
        lemma_digit_runs_concat(a.skip(k), s);
        assert(digit_runs(a + s) =~= seq![a.take(k)] + (digit_runs(a.skip(k)) + digit_runs(s)));
    }
}

/// A string of digits followed by a non-digit: its first run is the string itself.
pub proof fn lemma_digit_runs_number_first(n: Seq<char>, s: Seq<char>)
    requires
        n.len() > 0,
        forall|i: int| 0 <= i < n.len() ==> is_digit(#[trigger] n[i]),
        s.len() > 0,
        !is_digit(s[0]),
    ensures
        digit_runs(n + s) == seq![n] + digit_runs(s),
{
    lemma_lead_digits_all(n);
    lemma_digit_runs_concat(n, s);
    assert(n.take(n.len() as int) =~= n);
    assert(n.skip(n.len() as int) =~= Seq::<char>::empty());
    assert(digit_runs(n.skip(n.len() as int)) =~= Seq::<Seq<char>>::empty());
    assert(digit_runs(n) =~= seq![n]);
}

/// A path without digits has no digit runs.
pub proof fn lemma_no_digits_no_runs(s: Seq<char>)
    requires
        forall|i: int| 0 <= i < s.len() ==> !is_digit(#[trigger] s[i]),
    ensures
        digit_runs(s) == Seq::<Seq<char>>::empty(),
    decreases s.len(),
{
    if s.len() > 0 {
        lemma_no_digits_no_runs(s.drop_first());
    }
}

/// Run `j` of `runs` stands in `s` at `pos[j]`: it is a non-empty block of
/// digits with no digit right before or right after it.
pub open spec fn run_at(s: Seq<char>, runs: Seq<Seq<char>>, pos: Seq<int>, j: int) -> bool {
    &&& 0 <= pos[j]
    &&& pos[j] + runs[j].len() <= s.len()
    &&& runs[j].len() > 0
    &&& s.subrange(pos[j], pos[j] + runs[j].len()) == runs[j]
    &&& forall|i: int| 0 <= i < runs[j].len() ==> is_digit(#[trigger] runs[j][i])
    &&& (pos[j] == 0 || !is_digit(s[pos[j] - 1]))
    &&& (pos[j] + runs[j].len() == s.len() || !is_digit(s[pos[j] + runs[j].len()]))
}

/// `runs` are the maximal digit blocks of `s`, standing at `pos`, left to
/// right and apart, and every digit of `s` lies in one of them.
pub open spec fn runs_located(s: Seq<char>, runs: Seq<Seq<char>>, pos: Seq<int>) -> bool {
    &&& pos.len() == runs.len()
    &&& forall|j: int| 0 <= j < runs.len() ==> #[trigger] run_at(s, runs, pos, j)
    &&& forall|j: int|
        0 <= j < runs.len() - 1 ==> #[trigger] pos[j] + runs[j].len() < pos[j + 1]
    &&& forall|i: int|
        0 <= i < s.len() && is_digit(#[trigger] s[i]) ==> exists|j: int|
            0 <= j < runs.len() && #[trigger] pos[j] <= i < pos[j] + runs[j].len()
}

/// The digit runs of a path are its maximal blocks of digits, in the order in
/// which they stand, apart from each other, and they hold every digit of it.
/// The result gives where each run starts.
pub proof fn lemma_digit_runs_maximal(s: Seq<char>) -> (pos: Seq<int>)
    ensures
        runs_located(s, digit_runs(s), pos),
    decreases s.len(),
{
    let runs = digit_runs(s);
    if s.len() == 0 {
        let pos = Seq::<int>::empty();
        pos
    } else if !is_digit(s[0]) {
        let t = s.drop_first();
        let p0 = lemma_digit_runs_maximal(t);
        let pos = p0.map_values(|p: int| p + 1);
        assert forall|j: int| 0 <= j < runs.len() implies #[trigger] run_at(s, runs, pos, j) by {
            assert(run_at(t, runs, p0, j));
            assert(s.subrange(pos[j], pos[j] + runs[j].len()) =~= t.subrange(
                p0[j],
                p0[j] + runs[j].len(),
            ));
        }
        assert forall|j: int| 0 <= j < runs.len() - 1 implies #[trigger] pos[j] + runs[j].len()
            < pos[j + 1] by {
            assert(p0[j] + runs[j].len() < p0[j + 1]);
        }
        assert forall|i: int| 0 <= i < s.len() && is_digit(#[trigger] s[i]) implies exists|j: int|
            0 <= j < runs.len() && #[trigger] pos[j] <= i < pos[j] + runs[j].len() by {
            assert(t[i - 1] == s[i]);
            let j = choose|j: int| 0 <= j < runs.len() && #[trigger] p0[j] <= i - 1 < p0[j] + runs[j].len();
            assert(pos[j] == p0[j] + 1);
        }
        pos
    } else {
        let k = lead_digits(s) as int;
        lemma_lead_digits_bound(s);
        let t = s.skip(k);
        let rt = digit_runs(t);
        let p0 = lemma_digit_runs_maximal(t);
        let pos = seq![0int] + p0.map_values(|p: int| p + k);
        assert(runs == seq![s.take(k)] + rt);
        assert forall|j: int| 0 <= j < rt.len() implies #[trigger] p0[j] > 0 by {
            assert(run_at(t, rt, p0, j));
            if p0[j] == 0 {
                assert(rt[j][0] == t.subrange(p0[j], p0[j] + rt[j].len())[0]);
                assert(is_digit(rt[j][0]));
            }
        }
        assert forall|j: int| 0 <= j < runs.len() implies #[trigger] run_at(s, runs, pos, j) by {
            if j == 0 {
                assert(s.subrange(0, k) =~= s.take(k));
            } else {
                assert(run_at(t, rt, p0, j - 1));
                assert(runs[j] == rt[j - 1]);
                assert(pos[j] == p0[j - 1] + k);
                assert(s.subrange(pos[j], pos[j] + runs[j].len()) =~= t.subrange(
                    p0[j - 1],
                    p0[j - 1] + rt[j - 1].len(),
                ));
                assert(s[pos[j] - 1] == t[p0[j - 1] - 1]);
                if pos[j] + runs[j].len() < s.len() {
                    assert(s[pos[j] + runs[j].len()] == t[p0[j - 1] + rt[j - 1].len()]);
                }
            }
        }
        assert forall|j: int| 0 <= j < runs.len() - 1 implies #[trigger] pos[j] + runs[j].len()
            < pos[j + 1] by {
            if j > 0 {
                assert(p0[j - 1] + rt[j - 1].len() < p0[j]);
            }
        }
        assert forall|i: int| 0 <= i < s.len() && is_digit(#[trigger] s[i]) implies exists|j: int|
            0 <= j < runs.len() && #[trigger] pos[j] <= i < pos[j] + runs[j].len() by {
            if i < k {
                assert(pos[0] <= i < pos[0] + runs[0].len());
            } else {
                assert(t[i - k] == s[i]);
                let j = choose|j: int| 0 <= j < rt.len() && #[trigger] p0[j] <= i - k < p0[j] + rt[j].len();
                assert(pos[j + 1] == p0[j] + k);
                assert(runs[j + 1] == rt[j]);
            }
        }
        pos
    }
}

/// The views of a sequence of strings.
pub open spec fn views(v: Seq<String>) -> Seq<Seq<char>> {
    v.map_values(|x: String| x@)
}

/// Relies on regex's `Regex::new` and `Regex::find_iter` with the pattern
/// `\d+`: the iterator yields the successive non-overlapping matches from
/// left to right; `\d` is the Nd class and `+` is greedy, so the matches are
/// the maximal runs of digits.
#[verifier::external_body]
fn regex_digit_runs(s: &str) -> (r: Vec<String>)
    ensures
        views(r@) == digit_runs(s@),
        forall|i: int, j: int|
            0 <= i < r@.len() && 0 <= j < r@[i]@.len() && (r@[i]@[j] as int) >= 128
                ==> is_wide_decimal_digit(#[trigger] r@[i]@[j]),
{
    let re = regex::Regex::new(r"\d+").unwrap();
    re.find_iter(s).map(|m| m.as_str().to_string()).collect()
}

/// All digit runs of `filepath`, directory components included, in order.
pub fn find_all_numbers(filepath: &str) -> (r: Vec<String>)
    ensures
        views(r@) == digit_runs(filepath@),
{
    regex_digit_runs(filepath)
}

} // verus!
