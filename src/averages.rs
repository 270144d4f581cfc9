//! Per-player averages over the recorded attempts, and the sentence that
//! reports them.

use vstd::prelude::*;
use crate::facts::Attempt;
use crate::grammar::Mode;

verus! {

/// Sums and counts of one player's recorded attempts, by mode.
#[derive(Clone, Copy, Debug, PartialEq, Eq, Structural)]
pub struct ModeTotals {
    pub classic_sum: u128,
    pub classic_count: usize,
    pub code_sum: u128,
    pub code_count: usize,
}

pub open spec fn counts(a: Attempt, user: u64, mode: Mode) -> bool {
    a.user_id == user && a.mode == mode
}

/// The sum of the counts that `user` recorded in `mode`.
pub open spec fn attempts_sum(rows: Seq<Attempt>, user: u64, mode: Mode) -> nat
    decreases rows.len(),
{
    if rows.len() == 0 {
        0
    } else {
        attempts_sum(rows.drop_last(), user, mode) + if counts(rows.last(), user, mode) {
            rows.last().attempts as nat
        } else {
            0
        }
    }
}

/// The number of rows that `user` recorded in `mode`.
pub open spec fn attempts_count(rows: Seq<Attempt>, user: u64, mode: Mode) -> nat
    decreases rows.len(),
{
    if rows.len() == 0 {
        0
    } else {
        attempts_count(rows.drop_last(), user, mode) + if counts(rows.last(), user, mode) {
            1nat
        } else {
            0
        }
    }
}

proof fn lemma_sum_bound(rows: Seq<Attempt>, user: u64, mode: Mode)
    ensures
        attempts_count(rows, user, mode) <= rows.len(),
        attempts_sum(rows, user, mode) <= 65535 * attempts_count(rows, user, mode),
    decreases rows.len(),
{
    if rows.len() > 0 {
        lemma_sum_bound(rows.drop_last(), user, mode);
    }
}

/// The sums and counts of `user`'s rows, by mode.
pub fn mode_totals(rows: &Vec<Attempt>, user: u64) -> (r: ModeTotals)
    ensures
        r.classic_sum == attempts_sum(rows@, user, Mode::Classic),
        r.classic_count == attempts_count(rows@, user, Mode::Classic),
        r.code_sum == attempts_sum(rows@, user, Mode::Code),
        r.code_count == attempts_count(rows@, user, Mode::Code),
{
    let mut t = ModeTotals { classic_sum: 0, classic_count: 0, code_sum: 0, code_count: 0 };
    let mut i: usize = 0;
    assert(rows@.take(0) =~= Seq::<Attempt>::empty());
    while i < rows.len()
        invariant
            i <= rows@.len(),
            t.classic_sum == attempts_sum(rows@.take(i as int), user, Mode::Classic),
            t.classic_count == attempts_count(rows@.take(i as int), user, Mode::Classic),
            t.code_sum == attempts_sum(rows@.take(i as int), user, Mode::Code),
            t.code_count == attempts_count(rows@.take(i as int), user, Mode::Code),
        decreases rows@.len() - i,
    {
        let a = rows[i];
        let ghost next = rows@.take(i + 1);
        assert(next.drop_last() =~= rows@.take(i as int));
        proof {
            lemma_sum_bound(rows@.take(i as int), user, Mode::Classic);
            lemma_sum_bound(rows@.take(i as int), user, Mode::Code);
        }
        if a.user_id == user {
            match a.mode {
                Mode::Classic => {
                    t.classic_sum = t.classic_sum + a.attempts as u128;
                    t.classic_count = t.classic_count + 1;
                },
                Mode::Code => {
                    t.code_sum = t.code_sum + a.attempts as u128;
                    t.code_count = t.code_count + 1;
                },
            }
        }
        i += 1;
    }
    assert(rows@.take(i as int) =~= rows@);
    t
}

/// The sentence that reports the averages: `intro` opens it where some
/// average exists, `intro_neg` where none does; each average is given as text.
pub open spec fn averages_text(
    intro: Seq<char>,
    intro_neg: Seq<char>,
    classic: Option<Seq<char>>,
    code: Option<Seq<char>>,
) -> Seq<char> {
    match (classic, code) {
        (Some(c), Some(d)) => intro + " an average of "@ + c + " of classic and "@ + d
            + " for code"@,
        (Some(c), None) => intro + " an average of "@ + c + " of classic"@,
        (None, Some(d)) => intro + " an average of "@ + d + " of codemode"@,
        (None, None) => intro_neg + " sent any progle scores yet"@,
    }
}

pub open spec fn opt_view(o: Option<&str>) -> Option<Seq<char>> {
    match o {
        Some(s) => Some(s@),
        None => None,
    }
}

/// Composes the sentence that reports the averages.
pub fn averages_sentence(
    intro: &str,
    intro_neg: &str,
    classic: Option<&str>,
    code: Option<&str>,
) -> (r: String)
    ensures
        r@ == averages_text(intro@, intro_neg@, opt_view(classic), opt_view(code)),
{
    match (classic, code) {
        (Some(c), Some(d)) => {
            let mut r = String::from_str(intro);
            r.append(" an average of ");
            r.append(c);
            r.append(" of classic and ");
            r.append(d);
            r.append(" for code");
            r
        },
        (Some(c), None) => {
            let mut r = String::from_str(intro);
            r.append(" an average of ");
            r.append(c);
            r.append(" of classic");
            r
        },
        (None, Some(d)) => {
            let mut r = String::from_str(intro);
            r.append(" an average of ");
            r.append(d);
            r.append(" of codemode");
            r
        },
        (None, None) => {
            let mut r = String::from_str(intro_neg);
            r.append(" sent any progle scores yet");
            r
        },
    }
}

/// The two openings of the sentence, for the asking player (`None`) or for
/// the named one.
pub open spec fn intro_texts(target: Option<Seq<char>>) -> (Seq<char>, Seq<char>) {
    match target {
        None => ("you have"@, "you haven't"@),
        Some(name) => (name + " has "@, name + " hasn't"@),
    }
}

/// The two openings of the sentence: `intro` and `intro_neg`.
pub fn averages_intro(target: Option<&str>) -> (r: (String, String))
    ensures
        (r.0@, r.1@) == intro_texts(opt_view(target)),
{
    match target {
        None => (String::from_str("you have"), String::from_str("you haven't")),
        Some(name) => {
            let mut has = String::from_str(name);
            has.append(" has ");
            let mut hasnt = String::from_str(name);
            hasnt.append(" hasn't");
            (has, hasnt)
        },
    }
}

} // verus!
