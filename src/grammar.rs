//! The grammar of a game announcement:
//! `Found #progle language in <digits><suffix>[<code marker>]<anything>`.

use vstd::prelude::*;
use crate::text::{begins_with, lemma_occurs_at_skip, occurs_at, occurs_at_exec};

verus! {

/// Which variant of the game was played.
#[derive(Clone, Copy, Debug, PartialEq, Eq, Structural)]
pub enum Mode {
    Classic,
    Code,
}

/// One announced game result.
#[derive(Clone, Copy, Debug, PartialEq, Eq, Structural)]
pub struct GameResult {
    pub mode: Mode,
    /// The announced count; one beyond 16 bits is held as the largest count.
    pub attempts: u16,
}

pub open spec fn intro() -> Seq<char> {
    "Found #progle language in "@
}

pub open spec fn plural_suffix() -> Seq<char> {
    " attempts! 💥 Try and beat me 💥\n"@
}

pub open spec fn singular_suffix() -> Seq<char> {
    " attempt! 💥 Try and beat me 💥\n"@
}

pub open spec fn code_marker() -> Seq<char> {
    "Guess today's code snippet!"@
}

pub open spec fn is_digit(c: char) -> bool {
    '0' <= c && c <= '9'
}

pub open spec fn digit_value(c: char) -> nat {
    ((c as u32) - 48) as nat
}

/// The number of decimal digits at the start of `s`.
pub open spec fn digit_run(s: Seq<char>) -> nat
    decreases s.len(),
{
    if s.len() > 0 && is_digit(s[0]) {
        1 + digit_run(s.skip(1))
    } else {
        0
    }
}

/// The number that a string of decimal digits denotes.
pub open spec fn digits_value(d: Seq<char>) -> nat
    decreases d.len(),
{
    if d.len() == 0 {
        0
    } else {
        digits_value(d.drop_last()) * 10 + digit_value(d.last())
    }
}

/// The length of the suffix that `s` starts with, or 0 where it starts with
/// neither.
pub open spec fn suffix_len(s: Seq<char>) -> nat {
    if begins_with(s, plural_suffix()) {
        plural_suffix().len()
    } else if begins_with(s, singular_suffix()) {
        singular_suffix().len()
    } else {
        0
    }
}

/// The count reported for a run of digits: its value, or the largest 16-bit
/// count where the value is larger.
pub open spec fn reported_count(d: Seq<char>) -> u16 {
    if digits_value(d) > 0xffff {
        0xffff
    } else {
        digits_value(d) as u16
    }
}

/// The result that a line announces, if it is an announcement.
pub open spec fn parse_spec(t: Seq<char>) -> Option<GameResult> {
    if !begins_with(t, intro()) {
        None
    } else {
        let rest = t.skip(intro().len() as int);
        let n = digit_run(rest);
        let after = rest.skip(n as int);
        let k = suffix_len(after);
        if n == 0 || k == 0 {
            None
        } else {
            Some(
                GameResult {
                    mode: if begins_with(after.skip(k as int), code_marker()) {
                        Mode::Code
                    } else {
                        Mode::Classic
                    },
                    attempts: reported_count(rest.take(n as int)),
                },
            )
        }
    }
}

proof fn lemma_digit_run(s: Seq<char>, k: int)
    requires
        0 <= k <= s.len(),
        forall|j: int| 0 <= j < k ==> is_digit(#[trigger] s[j]),
        k == s.len() || !is_digit(s[k]),
    ensures
        digit_run(s) == k,
    decreases k,
{
    if k > 0 {
        lemma_digit_run(s.skip(1), k - 1);
    }
}

proof fn lemma_suffixes_differ()
    ensures
        plural_suffix().len() == 31,
        singular_suffix().len() == 30,
        plural_suffix()[0] == ' ',
        singular_suffix()[0] == ' ',
        plural_suffix()[8] == 's',
        singular_suffix()[8] == '!',
{
    reveal_strlit(" attempts! 💥 Try and beat me 💥\n");
    reveal_strlit(" attempt! 💥 Try and beat me 💥\n");
}

/// Reads the result out of a chat line; `None` where the line is no
/// announcement. A count beyond 16 bits is reported as the largest one.
pub fn parse(text: &str) -> (r: Option<GameResult>)
    ensures
        r == parse_spec(text@),
{
    let len = text.unicode_len();
    let lead = "Found #progle language in ";
    if !occurs_at_exec(text, len, 0, lead) {
        return None;
    }
    let start = lead.unicode_len();
    let ghost rest = text@.skip(start as int);
    let mut i = start;
    let mut value: u32 = 0;
    assert(text@.subrange(start as int, start as int) =~= Seq::<char>::empty());
    while i < len && '0' <= text.get_char(i) && text.get_char(i) <= '9'
        invariant
            start <= i <= len,
            len == text@.len(),
            start == intro().len(),
            rest == text@.skip(start as int),
            forall|j: int| start <= j < i ==> is_digit(#[trigger] text@[j]),
            value as nat == if digits_value(text@.subrange(start as int, i as int)) > 65535 {
                65536
            } else {
                digits_value(text@.subrange(start as int, i as int))
            },
        decreases len - i,
    {
        let c = text.get_char(i);
        let d = (c as u32) - 48;
        let ghost prev = text@.subrange(start as int, i as int);
        let ghost next = text@.subrange(start as int, i + 1);
        assert(next.drop_last() =~= prev);
        assert(digits_value(next) == digits_value(prev) * 10 + d);
        if value > 65535 {
            value = 65536;
        } else {
            let v = value * 10 + d;
            value = if v > 65535 {
                65536
            } else {
                v
            };
        }
        i += 1;
    }
    proof {
        assert forall|j: int| 0 <= j < i - start implies is_digit(#[trigger] rest[j]) by {
            assert(rest[j] == text@[start + j]);
        }
        lemma_digit_run(rest, i - start);
        assert(rest.take(i - start) =~= text@.subrange(start as int, i as int));
        assert(rest.skip(i - start) =~= text@.skip(i as int));
        lemma_occurs_at_skip(text@, i as int, plural_suffix());
        lemma_occurs_at_skip(text@, i as int, singular_suffix());
    }
    if i == start {
        return None;
    }
    let attempts: u16 = if value > 65535 {
        65535
    } else {
        value as u16
    };
    let plural = " attempts! 💥 Try and beat me 💥\n";
    let singular = " attempt! 💥 Try and beat me 💥\n";
    let k: usize = if occurs_at_exec(text, len, i, plural) {
        plural.unicode_len()
    } else if occurs_at_exec(text, len, i, singular) {
        singular.unicode_len()
    } else {
        return None;
    };
    proof {
        lemma_suffixes_differ();
        assert(text@.skip(i as int).skip(k as int) =~= text@.skip(i + k));
        lemma_occurs_at_skip(text@, i + k, code_marker());
    }
    let mode = if occurs_at_exec(text, len, i + k, "Guess today's code snippet!") {
        Mode::Code
    } else {
        Mode::Classic
    };
    Some(GameResult { mode, attempts })
}

proof fn lemma_digit_run_digits(s: Seq<char>)
    ensures
        digit_run(s) <= s.len(),
        forall|j: int| 0 <= j < digit_run(s) ==> is_digit(#[trigger] s[j]),
    decreases s.len(),
{
    if s.len() > 0 && is_digit(s[0]) {
        lemma_digit_run_digits(s.skip(1));
        assert forall|j: int| 0 <= j < digit_run(s) implies is_digit(#[trigger] s[j]) by {
            if j > 0 {
                assert(s[j] == s.skip(1)[j - 1]);
            }
        }
    }
}

/// The result that an announcement made of `digits`, one of the two suffixes
/// and `tail` carries.
pub open spec fn announced(digits: Seq<char>, tail: Seq<char>) -> GameResult {
    GameResult {
        mode: if begins_with(tail, code_marker()) {
            Mode::Code
        } else {
            Mode::Classic
        },
        attempts: reported_count(digits),
    }
}

/// A line made of the opening words, a run of digits, either suffix (whatever
/// the number, singular or plural) and any tail is read as that count; the
/// mode is `Code` exactly where the tail starts with the code marker, and the
/// rest of the tail is ignored. However large the number, the line is read.
pub proof fn lemma_announcement_parses(digits: Seq<char>, suffix: Seq<char>, tail: Seq<char>)
    requires
        digits.len() > 0,
        forall|j: int| 0 <= j < digits.len() ==> is_digit(#[trigger] digits[j]),
        suffix == plural_suffix() || suffix == singular_suffix(),
    ensures
        parse_spec(intro() + digits + suffix + tail) == Some(announced(digits, tail)),
{
    lemma_suffixes_differ();
    let t = intro() + digits + suffix + tail;
    let il = intro().len() as int;
    assert(t.subrange(0, il) =~= intro());
    let rest = t.skip(il);
    assert(rest =~= digits + suffix + tail);
    assert(rest[digits.len() as int] == suffix[0]);
    lemma_digit_run(rest, digits.len() as int);
    assert(rest.take(digits.len() as int) =~= digits);
    let after = rest.skip(digits.len() as int);
    assert(after =~= suffix + tail);
    if suffix == plural_suffix() {
        assert(after.subrange(0, 31) =~= plural_suffix());
        assert(after.skip(31) =~= tail);
    } else {
        if after.len() >= 31 {
            assert(after.subrange(0, 31)[8] != plural_suffix()[8]);
        }
        assert(after.subrange(0, 30) =~= singular_suffix());
        assert(after.skip(30) =~= tail);
    }
}

/// Only such lines are read: whatever `parse_spec` accepts is the opening
/// words, a run of digits, one of the two suffixes and a tail, and the result
/// is the one that this shape announces.
pub proof fn lemma_parse_only_announcements(t: Seq<char>)
    requires
        parse_spec(t) is Some,
    ensures
        exists|digits: Seq<char>, suffix: Seq<char>, tail: Seq<char>|
            {
                &&& digits.len() > 0
                &&& forall|j: int| 0 <= j < digits.len() ==> is_digit(#[trigger] digits[j])
                &&& suffix == plural_suffix() || suffix == singular_suffix()
                &&& t == intro() + digits + suffix + tail
                &&& parse_spec(t) == Some(announced(digits, tail))
            },
{
    let il = intro().len() as int;
    let rest = t.skip(il);
    let n = digit_run(rest) as int;
    lemma_digit_run_digits(rest);
    let after = rest.skip(n);
    let k = suffix_len(after) as int;
    let digits = rest.take(n);
    let suffix = after.take(k);
    let tail = after.skip(k);
    assert(suffix == plural_suffix() || suffix == singular_suffix());
    assert(t =~= intro() + digits + suffix + tail);
    assert forall|j: int| 0 <= j < digits.len() implies is_digit(#[trigger] digits[j]) by {
        assert(digits[j] == rest[j]);
    }
}

} // verus!
