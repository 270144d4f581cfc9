//! Character-level helpers over `&str`, stated over the string's view as a
//! sequence of characters.

use vstd::prelude::*;

verus! {

/// `pat` occurs in `s` at position `i`.
pub open spec fn occurs_at(s: Seq<char>, i: int, pat: Seq<char>) -> bool {
    0 <= i && i + pat.len() <= s.len() && s.subrange(i, i + pat.len()) == pat
}

/// `s` starts with `pat`.
pub open spec fn begins_with(s: Seq<char>, pat: Seq<char>) -> bool {
    occurs_at(s, 0, pat)
}

/// `pat` occurs somewhere in `s`.
pub open spec fn contains_text(s: Seq<char>, pat: Seq<char>) -> bool {
    exists|i: int| occurs_at(s, i, pat)
}

/// Every occurrence of `pat` in `s` replaced by `rep`, scanning from the left
/// and never letting two replaced occurrences overlap.
pub open spec fn replace_all(s: Seq<char>, pat: Seq<char>, rep: Seq<char>) -> Seq<char>
    decreases s.len(),
{
    if s.len() == 0 {
        seq![]
    } else if pat.len() > 0 && begins_with(s, pat) {
        rep + replace_all(s.skip(pat.len() as int), pat, rep)
    } else {
        seq![s[0]] + replace_all(s.skip(1), pat, rep)
    }
}

/// An occurrence at `i` is an occurrence at the start of what follows `i`.
pub proof fn lemma_occurs_at_skip(s: Seq<char>, i: int, pat: Seq<char>)
    requires
        0 <= i <= s.len(),
    ensures
        occurs_at(s, i, pat) == begins_with(s.skip(i), pat),
{
    if i + pat.len() <= s.len() {
        assert(s.skip(i).subrange(0, pat.len() as int) =~= s.subrange(i, i + pat.len()));
    }
}

/// Whether `lit` occurs in `text` at character position `start`; `text_len`
/// is the character length of `text`.
pub fn occurs_at_exec(text: &str, text_len: usize, start: usize, lit: &str) -> (r: bool)
    requires
        text_len == text@.len(),
    ensures
        r == occurs_at(text@, start as int, lit@),
{
    let n = lit.unicode_len();
    if start > text_len || n > text_len - start {
        return false;
    }
    let mut k: usize = 0;
    while k < n
        invariant
            n == lit@.len(),
            start + n <= text@.len(),
            text_len == text@.len(),
            0 <= k <= n,
            forall|j: int| 0 <= j < k ==> text@[start + j] == lit@[j],
        decreases n - k,
    {
        if text.get_char(start + k) != lit.get_char(k) {
            assert(text@.subrange(start as int, start + n)[k as int] != lit@[k as int]);
            return false;
        }
        k += 1;
    }
    assert(text@.subrange(start as int, start + n) =~= lit@);
    true
}

/// Whether the two strings hold the same characters.
pub fn same_text(a: &str, b: &str) -> (r: bool)
    ensures
        r == (a@ == b@),
{
    let n = a.unicode_len();
    if n != b.unicode_len() {
        return false;
    }
    let r = occurs_at_exec(a, n, 0, b);
    assert(a@.subrange(0, n as int) =~= a@);
    r
}

/// Whether `pat` occurs anywhere in `text`.
pub fn contains_exec(text: &str, pat: &str) -> (r: bool)
    ensures
        r == contains_text(text@, pat@),
{
    let len = text.unicode_len();
    let mut i: usize = 0;
    while i < len
        invariant
            len == text@.len(),
            i <= len,
            forall|j: int| 0 <= j < i ==> !occurs_at(text@, j, pat@),
        decreases len - i,
    {
        if occurs_at_exec(text, len, i, pat) {
            return true;
        }
        i += 1;
    }
    if occurs_at_exec(text, len, len, pat) {
        return true;
    }
    assert forall|j: int| !occurs_at(text@, j, pat@) by {
        if 0 <= j && j + pat@.len() <= text@.len() && j != len {
            assert(j < i);
        }
    }
    false
}

proof fn lemma_replace_step(s: Seq<char>, i: int, pat: Seq<char>, rep: Seq<char>)
    requires
        0 <= i < s.len(),
        pat.len() > 0,
    ensures
        occurs_at(s, i, pat) ==> replace_all(s.skip(i), pat, rep) == rep + replace_all(
            s.skip(i + pat.len()),
            pat,
            rep,
        ),
        !occurs_at(s, i, pat) ==> replace_all(s.skip(i), pat, rep) == seq![s[i]]
            + replace_all(s.skip(i + 1), pat, rep),
{
    lemma_occurs_at_skip(s, i, pat);
    if occurs_at(s, i, pat) {
        assert(s.skip(i).skip(pat.len() as int) =~= s.skip(i + pat.len()));
    } else {
        assert(s.skip(i).skip(1) =~= s.skip(i + 1));
    }
}

/// `text` with every occurrence of `pat` replaced by `rep`.
pub fn replace_exec(text: &str, pat: &str, rep: &str) -> (r: String)
    requires
        pat@.len() > 0,
    ensures
        r@ == replace_all(text@, pat@, rep@),
{
    let len = text.unicode_len();
    let plen = pat.unicode_len();
    let mut out = String::new();
    let mut i: usize = 0;
    assert(text@.skip(0) =~= text@);
    assert(out@ + replace_all(text@, pat@, rep@) =~= replace_all(text@, pat@, rep@));
    while i < len
        invariant
            len == text@.len(),
            plen == pat@.len(),
            plen > 0,
            i <= len,
            out@ + replace_all(text@.skip(i as int), pat@, rep@) == replace_all(text@, pat@, rep@),
        decreases len - i,
    {
        proof {
            lemma_replace_step(text@, i as int, pat@, rep@);
        }
        let ghost before = out@;
        let ghost at = i as int;
        if occurs_at_exec(text, len, i, pat) {
            out.append(rep);
            i += plen;
            proof {
                vstd::seq_lib::lemma_concat_associative(
                    before,
                    rep@,
                    replace_all(text@.skip(i as int), pat@, rep@),
                );
            }
        } else {
            let one = text.substring_char(i, i + 1);
            assert(one@ =~= seq![text@[at]]);
            out.append(one);
            i += 1;
            proof {
                vstd::seq_lib::lemma_concat_associative(
                    before,
                    one@,
                    replace_all(text@.skip(i as int), pat@, rep@),
                );
            }
        }
    }
    assert(text@.skip(len as int) =~= Seq::<char>::empty());
    assert(out@ + Seq::<char>::empty() =~= out@);
    out
}

/// The decimal digit character for `d < 10`.
pub open spec fn digit_char(d: nat) -> char {
    ((48 + d) as u32) as char
}

/// The decimal notation of `n`, without leading zeros.
pub open spec fn decimal(n: nat) -> Seq<char>
    decreases n,
{
    if n < 10 {
        seq![digit_char(n)]
    } else {
        decimal(n / 10).push(digit_char(n % 10))
    }
}

fn digit_text(d: u128) -> (r: &'static str)
    requires
        d < 10,
    ensures
        r@ == seq![digit_char(d as nat)],
{
    proof {
        reveal_strlit("0");
        reveal_strlit("1");
        reveal_strlit("2");
        reveal_strlit("3");
        reveal_strlit("4");
        reveal_strlit("5");
        reveal_strlit("6");
        reveal_strlit("7");
        reveal_strlit("8");
        reveal_strlit("9");
    }
    let r = if d == 0 {
        "0"
    } else if d == 1 {
        "1"
    } else if d == 2 {
        "2"
    } else if d == 3 {
        "3"
    } else if d == 4 {
        "4"
    } else if d == 5 {
        "5"
    } else if d == 6 {
        "6"
    } else if d == 7 {
        "7"
    } else if d == 8 {
        "8"
    } else {
        "9"
    };
    assert(r@ =~= seq![digit_char(d as nat)]);
    r
}

/// Appends the decimal notation of `n` to `out`.
pub fn push_decimal(out: &mut String, n: u128)
    ensures
        final(out)@ == old(out)@ + decimal(n as nat),
    decreases n,
{
    let ghost start = out@;
    if n >= 10 {
        push_decimal(out, n / 10);
        let last = digit_text(n % 10);
        out.append(last);
        assert(out@ =~= start + decimal(n as nat));
    } else {
        out.append(digit_text(n));
    }
}

} // verus!
