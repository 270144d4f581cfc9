//! Scores, ranking and rendering of an external leaderboard snapshot.

use vstd::prelude::*;
use crate::text::{decimal, push_decimal};

verus! {

/// One member of a snapshot; `days` is the number of distinct days the
/// member completed.
pub struct Member {
    pub name: String,
    pub local_score: Option<u64>,
    pub stars: Option<u64>,
    pub days: u64,
}

/// A member's derived entry.
pub struct ScoreInformation {
    pub username: String,
    pub score: u128,
    pub stars: u64,
    pub days: u64,
}

/// `max(local_score, 1) * max(days, 1)`, an absent local score counting as 1.
pub open spec fn score_of(local_score: Option<u64>, days: u64) -> nat {
    let l: nat = match local_score {
        Some(x) => if x >= 1 {
            x as nat
        } else {
            1
        },
        None => 1,
    };
    let d: nat = if days >= 1 {
        days as nat
    } else {
        1
    };
    l * d
}

pub open spec fn score_info(m: Member) -> ScoreInformation {
    ScoreInformation {
        username: m.name,
        score: score_of(m.local_score, m.days) as u128,
        stars: match m.stars {
            Some(s) => s,
            None => 0,
        },
        days: m.days,
    }
}

pub open spec fn scores_spec(members: Seq<Member>) -> Seq<ScoreInformation> {
    Seq::new(members.len(), |i: int| score_info(members[i]))
}

/// The entry of each member, in the snapshot's order.
pub fn generate_scores(members: &Vec<Member>) -> (r: Vec<ScoreInformation>)
    ensures
        r@ == scores_spec(members@),
{
    let mut r: Vec<ScoreInformation> = Vec::new();
    let mut i: usize = 0;
    while i < members.len()
        invariant
            i <= members@.len(),
            r@.len() == i,
            forall|j: int| 0 <= j < i ==> r@[j] == score_info(members@[j]),
        decreases members@.len() - i,
    {
        let m = &members[i];
        let l: u128 = match m.local_score {
            Some(x) => if x >= 1 {
                x as u128
            } else {
                1
            },
            None => 1,
        };
        let d: u128 = if m.days >= 1 {
            m.days as u128
        } else {
            1
        };
        assert(l * d <= u64::MAX as u128 * u64::MAX as u128) by (nonlinear_arith)
            requires
                l <= u64::MAX,
                d <= u64::MAX,
        ;
        let stars: u64 = match m.stars {
            Some(s) => s,
            None => 0,
        };
        r.push(ScoreInformation { username: m.name.clone(), score: l * d, stars, days: m.days });
        i += 1;
    }
    assert(r@ =~= scores_spec(members@));
    r
}

/// The entries of `s` with score `v`, in order.
pub open spec fn scored(s: Seq<ScoreInformation>, v: u128) -> Seq<ScoreInformation>
    decreases s.len(),
{
    if s.len() == 0 {
        seq![]
    } else if s.last().score == v {
        scored(s.drop_last(), v).push(s.last())
    } else {
        scored(s.drop_last(), v)
    }
}

pub open spec fn sorted_desc(s: Seq<ScoreInformation>) -> bool {
    forall|i: int, j: int| 0 <= i < j < s.len() ==> s[i].score >= s[j].score
}

/// `out` holds the entries of `input` by descending score, entries of equal
/// score in the order they have in `input`.
pub open spec fn is_ranking(input: Seq<ScoreInformation>, out: Seq<ScoreInformation>) -> bool {
    &&& sorted_desc(out)
    &&& forall|v: u128| #[trigger] scored(out, v) == scored(input, v)
}

proof fn lemma_scored_concat(a: Seq<ScoreInformation>, b: Seq<ScoreInformation>, v: u128)
    ensures
        scored(a + b, v) == scored(a, v) + scored(b, v),
    decreases b.len(),
{
    if b.len() == 0 {
        assert(a + b =~= a);
        assert(scored(a, v) + scored(b, v) =~= scored(a, v));
    } else {
        assert((a + b).drop_last() =~= a + b.drop_last());
        lemma_scored_concat(a, b.drop_last(), v);
        if b.last().score == v {
            assert(scored(a, v) + scored(b.drop_last(), v).push(b.last()) =~= (scored(a, v)
                + scored(b.drop_last(), v)).push(b.last()));
        }
    }
}

proof fn lemma_scored_none(a: Seq<ScoreInformation>, v: u128)
    requires
        forall|j: int| 0 <= j < a.len() ==> (#[trigger] a[j]).score != v,
    ensures
        scored(a, v) == Seq::<ScoreInformation>::empty(),
    decreases a.len(),
{
    if a.len() > 0 {
        assert(a.last() == a[a.len() - 1]);
        assert forall|j: int| 0 <= j < a.len() - 1 implies (#[trigger] a.drop_last()[j]).score
            != v by {
            assert(a.drop_last()[j] == a[j]);
        }
        lemma_scored_none(a.drop_last(), v);
    }
}

proof fn lemma_scored_one(x: ScoreInformation, v: u128)
    ensures
        scored(seq![x], v) == if x.score == v {
            seq![x]
        } else {
            Seq::<ScoreInformation>::empty()
        },
{
    let e = Seq::<ScoreInformation>::empty();
    assert(seq![x].drop_last() =~= e);
    assert(seq![x].last() == x);
    assert(scored(e, v) == e);
    assert(e.push(x) =~= seq![x]);
}

/// The entries by descending score; entries of equal score keep their order.
pub fn sort_by_score(entries: Vec<ScoreInformation>) -> (r: Vec<ScoreInformation>)
    ensures
        is_ranking(entries@, r@),
{
    let ghost input = entries@;
    let mut rest = entries;
    let mut out: Vec<ScoreInformation> = Vec::new();
    proof {
        assert(input.skip(input.len() as int) =~= Seq::<ScoreInformation>::empty());
        assert(rest@.len() == input.len());
    }
    while rest.len() > 0
        invariant
            rest@ == input.take(rest@.len() as int),
            rest@.len() <= input.len(),
            sorted_desc(out@),
            forall|v: u128| #[trigger]
                scored(out@, v) == scored(input.skip(rest@.len() as int), v),
        decreases rest@.len(),
    {
        let ghost m = rest@.len() as int;
        let x = rest.pop().unwrap();
        assert(x == input[m - 1]);
        assert(rest@ =~= input.take(m - 1));
        let mut i: usize = 0;
        while i < out.len() && out[i].score > x.score
            invariant
                i <= out@.len(),
                forall|j: int| 0 <= j < i ==> (#[trigger] out@[j]).score > x.score,
            decreases out@.len() - i,
        {
            i += 1;
        }
        let ghost before = out@;
        out.insert(i, x);
        proof {
            let lo = before.take(i as int);
            let hi = before.skip(i as int);
            assert(before =~= lo + hi);
            assert(out@ =~= lo + seq![x] + hi);
            assert(input.skip(m - 1) =~= seq![x] + input.skip(m));
            assert forall|j: int| 0 <= j < hi.len() implies (#[trigger] hi[j]).score <= x.score by {
                assert(hi[j] == before[i + j]);
                assert(before[i as int].score <= x.score);
            }
            assert forall|p: int, q: int| 0 <= p < q < out@.len() implies out@[p].score
                >= out@[q].score by {
                if p < i && q > i {
                    assert(out@[q] == hi[q - i - 1]);
                } else if p == i && q > i {
                    assert(out@[q] == hi[q - i - 1]);
                }
            }
            assert forall|v: u128| #[trigger]
                scored(out@, v) == scored(input.skip(m - 1), v) by {
                lemma_scored_concat(lo + seq![x], hi, v);
                lemma_scored_concat(lo, seq![x], v);
                lemma_scored_concat(lo, hi, v);
                lemma_scored_one(x, v);
                lemma_scored_concat(seq![x], input.skip(m), v);
                assert forall|j: int| 0 <= j < lo.len() implies (#[trigger] lo[j]).score != x.score by {
                    assert(lo[j] == before[j]);
                }
                lemma_scored_none(lo, x.score);
                if v == x.score {
                    assert(scored(lo, v) + seq![x] + scored(hi, v) =~= seq![x] + (scored(lo, v)
                        + scored(hi, v)));
                } else {
                    assert(scored(lo, v) + Seq::<ScoreInformation>::empty() =~= scored(lo, v));
                    assert(Seq::<ScoreInformation>::empty() + scored(input.skip(m), v)
                        =~= scored(input.skip(m), v));
                }
            }
        }
    }
    assert(input.skip(0) =~= input);
    out
}

/// The number of complete slots out of 15: `ceil(days / 25 * 15)`, at most 15.
pub open spec fn filled_slots(days: nat) -> nat {
    let exact = days * 15;
    let c = if exact % 25 == 0 {
        exact / 25
    } else {
        exact / 25 + 1
    };
    if c > 15 {
        15
    } else {
        c
    }
}

/// Fifteen slots: the complete ones green, the rest red.
pub open spec fn bar_spec(days: nat) -> Seq<char> {
    Seq::new(filled_slots(days), |_i: int| '🟩') + Seq::new(
        (15 - filled_slots(days)) as nat,
        |_i: int| '🟥',
    )
}

/// The progress indicator for `days` completed days out of 25.
pub fn progress_bar(days: u64) -> (r: String)
    ensures
        r@ == bar_spec(days as nat),
{
    let filled: usize = if days >= 25 {
        assert((days as nat * 15) / 25 >= 15) by (nonlinear_arith)
            requires
                days >= 25,
        ;
        15
    } else {
        let exact = days * 15;
        if exact % 25 == 0 {
            (exact / 25) as usize
        } else {
            (exact / 25 + 1) as usize
        }
    };
    assert(filled == filled_slots(days as nat));
    let green = "🟩";
    let red = "🟥";
    proof {
        reveal_strlit("🟩");
        reveal_strlit("🟥");
    }
    let mut r = String::new();
    let mut i: usize = 0;
    assert(r@ =~= Seq::new(0, |_i: int| '🟩'));
    while i < filled
        invariant
            filled <= 15,
            i <= filled,
            green@ == seq!['🟩'],
            r@ == Seq::new(i as nat, |_i: int| '🟩'),
        decreases filled - i,
    {
        r.append(green);
        i += 1;
        assert(r@ =~= Seq::new(i as nat, |_i: int| '🟩'));
    }
    let ghost greens = r@;
    let mut j: usize = 0;
    assert(r@ =~= greens + Seq::new(0, |_i: int| '🟥'));
    while j < 15 - filled
        invariant
            filled <= 15,
            j <= 15 - filled,
            red@ == seq!['🟥'],
            r@ == greens + Seq::new(j as nat, |_i: int| '🟥'),
        decreases 15 - filled - j,
    {
        r.append(red);
        j += 1;
        assert(r@ =~= greens + Seq::new(j as nat, |_i: int| '🟥'));
    }
    r
}

/// One rendered entry at rank `rank`.
pub open spec fn line_spec(rank: nat, e: ScoreInformation) -> Seq<char> {
    decimal(rank) + ". "@ + e.username@ + " who has score "@ + decimal(e.score as nat) + " and "@
        + decimal(e.stars as nat) + " stars\n"@ + bar_spec(e.days as nat)
}

/// The entries rendered in order, ranked from 1, separated by line breaks.
pub open spec fn render_spec(s: Seq<ScoreInformation>) -> Seq<char>
    decreases s.len(),
{
    if s.len() == 0 {
        seq![]
    } else if s.len() == 1 {
        line_spec(1, s[0])
    } else {
        render_spec(s.drop_last()) + "\n"@ + line_spec(s.len(), s.last())
    }
}

fn append_line(out: &mut String, rank: u128, e: &ScoreInformation)
    ensures
        final(out)@ == old(out)@ + line_spec(rank as nat, *e),
{
    let ghost start = out@;
    push_decimal(out, rank);
    out.append(". ");
    out.append(e.username.as_str());
    out.append(" who has score ");
    push_decimal(out, e.score);
    out.append(" and ");
    push_decimal(out, e.stars as u128);
    out.append(" stars\n");
    let bar = progress_bar(e.days);
    out.append(bar.as_str());
    assert(out@ =~= start + line_spec(rank as nat, *e));
}

/// Renders the entries in the order given.
pub fn render_leaderboard(entries: &Vec<ScoreInformation>) -> (r: String)
    ensures
        r@ == render_spec(entries@),
{
    let mut out = String::new();
    let mut i: usize = 0;
    assert(entries@.take(0) =~= Seq::<ScoreInformation>::empty());
    while i < entries.len()
        invariant
            i <= entries@.len(),
            out@ == render_spec(entries@.take(i as int)),
        decreases entries@.len() - i,
    {
        let ghost next = entries@.take(i + 1);
        assert(next.drop_last() =~= entries@.take(i as int));
        assert(next.last() == entries@[i as int]);
        if i > 0 {
            out.append("\n");
        } else {
            assert(out@ =~= Seq::<char>::empty());
        }
        append_line(&mut out, (i + 1) as u128, &entries[i]);
        proof {
            if i == 0 {
                assert(out@ =~= line_spec(1, next[0]));
            }
        }
        i += 1;
    }
    assert(entries@.take(i as int) =~= entries@);
    out
}

/// The snapshot's entries, ranked by descending score (ties in snapshot
/// order) and rendered.
pub fn leaderboard(members: &Vec<Member>) -> (r: String)
    ensures
        exists|ranked: Seq<ScoreInformation>|
            is_ranking(scores_spec(members@), ranked) && r@ == render_spec(ranked),
{
    let scores = generate_scores(members);
    let ranked = sort_by_score(scores);
    render_leaderboard(&ranked)
}

proof fn lemma_scored_nonempty(s: Seq<ScoreInformation>, i: int)
    requires
        0 <= i < s.len(),
    ensures
        scored(s, s[i].score).len() > 0,
    decreases s.len(),
{
    if i < s.len() - 1 {
        assert(s.drop_last()[i] == s[i]);
        lemma_scored_nonempty(s.drop_last(), i);
    }
}

proof fn lemma_scored_witness(s: Seq<ScoreInformation>, v: u128)
    requires
        scored(s, v).len() > 0,
    ensures
        exists|j: int| 0 <= j < s.len() && (#[trigger] s[j]).score == v,
    decreases s.len(),
{
    if s.last().score != v {
        lemma_scored_witness(s.drop_last(), v);
        let j = choose|j: int| 0 <= j < s.drop_last().len() && (#[trigger] s.drop_last()[j]).score == v;
        assert(s[j] == s.drop_last()[j]);
    } else {
        assert(s[s.len() - 1].score == v);
    }
}

proof fn lemma_last_score_le(a: Seq<ScoreInformation>, b: Seq<ScoreInformation>)
    requires
        a.len() > 0,
        b.len() > 0,
        sorted_desc(b),
        forall|v: u128| #[trigger] scored(a, v) == scored(b, v),
    ensures
        b.last().score <= a.last().score,
{
    let m = a.last().score;
    lemma_scored_nonempty(a, a.len() - 1);
    assert(scored(a, m) == scored(b, m));
    lemma_scored_witness(b, m);
    let j = choose|j: int| 0 <= j < b.len() && (#[trigger] b[j]).score == m;
    if j < b.len() - 1 {
        assert(b[j].score >= b[b.len() - 1].score);
    }
}

proof fn lemma_same_scored_sorted(a: Seq<ScoreInformation>, b: Seq<ScoreInformation>)
    requires
        sorted_desc(a),
        sorted_desc(b),
        forall|v: u128| #[trigger] scored(a, v) == scored(b, v),
    ensures
        a == b,
    decreases a.len() + b.len(),
{
    if a.len() == 0 || b.len() == 0 {
        if b.len() > 0 {
            lemma_scored_nonempty(b, b.len() - 1);
            assert(scored(a, b.last().score) == scored(b, b.last().score));
        }
        if a.len() > 0 {
            lemma_scored_nonempty(a, a.len() - 1);
            assert(scored(a, a.last().score) == scored(b, a.last().score));
        }
        assert(a =~= b);
    } else {
        lemma_last_score_le(a, b);
        lemma_last_score_le(b, a);
        let m = a.last().score;
        assert(scored(a, m) == scored(b, m));
        assert(scored(a, m).last() == a.last());
        assert(scored(b, m).last() == b.last());
        let a1 = a.drop_last();
        let b1 = b.drop_last();
        assert forall|v: u128| #[trigger] scored(a1, v) == scored(b1, v) by {
            assert(scored(a, v) == scored(b, v));
            if v == m {
                assert(scored(a, v).drop_last() =~= scored(a1, v));
                assert(scored(b, v).drop_last() =~= scored(b1, v));
            }
        }
        assert(sorted_desc(a1));
        assert(sorted_desc(b1));
        lemma_same_scored_sorted(a1, b1);
        assert(a =~= a1.push(a.last()));
        assert(b =~= b1.push(b.last()));
    }
}

/// A sequence has exactly one ranking: two rankings of the same entries are
/// equal, so the ranked output of `leaderboard` is determined by its input.
pub proof fn lemma_ranking_unique(
    input: Seq<ScoreInformation>,
    a: Seq<ScoreInformation>,
    b: Seq<ScoreInformation>,
)
    requires
        is_ranking(input, a),
        is_ranking(input, b),
    ensures
        a == b,
{
    assert forall|v: u128| #[trigger] scored(a, v) == scored(b, v) by {
        assert(scored(a, v) == scored(input, v));
        assert(scored(b, v) == scored(input, v));
    }
    lemma_same_scored_sorted(a, b);
}

} // verus!
