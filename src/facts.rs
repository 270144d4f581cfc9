//! Persisted facts: who plays in which community, and one result per player,
//! day and mode. Every write is an insert that does nothing where a row with
//! the same key is already present, so repeated or concurrent delivery of one
//! event never duplicates a row and never overwrites one.

use vstd::prelude::*;
use chrono::Datelike;
use crate::grammar::{GameResult, Mode};

verus! {

/// A player seen taking part in a community.
#[derive(Clone, Copy, Debug, PartialEq, Eq, Structural)]
pub struct Membership {
    pub community_id: u64,
    pub user_id: u64,
}

/// The result a player reported for one day and mode.
#[derive(Clone, Copy, Debug, PartialEq, Eq, Structural)]
pub struct Attempt {
    pub user_id: u64,
    pub day: i32,
    pub mode: Mode,
    pub attempts: u16,
}

/// One insert-if-absent write.
#[derive(Clone, Copy, Debug, PartialEq, Eq, Structural)]
pub enum FactWrite {
    Membership(Membership),
    Attempt(Attempt),
}

/// The two tables: membership rows and attempt rows, in insertion order.
pub type Tables = (Seq<Membership>, Seq<Attempt>);

pub open spec fn in_slot(a: Attempt, user: u64, day: i32, mode: Mode) -> bool {
    a.user_id == user && a.day == day && a.mode == mode
}

/// Some row occupies the key `(user, day, mode)`.
pub open spec fn has_slot(rows: Seq<Attempt>, user: u64, day: i32, mode: Mode) -> bool {
    exists|i: int| 0 <= i < rows.len() && in_slot(#[trigger] rows[i], user, day, mode)
}

/// The number of rows with the key `(user, day, mode)`.
pub open spec fn slot_count(rows: Seq<Attempt>, user: u64, day: i32, mode: Mode) -> nat
    decreases rows.len(),
{
    if rows.len() == 0 {
        0
    } else {
        slot_count(rows.drop_last(), user, day, mode) + if in_slot(
            rows.last(),
            user,
            day,
            mode,
        ) {
            1nat
        } else {
            0nat
        }
    }
}

/// No two rows of a table share a key.
pub open spec fn tables_wf(t: Tables) -> bool {
    &&& forall|i: int, j: int| 0 <= i < j < t.0.len() ==> t.0[i] != t.0[j]
    &&& forall|i: int, j: int|
        0 <= i < j < t.1.len() ==> !in_slot(t.1[i], t.1[j].user_id, t.1[j].day, t.1[j].mode)
}

/// The write finds its key free.
pub open spec fn is_new(t: Tables, w: FactWrite) -> bool {
    match w {
        FactWrite::Membership(m) => !t.0.contains(m),
        FactWrite::Attempt(a) => !has_slot(t.1, a.user_id, a.day, a.mode),
    }
}

/// The tables after one insert-if-absent write.
pub open spec fn apply_spec(t: Tables, w: FactWrite) -> Tables {
    if !is_new(t, w) {
        t
    } else {
        match w {
            FactWrite::Membership(m) => (t.0.push(m), t.1),
            FactWrite::Attempt(a) => (t.0, t.1.push(a)),
        }
    }
}

/// The tables after a sequence of writes, in order.
pub open spec fn apply_all(t: Tables, ws: Seq<FactWrite>) -> Tables
    decreases ws.len(),
{
    if ws.len() == 0 {
        t
    } else {
        apply_spec(apply_all(t, ws.drop_last()), ws.last())
    }
}

/// The writes that recording one result makes: none without a community,
/// else the membership and then the attempt.
pub open spec fn record_plan_spec(
    community: Option<u64>,
    user: u64,
    result: GameResult,
    day: i32,
) -> Seq<FactWrite> {
    match community {
        None => seq![],
        Some(c) => seq![
            FactWrite::Membership(Membership { community_id: c, user_id: user }),
            FactWrite::Attempt(
                Attempt { user_id: user, day, mode: result.mode, attempts: result.attempts },
            ),
        ],
    }
}

/// The tables after recording one result.
pub open spec fn recorded(
    t: Tables,
    community: Option<u64>,
    user: u64,
    result: GameResult,
    day: i32,
) -> Tables {
    apply_all(t, record_plan_spec(community, user, result, day))
}

pub open spec fn size(t: Tables) -> nat {
    t.0.len() + t.1.len()
}

/// The writes that record `result` of `user` in `community` on `day`.
pub fn record_plan(community: Option<u64>, user: u64, result: GameResult, day: i32) -> (r: Vec<
    FactWrite,
>)
    ensures
        r@ == record_plan_spec(community, user, result, day),
{
    match community {
        None => Vec::new(),
        Some(c) => {
            let mut r = Vec::new();
            r.push(FactWrite::Membership(Membership { community_id: c, user_id: user }));
            r.push(
                FactWrite::Attempt(
                    Attempt { user_id: user, day, mode: result.mode, attempts: result.attempts },
                ),
            );
            assert(r@ =~= record_plan_spec(community, user, result, day));
            r
        },
    }
}

/// Relies on chrono's `Utc::now` and `Datelike::num_days_from_ce`: the number
/// of the current UTC day, counted from 1 January of year 1. Nothing is known
/// of the value.
#[verifier::external_body]
fn current_day() -> (r: i32) {
    chrono::Utc::now().num_days_from_ce()
}

/// The writes that record `result` of `user` in `community` today (UTC).
/// Without a community there are none, and the clock is not read.
pub fn today_plan(community: Option<u64>, user: u64, result: GameResult) -> (r: Vec<FactWrite>)
    ensures
        community is None ==> r@ == Seq::<FactWrite>::empty(),
        exists|day: i32| r@ == record_plan_spec(community, user, result, day),
{
    match community {
        None => {
            let r = Vec::new();
            assert(r@ =~= record_plan_spec(community, user, result, 0));
            r
        },
        Some(_) => record_plan(community, user, result, current_day()),
    }
}

/// The two tables held in memory, with the same insert-if-absent writes.
pub struct FactStore {
    memberships: Vec<Membership>,
    attempts: Vec<Attempt>,
}

impl View for FactStore {
    type V = Tables;

    closed spec fn view(&self) -> Tables {
        (self.memberships@, self.attempts@)
    }
}

impl FactStore {
    pub open spec fn wf(&self) -> bool {
        tables_wf(self@)
    }

    pub fn new() -> (r: Self)
        ensures
            r@ == (Seq::<Membership>::empty(), Seq::<Attempt>::empty()),
            r.wf(),
    {
        FactStore { memberships: Vec::new(), attempts: Vec::new() }
    }

    pub fn memberships(&self) -> (r: &Vec<Membership>)
        ensures
            r@ == self@.0,
    {
        &self.memberships
    }

    pub fn attempts(&self) -> (r: &Vec<Attempt>)
        ensures
            r@ == self@.1,
    {
        &self.attempts
    }

    /// Whether the membership row is present.
    pub fn has_membership(&self, m: Membership) -> (r: bool)
        ensures
            r == self@.0.contains(m),
    {
        let mut i: usize = 0;
        while i < self.memberships.len()
            invariant
                i <= self.memberships@.len(),
                forall|j: int| 0 <= j < i ==> self.memberships@[j] != m,
            decreases self.memberships@.len() - i,
        {
            if self.memberships[i] == m {
                return true;
            }
            i += 1;
        }
        false
    }

    /// The count recorded under the key `(user, day, mode)`, if any.
    pub fn slot_value(&self, user: u64, day: i32, mode: Mode) -> (r: Option<u16>)
        ensures
            r is None <==> !has_slot(self@.1, user, day, mode),
            r matches Some(v) ==> self@.1.contains(
                Attempt { user_id: user, day, mode, attempts: v },
            ),
    {
        let mut i: usize = 0;
        while i < self.attempts.len()
            invariant
                i <= self.attempts@.len(),
                forall|j: int| 0 <= j < i ==> !in_slot(self.attempts@[j], user, day, mode),
            decreases self.attempts@.len() - i,
        {
            let a = self.attempts[i];
            if a.user_id == user && a.day == day && a.mode == mode {
                assert(self.attempts@[i as int] == Attempt { user_id: user, day, mode, attempts: a.attempts });
                return Some(a.attempts);
            }
            i += 1;
        }
        None
    }

    /// Performs one write; true where it inserted a row.
    pub fn apply(&mut self, w: FactWrite) -> (inserted: bool)
        requires
            old(self).wf(),
        ensures
            final(self).wf(),
            final(self)@ == apply_spec(old(self)@, w),
            inserted == is_new(old(self)@, w),
            size(final(self)@) == size(old(self)@) + if inserted {
                1nat
            } else {
                0nat
            },
    {
        match w {
            FactWrite::Membership(m) => {
                if self.has_membership(m) {
                    false
                } else {
                    self.memberships.push(m);
                    true
                }
            },
            FactWrite::Attempt(a) => {
                match self.slot_value(a.user_id, a.day, a.mode) {
                    Some(_) => false,
                    None => {
                        self.attempts.push(a);
                        true
                    },
                }
            },
        }
    }

    /// Records `result` of `user` in `community` on `day`; returns the number
    /// of rows inserted. Without a community nothing is written.
    pub fn record(&mut self, community: Option<u64>, user: u64, result: GameResult, day: i32) -> (written: usize)
        requires
            old(self).wf(),
        ensures
            final(self).wf(),
            final(self)@ == recorded(old(self)@, community, user, result, day),
            written == size(final(self)@) - size(old(self)@),
    {
        let plan = record_plan(community, user, result, day);
        let ghost start = self@;
        let mut written: usize = 0;
        let mut k: usize = 0;
        assert(plan@.take(0) =~= Seq::<FactWrite>::empty());
        while k < plan.len()
            invariant
                plan@ == record_plan_spec(community, user, result, day),
                plan@.len() <= 2,
                k <= plan@.len(),
                written <= k,
                self.wf(),
                self@ == apply_all(start, plan@.take(k as int)),
                size(self@) == size(start) + written,
            decreases plan@.len() - k,
        {
            let w = plan[k];
            if self.apply(w) {
                written += 1;
            }
            assert(plan@.take(k + 1).drop_last() =~= plan@.take(k as int));
            k += 1;
        }
        assert(plan@.take(k as int) =~= plan@);
        written
    }
}

proof fn lemma_apply_wf(t: Tables, w: FactWrite)
    requires
        tables_wf(t),
    ensures
        tables_wf(apply_spec(t, w)),
{
}

proof fn lemma_slot_count_zero(rows: Seq<Attempt>, user: u64, day: i32, mode: Mode)
    requires
        !has_slot(rows, user, day, mode),
    ensures
        slot_count(rows, user, day, mode) == 0,
    decreases rows.len(),
{
    if rows.len() > 0 {
        let r = rows.drop_last();
        assert forall|i: int| 0 <= i < r.len() implies !in_slot(#[trigger] r[i], user, day, mode) by {
            assert(r[i] == rows[i]);
        }
        lemma_slot_count_zero(r, user, day, mode);
        assert(rows.last() == rows[rows.len() - 1]);
    }
}

proof fn lemma_slot_count_one(t: Tables, user: u64, day: i32, mode: Mode)
    requires
        tables_wf(t),
        has_slot(t.1, user, day, mode),
    ensures
        slot_count(t.1, user, day, mode) == 1,
    decreases t.1.len(),
{
    let rows = t.1;
    let r = rows.drop_last();
    let last = rows[rows.len() - 1];
    if in_slot(last, user, day, mode) {
        assert forall|i: int| 0 <= i < r.len() implies !in_slot(#[trigger] r[i], user, day, mode) by {
            assert(r[i] == rows[i]);
        }
        lemma_slot_count_zero(r, user, day, mode);
    } else {
        let i = choose|i: int| 0 <= i < rows.len() && in_slot(#[trigger] rows[i], user, day, mode);
        assert(r[i] == rows[i]);
        lemma_slot_count_one((t.0, r), user, day, mode);
    }
}

proof fn lemma_recorded_some(t: Tables, community: u64, user: u64, result: GameResult, day: i32)
    ensures
        recorded(t, Some(community), user, result, day) == apply_spec(
            apply_spec(t, FactWrite::Membership(Membership { community_id: community, user_id: user })),
            FactWrite::Attempt(
                Attempt { user_id: user, day, mode: result.mode, attempts: result.attempts },
            ),
        ),
{
    let plan = record_plan_spec(Some(community), user, result, day);
    let first = seq![plan[0]];
    assert(plan.drop_last() =~= first);
    assert(first.drop_last() =~= Seq::<FactWrite>::empty());
    assert(apply_all(t, first) == apply_spec(apply_all(t, Seq::<FactWrite>::empty()), plan[0]));
    assert(apply_all(t, plan) == apply_spec(apply_all(t, first), plan[1]));
}

proof fn lemma_recorded_occupies(t: Tables, community: u64, user: u64, result: GameResult, day: i32)
    requires
        tables_wf(t),
    ensures
        tables_wf(recorded(t, Some(community), user, result, day)),
        recorded(t, Some(community), user, result, day).0.contains(
            Membership { community_id: community, user_id: user },
        ),
        has_slot(recorded(t, Some(community), user, result, day).1, user, day, result.mode),
        !has_slot(t.1, user, day, result.mode) ==> recorded(
            t,
            Some(community),
            user,
            result,
            day,
        ).1 == t.1.push(
            Attempt { user_id: user, day, mode: result.mode, attempts: result.attempts },
        ),
        has_slot(t.1, user, day, result.mode) ==> recorded(
            t,
            Some(community),
            user,
            result,
            day,
        ).1 == t.1,
{
    let m = FactWrite::Membership(Membership { community_id: community, user_id: user });
    let a = FactWrite::Attempt(
        Attempt { user_id: user, day, mode: result.mode, attempts: result.attempts },
    );
    lemma_recorded_some(t, community, user, result, day);
    let t1 = apply_spec(t, m);
    let t2 = apply_spec(t1, a);
    lemma_apply_wf(t, m);
    lemma_apply_wf(t1, a);
    if is_new(t, m) {
        assert(t1.0[t.0.len() as int] == Membership { community_id: community, user_id: user });
    }
    assert(t2.0.contains(Membership { community_id: community, user_id: user }));
    if is_new(t1, a) {
        assert(in_slot(t2.1[t1.1.len() as int], user, day, result.mode));
    }
}

/// Recording one result twice on the same day: the second call changes
/// nothing, and exactly one attempt row holds the key.
pub proof fn lemma_record_twice(t: Tables, community: u64, user: u64, result: GameResult, day: i32)
    requires
        tables_wf(t),
    ensures
        recorded(recorded(t, Some(community), user, result, day), Some(community), user, result, day)
            == recorded(t, Some(community), user, result, day),
        slot_count(
            recorded(
                recorded(t, Some(community), user, result, day),
                Some(community),
                user,
                result,
                day,
            ).1,
            user,
            day,
            result.mode,
        ) == 1,
{
    let once = recorded(t, Some(community), user, result, day);
    lemma_recorded_occupies(t, community, user, result, day);
    lemma_recorded_some(once, community, user, result, day);
    lemma_slot_count_one(once, user, day, result.mode);
}

/// Two results on one day under the same key: the second writes no attempt
/// row, so the value recorded first is kept; where the key was free, that is
/// `first`.
pub proof fn lemma_first_result_kept(
    t: Tables,
    community: u64,
    user: u64,
    mode: Mode,
    first: u16,
    second: u16,
    day: i32,
)
    requires
        tables_wf(t),
    ensures
        recorded(
            recorded(t, Some(community), user, (GameResult { mode, attempts: first }), day),
            Some(community),
            user,
            (GameResult { mode, attempts: second }),
            day,
        ).1 == recorded(t, Some(community), user, (GameResult { mode, attempts: first }), day).1,
        !has_slot(t.1, user, day, mode) ==> recorded(
            recorded(t, Some(community), user, (GameResult { mode, attempts: first }), day),
            Some(community),
            user,
            (GameResult { mode, attempts: second }),
            day,
        ).1 == t.1.push((Attempt { user_id: user, day, mode, attempts: first })),
{
    let r1 = GameResult { mode, attempts: first };
    let r2 = GameResult { mode, attempts: second };
    let once = recorded(t, Some(community), user, r1, day);
    lemma_recorded_occupies(t, community, user, r1, day);
    lemma_recorded_occupies(once, community, user, r2, day);
}

/// Without a community, recording plans no write and leaves the tables as
/// they are.
pub proof fn lemma_no_community(t: Tables, user: u64, result: GameResult, day: i32)
    ensures
        record_plan_spec(None, user, result, day) == Seq::<FactWrite>::empty(),
        recorded(t, None, user, result, day) == t,
{
}

} // verus!
