use vstd::prelude::*;

use crate::catalog::{
    filter_kanji, kanji_ids, lemma_kanji_ids_membership, lemma_level_ids_membership, level_ids,
    subjects_with_level, Catalog,
};
use crate::dist::ReviewResultProbability;
use crate::model::{Assignment, Srs, Stage, SubjectID, MAX_LEVEL};
use std::collections::HashMap;
use vstd::set_lib::lemma_len_subset;

verus! {

broadcast use vstd::std_specs::hash::group_hash_axioms;

/// Failure of simulation-engine initialization: there is nothing to
/// simulate, or the snapshot of current study state is inconsistent.
#[derive(Clone, Copy, Debug, PartialEq, Eq, Structural)]
pub enum SimError {
    /// The assignment snapshot is empty: no subject is unlocked.
    NoUnlockedSubjects,
    /// No assignment carries an availability time, so no time origin
    /// exists.
    NoAvailableReviews,
    /// An assignment names a subject that the catalog does not hold.
    UnknownSubject,
    /// An assignment pairs a stage and an availability time that
    /// cannot occur together.
    InconsistentAssignment,
    /// Two assignments name the same subject.
    DuplicateAssignment,
    /// An availability time lies further from the origin than the
    /// step counter can express.
    TimeSpanTooLarge,
    /// The outcome model has an empty distribution for a stage the
    /// simulation could sample from.
    UncoveredStage,
}

/// Simulation state of one unlocked subject: its current stage, and
/// the step at which it next becomes reviewable, or `None` once no
/// further review will ever be scheduled.
#[derive(Clone, Copy, Debug, PartialEq, Eq, Structural)]
pub struct SubjectState {
    pub stage: Stage,
    pub next_review_time: Option<u32>,
}

impl SubjectState {
    /// The state a subject enters the moment it is unlocked: at the
    /// first in-training stage and reviewable immediately.
    pub fn newly_unlocked(cur_time: u32) -> (r: Self)
        ensures
            r.stage == Stage::Apprentice1,
            r.next_review_time == Some(cur_time),
    {
        Self { stage: Stage::Apprentice1, next_review_time: Some(cur_time) }
    }
}

/// Number of queue entries whose step is at or before `step`.
pub open spec fn due_count(q: Seq<(u32, u16)>, step: u32) -> int
    decreases q.len(),
{
    if q.len() == 0 {
        0
    } else {
        due_count(q.drop_last(), step) + if q.last().0 <= step {
            1int
        } else {
            0int
        }
    }
}

/// Whether some queue entry is due at or before `step`.
pub open spec fn has_due(q: Seq<(u32, u16)>, step: u32) -> bool {
    exists|i: int| 0 <= i < q.len() && (#[trigger] q[i]).0 <= step
}

pub proof fn lemma_due_count_bounds(q: Seq<(u32, u16)>, step: u32)
    ensures
        0 <= due_count(q, step) <= q.len(),
    decreases q.len(),
{
    if q.len() > 0 {
        lemma_due_count_bounds(q.drop_last(), step);
    }
}

pub proof fn lemma_due_count_push(q: Seq<(u32, u16)>, step: u32, e: (u32, u16))
    ensures
        due_count(q.push(e), step) == due_count(q, step) + if e.0 <= step {
            1int
        } else {
            0int
        },
{
    assert(q.push(e).drop_last() =~= q);
}

pub proof fn lemma_due_count_remove(q: Seq<(u32, u16)>, step: u32, i: int)
    requires
        0 <= i < q.len(),
    ensures
        due_count(q.remove(i), step) == due_count(q, step) - if q[i].0 <= step {
            1int
        } else {
            0int
        },
    decreases q.len(),
{
    if i == q.len() - 1 {
        assert(q.remove(i) =~= q.drop_last());
    } else {
        assert(q.remove(i).drop_last() =~= q.drop_last().remove(i));
        assert(q.remove(i).last() == q.last());
        lemma_due_count_remove(q.drop_last(), step, i);
    }
}

pub proof fn lemma_has_due_count(q: Seq<(u32, u16)>, step: u32)
    ensures
        has_due(q, step) <==> due_count(q, step) > 0,
    decreases q.len(),
{
    if q.len() > 0 {
        lemma_has_due_count(q.drop_last(), step);
        lemma_due_count_bounds(q.drop_last(), step);
        if q.last().0 <= step {
            assert(has_due(q, step));
        } else {
            if has_due(q, step) {
                let w = choose|i: int| 0 <= i < q.len() && (#[trigger] q[i]).0 <= step;
                assert(q.drop_last()[w] == q[w]);
                assert(has_due(q.drop_last(), step));
            }
            if has_due(q.drop_last(), step) {
                let w = choose|i: int|
                    0 <= i < q.drop_last().len() && (#[trigger] q.drop_last()[i]).0 <= step;
                assert(q[w].0 <= step);
            }
        }
    }
}

/// Whether the state schedules a review at or before `step`.
pub open spec fn due_state(s: SubjectState, step: u32) -> bool {
    &&& s.next_review_time is Some
    &&& s.next_review_time.unwrap() <= step
}

/// Whether `end` carries a non-zero weight in the model's
/// distribution for reviews that start at `start`.
pub open spec fn in_row_support(model: ReviewResultProbability, start: Stage, end: Stage) -> bool {
    let row = model.by_prev_stage@[start.idx()];
    exists|i: int|
        0 <= i < row.stage_probs@.len() && (#[trigger] row.stage_probs@[i]).0 == end
            && row.stage_probs@[i].1 > 0
}

/// The state a subject enters the moment it is unlocked at `step`.
pub open spec fn freshly_unlocked(step: u32) -> SubjectState {
    SubjectState { stage: Stage::Apprentice1, next_review_time: Some(step) }
}

/// One review at `step` of the subject `k` in state `s0` can yield
/// state `s1`: the new stage carries weight in the model's row for
/// the old stage, and the subject is rescheduled by its variant's
/// interval for the new stage, or retired when there is none.
pub open spec fn reviewed_once(
    cat: Catalog,
    model: ReviewResultProbability,
    k: u16,
    s0: SubjectState,
    s1: SubjectState,
    step: u32,
) -> bool {
    &&& in_row_support(model, s0.stage, s1.stage)
    &&& s1.next_review_time == match cat.subject(k).srs.spec_hours_to_next_review(s1.stage) {
        Some(h) => Some((step + h) as u32),
        None => None::<u32>,
    }
}

/// Every interval in the variant tables is at least one hour.
pub proof fn lemma_interval_positive(v: Srs, s: Stage)
    ensures
        v.spec_hours_to_next_review(s) matches Some(h) ==> 1 <= h <= 2879,
{
}

/// A sequence of queue entries with pairwise distinct identities,
/// all drawn from a finite set, is no longer than that set.
pub proof fn lemma_unique_entries_card(q: Seq<(u32, u16)>, dom: Set<u16>)
    requires
        dom.finite(),
        forall|i: int, j: int| 0 <= i < j < q.len() ==> (#[trigger] q[i]).1 != (#[trigger] q[j]).1,
        forall|i: int| 0 <= i < q.len() ==> dom.contains((#[trigger] q[i]).1),
    ensures
        q.len() <= dom.len(),
    decreases q.len(),
{
    if q.len() > 0 {
        let last = q.last();
        let rest = q.drop_last();
        assert(forall|i: int| 0 <= i < rest.len() ==> (#[trigger] rest[i]) == q[i]);
        lemma_unique_entries_card(rest, dom.remove(last.1));
    }
}

/// The simulation engine: a mutable subject-state table and pending
/// review queue over the shared, read-only outcome model and
/// catalog, together with the current level and its precomputed
/// subject lists.
#[derive(Clone)]
pub struct Simulator<'a> {
    pub review_prob: &'a ReviewResultProbability,
    pub subjects: &'a Catalog,
    pub cur_step: u32,
    pub subject_states: HashMap<u16, SubjectState>,
    pub review_queue: Vec<(u32, u16)>,
    pub cur_level: u8,
    pub cur_level_subjects: Vec<SubjectID>,
    pub cur_level_kanji: Vec<SubjectID>,
}

/// Number of identities among the first `k` of `s` whose state in
/// `states` has reached a passing stage.
pub open spec fn passed_count(states: Map<u16, SubjectState>, s: Seq<SubjectID>, k: int) -> int
    decreases k,
{
    if k <= 0 {
        0
    } else {
        passed_count(states, s, k - 1) + if states.contains_key(s[k - 1].0) && states[s[k
            - 1].0].stage.idx() >= 5 {
            1int
        } else {
            0int
        }
    }
}

impl<'a> Simulator<'a> {
    /// The state table holds only catalog subjects, and a subject
    /// has a scheduled next review exactly while its stage is
    /// strictly between initial and terminal.
    pub open spec fn states_wf(self) -> bool {
        &&& forall|k: u16|
            #[trigger] self.subject_states@.contains_key(k) ==> self.subjects.map@.contains_key(k)
        &&& forall|k: u16|
            #[trigger] self.subject_states@.contains_key(k) ==> (self.subject_states@[k].next_review_time
                is Some <==> 1 <= self.subject_states@[k].stage.idx() <= 8)
    }

    /// A subject sits in the pending-review queue exactly when its
    /// state schedules a review, under the queued step, and at most
    /// once.
    pub open spec fn queue_wf(self) -> bool {
        &&& forall|i: int|
            0 <= i < self.review_queue@.len() ==> {
                let e = #[trigger] self.review_queue@[i];
                &&& self.subject_states@.contains_key(e.1)
                &&& self.subject_states@[e.1].next_review_time == Some(e.0)
            }
        &&& forall|i: int, j: int|
            0 <= i < j < self.review_queue@.len() ==> (#[trigger] self.review_queue@[i]).1 != (
            #[trigger] self.review_queue@[j]).1
        &&& forall|k: u16|
            #[trigger] self.subject_states@.contains_key(k)
                && self.subject_states@[k].next_review_time is Some ==> exists|i: int|
                0 <= i < self.review_queue@.len() && (#[trigger] self.review_queue@[i]).1 == k
    }

    /// Full engine invariant.
    pub open spec fn wf(self) -> bool {
        &&& self.subjects.wf()
        &&& self.review_prob.wf()
        &&& self.review_prob.spec_covers_active()
        &&& self.states_wf()
        &&& self.queue_wf()
        &&& self.cur_level <= MAX_LEVEL
        &&& self.cur_level_subjects@ == level_ids(*self.subjects, self.cur_level)
        &&& self.cur_level_kanji@ == kanji_ids(*self.subjects, self.cur_level_subjects@)
    }

    /// Number of catalog subjects not yet unlocked.
    pub open spec fn locked_count(self) -> int {
        self.subjects.map@.dom().difference(self.subject_states@.dom()).len() as int
    }

    /// Termination measure of one step: unlocking and reviewing both
    /// shrink it.
    pub open spec fn measure(self) -> int {
        2 * self.locked_count() + due_count(self.review_queue@, self.cur_step)
    }

    /// The measure is bounded by a fixed multiple of the identity
    /// space.
    pub proof fn lemma_measure_bounds(self)
        requires
            self.wf(),
        ensures
            0 <= self.measure() <= 0x30000,
            self.review_queue@.len() <= 0x10000,
    {
        let cat_dom = self.subjects.map@.dom();
        let st_dom = self.subject_states@.dom();
        let diff = cat_dom.difference(st_dom);
        assert(diff.subset_of(cat_dom));
        lemma_len_subset(diff, cat_dom);
        assert(st_dom.subset_of(cat_dom));
        lemma_len_subset(st_dom, cat_dom);
        assert(forall|i: int|
            0 <= i < self.review_queue@.len() ==> st_dom.contains(
                (#[trigger] self.review_queue@[i]).1,
            ));
        lemma_unique_entries_card(self.review_queue@, st_dom);
        lemma_due_count_bounds(self.review_queue@, self.cur_step);
    }

    /// The next due subject, if any entry is due at the current
    /// step: the entry with the earliest step.
    pub fn peek_available_review(&self) -> (r: Option<SubjectID>)
        ensures
            r is Some <==> has_due(self.review_queue@, self.cur_step),
            r matches Some(id) ==> exists|i: int|
                {
                    &&& 0 <= i < self.review_queue@.len()
                    &&& (#[trigger] self.review_queue@[i]).1 == id.0
                    &&& self.review_queue@[i].0 <= self.cur_step
                    &&& forall|j: int|
                        0 <= j < self.review_queue@.len() ==> (#[trigger] self.review_queue@[j]).0
                            >= self.review_queue@[i].0
                },
    {
        let n = self.review_queue.len();
        if n == 0 {
            return None;
        }
        let mut m: usize = 0;
        let mut i: usize = 1;
        while i < n
            invariant
                0 <= m < i <= n,
                n == self.review_queue@.len(),
                forall|j: int|
                    0 <= j < i ==> (#[trigger] self.review_queue@[j]).0
                        >= self.review_queue@[m as int].0,
            decreases n - i,
        {
            if self.review_queue[i].0 < self.review_queue[m].0 {
                m = i;
            }
            i = i + 1;
        }
        if self.review_queue[m].0 <= self.cur_step {
            Some(SubjectID(self.review_queue[m].1))
        } else {
            None
        }
    }

    /// Removes and returns the next due subject, if any entry is due
    /// at the current step. Only the queue changes: the removed
    /// entry is one with the earliest step, and it is due.
    pub fn pop_available_review(&mut self) -> (r: Option<SubjectID>)
        ensures
            final(self).subject_states == old(self).subject_states,
            final(self).cur_step == old(self).cur_step,
            final(self).cur_level == old(self).cur_level,
            final(self).cur_level_subjects == old(self).cur_level_subjects,
            final(self).cur_level_kanji == old(self).cur_level_kanji,
            final(self).subjects == old(self).subjects,
            final(self).review_prob == old(self).review_prob,
            r is None ==> final(self).review_queue == old(self).review_queue && !has_due(
                old(self).review_queue@,
                old(self).cur_step,
            ),
            r matches Some(id) ==> exists|i: int|
                {
                    &&& 0 <= i < old(self).review_queue@.len()
                    &&& (#[trigger] old(self).review_queue@[i]).1 == id.0
                    &&& old(self).review_queue@[i].0 <= old(self).cur_step
                    &&& final(self).review_queue@ == old(self).review_queue@.remove(i)
                    &&& forall|j: int|
                        0 <= j < old(self).review_queue@.len() ==> (
                        #[trigger] old(self).review_queue@[j]).0 >= old(self).review_queue@[i].0
                },
    {
        let n = self.review_queue.len();
        if n == 0 {
            return None;
        }
        let mut m: usize = 0;
        let mut i: usize = 1;
        while i < n
            invariant
                0 <= m < i <= n,
                n == self.review_queue@.len(),
                self == old(self),
                forall|j: int|
                    0 <= j < i ==> (#[trigger] self.review_queue@[j]).0
                        >= self.review_queue@[m as int].0,
            decreases n - i,
        {
            if self.review_queue[i].0 < self.review_queue[m].0 {
                m = i;
            }
            i = i + 1;
        }
        if self.review_queue[m].0 <= self.cur_step {
            let e = self.review_queue.remove(m);
            Some(SubjectID(e.1))
        } else {
            proof {
                assert forall|j: int|
                    0 <= j < self.review_queue@.len() implies (#[trigger] self.review_queue@[j]).0
                    > self.cur_step by {}
            }
            None
        }
    }

    /// Whether `subject_id` may be unlocked now: its level does not
    /// exceed the current one and all its prerequisites are already
    /// unlocked.
    pub open spec fn spec_may_unlock(self, id: u16) -> bool {
        &&& self.subjects.subject(id).level <= self.cur_level
        &&& forall|j: int|
            0 <= j < self.subjects.subject(id).depends_on@.len()
                ==> self.subject_states@.contains_key(
                (#[trigger] self.subjects.subject(id).depends_on@[j]).0,
            )
    }

    /// Eligibility test shared by both unlock sites.
    #[verifier::loop_isolation(false)]
    pub fn may_unlock(&self, subject_id: SubjectID) -> (r: bool)
        requires
            self.subjects.wf(),
            self.subjects.contains(subject_id.0),
        ensures
            r == self.spec_may_unlock(subject_id.0),
    {
        let subject = match self.subjects.get(subject_id.0) {
            Some(s) => s,
            None => {
                proof {
                    assert(false);
                }
                return false;
            },
        };
        if subject.level > self.cur_level {
            return false;
        }
        let n = subject.depends_on.len();
        let mut j: usize = 0;
        while j < n
            invariant
                0 <= j <= n,
                forall|t: int|
                    0 <= t < j ==> self.subject_states@.contains_key(
                        (#[trigger] subject.depends_on@[t]).0,
                    ),
            decreases n - j,
        {
            if !self.subject_states.contains_key(&subject.depends_on[j].0) {
                return false;
            }
            j = j + 1;
        }
        true
    }

    /// Unlocks `subject_id` now: creates its state at the first
    /// in-training stage and queues it for the current step. One
    /// subject leaves the locked pool, so the measure shrinks.
    fn unlock(&mut self, subject_id: SubjectID)
        requires
            old(self).wf(),
            old(self).subjects.contains(subject_id.0),
            !old(self).subject_states@.contains_key(subject_id.0),
        ensures
            final(self).wf(),
            final(self).subject_states@ == old(self).subject_states@.insert(
                subject_id.0,
                SubjectState { stage: Stage::Apprentice1, next_review_time: Some(old(self).cur_step) },
            ),
            final(self).review_queue@ == old(self).review_queue@.push(
                (old(self).cur_step, subject_id.0),
            ),
            final(self).cur_step == old(self).cur_step,
            final(self).cur_level == old(self).cur_level,
            final(self).cur_level_subjects == old(self).cur_level_subjects,
            final(self).cur_level_kanji == old(self).cur_level_kanji,
            final(self).subjects == old(self).subjects,
            final(self).review_prob == old(self).review_prob,
            final(self).measure() == old(self).measure() - 1,
            final(self).subject_states@.dom().len() == old(self).subject_states@.dom().len() + 1,
            due_count(final(self).review_queue@, old(self).cur_step) == due_count(
                old(self).review_queue@,
                old(self).cur_step,
            ) + 1,
    {
        let state = SubjectState::newly_unlocked(self.cur_step);
        let cur = self.cur_step;
        self.subject_states.insert(subject_id.0, state);
        self.review_queue.push((cur, subject_id.0));
        proof {
            let old_diff = old(self).subjects.map@.dom().difference(
                old(self).subject_states@.dom(),
            );
            let new_diff = self.subjects.map@.dom().difference(self.subject_states@.dom());
            assert(old_diff.contains(subject_id.0));
            assert(new_diff =~= old_diff.remove(subject_id.0));
            lemma_due_count_push(
                old(self).review_queue@,
                self.cur_step,
                (old(self).cur_step, subject_id.0),
            );
            assert forall|k: u16|
                #[trigger] self.subject_states@.contains_key(k)
                    && self.subject_states@[k].next_review_time is Some implies exists|i: int|
                0 <= i < self.review_queue@.len() && (#[trigger] self.review_queue@[i]).1 == k by {
                if k == subject_id.0 {
                    assert(self.review_queue@[self.review_queue@.len() - 1].1 == k);
                } else {
                    let w = choose|i: int|
                        0 <= i < old(self).review_queue@.len() && (
                        #[trigger] old(self).review_queue@[i]).1 == k;
                    assert(self.review_queue@[w].1 == k);
                }
            }
        }
    }

    /// Ratio test of the level gate: at least ninety percent,
    /// rounded down, of the current level's gating-kind subjects
    /// have reached a passing stage.
    pub open spec fn spec_passed_current_level(self) -> bool {
        let total = self.cur_level_kanji@.len() as int;
        passed_count(self.subject_states@, self.cur_level_kanji@, total) >= (total * 9) / 10
    }

    /// Whether the current level's mastery threshold is met.
    #[verifier::loop_isolation(false)]
    pub fn passed_current_level(&self) -> (r: bool)
        requires
            self.wf(),
        ensures
            r == self.spec_passed_current_level(),
    {
        let num_kanji = self.cur_level_kanji.len();
        proof {
            lemma_level_ids_membership(*self.subjects, self.cur_level, self.subjects.ids@.len() as int);
            lemma_kanji_ids_membership(*self.subjects, self.cur_level_subjects@, self.cur_level_subjects@.len() as int);
        }
        let mut num_passed: usize = 0;
        let mut i: usize = 0;
        while i < num_kanji
            invariant
                0 <= i <= num_kanji,
                num_kanji == self.cur_level_kanji@.len(),
                num_passed == passed_count(self.subject_states@, self.cur_level_kanji@, i as int),
                num_passed <= i,
            decreases num_kanji - i,
        {
            let id = self.cur_level_kanji[i];
            match self.subject_states.get(&id.0) {
                Some(state) => {
                    if state.stage.is_passing() {
                        num_passed = num_passed + 1;
                    }
                },
                None => {},
            }
            i = i + 1;
        }
        num_passed >= (num_kanji * 9) / 10
    }

    /// Advances to the next level: recomputes the level's subject
    /// lists and unlocks every subject of the new level that is
    /// eligible, scheduling each for the current step.
    #[verifier::loop_isolation(false)]
    fn advance_level(&mut self)
        requires
            old(self).wf(),
            old(self).cur_level < MAX_LEVEL,
            old(self).spec_passed_current_level(),
        ensures
            final(self).wf(),
            final(self).cur_level == old(self).cur_level + 1,
            final(self).cur_step == old(self).cur_step,
            final(self).subjects == old(self).subjects,
            final(self).review_prob == old(self).review_prob,
            forall|k: u16|
                old(self).subject_states@.contains_key(k) ==> final(self).subject_states@.contains_key(k)
                    && final(self).subject_states@[k] == old(self).subject_states@[k],
            forall|k: u16|
                final(self).subject_states@.contains_key(k)
                    && !old(self).subject_states@.contains_key(k) ==> {
                    &&& final(self).subject_states@[k] == freshly_unlocked(old(self).cur_step)
                    &&& final(self).subjects.subject(k).level <= final(self).cur_level
                    &&& forall|j: int|
                        0 <= j < final(self).subjects.subject(k).depends_on@.len() ==> final(self).subject_states@.contains_key(
                            (#[trigger] final(self).subjects.subject(k).depends_on@[j]).0,
                        )
                },
            due_count(final(self).review_queue@, old(self).cur_step) - due_count(
                old(self).review_queue@,
                old(self).cur_step,
            ) == final(self).subject_states@.dom().len() - old(self).subject_states@.dom().len(),
            final(self).measure() <= old(self).measure(),
    {
        let cat = self.subjects;
        let next_level = self.cur_level + 1;
        self.cur_level = next_level;
        let lvl_subjects = subjects_with_level(cat, next_level);
        proof {
            lemma_level_ids_membership(*cat, next_level, cat.ids@.len() as int);
        }
        let lvl_kanji = filter_kanji(cat, &lvl_subjects);
        self.cur_level_subjects = lvl_subjects;
        self.cur_level_kanji = lvl_kanji;

        let n = self.cur_level_subjects.len();
        let mut j: usize = 0;
        while j < n
            invariant
                0 <= j <= n,
                n == self.cur_level_subjects@.len(),
                self.wf(),
                self.cur_level == next_level,
                self.cur_step == old(self).cur_step,
                self.subjects == old(self).subjects,
                self.review_prob == old(self).review_prob,
                self.cur_level_subjects@ == level_ids(*old(self).subjects, next_level),
                forall|k: u16|
                    old(self).subject_states@.contains_key(k)
                        ==> self.subject_states@.contains_key(k)
                            && self.subject_states@[k] == old(self).subject_states@[k],
                forall|k: u16|
                    self.subject_states@.contains_key(k)
                        && !old(self).subject_states@.contains_key(k) ==> {
                        &&& self.subject_states@[k] == freshly_unlocked(old(self).cur_step)
                        &&& self.subjects.subject(k).level <= self.cur_level
                        &&& forall|t: int|
                            0 <= t < self.subjects.subject(k).depends_on@.len()
                                ==> self.subject_states@.contains_key(
                                (#[trigger] self.subjects.subject(k).depends_on@[t]).0,
                            )
                    },
                due_count(self.review_queue@, old(self).cur_step) - due_count(
                    old(self).review_queue@,
                    old(self).cur_step,
                ) == self.subject_states@.dom().len() - old(self).subject_states@.dom().len(),
                self.measure() <= old(self).measure(),
            decreases n - j,
        {
            let id = self.cur_level_subjects[j];
            proof {
                lemma_level_ids_membership(*self.subjects, next_level, self.subjects.ids@.len() as int);
                assert(self.subjects.contains(id.0));
            }
            if !self.subject_states.contains_key(&id.0) {
                if self.may_unlock(id) {
                    self.unlock(id);
                }
            }
            j = j + 1;
        }
    }

    /// Advances simulated time by one step. Every subject due at the
    /// current step is reviewed: its new stage is drawn from the
    /// outcome model, it is rescheduled by its variant's interval or
    /// retired, and a transition into a passing stage unlocks its
    /// eligible dependents at the current step. When a drain pass
    /// leaves the mastery threshold met below the maximum level, the
    /// level advances by one and the new level's eligible subjects
    /// unlock, feeding further drains within the same call. The call
    /// returns the number of reviews processed; afterwards nothing
    /// is scheduled at or before the step that was just simulated,
    /// no unlocked subject has been forgotten, and the level has not
    /// decreased.
    #[verifier::loop_isolation(false)]
    #[verifier::rlimit(100)]
    pub fn step(&mut self) -> (n: u32)
        requires
            old(self).wf(),
            old(self).cur_step <= u32::MAX - 0x1000,
        ensures
            final(self).wf(),
            final(self).cur_step == old(self).cur_step + 1,
            final(self).subjects == old(self).subjects,
            final(self).review_prob == old(self).review_prob,
            old(self).cur_level <= final(self).cur_level <= MAX_LEVEL,
            forall|k: u16|
                old(self).subject_states@.contains_key(k) ==> final(self).subject_states@.contains_key(k),
            forall|i: int|
                0 <= i < final(self).review_queue@.len() ==> (
                #[trigger] final(self).review_queue@[i]).0 > old(self).cur_step,
            n == 0 <==> !has_due(old(self).review_queue@, old(self).cur_step),
            n == 0 ==> final(self).subject_states == old(self).subject_states && final(self).review_queue == old(self).review_queue && final(self).cur_level == old(self).cur_level,
            forall|k: u16|
                #[trigger] old(self).subject_states@.contains_key(k) && due_state(
                    old(self).subject_states@[k],
                    old(self).cur_step,
                ) ==> reviewed_once(
                    *old(self).subjects,
                    *old(self).review_prob,
                    k,
                    old(self).subject_states@[k],
                    final(self).subject_states@[k],
                    old(self).cur_step,
                ),
            forall|k: u16|
                #[trigger] old(self).subject_states@.contains_key(k) && !due_state(
                    old(self).subject_states@[k],
                    old(self).cur_step,
                ) ==> final(self).subject_states@[k] == old(self).subject_states@[k],
            forall|k: u16|
                #[trigger] final(self).subject_states@.contains_key(k) && !old(self).subject_states@.contains_key(k) ==> {
                    &&& reviewed_once(
                        *old(self).subjects,
                        *old(self).review_prob,
                        k,
                        freshly_unlocked(old(self).cur_step),
                        final(self).subject_states@[k],
                        old(self).cur_step,
                    )
                    &&& final(self).subjects.subject(k).level <= final(self).cur_level
                    &&& forall|t: int|
                        0 <= t < final(self).subjects.subject(k).depends_on@.len() ==> final(self).subject_states@.contains_key(
                            (#[trigger] final(self).subjects.subject(k).depends_on@[t]).0,
                        )
                },
            n == due_count(old(self).review_queue@, old(self).cur_step) + final(self).subject_states@.dom().len() - old(self).subject_states@.dom().len(),
    {
        let mut review_count: u32 = 0;
        proof {
            self.lemma_measure_bounds();
        }
        while self.peek_available_review().is_some()
            invariant
                self.wf(),
                self.cur_step == old(self).cur_step,
                self.subjects == old(self).subjects,
                self.review_prob == old(self).review_prob,
                old(self).cur_level <= self.cur_level,
                forall|k: u16|
                    old(self).subject_states@.contains_key(k)
                        ==> self.subject_states@.contains_key(k),
                review_count + self.measure() <= 0x30000,
                0 <= self.measure(),
                review_count == 0 ==> self.subject_states == old(self).subject_states
                    && self.review_queue == old(self).review_queue && self.cur_level == old(self).cur_level,
                forall|k: u16|
                    #[trigger] old(self).subject_states@.contains_key(k) && due_state(
                        old(self).subject_states@[k],
                        old(self).cur_step,
                    ) ==> self.subject_states@[k] == old(self).subject_states@[k] || reviewed_once(
                        *old(self).subjects,
                        *old(self).review_prob,
                        k,
                        old(self).subject_states@[k],
                        self.subject_states@[k],
                        old(self).cur_step,
                    ),
                forall|k: u16|
                    #[trigger] old(self).subject_states@.contains_key(k) && !due_state(
                        old(self).subject_states@[k],
                        old(self).cur_step,
                    ) ==> self.subject_states@[k] == old(self).subject_states@[k],
                forall|k: u16|
                    #[trigger] self.subject_states@.contains_key(k) && !old(self).subject_states@.contains_key(k) ==> {{
                        &&& (self.subject_states@[k] == freshly_unlocked(old(self).cur_step)
                            || reviewed_once(
                            *old(self).subjects,
                            *old(self).review_prob,
                            k,
                            freshly_unlocked(old(self).cur_step),
                            self.subject_states@[k],
                            old(self).cur_step,
                        ))
                        &&& self.subjects.subject(k).level <= self.cur_level
                        &&& forall|t: int|
                            0 <= t < self.subjects.subject(k).depends_on@.len()
                                ==> self.subject_states@.contains_key(
                                (#[trigger] self.subjects.subject(k).depends_on@[t]).0,
                            )
                    }},
                review_count + due_count(self.review_queue@, old(self).cur_step) == due_count(
                    old(self).review_queue@,
                    old(self).cur_step,
                ) + self.subject_states@.dom().len() - old(self).subject_states@.dom().len(),
                review_count > 0 ==> has_due(old(self).review_queue@, old(self).cur_step),
            decreases self.measure(),
        {
            let ghost m0 = self.measure();
            let ghost rc0 = review_count;
            proof {
                if review_count == 0 {
                    assert(self.review_queue == old(self).review_queue);
                }
                assert(has_due(old(self).review_queue@, old(self).cur_step));
            }
            #[verifier::loop_isolation(true)]
            while self.peek_available_review().is_some()
                invariant
                    old(self).wf(),
                    old(self).cur_step <= u32::MAX - 0x1000,
                    self.wf(),
                    self.cur_step == old(self).cur_step,
                    self.subjects == old(self).subjects,
                    self.review_prob == old(self).review_prob,
                    old(self).cur_level <= self.cur_level,
                    forall|k: u16|
                        old(self).subject_states@.contains_key(k)
                            ==> self.subject_states@.contains_key(k),
                    review_count + self.measure() <= 0x30000,
                    0 <= self.measure(),
                    rc0 <= review_count,
                    has_due(old(self).review_queue@, old(self).cur_step),
                    review_count == 0 ==> self.subject_states == old(self).subject_states
                        && self.review_queue == old(self).review_queue && self.cur_level == old(self).cur_level,
                    forall|k: u16|
                        #[trigger] old(self).subject_states@.contains_key(k) && due_state(
                            old(self).subject_states@[k],
                            old(self).cur_step,
                        ) ==> self.subject_states@[k] == old(self).subject_states@[k] || reviewed_once(
                            *old(self).subjects,
                            *old(self).review_prob,
                            k,
                            old(self).subject_states@[k],
                            self.subject_states@[k],
                            old(self).cur_step,
                        ),
                    forall|k: u16|
                        #[trigger] old(self).subject_states@.contains_key(k) && !due_state(
                            old(self).subject_states@[k],
                            old(self).cur_step,
                        ) ==> self.subject_states@[k] == old(self).subject_states@[k],
                    forall|k: u16|
                        #[trigger] self.subject_states@.contains_key(k) && !old(self).subject_states@.contains_key(k) ==> {{
                            &&& (self.subject_states@[k] == freshly_unlocked(old(self).cur_step)
                                || reviewed_once(
                                *old(self).subjects,
                                *old(self).review_prob,
                                k,
                                freshly_unlocked(old(self).cur_step),
                                self.subject_states@[k],
                                old(self).cur_step,
                            ))
                            &&& self.subjects.subject(k).level <= self.cur_level
                            &&& forall|t: int|
                                0 <= t < self.subjects.subject(k).depends_on@.len()
                                    ==> self.subject_states@.contains_key(
                                    (#[trigger] self.subjects.subject(k).depends_on@[t]).0,
                                )
                        }},
                    review_count + due_count(self.review_queue@, old(self).cur_step) == due_count(
                        old(self).review_queue@,
                        old(self).cur_step,
                    ) + self.subject_states@.dom().len() - old(self).subject_states@.dom().len(),
                    self.measure() <= m0,
                    self.measure() < m0 || has_due(self.review_queue@, self.cur_step),
                decreases self.measure(),
            {
                let ghost pre = *self;
                let popped = self.pop_available_review();
                let subject_id = match popped {
                    Some(id) => id,
                    None => {
                        proof {
                            assert(false);
                        }
                        SubjectID(0)
                    },
                };
                let ghost ri = choose|i: int|
                    {
                        &&& 0 <= i < pre.review_queue@.len()
                        &&& (#[trigger] pre.review_queue@[i]).1 == subject_id.0
                        &&& pre.review_queue@[i].0 <= pre.cur_step
                        &&& self.review_queue@ == pre.review_queue@.remove(i)
                        &&& forall|j: int|
                            0 <= j < pre.review_queue@.len() ==> (#[trigger] pre.review_queue@[j]).0
                                >= pre.review_queue@[i].0
                    };
                proof {
                    lemma_due_count_remove(pre.review_queue@, pre.cur_step, ri);
                    pre.review_queue@.remove_ensures(ri);
                    assert(self.measure() == pre.measure() - 1);
                }
                review_count = review_count + 1;
                let cat = self.subjects;
                let subject = match cat.get(subject_id.0) {
                    Some(s) => s,
                    None => vstd::pervasive::unreached(),
                };
                let state = match self.subject_states.get(&subject_id.0) {
                    Some(st) => *st,
                    None => vstd::pervasive::unreached(),
                };
                let old_stage = state.stage;
                proof {
                    assert(1 <= old_stage.idx() <= 8);
                    // The popped subject is still due, so it cannot
                    // have been reviewed earlier in this call: a
                    // review would have rescheduled it past the
                    // current step or retired it.
                    lemma_interval_positive(subject.srs, state.stage);
                    assert(state.next_review_time == Some(pre.review_queue@[ri].0));
                    if old(self).subject_states@.contains_key(subject_id.0) {
                        assert(state == old(self).subject_states@[subject_id.0]);
                        assert(due_state(old(self).subject_states@[subject_id.0], old(self).cur_step));
                    } else {
                        assert(state == freshly_unlocked(old(self).cur_step));
                    }
                }
                let new_stage = match self.review_prob.sample_for(old_stage) {
                    Some(s) => s,
                    None => vstd::pervasive::unreached(),
                };
                let ghost mid = *self;
                match subject.srs.hours_to_next_review(new_stage) {
                    Some(h) => {
                        // Reschedule for the variant's interval.
                        let nt = self.cur_step + h;
                        self.subject_states.insert(
                            subject_id.0,
                            SubjectState { stage: new_stage, next_review_time: Some(nt) },
                        );
                        self.review_queue.push((nt, subject_id.0));
                        proof {
                            assert(mid.subject_states@.dom().contains(subject_id.0));
                            assert(self.subject_states@.dom() =~= mid.subject_states@.dom());
                            lemma_due_count_push(
                                mid.review_queue@,
                                self.cur_step,
                                (nt, subject_id.0),
                            );
                            assert(self.measure() == pre.measure() - 1);
                            assert(reviewed_once(
                                *old(self).subjects,
                                *old(self).review_prob,
                                subject_id.0,
                                state,
                                self.subject_states@[subject_id.0],
                                old(self).cur_step,
                            ));
                            assert forall|k: u16|
                                #[trigger] self.subject_states@.contains_key(k)
                                    && self.subject_states@[k].next_review_time
                                    is Some implies exists|i: int|
                                0 <= i < self.review_queue@.len() && (
                                #[trigger] self.review_queue@[i]).1 == k by {
                                if k == subject_id.0 {
                                    assert(self.review_queue@[self.review_queue@.len() - 1].1
                                        == k);
                                } else {
                                    let w = choose|i: int|
                                        0 <= i < pre.review_queue@.len() && (
                                        #[trigger] pre.review_queue@[i]).1 == k;
                                    if w < ri {
                                        assert(self.review_queue@[w].1 == k);
                                    } else {
                                        assert(pre.review_queue@[w].1 != pre.review_queue@[ri].1);
                                        assert(self.review_queue@[w - 1].1 == k);
                                    }
                                }
                            }
                            assert forall|i: int, j: int|
                                0 <= i < j < self.review_queue@.len() implies (
                            #[trigger] self.review_queue@[i]).1 != (
                            #[trigger] self.review_queue@[j]).1 by {
                                assert(forall|u: int|
                                    0 <= u < mid.review_queue@.len() ==> (
                                    #[trigger] mid.review_queue@[u]).1 != subject_id.0);
                            }
                            assert(self.queue_wf());
                        }
                    },
                    None => {
                        // Terminal: never rescheduled again.
                        self.subject_states.insert(
                            subject_id.0,
                            SubjectState { stage: new_stage, next_review_time: None },
                        );
                        proof {
                            assert(mid.subject_states@.dom().contains(subject_id.0));
                            assert(self.subject_states@.dom() =~= mid.subject_states@.dom());
                            assert(self.measure() == pre.measure() - 1);
                            assert(reviewed_once(
                                *old(self).subjects,
                                *old(self).review_prob,
                                subject_id.0,
                                state,
                                self.subject_states@[subject_id.0],
                                old(self).cur_step,
                            ));
                            assert forall|k: u16|
                                #[trigger] self.subject_states@.contains_key(k)
                                    && self.subject_states@[k].next_review_time
                                    is Some implies exists|i: int|
                                0 <= i < self.review_queue@.len() && (
                                #[trigger] self.review_queue@[i]).1 == k by {
                                let w = choose|i: int|
                                    0 <= i < pre.review_queue@.len() && (
                                    #[trigger] pre.review_queue@[i]).1 == k;
                                if w < ri {
                                    assert(self.review_queue@[w].1 == k);
                                } else {
                                    assert(pre.review_queue@[w].1 != pre.review_queue@[ri].1);
                                    assert(self.review_queue@[w - 1].1 == k);
                                }
                            }
                            assert(self.queue_wf());
                        }
                    },
                }
                // A transition into a passing stage may unlock
                // dependents.
                if !old_stage.is_passing() && new_stage.is_passing() {
                    let ghost m1 = self.measure();
                    let deps_n = subject.depended_on_by.len();
                    let mut j: usize = 0;
                    while j < deps_n
                        invariant
                            0 <= j <= deps_n,
                            deps_n == subject.depended_on_by@.len(),
                            subject == cat.subject(subject_id.0),
                            cat.contains(subject_id.0),
                            self.wf(),
                            self.cur_step == old(self).cur_step,
                            self.subjects == old(self).subjects,
                            self.subjects == cat,
                            self.review_prob == old(self).review_prob,
                            self.cur_level == mid.cur_level,
                            old(self).cur_level <= self.cur_level,
                            forall|k: u16|
                                old(self).subject_states@.contains_key(k)
                                    ==> self.subject_states@.contains_key(k),
                            forall|k: u16|
                                #[trigger] old(self).subject_states@.contains_key(k) && due_state(
                                    old(self).subject_states@[k],
                                    old(self).cur_step,
                                ) ==> self.subject_states@[k] == old(self).subject_states@[k] || reviewed_once(
                                    *old(self).subjects,
                                    *old(self).review_prob,
                                    k,
                                    old(self).subject_states@[k],
                                    self.subject_states@[k],
                                    old(self).cur_step,
                                ),
                            forall|k: u16|
                                #[trigger] old(self).subject_states@.contains_key(k) && !due_state(
                                    old(self).subject_states@[k],
                                    old(self).cur_step,
                                ) ==> self.subject_states@[k] == old(self).subject_states@[k],
                            forall|k: u16|
                                #[trigger] self.subject_states@.contains_key(k) && !old(self).subject_states@.contains_key(k) ==> {{
                                    &&& (self.subject_states@[k] == freshly_unlocked(old(self).cur_step)
                                        || reviewed_once(
                                        *old(self).subjects,
                                        *old(self).review_prob,
                                        k,
                                        freshly_unlocked(old(self).cur_step),
                                        self.subject_states@[k],
                                        old(self).cur_step,
                                    ))
                                    &&& self.subjects.subject(k).level <= self.cur_level
                                    &&& forall|t: int|
                                        0 <= t < self.subjects.subject(k).depends_on@.len()
                                            ==> self.subject_states@.contains_key(
                                            (#[trigger] self.subjects.subject(k).depends_on@[t]).0,
                                        )
                                }},
                            review_count + due_count(self.review_queue@, old(self).cur_step) == due_count(
                                old(self).review_queue@,
                                old(self).cur_step,
                            ) + self.subject_states@.dom().len() - old(self).subject_states@.dom().len(),
                            self.measure() <= m1,
                        decreases deps_n - j,
                    {
                        let d = subject.depended_on_by[j];
                        proof {
                            assert(cat.contains(d.0));
                        }
                        if !self.subject_states.contains_key(&d.0) {
                            if self.may_unlock(d) {
                                self.unlock(d);
                            }
                        }
                        j = j + 1;
                    }
                }
                proof {
                    self.lemma_measure_bounds();
                }
            }
            proof {
                // The pass began with a due entry, so at least one
                // review was processed.
                if review_count == 0 {
                    assert(self.review_queue == old(self).review_queue);
                    assert(!has_due(self.review_queue@, self.cur_step));
                    assert(false);
                }
            }
            // Drain done for this pass: the level gate may open.
            if self.cur_level < MAX_LEVEL && self.passed_current_level() {
                self.advance_level();
            }
            proof {
                self.lemma_measure_bounds();
            }
        }
        proof {
            // Nothing is due any more, so every subject that was due,
            // and every subject unlocked along the way, has been
            // reviewed, and the count adds up.
            lemma_has_due_count(self.review_queue@, self.cur_step);
            lemma_due_count_bounds(self.review_queue@, self.cur_step);
            assert(due_count(self.review_queue@, old(self).cur_step) == 0);
            assert forall|k: u16|
                old(self).subject_states@.contains_key(k) && due_state(
                    old(self).subject_states@[k],
                    old(self).cur_step,
                ) implies reviewed_once(
                *old(self).subjects,
                *old(self).review_prob,
                k,
                old(self).subject_states@[k],
                self.subject_states@[k],
                old(self).cur_step,
            ) by {
                if self.subject_states@[k] == old(self).subject_states@[k] {
                    assert(self.subject_states@.contains_key(k));
                    assert(self.subject_states@[k].next_review_time is Some);
                    let w = choose|i: int|
                        0 <= i < self.review_queue@.len() && (#[trigger] self.review_queue@[i]).1
                            == k;
                    assert(self.review_queue@[w].0 <= self.cur_step);
                    assert(has_due(self.review_queue@, self.cur_step));
                    assert(false);
                }
            }
            assert forall|k: u16|
                self.subject_states@.contains_key(k) && !old(self).subject_states@.contains_key(
                    k,
                ) implies reviewed_once(
                *old(self).subjects,
                *old(self).review_prob,
                k,
                freshly_unlocked(old(self).cur_step),
                self.subject_states@[k],
                old(self).cur_step,
            ) by {
                if self.subject_states@[k] == freshly_unlocked(old(self).cur_step) {
                    let w = choose|i: int|
                        0 <= i < self.review_queue@.len() && (#[trigger] self.review_queue@[i]).1
                            == k;
                    assert(self.review_queue@[w].0 <= self.cur_step);
                    assert(has_due(self.review_queue@, self.cur_step));
                    assert(false);
                }
            }
        }
        self.cur_step = self.cur_step + 1;
        review_count
    }
}

/// Earliest availability time among the first `k` assignments, or
/// `None` if none of them carries one.
pub open spec fn min_time_upto(a: Seq<Assignment>, k: int) -> Option<i64>
    decreases k,
{
    if k <= 0 {
        None
    } else {
        let m = min_time_upto(a, k - 1);
        match a[k - 1].next_review_time {
            None => m,
            Some(t) => match m {
                None => Some(t),
                Some(mt) => Some(
                    if t < mt {
                        t
                    } else {
                        mt
                    },
                ),
            },
        }
    }
}

/// Earliest availability time across all assignments: the
/// simulation's time origin.
pub open spec fn min_time(a: Seq<Assignment>) -> Option<i64> {
    min_time_upto(a, a.len() as int)
}

pub proof fn lemma_min_time_props(a: Seq<Assignment>, k: int)
    requires
        0 <= k <= a.len(),
    ensures
        min_time_upto(a, k) is None <==> forall|i: int|
            0 <= i < k ==> (#[trigger] a[i]).next_review_time is None,
        min_time_upto(a, k) matches Some(m) ==> (forall|i: int|
            0 <= i < k ==> ((#[trigger] a[i]).next_review_time matches Some(t) ==> t >= m)) && (
        exists|i: int| 0 <= i < k && (#[trigger] a[i]).next_review_time == Some(m)),
    decreases k,
{
    if k > 0 {
        lemma_min_time_props(a, k - 1);
    }
}

/// The simulation state an assignment is converted to at
/// initialization, with time origin `base`: a never-started subject
/// is treated as if its lesson were done at once, every other keeps
/// its stage and is scheduled at its availability's step offset.
pub open spec fn initial_state(a: Assignment, base: i64) -> SubjectState {
    match a.next_review_time {
        None => SubjectState { stage: Stage::Apprentice1, next_review_time: Some(0u32) },
        Some(t) => SubjectState { stage: a.stage, next_review_time: Some((t - base) as u32) },
    }
}

/// The conditions under which engine initialization succeeds: a
/// non-empty assignment snapshot with a time origin, every subject
/// known to the catalog and assigned once, stages and availability
/// times consistent (a time exists exactly for started subjects, and
/// never for retired ones), every offset within the step counter's
/// range, and an outcome model that covers every stage the
/// simulation can sample from.
pub open spec fn assignments_ok(
    cat: Catalog,
    model: ReviewResultProbability,
    a: Seq<Assignment>,
) -> bool {
    &&& a.len() > 0
    &&& min_time(a) is Some
    &&& forall|i: int| 0 <= i < a.len() ==> cat.contains((#[trigger] a[i]).subject_id.0)
    &&& forall|i: int, j: int|
        0 <= i < j < a.len() ==> (#[trigger] a[i]).subject_id.0 != (#[trigger] a[j]).subject_id.0
    &&& forall|i: int|
        0 <= i < a.len() ==> ((#[trigger] a[i]).next_review_time is Some <==> a[i].stage.idx()
            != 0)
    &&& forall|i: int|
        0 <= i < a.len() ==> ((#[trigger] a[i]).next_review_time is Some ==> a[i].stage.idx()
            != 9)
    &&& forall|i: int|
        0 <= i < a.len() ==> ((#[trigger] a[i]).next_review_time matches Some(t) ==> t
            - min_time(a).unwrap() <= u32::MAX)
    &&& model.spec_covers_active()
}

impl<'a> Simulator<'a> {
    /// Initializes the engine from the outcome model, the catalog
    /// and the current assignment snapshot. On success the engine
    /// starts at step zero with one state-table entry and one queue
    /// entry per assignment, converted by `initial_state` relative
    /// to the earliest availability time, and the current level is
    /// the highest level among the unlocked subjects.
    #[verifier::loop_isolation(false)]
    #[verifier::rlimit(60)]
    pub fn new(
        review_prob: &'a ReviewResultProbability,
        subjects: &'a Catalog,
        assignments: &Vec<Assignment>,
    ) -> (r: Result<Simulator<'a>, SimError>)
        requires
            review_prob.wf(),
            subjects.wf(),
            forall|i: int|
                0 <= i < assignments@.len() ==> ((
                #[trigger] assignments@[i]).next_review_time matches Some(t)
                    ==> -0x2000_0000_0000_0000 <= t <= 0x2000_0000_0000_0000),
        ensures
            r is Ok <==> assignments_ok(*subjects, *review_prob, assignments@),
            r matches Ok(sim) ==> {
                let base = min_time(assignments@).unwrap();
                &&& sim.wf()
                &&& sim.cur_step == 0
                &&& sim.review_prob == review_prob
                &&& sim.subjects == subjects
                &&& forall|i: int|
                    0 <= i < assignments@.len() ==> sim.subject_states@.contains_key(
                        (#[trigger] assignments@[i]).subject_id.0,
                    ) && sim.subject_states@[assignments@[i].subject_id.0] == initial_state(
                        assignments@[i],
                        base,
                    )
                &&& forall|k: u16|
                    #[trigger] sim.subject_states@.contains_key(k) ==> exists|i: int|
                        0 <= i < assignments@.len() && (#[trigger] assignments@[i]).subject_id.0
                            == k
                &&& forall|k: u16|
                    #[trigger] sim.subject_states@.contains_key(k) ==> subjects.subject(k).level
                        <= sim.cur_level
                &&& exists|k: u16|
                    #[trigger] sim.subject_states@.contains_key(k) && subjects.subject(k).level
                        == sim.cur_level
            },
    {
        let n = assignments.len();
        if n == 0 {
            return Err(SimError::NoUnlockedSubjects);
        }

        // Establish the time origin: the earliest availability time.
        let mut base_opt: Option<i64> = None;
        let mut i: usize = 0;
        while i < n
            invariant
                0 <= i <= n,
                base_opt == min_time_upto(assignments@, i as int),
            decreases n - i,
        {
            match assignments[i].next_review_time {
                Some(t) => {
                    base_opt = match base_opt {
                        None => Some(t),
                        Some(b) => if t < b {
                            Some(t)
                        } else {
                            Some(b)
                        },
                    };
                },
                None => {},
            }
            i = i + 1;
        }
        let base = match base_opt {
            Some(b) => b,
            None => {
                return Err(SimError::NoAvailableReviews);
            },
        };

        if !review_prob.covers_active() {
            return Err(SimError::UncoveredStage);
        }

        // Convert each assignment into simulation state and queue it.
        proof {
            lemma_min_time_props(assignments@, n as int);
        }
        let mut subject_states: HashMap<u16, SubjectState> = HashMap::new();
        let mut review_queue: Vec<(u32, u16)> = Vec::new();
        let mut j: usize = 0;
        while j < n
            invariant
                0 <= j <= n,
                Some(base) == min_time(assignments@),
                forall|k: u16|
                    #[trigger] subject_states@.contains_key(k) <==> exists|t: int|
                        0 <= t < j && (#[trigger] assignments@[t]).subject_id.0 == k,
                forall|t: int|
                    0 <= t < j ==> {
                        &&& subject_states@.contains_key((#[trigger] assignments@[t]).subject_id.0)
                        &&& subject_states@[assignments@[t].subject_id.0] == initial_state(
                            assignments@[t],
                            base,
                        )
                        &&& subjects.contains(assignments@[t].subject_id.0)
                        &&& (assignments@[t].next_review_time is Some <==> assignments@[t].stage.idx() != 0)
                        &&& (assignments@[t].next_review_time is Some ==> assignments@[t].stage.idx() != 9)
                        &&& (assignments@[t].next_review_time matches Some(t2) ==> t2 - base <= u32::MAX)
                    },
                forall|t: int, u: int|
                    0 <= t < u < j ==> (#[trigger] assignments@[t]).subject_id.0 != (
                    #[trigger] assignments@[u]).subject_id.0,
                review_queue@.len() == j,
                forall|t: int|
                    0 <= t < j ==> (#[trigger] review_queue@[t]) == (
                        initial_state(assignments@[t], base).next_review_time.unwrap(),
                        assignments@[t].subject_id.0,
                    ),
            decreases n - j,
        {
            let a = assignments[j];
            let id = a.subject_id;
            match subjects.get(id.0) {
                Some(_) => {},
                None => {
                    return Err(SimError::UnknownSubject);
                },
            }
            if subject_states.contains_key(&id.0) {
                proof {
                    let w = choose|t: int|
                        0 <= t < j && (#[trigger] assignments@[t]).subject_id.0 == id.0;
                    assert(assignments@[w].subject_id.0 == assignments@[j as int].subject_id.0);
                }
                return Err(SimError::DuplicateAssignment);
            }
            match a.next_review_time {
                None => {
                    if a.stage.index() != 0 {
                        return Err(SimError::InconsistentAssignment);
                    }
                    subject_states.insert(
                        id.0,
                        SubjectState { stage: Stage::Apprentice1, next_review_time: Some(0) },
                    );
                    review_queue.push((0, id.0));
                },
                Some(t) => {
                    let sidx = a.stage.index();
                    if sidx == 0 || sidx == 9 {
                        return Err(SimError::InconsistentAssignment);
                    }
                    proof {
                        assert(t >= base);
                    }
                    let diff = t - base;
                    if diff > u32::MAX as i64 {
                        return Err(SimError::TimeSpanTooLarge);
                    }
                    let steps = diff as u32;
                    subject_states.insert(
                        id.0,
                        SubjectState { stage: a.stage, next_review_time: Some(steps) },
                    );
                    review_queue.push((steps, id.0));
                },
            }
            j = j + 1;
        }

        // The current level is the highest level among the unlocked
        // subjects.
        let mut cur_level: u8 = 0;
        let mut v: usize = 0;
        while v < n
            invariant
                0 <= v <= n,
                forall|t: int|
                    0 <= t < v ==> subjects.subject(
                        (#[trigger] assignments@[t]).subject_id.0,
                    ).level <= cur_level,
                v > 0 ==> exists|t: int|
                    0 <= t < v && subjects.subject(
                        (#[trigger] assignments@[t]).subject_id.0,
                    ).level == cur_level,
                v == 0 ==> cur_level == 0,
                cur_level <= MAX_LEVEL,
            decreases n - v,
        {
            let id = assignments[v].subject_id;
            let subject = match subjects.get(id.0) {
                Some(s) => s,
                None => vstd::pervasive::unreached(),
            };
            if subject.level > cur_level {
                cur_level = subject.level;
            } else {
                proof {
                    let w = choose|t: int|
                        0 <= t < v && subjects.subject(
                            (#[trigger] assignments@[t]).subject_id.0,
                        ).level == cur_level;
                    assert(subjects.subject(assignments@[w].subject_id.0).level == cur_level);
                }
            }
            v = v + 1;
        }

        let cur_level_subjects = subjects_with_level(subjects, cur_level);
        proof {
            lemma_level_ids_membership(*subjects, cur_level, subjects.ids@.len() as int);
        }
        let cur_level_kanji = filter_kanji(subjects, &cur_level_subjects);

        let sim = Simulator {
            review_prob,
            subjects,
            cur_step: 0,
            subject_states,
            review_queue,
            cur_level,
            cur_level_subjects,
            cur_level_kanji,
        };
        proof {
            assert forall|k: u16|
                #[trigger] sim.subject_states@.contains_key(k)
                    && sim.subject_states@[k].next_review_time is Some implies exists|x: int|
                0 <= x < sim.review_queue@.len() && (#[trigger] sim.review_queue@[x]).1 == k by {
                let w = choose|t: int|
                    0 <= t < n && (#[trigger] assignments@[t]).subject_id.0 == k;
                assert(sim.review_queue@[w].1 == k);
            }
            assert forall|x: int, y: int| 0 <= x < y < sim.review_queue@.len() implies (
            #[trigger] sim.review_queue@[x]).1 != (#[trigger] sim.review_queue@[y]).1 by {
                assert(sim.review_queue@[x].1 == assignments@[x].subject_id.0);
                assert(sim.review_queue@[y].1 == assignments@[y].subject_id.0);
            }
            assert(sim.wf());
        }
        Ok(sim)
    }
}

/// A subject never sits in the pending-review queue unless it is in
/// the unlocked-state table with a matching scheduled step.
pub proof fn lemma_queued_subjects_are_unlocked<'a>(s: Simulator<'a>)
    requires
        s.wf(),
    ensures
        forall|i: int|
            0 <= i < s.review_queue@.len() ==> {
                let e = #[trigger] s.review_queue@[i];
                &&& s.subject_states@.contains_key(e.1)
                &&& s.subject_states@[e.1].next_review_time == Some(e.0)
            },
{
}

/// A subject that reached the terminal stage has no scheduled
/// availability and therefore no entry in the pending-review queue.
pub proof fn lemma_retired_never_scheduled<'a>(s: Simulator<'a>, k: u16)
    requires
        s.wf(),
        s.subject_states@.contains_key(k),
        s.subject_states@[k].stage == Stage::Burned,
    ensures
        s.subject_states@[k].next_review_time is None,
        forall|i: int| 0 <= i < s.review_queue@.len() ==> (#[trigger] s.review_queue@[i]).1 != k,
{
    assert(s.subject_states@[k].stage.idx() == 9);
    assert forall|i: int|
        0 <= i < s.review_queue@.len() implies (#[trigger] s.review_queue@[i]).1 != k by {
        if s.review_queue@[i].1 == k {
            assert(s.subject_states@[k].next_review_time == Some(s.review_queue@[i].0));
        }
    }
}

} // verus!
