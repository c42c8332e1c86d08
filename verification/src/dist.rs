use vstd::prelude::*;

use crate::model::{Review, Stage};
use rand::Rng;

verus! {

/// Failure of outcome-model construction.
#[derive(Clone, Copy, Debug, PartialEq, Eq, Structural)]
pub enum ModelError {
    /// There is no historical review at all, so no distribution can
    /// be built for any stage.
    NoReviewData,
}

/// Relies on rand's `thread_rng` and `Rng::gen_range`: a draw from a
/// non-empty range `0..n` is below `n`. The draw is random, so
/// nothing more is claimed of it.
#[verifier::external_body]
fn random_below(n: u32) -> (r: u32)
    requires
        n > 0,
    ensures
        r < n,
{
    rand::thread_rng().gen_range(0..n)
}

/// Number of historical reviews in `rs` that start at stage index
/// `s` and end at stage index `e`.
pub open spec fn count_of(rs: Seq<Review>, s: int, e: int) -> int
    decreases rs.len(),
{
    if rs.len() == 0 {
        0
    } else {
        count_of(rs.drop_last(), s, e) + if rs.last().start_stage.idx() == s
            && rs.last().end_stage.idx() == e {
            1int
        } else {
            0int
        }
    }
}

/// Sum of `count_of(rs, s, e)` over all end stages `e < k`.
pub open spec fn sum_counts(rs: Seq<Review>, s: int, k: int) -> int
    decreases k,
{
    if k <= 0 {
        0
    } else {
        sum_counts(rs, s, k - 1) + count_of(rs, s, k - 1)
    }
}

/// Sum of the weights of `probs` from position `i` on.
pub open spec fn sum_from(probs: Seq<(Stage, u32)>, i: int) -> int
    decreases probs.len() - i,
{
    if i < 0 || i >= probs.len() {
        0
    } else {
        probs[i].1 + sum_from(probs, i + 1)
    }
}

/// The weighted support of the empirical distribution for start
/// stage `s`, restricted to end stages below `k`: one `(stage,
/// weight)` pair, in ascending stage order, for every end stage with
/// a non-zero tally.
pub open spec fn row_pairs(rs: Seq<Review>, s: int, k: int) -> Seq<(Stage, u32)>
    decreases k,
{
    if k <= 0 {
        Seq::empty()
    } else {
        let p = row_pairs(rs, s, k - 1);
        if count_of(rs, s, k - 1) > 0 {
            p.push((Stage::spec_from_idx(k - 1), count_of(rs, s, k - 1) as u32))
        } else {
            p
        }
    }
}

pub proof fn lemma_count_of_bounds(rs: Seq<Review>, s: int, e: int)
    ensures
        0 <= count_of(rs, s, e) <= rs.len(),
    decreases rs.len(),
{
    if rs.len() > 0 {
        lemma_count_of_bounds(rs.drop_last(), s, e);
    }
}

proof fn lemma_count_of_push(rs: Seq<Review>, r: Review, s: int, e: int)
    ensures
        count_of(rs.push(r), s, e) == count_of(rs, s, e) + if r.start_stage.idx() == s
            && r.end_stage.idx() == e {
            1int
        } else {
            0int
        },
{
    assert(rs.push(r).drop_last() =~= rs);
}

proof fn lemma_sum_counts_push(rs: Seq<Review>, r: Review, s: int, k: int)
    ensures
        sum_counts(rs.push(r), s, k) == sum_counts(rs, s, k) + if r.start_stage.idx() == s && 0
            <= r.end_stage.idx() < k {
            1int
        } else {
            0int
        },
    decreases k,
{
    if k > 0 {
        lemma_sum_counts_push(rs, r, s, k - 1);
        lemma_count_of_push(rs, r, s, k - 1);
    }
}

proof fn lemma_sum_counts_empty(s: int, k: int)
    ensures
        sum_counts(Seq::<Review>::empty(), s, k) == 0,
    decreases k,
{
    if k > 0 {
        lemma_sum_counts_empty(s, k - 1);
    }
}

pub proof fn lemma_sum_counts_le(rs: Seq<Review>, s: int, k: int)
    ensures
        0 <= sum_counts(rs, s, k) <= rs.len(),
    decreases rs.len(),
{
    if rs.len() == 0 {
        assert(rs =~= Seq::<Review>::empty());
        lemma_sum_counts_empty(s, k);
    } else {
        lemma_sum_counts_le(rs.drop_last(), s, k);
        lemma_sum_counts_push(rs.drop_last(), rs.last(), s, k);
        assert(rs.drop_last().push(rs.last()) =~= rs);
    }
}

proof fn lemma_sum_from_push(probs: Seq<(Stage, u32)>, p: (Stage, u32), i: int)
    requires
        0 <= i <= probs.len(),
    ensures
        sum_from(probs.push(p), i) == sum_from(probs, i) + p.1,
    decreases probs.len() - i,
{
    if i < probs.len() {
        lemma_sum_from_push(probs, p, i + 1);
    } else {
        assert(sum_from(probs.push(p), i) == probs.push(p)[i].1 + sum_from(probs.push(p), i + 1));
        assert(sum_from(probs.push(p), i + 1) == 0);
        assert(sum_from(probs, i) == 0);
    }
}

/// The weights collected in `row_pairs` add up to the full tally sum
/// for that start stage.
pub proof fn lemma_row_pairs_sum(rs: Seq<Review>, s: int, k: int)
    requires
        rs.len() <= u32::MAX,
    ensures
        sum_from(row_pairs(rs, s, k), 0) == sum_counts(rs, s, k),
    decreases k,
{
    if k > 0 {
        lemma_row_pairs_sum(rs, s, k - 1);
        lemma_count_of_bounds(rs, s, k - 1);
        if count_of(rs, s, k - 1) > 0 {
            lemma_sum_from_push(
                row_pairs(rs, s, k - 1),
                (Stage::spec_from_idx(k - 1), count_of(rs, s, k - 1) as u32),
                0,
            );
        }
    }
}

/// A discrete distribution over end stages: `stage_probs` holds the
/// weighted support and `total` the sum of all weights, so each
/// stage's probability is its weight divided by `total`.
#[derive(Clone, Debug)]
pub struct StageProbabilityDistribution {
    pub total: u32,
    pub stage_probs: Vec<(Stage, u32)>,
}

/// Clamps a shifted stage position back into the valid range of
/// stage positions.
pub open spec fn clamp_stage_idx(i: int) -> int {
    if i < 0 {
        0
    } else if i > 9 {
        9
    } else {
        i
    }
}

/// `dst` is `src` with every end stage moved up by `off` positions
/// (clamped to the valid range) and all weights and the total kept.
pub open spec fn shifted_row(
    dst: StageProbabilityDistribution,
    src: StageProbabilityDistribution,
    off: int,
) -> bool {
    &&& dst.total == src.total
    &&& dst.stage_probs@.len() == src.stage_probs@.len()
    &&& forall|i: int|
        0 <= i < src.stage_probs@.len() ==> (#[trigger] dst.stage_probs@[i]).1
            == src.stage_probs@[i].1 && dst.stage_probs@[i].0 == Stage::spec_from_idx(
            clamp_stage_idx(src.stage_probs@[i].0.idx() + off),
        )
}

impl StageProbabilityDistribution {
    /// The stored total is the sum of the stored weights.
    pub open spec fn wf(self) -> bool {
        self.total == sum_from(self.stage_probs@, 0)
    }

    /// Builds a distribution from a weighted support; the total is
    /// the sum of the given weights.
    pub fn new(stage_probs: Vec<(Stage, u32)>) -> (r: Self)
        requires
            sum_from(stage_probs@, 0) <= u32::MAX,
        ensures
            r.wf(),
            r.stage_probs == stage_probs,
            r.total == sum_from(stage_probs@, 0),
    {
        let mut total: u32 = 0;
        let mut i: usize = 0;
        while i < stage_probs.len()
            invariant
                0 <= i <= stage_probs@.len(),
                total + sum_from(stage_probs@, i as int) == sum_from(stage_probs@, 0),
                sum_from(stage_probs@, 0) <= u32::MAX,
            decreases stage_probs@.len() - i,
        {
            proof {
                lemma_sum_from_nonneg(stage_probs@, i + 1);
            }
            total = total + stage_probs[i].1;
            i = i + 1;
        }
        Self { total, stage_probs }
    }

    /// A distribution is empty iff its total weight is zero.
    pub fn is_empty(&self) -> (r: bool)
        ensures
            r <==> self.total == 0,
    {
        self.total == 0
    }

    /// The stage whose weighted bucket contains the draw `x`: the
    /// unique position whose prefix sum of weights reaches past `x`.
    pub fn stage_at_weight(&self, x: u32) -> (r: Stage)
        requires
            self.wf(),
            x < self.total,
        ensures
            exists|i: int|
                {
                    &&& 0 <= i < self.stage_probs@.len()
                    &&& r == (#[trigger] self.stage_probs@[i]).0
                    &&& sum_from(self.stage_probs@, 0) - sum_from(self.stage_probs@, i) <= x
                    &&& x < sum_from(self.stage_probs@, 0) - sum_from(self.stage_probs@, i + 1)
                },
    {
        let mut rem = x;
        let mut i: usize = 0;
        while i < self.stage_probs.len()
            invariant
                self.wf(),
                x < self.total,
                0 <= i <= self.stage_probs@.len(),
                rem < sum_from(self.stage_probs@, i as int),
                x - rem == sum_from(self.stage_probs@, 0) - sum_from(self.stage_probs@, i as int),
            decreases self.stage_probs@.len() - i,
        {
            let (stage, w) = self.stage_probs[i];
            if rem < w {
                return stage;
            }
            rem = rem - w;
            i = i + 1;
        }
        proof {
            assert(false);
        }
        Stage::Initiate
    }

    /// Draws an end stage at random, each member of the support with
    /// probability weight over total. The draw is random, so the
    /// contract pins only the support: the result is a stage that
    /// carries a non-zero weight, and a result comes back iff the
    /// distribution is non-empty.
    pub fn sample(&self) -> (r: Option<Stage>)
        requires
            self.wf(),
        ensures
            r is Some <==> self.total > 0,
            r matches Some(s) ==> 0 <= s.idx() <= 9,
            r matches Some(s) ==> exists|i: int|
                0 <= i < self.stage_probs@.len() && (#[trigger] self.stage_probs@[i]).0 == s
                    && self.stage_probs@[i].1 > 0,
    {
        if self.total == 0 {
            return None;
        }
        let x = random_below(self.total);
        let stage = self.stage_at_weight(x);
        proof {
            let i = choose|i: int|
                {
                    &&& 0 <= i < self.stage_probs@.len()
                    &&& stage == (#[trigger] self.stage_probs@[i]).0
                    &&& sum_from(self.stage_probs@, 0) - sum_from(self.stage_probs@, i) <= x
                    &&& x < sum_from(self.stage_probs@, 0) - sum_from(self.stage_probs@, i + 1)
                };
            assert(sum_from(self.stage_probs@, i) == self.stage_probs@[i].1 + sum_from(
                self.stage_probs@,
                i + 1,
            ));
            assert(self.stage_probs@[i].1 > 0);
        }
        Some(stage)
    }

    /// Create a new distribution based on this one, but with every
    /// end stage shifted up by `x` positions, clamped to the valid
    /// range; the weights and the total are unchanged.
    pub fn shift(&self, x: isize) -> (r: Self)
        requires
            self.wf(),
        ensures
            r.wf(),
            shifted_row(r, *self, x as int),
    {
        let mut probs: Vec<(Stage, u32)> = Vec::new();
        let mut i: usize = 0;
        while i < self.stage_probs.len()
            invariant
                0 <= i <= self.stage_probs@.len(),
                probs@.len() == i,
                sum_from(probs@, 0) == sum_from(self.stage_probs@, 0) - sum_from(
                    self.stage_probs@,
                    i as int,
                ),
                forall|j: int|
                    0 <= j < i ==> (#[trigger] probs@[j]).1 == self.stage_probs@[j].1
                        && probs@[j].0 == Stage::spec_from_idx(
                        clamp_stage_idx(self.stage_probs@[j].0.idx() + x),
                    ),
            decreases self.stage_probs@.len() - i,
        {
            let (stage, w) = self.stage_probs[i];
            let old_idx = stage.index();
            let new_idx: u8 = if x >= 9 {
                9
            } else if x <= -9 {
                0
            } else {
                let moved: i32 = old_idx as i32 + x as i32;
                if moved < 0 {
                    0
                } else if moved > 9 {
                    9
                } else {
                    moved as u8
                }
            };
            let new_stage = Stage::from_index_total(new_idx);
            proof {
                lemma_sum_from_push(probs@, (new_stage, w), 0);
            }
            probs.push((new_stage, w));
            i = i + 1;
        }
        Self { total: self.total, stage_probs: probs }
    }
}

pub proof fn lemma_sum_from_nonneg(probs: Seq<(Stage, u32)>, i: int)
    ensures
        sum_from(probs, i) >= 0,
    decreases probs.len() - i,
{
    if 0 <= i && i < probs.len() {
        lemma_sum_from_nonneg(probs, i + 1);
    }
}

/// Total historical weight observed for start stage `s`.
pub open spec fn row_total(rs: Seq<Review>, s: int) -> int {
    sum_counts(rs, s, 10)
}

/// Highest start stage below `k` whose tally row is non-empty, or
/// `-1` if every row below `k` is empty.
pub open spec fn last_observed_below(rs: Seq<Review>, k: int) -> int
    decreases k,
{
    if k <= 0 {
        -1
    } else if row_total(rs, k - 1) > 0 {
        k - 1
    } else {
        last_observed_below(rs, k - 1)
    }
}

/// Highest start stage with any historical data.
pub open spec fn last_observed(rs: Seq<Review>) -> int {
    last_observed_below(rs, 10)
}

pub proof fn lemma_last_observed_below_bounds(rs: Seq<Review>, k: int)
    requires
        0 <= k,
    ensures
        -1 <= last_observed_below(rs, k) < k,
        forall|s: int| last_observed_below(rs, k) < s < k ==> row_total(rs, s) <= 0,
        last_observed_below(rs, k) >= 0 ==> row_total(rs, last_observed_below(rs, k)) > 0,
    decreases k,
{
    if k > 0 {
        lemma_last_observed_below_bounds(rs, k - 1);
    }
}

proof fn lemma_sum_counts_mono(rs: Seq<Review>, s: int, k1: int, k2: int)
    requires
        k1 <= k2,
    ensures
        sum_counts(rs, s, k1) <= sum_counts(rs, s, k2),
    decreases k2 - k1,
{
    if k1 < k2 {
        lemma_sum_counts_mono(rs, s, k1, k2 - 1);
        lemma_count_of_bounds(rs, s, k2 - 1);
    }
}

/// A non-empty review history gives its last record's start stage a
/// non-empty row.
pub proof fn lemma_nonempty_reviews_have_a_row(rs: Seq<Review>)
    requires
        rs.len() > 0,
    ensures
        row_total(rs, rs.last().start_stage.idx()) > 0,
{
    let s = rs.last().start_stage.idx();
    let e = rs.last().end_stage.idx();
    lemma_count_of_bounds(rs.drop_last(), s, e);
    assert(count_of(rs, s, e) > 0);
    lemma_sum_counts_le(rs, s, e);
    assert(sum_counts(rs, s, e + 1) == sum_counts(rs, s, e) + count_of(rs, s, e));
    lemma_sum_counts_mono(rs, s, e + 1, 10);
}

/// The per-start-stage outcome model: one distribution over end
/// stages for each of the ten start stages, tallied from history and
/// extrapolated for unobserved high stages.
#[derive(Clone, Debug)]
pub struct ReviewResultProbability {
    pub by_prev_stage: Vec<StageProbabilityDistribution>,
}

impl ReviewResultProbability {
    /// Ten rows, each a well-formed distribution.
    pub open spec fn wf(self) -> bool {
        &&& self.by_prev_stage@.len() == 10
        &&& forall|s: int| 0 <= s < 10 ==> (#[trigger] self.by_prev_stage@[s]).wf()
    }

    /// The model that `new` builds from the review history `rs`:
    /// every start stage up to the last observed one, and the
    /// terminal stage, carry their empirical tally rows; the start
    /// stages strictly between the last observed one and the
    /// terminal stage carry the last observed row with its end
    /// stages shifted up by the stage offset.
    pub open spec fn models(self, rs: Seq<Review>) -> bool {
        let l = last_observed(rs);
        &&& self.wf()
        &&& forall|s: int|
            0 <= s < 10 && (s <= l || s == 9) ==> (#[trigger] self.by_prev_stage@[s]).stage_probs@
                == row_pairs(rs, s, 10)
        &&& forall|s: int|
            l < s < 9 ==> shifted_row(#[trigger] self.by_prev_stage@[s], self.by_prev_stage@[l], s - l)
    }

    /// Builds the outcome model from the full review history.
    /// Fails exactly when the history is empty; otherwise the result
    /// is the tallied and extrapolated model described by `models`.
    pub fn new(reviews: &Vec<Review>) -> (r: Result<Self, ModelError>)
        requires
            reviews@.len() <= u32::MAX,
        ensures
            r is Err <==> reviews@.len() == 0,
            r matches Ok(m) ==> m.models(reviews@),
    {
        let mut rows: Vec<StageProbabilityDistribution> = Vec::new();
        let mut s: usize = 0;
        while s < 10
            invariant
                0 <= s <= 10,
                rows@.len() == s,
                reviews@.len() <= u32::MAX,
                forall|t: int|
                    0 <= t < s ==> (#[trigger] rows@[t]).stage_probs@ == row_pairs(
                        reviews@,
                        t,
                        10,
                    ) && rows@[t].wf() && rows@[t].total == row_total(reviews@, t),
            decreases 10 - s,
        {
            let row = Self::build_row(reviews, s as u8);
            rows.push(row);
            s = s + 1;
        }

        // Find the highest start stage with observed data.
        let mut last_non_empty: usize = 10;
        let mut t: usize = 10;
        while t > 0
            invariant
                0 <= t <= 10,
                reviews@.len() <= u32::MAX,
                rows@.len() == 10,
                forall|u: int|
                    0 <= u < 10 ==> (#[trigger] rows@[u]).stage_probs@ == row_pairs(reviews@, u, 10)
                        && rows@[u].wf() && rows@[u].total == row_total(reviews@, u),
                last_non_empty <= 10,
                last_non_empty == 10 ==> last_observed_below(reviews@, 10) == last_observed_below(
                    reviews@,
                    t as int,
                ),
                last_non_empty < 10 ==> last_non_empty == last_observed(reviews@),
                last_non_empty < 10 ==> t <= last_non_empty,
            decreases t,
        {
            if last_non_empty == 10 && rows[t - 1].total > 0 {
                last_non_empty = t - 1;
            }
            t = t - 1;
        }

        if last_non_empty == 10 {
            // No stage has any data: the history is empty.
            proof {
                lemma_last_observed_below_bounds(reviews@, 0);
                if reviews@.len() > 0 {
                    lemma_nonempty_reviews_have_a_row(reviews@);
                    lemma_last_observed_below_bounds(reviews@, 10);
                }
            }
            return Err(ModelError::NoReviewData);
        }
        proof {
            if reviews@.len() == 0 {
                lemma_last_observed_below_bounds(reviews@, 10);
                lemma_sum_counts_empty(last_non_empty as int, 10);
                assert(reviews@ =~= Seq::<Review>::empty());
            }
        }

        // Fill in the unobserved stages between the last observed one
        // and the terminal stage with shifted copies of the last
        // observed row.
        let mut s2: usize = last_non_empty + 1;
        while s2 < 9
            invariant
                last_non_empty < s2 <= 10,
                s2 <= 9 || s2 == last_non_empty + 1,
                last_non_empty <= 9,
                last_non_empty == last_observed(reviews@),
                rows@.len() == 10,
                forall|u: int| 0 <= u < 10 ==> (#[trigger] rows@[u]).wf(),
                forall|u: int|
                    0 <= u < 10 && (u <= last_non_empty || u >= s2) ==> (#[trigger] rows@[u]).stage_probs@
                        == row_pairs(reviews@, u, 10),
                forall|u: int|
                    last_non_empty < u < s2 ==> shifted_row(
                        #[trigger] rows@[u],
                        rows@[last_non_empty as int],
                        u - last_non_empty,
                    ),
            decreases 9 - s2,
        {
            let shifted = rows[last_non_empty].shift((s2 - last_non_empty) as isize);
            rows.set(s2, shifted);
            s2 = s2 + 1;
        }

        Ok(Self { by_prev_stage: rows })
    }

    /// Tallies the empirical distribution for start stage `s`.
    fn build_row(reviews: &Vec<Review>, s: u8) -> (r: StageProbabilityDistribution)
        requires
            s < 10,
            reviews@.len() <= u32::MAX,
        ensures
            r.wf(),
            r.stage_probs@ == row_pairs(reviews@, s as int, 10),
            r.total == row_total(reviews@, s as int),
    {
        let mut pairs: Vec<(Stage, u32)> = Vec::new();
        let mut e: usize = 0;
        while e < 10
            invariant
                0 <= e <= 10,
                s < 10,
                reviews@.len() <= u32::MAX,
                pairs@ == row_pairs(reviews@, s as int, e as int),
            decreases 10 - e,
        {
            let c = Self::count_matching(reviews, s, e as u8);
            if c > 0 {
                pairs.push((Stage::from_index_total(e as u8), c));
            }
            e = e + 1;
        }
        proof {
            lemma_row_pairs_sum(reviews@, s as int, 10);
            lemma_sum_counts_le(reviews@, s as int, 10);
        }
        StageProbabilityDistribution::new(pairs)
    }

    /// Counts the reviews that start at stage `s` and end at stage
    /// `e`.
    fn count_matching(reviews: &Vec<Review>, s: u8, e: u8) -> (c: u32)
        requires
            reviews@.len() <= u32::MAX,
        ensures
            c == count_of(reviews@, s as int, e as int),
    {
        let mut c: u32 = 0;
        let mut i: usize = 0;
        while i < reviews.len()
            invariant
                0 <= i <= reviews@.len(),
                reviews@.len() <= u32::MAX,
                c == count_of(reviews@.take(i as int), s as int, e as int),
            decreases reviews@.len() - i,
        {
            proof {
                lemma_count_of_bounds(reviews@.take(i as int), s as int, e as int);
                assert(reviews@.take(i + 1).drop_last() =~= reviews@.take(i as int));
                assert(reviews@.take(i + 1).last() == reviews@[i as int]);
            }
            let r = &reviews[i];
            if r.start_stage.index() == s && r.end_stage.index() == e {
                c = c + 1;
            }
            i = i + 1;
        }
        proof {
            assert(reviews@.take(reviews@.len() as int) =~= reviews@);
        }
        c
    }

    /// Draws an end stage for a review that starts at `prev_stage`,
    /// from that stage's distribution; `None` comes back exactly
    /// when that distribution is empty.
    pub fn sample_for(&self, prev_stage: Stage) -> (r: Option<Stage>)
        requires
            self.wf(),
        ensures
            r is Some <==> self.by_prev_stage@[prev_stage.idx()].total > 0,
            r matches Some(s) ==> 0 <= s.idx() <= 9,
            r matches Some(s) ==> exists|i: int|
                0 <= i < self.by_prev_stage@[prev_stage.idx()].stage_probs@.len()
                    && (#[trigger] self.by_prev_stage@[prev_stage.idx()].stage_probs@[i]).0 == s
                    && self.by_prev_stage@[prev_stage.idx()].stage_probs@[i].1 > 0,
    {
        let i = prev_stage.index();
        self.by_prev_stage[i as usize].sample()
    }

    /// Whether every stage that the simulation can ever sample from
    /// (the ones strictly between initial and terminal) has a
    /// non-empty distribution.
    pub open spec fn spec_covers_active(self) -> bool {
        forall|s: int| 1 <= s <= 8 ==> (#[trigger] self.by_prev_stage@[s]).total > 0
    }

    /// Checks that every stage between initial and terminal has a
    /// non-empty distribution.
    pub fn covers_active(&self) -> (r: bool)
        requires
            self.wf(),
        ensures
            r == self.spec_covers_active(),
    {
        let mut s: usize = 1;
        let mut ok = true;
        while s <= 8
            invariant
                1 <= s <= 9,
                self.wf(),
                ok == forall|t: int| 1 <= t < s ==> (#[trigger] self.by_prev_stage@[t]).total > 0,
            decreases 9 - s,
        {
            if self.by_prev_stage[s].total == 0 {
                ok = false;
            }
            s = s + 1;
        }
        ok
    }
}

} // verus!
