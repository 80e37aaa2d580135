//! Pool snapshots: the feed's periodic per-bucket candidate counts.

use crate::date::{date_of_text, Date};
use crate::score_pool::{sum_of, ScorePool};
use crate::strutil::{
    i32_to_string, int_text_value, is_valid_int_text, parse_i32, spec_decimal, valid_int_text,
};
use crate::{BUCKETS, COUNT_LIMIT, DATE_MAG, SCALE};
use vstd::prelude::*;
use vstd::string::StringExecFns;

verus! {

/// A full replacement of the pool state as of one date: raw candidate
/// counts per score bucket, lowest bucket first.
#[derive(Debug)]
pub struct PoolSnapshot {
    pub date: Date,
    pub counts: Vec<i64>,
}

/// The texts of a feed row that make a snapshot are in range: the
/// date and every per-bucket count.
pub open spec fn snapshot_texts_ok(date: Seq<char>, counts: Seq<Seq<char>>) -> bool {
    &&& match date_of_text(date) {
        Some(d) => 0 <= d <= DATE_MAG,
        None => false,
    }
    &&& forall|j: int|
        0 <= j < counts.len() ==> valid_int_text(#[trigger] counts[j]) && 0 <= int_text_value(
            counts[j],
        ) <= COUNT_LIMIT
}

impl PoolSnapshot {
    /// Raw counts as mathematical integers.
    pub open spec fn counts_view(&self) -> Seq<int> {
        self.counts@.map_values(|x: i64| x as int)
    }

    /// The ranges the engine's arithmetic relies on.
    pub open spec fn wf(&self) -> bool {
        &&& self.date.wf()
        &&& self.counts@.len() == BUCKETS
        &&& forall|j: int| 0 <= j < BUCKETS ==> 0 <= #[trigger] self.counts@[j] <= COUNT_LIMIT
    }

    /// Builds a snapshot from the feed row's text fields, the counts
    /// given lowest bucket first; `None` when the date or any count is
    /// missing, malformed or out of range.
    pub fn parse(date_text: &str, count_texts: &Vec<String>) -> (r: Option<PoolSnapshot>)
        requires
            count_texts@.len() == BUCKETS,
        ensures
            r is Some <==> snapshot_texts_ok(date_text@, count_texts@.map_values(|s: String| s@)),
            r is Some ==> {
                let v = r->0;
                &&& v.wf()
                &&& v.date.days as int == date_of_text(date_text@)->0
                &&& v.counts@.len() == BUCKETS
                &&& forall|j: int|
                    0 <= j < BUCKETS ==> #[trigger] v.counts@[j] == int_text_value(
                        count_texts@[j]@,
                    )
            },
    {
        let date = match Date::parse(date_text) {
            Some(d) => d,
            None => {
                return None;
            },
        };
        let ghost texts = count_texts@.map_values(|s: String| s@);
        let mut counts: Vec<i64> = Vec::new();
        let mut j: usize = 0;
        while j < BUCKETS
            invariant
                j <= BUCKETS,
                count_texts@.len() == BUCKETS,
                texts == count_texts@.map_values(|s: String| s@),
                counts@.len() == j,
                forall|k: int|
                    0 <= k < j ==> valid_int_text(#[trigger] texts[k]) && 0 <= int_text_value(
                        texts[k],
                    ) <= COUNT_LIMIT,
                forall|k: int| 0 <= k < j ==> #[trigger] counts@[k] == int_text_value(texts[k]),
            decreases BUCKETS - j,
        {
            let t: &String = &count_texts[j];
            proof {
                assert(texts[j as int] == count_texts@[j as int]@);
            }
            if !is_valid_int_text(t.as_str()) {
                return None;
            }
            let c = parse_i32(t.as_str());
            if c < 0 || c as i64 > COUNT_LIMIT {
                return None;
            }
            counts.push(c as i64);
            j += 1;
        }
        Some(PoolSnapshot { date, counts })
    }

    /// The snapshot holds at least one candidate; empty rows are
    /// placeholder entries of the feed and are dropped.
    pub fn is_valid(&self) -> (r: bool)
        requires
            self.wf(),
        ensures
            r == (sum_of(self.counts_view()) != 0),
    {
        self.total() != 0
    }

    /// Total candidate count over all buckets.
    pub fn total(&self) -> (r: i64)
        requires
            self.wf(),
        ensures
            r == sum_of(self.counts_view()),
    {
        let mut acc: i64 = 0;
        let mut k: usize = 0;
        while k < BUCKETS
            invariant
                k <= BUCKETS,
                self.wf(),
                acc == sum_of(self.counts_view().take(k as int)),
                0 <= acc <= (k as int) * (COUNT_LIMIT as int),
            decreases BUCKETS - k,
        {
            proof {
                assert(self.counts@[k as int] == self.counts_view()[k as int]);
                assert(self.counts_view().take(k as int + 1).drop_last() =~= self.counts_view()
                    .take(k as int));
                assert(self.counts_view().take(k as int + 1).last() == self.counts_view()[
                k as int]);
                assert((k as int + 1) * (COUNT_LIMIT as int) == k as int * (COUNT_LIMIT as int)
                    + (COUNT_LIMIT as int)) by (nonlinear_arith);
            }
            acc = acc + self.counts[k];
            k += 1;
        }
        proof {
            assert(self.counts_view().take(BUCKETS as int) =~= self.counts_view());
        }
        acc
    }

    /// One bucket's raw count.
    pub fn count(&self, i: usize) -> (r: i64)
        requires
            self.wf(),
            i < BUCKETS,
        ensures
            r == self.counts@[i as int],
    {
        self.counts[i]
    }

    /// The same counts as a fixed-point pool vector.
    pub fn to_score_pool(&self) -> (r: ScorePool)
        requires
            self.wf(),
        ensures
            r.wf(),
            r@.len() == BUCKETS,
            forall|j: int| 0 <= j < BUCKETS ==> r@[j] == self.counts@[j] * SCALE,
    {
        ScorePool::from_counts(&self.counts)
    }

    /// An identical copy.
    pub fn copy_of(&self) -> (r: PoolSnapshot)
        ensures
            r.date == self.date,
            r.counts@ == self.counts@,
    {
        PoolSnapshot { date: self.date, counts: self.counts.clone() }
    }

    /// The score range of bucket `i` as display text.
    pub fn as_str(i: usize) -> (r: String)
        requires
            i < BUCKETS,
        ensures
            r@ == spec_decimal(
                if crate::score_pool::spec_min_score(i as int) == 0 {
                    0
                } else {
                    crate::score_pool::spec_min_score(i as int) + 1
                },
            ) + " - "@ + spec_decimal(crate::score_pool::spec_max_score(i as int)),
    {
        let lo = ScorePool::min_score(i);
        let lo = if lo == 0 {
            0
        } else {
            lo + 1
        };
        let hi = ScorePool::max_score(i);
        let a = i32_to_string(lo as i32);
        let b = i32_to_string(hi as i32);
        a.concat(" - ").concat(b.as_str())
    }
}

} // verus!
