//! Configuration and the streaming statistics aggregator.

use vstd::prelude::*;

use crate::div_trunc;

verus! {

/// Project configuration.
#[derive(Clone, Debug, PartialEq, Eq, Structural)]
pub struct Config {
    pub max_history_size: usize,
    pub precision: u32,
    pub debug_mode: bool,
}

impl Default for Config {
    /// The default configuration: a history bound of 1000 entries, two
    /// digits of precision, and debugging off.
    fn default() -> (r: Self)
        ensures
            r.max_history_size == 1000,
            r.precision == 2,
            !r.debug_mode,
    {
        Self { max_history_size: 1000, precision: 2, debug_mode: false }
    }
}

/// Labelled count entries have pairwise distinct labels.
pub open spec fn keys_distinct(s: Seq<(String, u64)>) -> bool {
    forall|i: int, j: int| 0 <= i < j < s.len() ==> s[i].0@ != s[j].0@
}

/// The mapping from label to count that a sequence of entries holds.
pub open spec fn counts_map(s: Seq<(String, u64)>) -> Map<Seq<char>, u64>
    decreases s.len(),
{
    if s.len() == 0 {
        Map::empty()
    } else {
        counts_map(s.drop_last()).insert(s.last().0@, s.last().1)
    }
}

/// The count stored for a label, zero when the label is unknown.
pub open spec fn count_of(m: Map<Seq<char>, u64>, k: Seq<char>) -> u64 {
    if m.contains_key(k) {
        m[k]
    } else {
        0
    }
}

/// An entry's label maps to exactly that entry's count.
proof fn lemma_counts_map_index(s: Seq<(String, u64)>, i: int)
    requires
        keys_distinct(s),
        0 <= i < s.len(),
    ensures
        counts_map(s).contains_key(s[i].0@),
        counts_map(s)[s[i].0@] == s[i].1,
    decreases s.len(),
{
    if i == s.len() - 1 {
    } else {
        assert(keys_distinct(s.drop_last()));
        lemma_counts_map_index(s.drop_last(), i);
        assert(s.drop_last()[i] == s[i]);
        assert(s[i].0@ != s.last().0@);
    }
}

/// A label no entry carries is not in the mapping.
proof fn lemma_counts_map_absent(s: Seq<(String, u64)>, k: Seq<char>)
    requires
        forall|i: int| 0 <= i < s.len() ==> s[i].0@ != k,
    ensures
        !counts_map(s).contains_key(k),
    decreases s.len(),
{
    if s.len() > 0 {
        assert(forall|i: int| 0 <= i < s.drop_last().len() ==> s.drop_last()[i].0@ != k);
        lemma_counts_map_absent(s.drop_last(), k);
        assert(s.last().0@ != k);
    }
}

/// Replacing an entry by one with the same label updates just that label's
/// count, and keeps the labels distinct.
proof fn lemma_counts_map_update(s: Seq<(String, u64)>, i: int, p: (String, u64))
    requires
        keys_distinct(s),
        0 <= i < s.len(),
        p.0@ == s[i].0@,
    ensures
        counts_map(s.update(i, p)) =~= counts_map(s).insert(p.0@, p.1),
        keys_distinct(s.update(i, p)),
    decreases s.len(),
{
    let su = s.update(i, p);
    assert(keys_distinct(su));
    if i == s.len() - 1 {
        assert(su.drop_last() =~= s.drop_last());
        assert(su.last() == p);
    } else {
        assert(su.drop_last() =~= s.drop_last().update(i, p));
        assert(keys_distinct(s.drop_last()));
        assert(s.drop_last()[i] == s[i]);
        lemma_counts_map_update(s.drop_last(), i, p);
        assert(su.last() == s.last());
        assert(p.0@ != s.last().0@);
    }
}

/// The position of the entry carrying the given label, if any entry does.
fn find_label(counts: &Vec<(String, u64)>, key: &String) -> (r: Option<usize>)
    ensures
        match r {
            Some(i) => i < counts@.len() && counts@[i as int].0@ == key@,
            None => forall|j: int| 0 <= j < counts@.len() ==> counts@[j].0@ != key@,
        },
{
    let n = counts.len();
    let mut idx: usize = 0;
    while idx < n
        invariant
            n == counts@.len(),
            0 <= idx <= n,
            forall|j: int| 0 <= j < idx ==> counts@[j].0@ != key@,
        decreases n - idx,
    {
        let matches_here = counts[idx].0 == *key;
        if matches_here {
            return Some(idx);
        }
        idx += 1;
    }
    None
}

/// A streaming aggregator of operation results: it keeps a per-label count
/// and running sum, mean, minimum and maximum of everything folded in, never
/// the observations themselves.
#[derive(Clone, Debug)]
pub struct Statistics {
    pub total_operations: u64,
    counts: Vec<(String, u64)>,
    sum_result: i128,
    pub average_result: i64,
    pub min_result: i64,
    pub max_result: i64,
}

/// The mathematical content of the aggregator.
pub ghost struct StatisticsView {
    pub total_operations: nat,
    pub counts: Map<Seq<char>, u64>,
    pub sum: int,
    pub average: int,
    pub min: int,
    pub max: int,
}

impl View for Statistics {
    type V = StatisticsView;

    closed spec fn view(&self) -> StatisticsView {
        StatisticsView {
            total_operations: self.total_operations as nat,
            counts: counts_map(self.counts@),
            sum: self.sum_result as int,
            average: self.average_result as int,
            min: self.min_result as int,
            max: self.max_result as int,
        }
    }
}

impl Statistics {
    /// The aggregator is well formed: labels are distinct, no label's count
    /// exceeds the total, the sum is bounded by the observation count, the
    /// stored mean is the truncated quotient of sum and count, and an empty
    /// aggregator carries the sentinel extremes.
    pub closed spec fn wf(&self) -> bool {
        &&& keys_distinct(self.counts@)
        &&& forall|i: int|
            0 <= i < self.counts@.len() ==> #[trigger] self.counts@[i].1 <= self.total_operations
        &&& (self.total_operations as int) * (i64::MIN as int) <= self.sum_result as int
            <= (self.total_operations as int) * (i64::MAX as int)
        &&& self.total_operations == 0 ==> {
            &&& self.sum_result == 0
            &&& self.counts@.len() == 0
            &&& self.average_result == 0
            &&& self.min_result == i64::MAX
            &&& self.max_result == i64::MIN
        }
        &&& self.total_operations > 0 ==> self.average_result as int == div_trunc(
            self.sum_result as int,
            self.total_operations as int,
        )
    }

    /// An empty aggregator: nothing folded in yet, the mean reads zero, and
    /// the extremes hold their sentinels.
    pub fn new() -> (r: Self)
        ensures
            r.wf(),
            r@.total_operations == 0,
            r@.counts =~= Map::<Seq<char>, u64>::empty(),
            r@.sum == 0,
            r@.average == 0,
            r@.min == i64::MAX as int,
            r@.max == i64::MIN as int,
    {
        let r = Self {
            total_operations: 0,
            counts: Vec::new(),
            sum_result: 0,
            average_result: 0,
            min_result: i64::MAX,
            max_result: i64::MIN,
        };
        proof {
            assert(r@.counts =~= Map::<Seq<char>, u64>::empty());
        }
        r
    }

    /// Folds one observation in: the total and the label's count grow by
    /// one, the sum absorbs the value, the mean is the truncated quotient of
    /// the new sum by the new total, and the extremes move by direct
    /// comparison.
    pub fn add_operation(&mut self, operation_type: &str, result: i64)
        requires
            old(self).wf(),
            old(self)@.total_operations < u64::MAX,
        ensures
            final(self).wf(),
            final(self)@.total_operations == old(self)@.total_operations + 1,
            final(self)@.counts =~= old(self)@.counts.insert(
                operation_type@,
                (count_of(old(self)@.counts, operation_type@) + 1) as u64,
            ),
            final(self)@.sum == old(self)@.sum + result,
            final(self)@.average == div_trunc(
                old(self)@.sum + result,
                old(self)@.total_operations + 1 as int,
            ),
            final(self)@.min == if old(self)@.total_operations == 0 {
                result as int
            } else if result < old(self)@.min {
                result as int
            } else {
                old(self)@.min
            },
            final(self)@.max == if old(self)@.total_operations == 0 {
                result as int
            } else if result > old(self)@.max {
                result as int
            } else {
                old(self)@.max
            },
    {
        proof {
            assert((old(self).total_operations + 1) * (i64::MIN as int) == (
            old(self).total_operations as int) * (i64::MIN as int) + i64::MIN);
            assert((old(self).total_operations + 1) * (i64::MAX as int) == (
            old(self).total_operations as int) * (i64::MAX as int) + i64::MAX);
        }
        self.total_operations = self.total_operations + 1;
        self.sum_result = self.sum_result + result as i128;

        // Count the label, creating its entry if it is new.
        let ghost old_counts = self.counts@;
        let key = operation_type.to_owned();
        match find_label(&self.counts, &key) {
            Some(idx) => {
                let c = self.counts[idx].1;
                proof {
                    lemma_counts_map_index(old_counts, idx as int);
                }
                let entry = (key, c + 1);
                proof {
                    lemma_counts_map_update(old_counts, idx as int, entry);
                }
                self.counts[idx] = entry;
            },
            None => {
                proof {
                    lemma_counts_map_absent(old_counts, operation_type@);
                }
                self.counts.push((key, 1u64));
                proof {
                    assert(self.counts@.drop_last() =~= old_counts);
                    assert(counts_map(self.counts@) =~= counts_map(old_counts).insert(
                        operation_type@,
                        1u64,
                    ));
                }
            },
        }

        // The extremes move by direct comparison; the first observation
        // seeds all three aggregates.
        if self.total_operations == 1 {
            self.average_result = result;
            self.min_result = result;
            self.max_result = result;
            proof {
                lemma_div_trunc_by_one(result as int);
            }
        } else {
            self.average_result = trunc_mean(self.sum_result, self.total_operations);
            if result < self.min_result {
                self.min_result = result;
            }
            if result > self.max_result {
                self.max_result = result;
            }
        }
    }

    /// The count recorded for a label; zero for an unknown label.
    pub fn get_operation_count(&self, operation_type: &str) -> (r: u64)
        requires
            self.wf(),
        ensures
            r == count_of(self@.counts, operation_type@),
    {
        let key = operation_type.to_owned();
        match find_label(&self.counts, &key) {
            Some(idx) => {
                proof {
                    lemma_counts_map_index(self.counts@, idx as int);
                }
                self.counts[idx].1
            },
            None => {
                proof {
                    lemma_counts_map_absent(self.counts@, operation_type@);
                }
                0
            },
        }
    }

    /// Nothing has been folded in yet.
    pub fn is_empty(&self) -> (r: bool)
        ensures
            r == (self@.total_operations == 0),
    {
        self.total_operations == 0
    }

    /// Resets the aggregator to its exact initial state.
    pub fn clear(&mut self)
        ensures
            final(self).wf(),
            final(self)@.total_operations == 0,
            final(self)@.counts =~= Map::<Seq<char>, u64>::empty(),
            final(self)@.sum == 0,
            final(self)@.average == 0,
            final(self)@.min == i64::MAX as int,
            final(self)@.max == i64::MIN as int,
    {
        *self = Self::new();
    }
}

impl Default for Statistics {
    /// The same empty aggregator that `new` builds.
    fn default() -> (r: Self)
        ensures
            r.wf(),
            r@.total_operations == 0,
            r@.counts =~= Map::<Seq<char>, u64>::empty(),
            r@.sum == 0,
    {
        Self::new()
    }
}

/// The truncated quotient of a bounded running sum by the observation
/// count.
pub(crate) fn trunc_mean(sum: i128, total: u64) -> (r: i64)
    requires
        total >= 1,
        (total as int) * (i64::MIN as int) <= sum as int <= (total as int) * (i64::MAX as int),
    ensures
        r as int == div_trunc(sum as int, total as int),
{
    proof {
        lemma_trunc_mean_bounds(sum as int, total as int);
    }
    let q = match sum.checked_div(total as i128) {
        Some(q) => q,
        None => {
            // Unreachable: the divisor is at least one and the sum is far
            // from the overflowing edge.
            proof {
                assert(false);
            }
            0
        },
    };
    q as i64
}

/// Dividing by one returns the dividend.
proof fn lemma_div_trunc_by_one(x: int)
    ensures
        div_trunc(x, 1) == x,
{
    if x > 0 {
        vstd::arithmetic::div_mod::lemma_div_by_self(1);
        vstd::arithmetic::div_mod::lemma_div_basics(x);
    } else if x < 0 {
        vstd::arithmetic::div_mod::lemma_div_basics(x * -1);
    }
}

/// A truncated mean of 64-bit observations lies within the 64-bit range.
proof fn lemma_trunc_mean_bounds(sum: int, total: int)
    requires
        total >= 1,
        total * (i64::MIN as int) <= sum <= total * (i64::MAX as int),
    ensures
        i64::MIN as int <= div_trunc(sum, total) <= i64::MAX as int,
{
    if sum == 0 {
    } else if sum > 0 {
        vstd::arithmetic::div_mod::lemma_div_pos_is_pos(sum, total);
        vstd::arithmetic::div_mod::lemma_div_is_ordered(sum, total * (i64::MAX as int), total);
        vstd::arithmetic::div_mod::lemma_div_by_multiple(i64::MAX as int, total);
        assert(total * (i64::MAX as int) == (i64::MAX as int) * total) by (nonlinear_arith);
        assert((total * (i64::MAX as int)) / total == i64::MAX as int);
    } else {
        // sum < 0: the quotient is -((-sum) / total), and -sum is at most
        // total * 2^63.
        vstd::arithmetic::div_mod::lemma_div_pos_is_pos(sum * -1, total);
        vstd::arithmetic::div_mod::lemma_div_is_ordered(
            sum * -1,
            total * (-(i64::MIN as int)),
            total,
        );
        vstd::arithmetic::div_mod::lemma_div_by_multiple(-(i64::MIN as int), total);
        assert(total * (-(i64::MIN as int)) == (-(i64::MIN as int)) * total) by (nonlinear_arith);
        assert((total * (-(i64::MIN as int))) / total == -(i64::MIN as int));
    }
}

} // verus!
